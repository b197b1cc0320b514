//! The graph container and its operations.

use crate::error::GraphError;
use crate::model::{GraphModel, NodeModel};
use crate::node::Node;
use vstd::prelude::*;

verus! {

/// A directed graph whose nodes carry a payload of type `T`.
#[derive(Debug, Clone)]
pub struct Graph<T> {
    pub(crate) next_id: usize,
    pub(crate) nodes: Vec<Node<T>>,
}

impl<T> View for Graph<T> {
    type V = GraphModel<T>;

    closed spec fn view(&self) -> GraphModel<T> {
        GraphModel { next_id: self.next_id, nodes: self.nodes@.map_values(|n: Node<T>| n@) }
    }
}

impl<T> Graph<T> {
    /// The invariant that every operation keeps.
    pub open spec fn wf(&self) -> bool {
        self@.wf()
    }

    /// What the view of a graph is made of.
    pub(crate) proof fn lemma_view(&self)
        ensures
            self@.next_id == self.next_id,
            self@.nodes.len() == self.nodes@.len(),
            forall|i: int| 0 <= i < self.nodes@.len() ==> #[trigger] self@.nodes[i] == self.nodes@[i]@,
    {
    }

    /// A graph made of the given parts.
    pub(crate) fn from_parts(next_id: usize, nodes: Vec<Node<T>>) -> (g: Self)
        ensures
            g@.next_id == next_id,
            g@.nodes.len() == nodes@.len(),
            forall|i: int| 0 <= i < nodes@.len() ==> #[trigger] g@.nodes[i] == nodes@[i]@,
    {
        Graph { next_id, nodes }
    }

    /// A graph without nodes.
    pub fn new() -> (g: Self)
        ensures
            g@ == GraphModel::<T>::empty(),
            g.wf(),
    {
        let g = Graph { next_id: 0, nodes: Vec::new() };
        assert(g@.nodes =~= Seq::empty());
        g
    }

    /// The identifier that the next node gets.
    pub fn next_id(&self) -> (id: usize)
        ensures
            id == self@.next_id,
    {
        self.next_id
    }

    /// Adds a node and returns its identifier.
    pub fn add_node(&mut self, data: T) -> (id: usize)
        requires
            old(self).wf(),
            old(self)@.next_id < usize::MAX,
        ensures
            id == old(self)@.next_id,
            final(self)@ == old(self)@.with_node(data),
            final(self).wf(),
    {
        let id = self.next_id;
        self.nodes.push(Node::new(id, data));
        self.next_id = id + 1;
        proof {
            old(self)@.lemma_with_node_wf(data);
        }
        assert(self@.nodes =~= old(self)@.nodes.push(NodeModel::fresh(id, data)));
        id
    }

    /// Whether a node carries the identifier `node_id`.
    pub(crate) fn contains(&self, node_id: usize) -> (b: bool)
        ensures
            b == self@.has_node(node_id),
    {
        let mut i: usize = 0;
        while i < self.nodes.len()
            invariant
                i <= self.nodes.len(),
                forall|j: int| 0 <= j < i ==> self@.ids()[j] != node_id,
            decreases self.nodes.len() - i,
        {
            if self.nodes[i].id() == node_id {
                assert(self@.ids()[i as int] == node_id);
                return true;
            }
            i = i + 1;
        }
        false
    }

    /// Where the node with the identifier `node_id` is stored.
    fn position(&self, node_id: usize) -> (r: Option<usize>)
        ensures
            match r {
                Some(i) => i < self@.nodes.len() && self@.nodes[i as int].id == node_id,
                None => !self@.has_node(node_id),
            },
    {
        let mut i: usize = 0;
        while i < self.nodes.len()
            invariant
                i <= self.nodes.len(),
                forall|j: int| 0 <= j < i ==> self@.ids()[j] != node_id,
            decreases self.nodes.len() - i,
        {
            if self.nodes[i].id() == node_id {
                return Some(i);
            }
            i = i + 1;
        }
        None
    }

    /// Removes the node `node_id` and every edge that leads to it.
    pub fn remove_node(&mut self, node_id: usize) -> (r: Result<(), GraphError>)
        requires
            old(self).wf(),
        ensures
            final(self).wf(),
            match r {
                Ok(_) => {
                    &&& old(self)@.has_node(node_id)
                    &&& final(self)@ == old(self)@.without_node(node_id)
                    &&& !final(self)@.has_node(node_id)
                    &&& forall|i: int|
                        0 <= i < final(self)@.nodes.len() ==> !(
                        #[trigger] final(self)@.nodes[i]).adjacency.contains(node_id)
                },
                Err(e) => {
                    &&& e == GraphError::IdNotExist
                    &&& !old(self)@.has_node(node_id)
                    &&& final(self)@ == old(self)@
                },
            },
    {
        if self.contains(node_id) {
            let n = self.nodes.len();
            let mut i: usize = 0;
            while i < n
                invariant
                    i <= n,
                    n == self.nodes.len(),
                    n == old(self).nodes.len(),
                    self.next_id == old(self).next_id,
                    forall|j: int|
                        0 <= j < i ==> (#[trigger] self.nodes@[j])@ == if old(self).nodes@[j]@.id
                            != node_id {
                            old(self).nodes@[j]@.without_edge_to(node_id)
                        } else {
                            old(self).nodes@[j]@
                        },
                    forall|j: int| i <= j < n ==> #[trigger] self.nodes@[j] == old(self).nodes@[j],
                decreases n - i,
            {
                if self.nodes[i].id() != node_id {
                    self.nodes[i].remove_path(node_id);
                }
                i = i + 1;
            }
            proof {
                old(self)@.lemma_position(node_id);
                old(self)@.lemma_without_node_wf(node_id);
            }
            let ghost p = old(self)@.position(node_id);
            assert(self@.ids()[p] == node_id);
            if let Some(index) = self.position(node_id) {
                assert(old(self)@.nodes[index as int].id == node_id);
                assert(index == p);
                self.nodes.remove(index);
            }
            assert(self@.nodes =~= old(self)@.without_node(node_id).nodes);
            Ok(())
        } else {
            Err(GraphError::IdNotExist)
        }
    }

    /// Adds the edge from `from` to `to`, unless it is there already.
    pub fn add_edge(&mut self, from: usize, to: usize) -> (r: Result<(), GraphError>)
        requires
            old(self).wf(),
        ensures
            final(self).wf(),
            match r {
                Ok(_) => {
                    &&& old(self)@.has_node(from)
                    &&& old(self)@.has_node(to)
                    &&& final(self)@ == old(self)@.with_edge(from, to)
                },
                Err(e) => {
                    &&& e == GraphError::IdNotExist
                    &&& !(old(self)@.has_node(from) && old(self)@.has_node(to))
                    &&& final(self)@ == old(self)@
                },
            },
    {
        if self.contains(from) && self.contains(to) {
            proof {
                old(self)@.lemma_position(from);
                old(self)@.lemma_with_edge_wf(from, to);
            }
            if let Some(index) = self.position(from) {
                self.nodes[index].add_path(to);
            }
            assert(self@.nodes =~= old(self)@.with_edge(from, to).nodes);
            Ok(())
        } else {
            Err(GraphError::IdNotExist)
        }
    }

    /// Removes the edge from `from` to `to`, if there is one.
    pub fn remove_edge(&mut self, from: usize, to: usize) -> (r: Result<(), GraphError>)
        requires
            old(self).wf(),
        ensures
            final(self).wf(),
            match r {
                Ok(_) => {
                    &&& old(self)@.has_node(from)
                    &&& old(self)@.has_node(to)
                    &&& final(self)@ == old(self)@.without_edge(from, to)
                },
                Err(e) => {
                    &&& e == GraphError::IdNotExist
                    &&& !(old(self)@.has_node(from) && old(self)@.has_node(to))
                    &&& final(self)@ == old(self)@
                },
            },
    {
        if self.contains(from) && self.contains(to) {
            proof {
                old(self)@.lemma_position(from);
                old(self)@.lemma_without_edge_wf(from, to);
            }
            if let Some(index) = self.position(from) {
                self.nodes[index].remove_path(to);
            }
            assert(self@.nodes =~= old(self)@.without_edge(from, to).nodes);
            Ok(())
        } else {
            Err(GraphError::IdNotExist)
        }
    }

    /// A copy of the payload of the node stored at position `id`.
    pub fn get_data(&self, id: &usize) -> (r: Result<T, GraphError>) where T: Clone
        ensures
            match r {
                Ok(d) => *id < self@.nodes.len() && cloned(self@.nodes[*id as int].data, d),
                Err(e) => e == GraphError::IndexOutOfRange && *id >= self@.nodes.len(),
            },
    {
        if *id < self.nodes.len() {
            Ok(self.nodes[*id].data())
        } else {
            Err(GraphError::IndexOutOfRange)
        }
    }

    /// A copy of the edge list of the node stored at position `id`.
    pub fn get_adjacent_ids(&self, id: &usize) -> (r: Result<Vec<usize>, GraphError>)
        ensures
            match r {
                Ok(v) => *id < self@.nodes.len() && v@ == self@.nodes[*id as int].adjacency,
                Err(e) => e == GraphError::IndexOutOfRange && *id >= self@.nodes.len(),
            },
    {
        if *id < self.nodes.len() {
            Ok(self.nodes[*id].paths())
        } else {
            Err(GraphError::IndexOutOfRange)
        }
    }
}

} // verus!
