//! One node of a graph.

use crate::model::NodeModel;
use vstd::prelude::*;

verus! {

/// A node as it is stored: its identifier, its payload, and the identifiers
/// that its edges lead to, in the order in which the edges were added.
#[derive(Debug, Clone)]
pub(crate) struct Node<T> {
    pub(crate) id: usize,
    pub(crate) data: T,
    pub(crate) paths: Vec<usize>,
}

impl<T> View for Node<T> {
    type V = NodeModel<T>;

    closed spec fn view(&self) -> NodeModel<T> {
        NodeModel { id: self.id, data: self.data, adjacency: self.paths@ }
    }
}

/// Whether `id` occurs in `ids`.
pub(crate) fn contains_id(ids: &Vec<usize>, id: usize) -> (b: bool)
    ensures
        b == ids@.contains(id),
{
    let mut i: usize = 0;
    while i < ids.len()
        invariant
            i <= ids.len(),
            forall|j: int| 0 <= j < i ==> ids@[j] != id,
        decreases ids.len() - i,
    {
        if ids[i] == id {
            return true;
        }
        i = i + 1;
    }
    false
}

impl<T> Node<T> {
    /// A node without edges.
    pub(crate) fn new(id: usize, data: T) -> (n: Self)
        ensures
            n@ == NodeModel::fresh(id, data),
    {
        Node { id, data, paths: Vec::new() }
    }

    /// A node with the given edges.
    pub(crate) fn with_paths(id: usize, data: T, paths: Vec<usize>) -> (n: Self)
        ensures
            n@ == (NodeModel { id, data, adjacency: paths@ }),
    {
        Node { id, data, paths }
    }

    /// The payload.
    pub(crate) fn data_ref(&self) -> (d: &T)
        ensures
            *d == self@.data,
    {
        &self.data
    }

    /// The identifier.
    pub(crate) fn id(&self) -> (id: usize)
        ensures
            id == self@.id,
    {
        self.id
    }

    /// A copy of the edge list.
    pub(crate) fn paths(&self) -> (p: Vec<usize>)
        ensures
            p@ == self@.adjacency,
    {
        let mut p: Vec<usize> = Vec::new();
        let mut i: usize = 0;
        while i < self.paths.len()
            invariant
                i <= self.paths.len(),
                p@ == self.paths@.take(i as int),
            decreases self.paths.len() - i,
        {
            p.push(self.paths[i]);
            i = i + 1;
        }
        p
    }

    /// A copy of the payload.
    pub(crate) fn data(&self) -> (d: T) where T: Clone
        ensures
            cloned(self@.data, d),
    {
        self.data.clone()
    }

    /// Adds an edge to `id` at the end, unless there is one already.
    pub(crate) fn add_path(&mut self, id: usize)
        ensures
            final(self)@ == old(self)@.with_edge_to(id),
    {
        if !contains_id(&self.paths, id) {
            self.paths.push(id);
        }
    }

    /// Takes the edge to `path` away, if there is one.
    pub(crate) fn remove_path(&mut self, path: usize)
        ensures
            final(self)@ == old(self)@.without_edge_to(path),
    {
        let mut i: usize = 0;
        while i < self.paths.len()
            invariant
                i <= self.paths.len(),
                *self == *old(self),
                forall|j: int| 0 <= j < i ==> self.paths@[j] != path,
            decreases self.paths.len() - i,
        {
            if self.paths[i] == path {
                proof {
                    self.paths@.index_of_first_ensures(path);
                }
                self.paths.remove(i);
                return ;
            }
            i = i + 1;
        }
        proof {
            self.paths@.index_of_first_ensures(path);
        }
    }
}

} // verus!
