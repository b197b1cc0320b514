//! The mathematical model of a graph: what its contracts speak of.

use vstd::prelude::*;

verus! {

/// A node as a value: its identifier, its payload, and the identifiers that
/// it has an edge to, in the order in which the edges were added.
pub struct NodeModel<T> {
    pub id: usize,
    pub data: T,
    pub adjacency: Seq<usize>,
}

/// A graph as a value: the next identifier to hand out, and the nodes in
/// storage order.
pub struct GraphModel<T> {
    pub next_id: usize,
    pub nodes: Seq<NodeModel<T>>,
}

/// `adj` with `id` added at the end, unless it is there already.
pub open spec fn insert_unique(adj: Seq<usize>, id: usize) -> Seq<usize> {
    if adj.contains(id) {
        adj
    } else {
        adj.push(id)
    }
}

/// `adj` with each of `targets` added in turn, each unless it is there already.
pub open spec fn insert_all(adj: Seq<usize>, targets: Seq<usize>) -> Seq<usize>
    decreases targets.len(),
{
    if targets.len() == 0 {
        adj
    } else {
        insert_unique(insert_all(adj, targets.drop_last()), targets.last())
    }
}

impl<T> NodeModel<T> {
    /// A node that has no edge yet.
    pub open spec fn fresh(id: usize, data: T) -> Self {
        NodeModel { id, data, adjacency: Seq::empty() }
    }

    /// This node with other edges.
    pub open spec fn with_adjacency(self, adjacency: Seq<usize>) -> Self {
        NodeModel { id: self.id, data: self.data, adjacency }
    }

    /// This node with another payload.
    pub open spec fn with_data<U>(self, data: U) -> NodeModel<U> {
        NodeModel { id: self.id, data, adjacency: self.adjacency }
    }

    /// This node with an edge to `to`.
    pub open spec fn with_edge_to(self, to: usize) -> Self {
        self.with_adjacency(insert_unique(self.adjacency, to))
    }

    /// This node without the edge to `to`, if it has one.
    pub open spec fn without_edge_to(self, to: usize) -> Self {
        self.with_adjacency(self.adjacency.remove_value(to))
    }
}

impl<T> GraphModel<T> {
    /// The graph without nodes.
    pub open spec fn empty() -> Self {
        GraphModel { next_id: 0, nodes: Seq::empty() }
    }

    /// The identifiers of the nodes, in storage order.
    pub open spec fn ids(self) -> Seq<usize> {
        self.nodes.map_values(|n: NodeModel<T>| n.id)
    }

    /// The edge lists of the nodes, in storage order.
    pub open spec fn adjacency(self) -> Seq<Seq<usize>> {
        self.nodes.map_values(|n: NodeModel<T>| n.adjacency)
    }

    /// Some node carries the identifier `id`.
    pub open spec fn has_node(self, id: usize) -> bool {
        self.ids().contains(id)
    }

    /// There is an edge from the node `from` to the node `to`.
    pub open spec fn has_edge(self, from: usize, to: usize) -> bool {
        exists|i: int|
            0 <= i < self.nodes.len() && (#[trigger] self.nodes[i]).id == from
                && self.nodes[i].adjacency.contains(to)
    }

    /// Where the node with identifier `id` is stored.
    pub open spec fn position(self, id: usize) -> int
        recommends
            self.has_node(id),
    {
        self.ids().index_of(id)
    }

    /// The invariant of a graph: no identifier is carried twice, every
    /// identifier is below the next one to hand out, no node has an edge
    /// twice, and every edge leads to a node of the graph.
    pub open spec fn wf(self) -> bool {
        &&& self.ids().no_duplicates()
        &&& forall|i: int| 0 <= i < self.nodes.len() ==> (#[trigger] self.nodes[i]).id < self.next_id
        &&& forall|i: int|
            0 <= i < self.nodes.len() ==> (#[trigger] self.nodes[i]).adjacency.no_duplicates()
        &&& forall|i: int, k: int|
            0 <= i < self.nodes.len() && 0 <= k < self.nodes[i].adjacency.len() ==> self.has_node(
                #[trigger] self.nodes[i].adjacency[k],
            )
    }

    /// Every node is stored at the position that its identifier names.
    pub open spec fn aligned(self) -> bool {
        forall|i: int| 0 <= i < self.nodes.len() ==> (#[trigger] self.nodes[i]).id == i
    }

    /// The graph after a node with payload `data` was added.
    pub open spec fn with_node(self, data: T) -> Self
        recommends
            self.next_id < usize::MAX,
    {
        GraphModel {
            next_id: (self.next_id + 1) as usize,
            nodes: self.nodes.push(NodeModel::fresh(self.next_id, data)),
        }
    }

    /// The graph with an edge from `from` to `to`.
    pub open spec fn with_edge(self, from: usize, to: usize) -> Self {
        GraphModel {
            next_id: self.next_id,
            nodes: self.nodes.map_values(
                |n: NodeModel<T>|
                    if n.id == from {
                        n.with_edge_to(to)
                    } else {
                        n
                    },
            ),
        }
    }

    /// The graph without the edge from `from` to `to`.
    pub open spec fn without_edge(self, from: usize, to: usize) -> Self {
        GraphModel {
            next_id: self.next_id,
            nodes: self.nodes.map_values(
                |n: NodeModel<T>|
                    if n.id == from {
                        n.without_edge_to(to)
                    } else {
                        n
                    },
            ),
        }
    }

    /// The graph without the node `id` and without any edge that led to it.
    pub open spec fn without_node(self, id: usize) -> Self
        recommends
            self.has_node(id),
    {
        GraphModel {
            next_id: self.next_id,
            nodes: self.nodes.remove(self.position(id)).map_values(
                |n: NodeModel<T>| n.without_edge_to(id),
            ),
        }
    }

    /// The same nodes and edges, with the payloads replaced in storage order.
    pub open spec fn with_payloads<U>(self, payloads: Seq<U>) -> GraphModel<U>
        recommends
            payloads.len() == self.nodes.len(),
    {
        GraphModel {
            next_id: self.next_id,
            nodes: Seq::new(self.nodes.len(), |i: int| self.nodes[i].with_data(payloads[i])),
        }
    }
}

/// `insert_unique` keeps a list free of duplicates.
pub proof fn lemma_insert_unique_no_duplicates(adj: Seq<usize>, id: usize)
    requires
        adj.no_duplicates(),
    ensures
        insert_unique(adj, id).no_duplicates(),
        insert_unique(adj, id).contains(id),
        forall|x: usize| adj.contains(x) ==> insert_unique(adj, id).contains(x),
        forall|x: usize| insert_unique(adj, id).contains(x) ==> adj.contains(x) || x == id,
{
    let r = insert_unique(adj, id);
    if adj.contains(id) {
    } else {
        assert(r[adj.len() as int] == id);
        assert forall|x: usize| adj.contains(x) implies r.contains(x) by {
            let k = choose|k: int| 0 <= k < adj.len() && adj[k] == x;
            assert(r[k] == x);
        }
        assert forall|x: usize| r.contains(x) implies adj.contains(x) || x == id by {
            let k = choose|k: int| 0 <= k < r.len() && r[k] == x;
            if k < adj.len() {
                assert(adj[k] == x);
            }
        }
    }
}

/// Taking a value out of a list that holds it at most once leaves a list
/// that does not hold it, and takes nothing else out.
pub proof fn lemma_remove_value(adj: Seq<usize>, id: usize)
    requires
        adj.no_duplicates(),
    ensures
        adj.remove_value(id).no_duplicates(),
        !adj.remove_value(id).contains(id),
        forall|x: usize| adj.remove_value(id).contains(x) ==> adj.contains(x),
        forall|x: usize| adj.contains(x) && x != id ==> adj.remove_value(id).contains(x),
        !adj.contains(id) ==> adj.remove_value(id) == adj,
{
    let r = adj.remove_value(id);
    adj.index_of_first_ensures(id);
    match adj.index_of_first(id) {
        Some(k) => {
            adj.remove_ensures(k);
            assert forall|a: int, b: int| 0 <= a < r.len() && 0 <= b < r.len() && a != b implies r[a]
                != r[b] by {
                let a0 = if a < k {
                    a
                } else {
                    a + 1
                };
                let b0 = if b < k {
                    b
                } else {
                    b + 1
                };
                assert(r[a] == adj[a0] && r[b] == adj[b0]);
            }
            assert forall|x: usize| r.contains(x) implies adj.contains(x) && x != id by {
                let a = choose|a: int| 0 <= a < r.len() && r[a] == x;
                let a0 = if a < k {
                    a
                } else {
                    a + 1
                };
                assert(adj[a0] == x);
            }
            assert forall|x: usize| adj.contains(x) && x != id implies r.contains(x) by {
                let a0 = choose|a: int| 0 <= a < adj.len() && adj[a] == x;
                let a = if a0 < k {
                    a0
                } else {
                    a0 - 1
                };
                assert(r[a] == x);
            }
        },
        None => {},
    }
}

impl<T> GraphModel<T> {
    /// Where `position` points there is the node that was asked for, and
    /// in a graph without repeated identifiers nowhere else.
    pub proof fn lemma_position(self, id: usize)
        requires
            self.has_node(id),
        ensures
            0 <= self.position(id) < self.nodes.len(),
            self.nodes[self.position(id)].id == id,
            self.ids().no_duplicates() ==> forall|i: int|
                0 <= i < self.nodes.len() && (#[trigger] self.nodes[i]).id == id ==> i
                    == self.position(id),
    {
        let p = self.position(id);
        assert(self.ids()[p] == id);
        assert forall|i: int|
            self.ids().no_duplicates() && 0 <= i < self.nodes.len() && (
            #[trigger] self.nodes[i]).id == id implies i == p by {
            assert(self.ids()[i] == id);
        }
    }

    /// Adding a node keeps the invariant.
    pub proof fn lemma_with_node_wf(self, data: T)
        requires
            self.wf(),
            self.next_id < usize::MAX,
        ensures
            self.with_node(data).wf(),
            forall|id: usize| self.has_node(id) ==> self.with_node(data).has_node(id),
    {
        let g = self.with_node(data);
        let n = self.nodes.len() as int;
        assert forall|id: usize| self.has_node(id) implies g.has_node(id) by {
            let k = choose|k: int| 0 <= k < self.ids().len() && self.ids()[k] == id;
            assert(g.ids()[k] == id);
        }
        assert forall|a: int, b: int|
            0 <= a < g.ids().len() && 0 <= b < g.ids().len() && a != b implies g.ids()[a]
            != g.ids()[b] by {
            if a < n && b < n {
                assert(self.ids()[a] != self.ids()[b]);
            } else if a < n {
                assert(self.nodes[a].id < self.next_id);
            } else {
                assert(self.nodes[b].id < self.next_id);
            }
        }
        assert forall|i: int| 0 <= i < g.nodes.len() implies (#[trigger] g.nodes[i]).id
            < g.next_id by {
            if i < n {
                assert(self.nodes[i].id < self.next_id);
            }
        }
        assert forall|i: int| 0 <= i < g.nodes.len() implies (
        #[trigger] g.nodes[i]).adjacency.no_duplicates() by {
            if i < n {
                assert(self.nodes[i].adjacency.no_duplicates());
            }
        }
        assert forall|i: int, k: int|
            0 <= i < g.nodes.len() && 0 <= k < g.nodes[i].adjacency.len() implies g.has_node(
            #[trigger] g.nodes[i].adjacency[k],
        ) by {
            assert(i < n);
            assert(self.has_node(self.nodes[i].adjacency[k]));
        }
    }

    /// Adding an edge between two nodes of the graph keeps the invariant
    /// and the identifiers.
    pub proof fn lemma_with_edge_wf(self, from: usize, to: usize)
        requires
            self.wf(),
            self.has_node(to),
        ensures
            self.with_edge(from, to).wf(),
            self.with_edge(from, to).ids() == self.ids(),
    {
        let g = self.with_edge(from, to);
        assert(g.ids() =~= self.ids());
        assert forall|i: int| 0 <= i < g.nodes.len() implies (#[trigger] g.nodes[i]).id
            < g.next_id by {
            assert(self.nodes[i].id < self.next_id);
        }
        assert forall|i: int| 0 <= i < g.nodes.len() implies (
        #[trigger] g.nodes[i]).adjacency.no_duplicates() by {
            assert(self.nodes[i].adjacency.no_duplicates());
            lemma_insert_unique_no_duplicates(self.nodes[i].adjacency, to);
        }
        assert forall|i: int, k: int|
            0 <= i < g.nodes.len() && 0 <= k < g.nodes[i].adjacency.len() implies g.has_node(
            #[trigger] g.nodes[i].adjacency[k],
        ) by {
            let x = g.nodes[i].adjacency[k];
            lemma_insert_unique_no_duplicates(self.nodes[i].adjacency, to);
            assert(self.nodes[i].adjacency.no_duplicates());
            if self.nodes[i].id == from {
                assert(insert_unique(self.nodes[i].adjacency, to)[k] == x);
                assert(insert_unique(self.nodes[i].adjacency, to).contains(x));
                if x != to {
                    let k0 = choose|k0: int|
                        0 <= k0 < self.nodes[i].adjacency.len() && self.nodes[i].adjacency[k0] == x;
                    assert(self.has_node(self.nodes[i].adjacency[k0]));
                }
            } else {
                assert(self.has_node(self.nodes[i].adjacency[k]));
            }
        }
    }

    /// Taking an edge away keeps the invariant and the identifiers.
    pub proof fn lemma_without_edge_wf(self, from: usize, to: usize)
        requires
            self.wf(),
        ensures
            self.without_edge(from, to).wf(),
            self.without_edge(from, to).ids() == self.ids(),
    {
        let g = self.without_edge(from, to);
        assert(g.ids() =~= self.ids());
        assert forall|i: int| 0 <= i < g.nodes.len() implies (#[trigger] g.nodes[i]).id
            < g.next_id by {
            assert(self.nodes[i].id < self.next_id);
        }
        assert forall|i: int| 0 <= i < g.nodes.len() implies (
        #[trigger] g.nodes[i]).adjacency.no_duplicates() by {
            assert(self.nodes[i].adjacency.no_duplicates());
            lemma_remove_value(self.nodes[i].adjacency, to);
        }
        assert forall|i: int, k: int|
            0 <= i < g.nodes.len() && 0 <= k < g.nodes[i].adjacency.len() implies g.has_node(
            #[trigger] g.nodes[i].adjacency[k],
        ) by {
            let x = g.nodes[i].adjacency[k];
            assert(self.nodes[i].adjacency.no_duplicates());
            lemma_remove_value(self.nodes[i].adjacency, to);
            if self.nodes[i].id == from {
                assert(self.nodes[i].adjacency.remove_value(to)[k] == x);
                assert(self.nodes[i].adjacency.remove_value(to).contains(x));
                assert(self.nodes[i].adjacency.contains(x));
                let k0 = choose|k0: int|
                    0 <= k0 < self.nodes[i].adjacency.len() && self.nodes[i].adjacency[k0] == x;
                assert(self.has_node(self.nodes[i].adjacency[k0]));
            } else {
                assert(self.has_node(self.nodes[i].adjacency[k]));
            }
        }
    }

    /// Taking a node away keeps the invariant, takes exactly its identifier
    /// away, and leaves no edge that leads to it.
    pub proof fn lemma_without_node_wf(self, id: usize)
        requires
            self.wf(),
            self.has_node(id),
        ensures
            self.without_node(id).wf(),
            !self.without_node(id).has_node(id),
            forall|x: usize| x != id && self.has_node(x) ==> self.without_node(id).has_node(x),
            forall|x: usize| self.without_node(id).has_node(x) ==> self.has_node(x),
            forall|i: int|
                0 <= i < self.without_node(id).nodes.len() ==> !(
                #[trigger] self.without_node(id).nodes[i]).adjacency.contains(id),
    {
        let g = self.without_node(id);
        let p = self.position(id);
        self.lemma_position(id);
        self.nodes.remove_ensures(p);
        let src = |i: int|
            if i < p {
                i
            } else {
                i + 1
            };
        assert forall|i: int| 0 <= i < g.nodes.len() implies #[trigger] g.nodes[i]
            == self.nodes[src(i)].without_edge_to(id) && g.ids()[i] == self.ids()[src(i)] by {}
        assert forall|a: int, b: int|
            0 <= a < g.ids().len() && 0 <= b < g.ids().len() && a != b implies g.ids()[a]
            != g.ids()[b] by {
            assert(g.nodes[a].id == self.ids()[src(a)]);
            assert(g.nodes[b].id == self.ids()[src(b)]);
        }
        assert forall|x: usize| g.has_node(x) implies self.has_node(x) && x != id by {
            let k = choose|k: int| 0 <= k < g.ids().len() && g.ids()[k] == x;
            assert(g.nodes[k].id == self.ids()[src(k)]);
            assert(self.ids()[p] == id);
        }
        assert forall|x: usize| x != id && self.has_node(x) implies g.has_node(x) by {
            let k0 = choose|k: int| 0 <= k < self.ids().len() && self.ids()[k] == x;
            let k = if k0 < p {
                k0
            } else {
                k0 - 1
            };
            assert(g.nodes[k].id == self.ids()[src(k)]);
            assert(g.ids()[k] == x);
        }
        assert forall|i: int| 0 <= i < g.nodes.len() implies (#[trigger] g.nodes[i]).id
            < g.next_id by {
            assert(self.nodes[src(i)].id < self.next_id);
        }
        assert forall|i: int| 0 <= i < g.nodes.len() implies (
        #[trigger] g.nodes[i]).adjacency.no_duplicates() && !g.nodes[i].adjacency.contains(id) by {
            assert(self.nodes[src(i)].adjacency.no_duplicates());
            lemma_remove_value(self.nodes[src(i)].adjacency, id);
        }
        assert forall|i: int, k: int|
            0 <= i < g.nodes.len() && 0 <= k < g.nodes[i].adjacency.len() implies g.has_node(
            #[trigger] g.nodes[i].adjacency[k],
        ) by {
            let x = g.nodes[i].adjacency[k];
            let adj = self.nodes[src(i)].adjacency;
            assert(adj.no_duplicates());
            lemma_remove_value(adj, id);
            assert(adj.remove_value(id)[k] == x);
            assert(adj.remove_value(id).contains(x));
            assert(adj.contains(x));
            let k0 = choose|k0: int| 0 <= k0 < adj.len() && adj[k0] == x;
            assert(self.has_node(self.nodes[src(i)].adjacency[k0]));
            assert(x != id);
        }
    }
}

} // verus!
