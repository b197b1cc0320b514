//! Depth-first enumeration of the nodes that can be reached from node 0.

use crate::error::GraphError;
use crate::graph::Graph;
use crate::node::contains_id;
use vstd::prelude::*;

verus! {

/// The number of positions below `n` that `visited` does not hold.
pub open spec fn unvisited(n: int, visited: Seq<usize>) -> nat
    decreases n,
{
    if n <= 0 {
        0
    } else if exists|j: int| 0 <= j < visited.len() && visited[j] == n - 1 {
        unvisited(n - 1, visited)
    } else {
        unvisited(n - 1, visited) + 1
    }
}

/// Visiting a position that was not visited before leaves one fewer to visit.
pub proof fn lemma_unvisited_push(n: int, visited: Seq<usize>, id: usize)
    requires
        !visited.contains(id),
    ensures
        id < n ==> unvisited(n, visited) == unvisited(n, visited.push(id)) + 1,
        id >= n ==> unvisited(n, visited) == unvisited(n, visited.push(id)),
    decreases n,
{
    let more = visited.push(id);
    if n > 0 {
        lemma_unvisited_push(n - 1, visited, id);
        if exists|j: int| 0 <= j < visited.len() && visited[j] == n - 1 {
            let j = choose|j: int| 0 <= j < visited.len() && visited[j] == n - 1;
            assert(more[j] == n - 1);
        } else if id == n - 1 {
            assert(more[visited.len() as int] == n - 1);
        } else {
            if exists|j: int| 0 <= j < more.len() && more[j] == n - 1 {
                let j = choose|j: int| 0 <= j < more.len() && more[j] == n - 1;
                assert(visited[j] == n - 1);
            }
        }
    }
}

/// Depth-first search over positions. `stack` holds the positions that are
/// still to be looked at, the next one first; `visited` holds those that were
/// visited, in the order of their discovery. A position that was visited is
/// passed over; a new one is visited, and its edge list is put in front of
/// the stack. The search fails on a position that names no node.
pub open spec fn dfs_from(adj: Seq<Seq<usize>>, stack: Seq<usize>, visited: Seq<usize>) -> Option<
    Seq<usize>,
>
    decreases unvisited(adj.len() as int, visited), stack.len(),
    via dfs_from_decreases
{
    if stack.len() == 0 {
        Some(visited)
    } else if visited.contains(stack.first()) {
        dfs_from(adj, stack.drop_first(), visited)
    } else if stack.first() >= adj.len() {
        None
    } else {
        dfs_from(adj, adj[stack.first() as int] + stack.drop_first(), visited.push(stack.first()))
    }
}

#[via_fn]
proof fn dfs_from_decreases(adj: Seq<Seq<usize>>, stack: Seq<usize>, visited: Seq<usize>) {
    if stack.len() > 0 && !visited.contains(stack.first()) && stack.first() < adj.len() {
        lemma_unvisited_push(adj.len() as int, visited, stack.first());
    }
}

/// The positions that a depth-first search from position 0 visits, in the
/// order of their discovery: a node before the nodes that its edges lead to,
/// and these in the order of the edges.
pub open spec fn reachable_order(adj: Seq<Seq<usize>>) -> Option<Seq<usize>> {
    dfs_from(adj, seq![0usize], Seq::empty())
}

/// What is visited holds no position twice and only positions of nodes.
pub open spec fn visited_ok(n: nat, visited: Seq<usize>) -> bool {
    &&& visited.no_duplicates()
    &&& forall|j: int| 0 <= j < visited.len() ==> #[trigger] visited[j] < n
}

/// A search that starts from a sound state ends in one, and keeps what was
/// visited as the beginning of what it returns.
pub proof fn lemma_dfs_from_ok(adj: Seq<Seq<usize>>, stack: Seq<usize>, visited: Seq<usize>)
    requires
        visited_ok(adj.len(), visited),
    ensures
        dfs_from(adj, stack, visited) matches Some(order) ==> {
            &&& visited_ok(adj.len(), order)
            &&& visited.len() <= order.len()
            &&& order.take(visited.len() as int) == visited
        },
    decreases unvisited(adj.len() as int, visited), stack.len(),
{
    if stack.len() == 0 {
        assert(visited.take(visited.len() as int) == visited);
    } else if visited.contains(stack.first()) {
        lemma_dfs_from_ok(adj, stack.drop_first(), visited);
    } else if stack.first() >= adj.len() {
    } else {
        let id = stack.first();
        let more = visited.push(id);
        lemma_unvisited_push(adj.len() as int, visited, id);
        assert forall|a: int, b: int| 0 <= a < more.len() && 0 <= b < more.len() && a != b implies more[a]
            != more[b] by {
            if a == visited.len() {
                assert(visited[b] != id);
            } else if b == visited.len() {
                assert(visited[a] != id);
            }
        }
        lemma_dfs_from_ok(adj, adj[id as int] + stack.drop_first(), more);
        match dfs_from(adj, stack, visited) {
            Some(order) => {
                assert(order.take(visited.len() as int) == order.take(more.len() as int).take(
                    visited.len() as int,
                ));
                assert(more.take(visited.len() as int) == visited);
            },
            None => {},
        }
    }
}

/// A list of positions below `n` without repetition holds at most `n` of them.
pub proof fn lemma_visited_len(n: nat, visited: Seq<usize>)
    requires
        visited_ok(n, visited),
    ensures
        visited.len() + unvisited(n as int, visited) == n,
    decreases visited.len(),
{
    if visited.len() == 0 {
        lemma_unvisited_none(n as int);
        assert(visited == Seq::<usize>::empty());
    } else {
        let fewer = visited.drop_last();
        assert(visited[visited.len() - 1] < n);
        assert(visited == fewer.push(visited.last()));
        assert(!fewer.contains(visited.last())) by {
            if fewer.contains(visited.last()) {
                let j = choose|j: int| 0 <= j < fewer.len() && fewer[j] == visited.last();
                assert(visited[j] == visited[visited.len() - 1]);
            }
        }
        assert(visited_ok(n, fewer)) by {
            assert forall|j: int| 0 <= j < fewer.len() implies #[trigger] fewer[j] < n by {
                assert(visited[j] < n);
            }
        }
        lemma_visited_len(n, fewer);
        lemma_unvisited_push(n as int, fewer, visited.last());
    }
}

proof fn lemma_unvisited_none(n: int)
    ensures
        unvisited(n, Seq::empty()) == if n <= 0 {
            0
        } else {
            n
        },
    decreases n,
{
    if n > 0 {
        lemma_unvisited_none(n - 1);
    }
}

/// There is an edge from the node at position `a` to position `b`.
pub open spec fn edge(adj: Seq<Seq<usize>>, a: usize, b: usize) -> bool {
    a < adj.len() && adj[a as int].contains(b)
}

/// `p` is a walk along edges: at least one position, and an edge from each
/// to the next.
pub open spec fn is_path(adj: Seq<Seq<usize>>, p: Seq<usize>) -> bool {
    &&& p.len() > 0
    &&& forall|k: int| 0 <= k < p.len() - 1 ==> edge(adj, #[trigger] p[k], p[k + 1])
}

/// Position `to` can be reached from position `from` along edges.
pub open spec fn reachable(adj: Seq<Seq<usize>>, from: usize, to: usize) -> bool {
    exists|p: Seq<usize>| #[trigger] is_path(adj, p) && p.first() == from && p.last() == to
}

/// Every edge from a position in `visited` leads into `visited` or `stack`.
pub open spec fn edges_kept(adj: Seq<Seq<usize>>, stack: Seq<usize>, visited: Seq<usize>) -> bool {
    forall|v: usize, c: usize|
        visited.contains(v) && #[trigger] edge(adj, v, c) ==> visited.contains(c) || stack.contains(
            c,
        )
}

/// A walk that is extended by an edge is a walk.
proof fn lemma_path_push(adj: Seq<Seq<usize>>, p: Seq<usize>, next: usize)
    requires
        is_path(adj, p),
        edge(adj, p.last(), next),
    ensures
        is_path(adj, p.push(next)),
        p.push(next).first() == p.first(),
        p.push(next).last() == next,
{
    let q = p.push(next);
    assert forall|k: int| 0 <= k < q.len() - 1 implies edge(adj, #[trigger] q[k], q[k + 1]) by {
        if k < p.len() - 1 {
            assert(edge(adj, p[k], p[k + 1]));
        }
    }
}

/// A search ends with everything visited that it started with, on the stack
/// or visited, and with every edge from a visited position leading to a
/// visited one.
proof fn lemma_dfs_closed(adj: Seq<Seq<usize>>, stack: Seq<usize>, visited: Seq<usize>)
    requires
        edges_kept(adj, stack, visited),
    ensures
        dfs_from(adj, stack, visited) matches Some(order) ==> {
            &&& edges_kept(adj, Seq::empty(), order)
            &&& forall|x: usize| stack.contains(x) ==> order.contains(x)
            &&& forall|x: usize| visited.contains(x) ==> order.contains(x)
        },
    decreases unvisited(adj.len() as int, visited), stack.len(),
{
    if stack.len() == 0 {
        assert forall|v: usize, c: usize| visited.contains(v) && #[trigger] edge(
            adj,
            v,
            c,
        ) implies visited.contains(c) || Seq::<usize>::empty().contains(c) by {
            assert(visited.contains(c) || stack.contains(c));
        }
    } else {
        let id = stack.first();
        let rest = stack.drop_first();
        assert forall|x: usize| stack.contains(x) implies x == id || rest.contains(x) by {
            let k = choose|k: int| 0 <= k < stack.len() && stack[k] == x;
            if k > 0 {
                assert(rest[k - 1] == x);
            }
        }
        if visited.contains(id) {
            lemma_dfs_closed(adj, rest, visited);
        } else if id >= adj.len() {
        } else {
            let more = visited.push(id);
            let next = adj[id as int] + rest;
            lemma_unvisited_push(adj.len() as int, visited, id);
            assert(more[visited.len() as int] == id);
            assert forall|x: usize| visited.contains(x) implies more.contains(x) by {
                let k = choose|k: int| 0 <= k < visited.len() && visited[k] == x;
                assert(more[k] == x);
            }
            assert forall|x: usize| rest.contains(x) implies next.contains(x) by {
                let k = choose|k: int| 0 <= k < rest.len() && rest[k] == x;
                assert(next[adj[id as int].len() + k] == x);
            }
            assert forall|v: usize, c: usize| more.contains(v) && #[trigger] edge(
                adj,
                v,
                c,
            ) implies more.contains(c) || next.contains(c) by {
                if v == id {
                    let k = choose|k: int| 0 <= k < adj[id as int].len() && adj[id as int][k] == c;
                    assert(next[k] == c);
                } else {
                    let k = choose|k: int| 0 <= k < more.len() && more[k] == v;
                    assert(visited[k] == v);
                    assert(visited.contains(c) || stack.contains(c));
                }
            }
            lemma_dfs_closed(adj, next, more);
        }
    }
}

/// A search that starts with positions that can be reached from `root`
/// visits only such positions.
proof fn lemma_dfs_sound(adj: Seq<Seq<usize>>, stack: Seq<usize>, visited: Seq<usize>, root: usize)
    requires
        forall|x: usize| visited.contains(x) ==> reachable(adj, root, x),
        forall|x: usize| stack.contains(x) ==> reachable(adj, root, x),
    ensures
        dfs_from(adj, stack, visited) matches Some(order) ==> forall|x: usize|
            order.contains(x) ==> reachable(adj, root, x),
    decreases unvisited(adj.len() as int, visited), stack.len(),
{
    if stack.len() == 0 {
    } else {
        let id = stack.first();
        let rest = stack.drop_first();
        assert forall|x: usize| rest.contains(x) implies stack.contains(x) by {
            let k = choose|k: int| 0 <= k < rest.len() && rest[k] == x;
            assert(stack[k + 1] == x);
        }
        assert(stack[0] == id);
        assert(stack.contains(id));
        assert(reachable(adj, root, id));
        if visited.contains(id) {
            lemma_dfs_sound(adj, rest, visited, root);
        } else if id >= adj.len() {
        } else {
            let more = visited.push(id);
            let next = adj[id as int] + rest;
            lemma_unvisited_push(adj.len() as int, visited, id);
            assert forall|x: usize| more.contains(x) implies reachable(adj, root, x) by {
                let k = choose|k: int| 0 <= k < more.len() && more[k] == x;
                if k < visited.len() {
                    assert(visited[k] == x);
                    assert(visited.contains(x));
                }
            }
            assert forall|x: usize| next.contains(x) implies reachable(adj, root, x) by {
                let k = choose|k: int| 0 <= k < next.len() && next[k] == x;
                if k < adj[id as int].len() {
                    assert(adj[id as int][k] == x);
                    let p = choose|p: Seq<usize>| #[trigger]
                        is_path(adj, p) && p.first() == root && p.last() == id;
                    lemma_path_push(adj, p, x);
                    assert(is_path(adj, p.push(x)));
                } else {
                    assert(rest[k - adj[id as int].len()] == x);
                    assert(rest.contains(x));
                }
            }
            lemma_dfs_sound(adj, next, more, root);
        }
    }
}

/// Every position on a walk from a visited position is visited, where every
/// edge from a visited position leads to a visited one.
proof fn lemma_path_in_closed(adj: Seq<Seq<usize>>, order: Seq<usize>, p: Seq<usize>, k: int)
    requires
        edges_kept(adj, Seq::empty(), order),
        is_path(adj, p),
        order.contains(p.first()),
        0 <= k < p.len(),
    ensures
        order.contains(p[k]),
    decreases k,
{
    if k > 0 {
        lemma_path_in_closed(adj, order, p, k - 1);
        assert(edge(adj, p[k - 1], p[k - 1 + 1]));
        if Seq::<usize>::empty().contains(p[k]) {
            let j = choose|j: int| 0 <= j < Seq::<usize>::empty().len() && Seq::<usize>::empty()[j]
                == p[k];
        }
    }
}

/// What a search from position 0 visits is what can be reached from
/// position 0 along edges, no more and no less.
pub proof fn law_reachable_order(adj: Seq<Seq<usize>>)
    ensures
        reachable_order(adj) matches Some(order) ==> forall|x: usize|
            order.contains(x) <==> reachable(adj, 0, x),
{
    let start = seq![0usize];
    let none = Seq::<usize>::empty();
    match reachable_order(adj) {
        Some(order) => {
            assert(is_path(adj, start));
            assert forall|x: usize| start.contains(x) implies reachable(adj, 0, x) by {
                let k = choose|k: int| 0 <= k < start.len() && start[k] == x;
                assert(start.first() == 0 && start.last() == x);
            }
            assert forall|x: usize| none.contains(x) implies reachable(adj, 0, x) by {
                let k = choose|k: int| 0 <= k < none.len() && none[k] == x;
            }
            lemma_dfs_sound(adj, start, none, 0);
            assert(edges_kept(adj, start, none)) by {
                assert forall|v: usize, c: usize| none.contains(v) && #[trigger] edge(
                    adj,
                    v,
                    c,
                ) implies none.contains(c) || start.contains(c) by {
                    let k = choose|k: int| 0 <= k < none.len() && none[k] == v;
                }
            }
            lemma_dfs_closed(adj, start, none);
            assert(start[0] == 0);
            assert(order.contains(0));
            assert forall|x: usize| reachable(adj, 0, x) implies order.contains(x) by {
                let p = choose|p: Seq<usize>| #[trigger]
                    is_path(adj, p) && p.first() == 0 && p.last() == x;
                lemma_path_in_closed(adj, order, p, p.len() - 1);
            }
        },
        None => {},
    }
}

impl<T> Graph<T> {
    /// The positions of the nodes that can be reached from position 0, in
    /// depth-first order of discovery. Fails where position 0, or a position
    /// that an edge on the way names, holds no node.
    pub fn node_ids(&self) -> (r: Result<Vec<usize>, GraphError>)
        ensures
            match r {
                Ok(v) => {
                    &&& reachable_order(self@.adjacency()) == Some(v@)
                    &&& v@.no_duplicates()
                    &&& v.len() <= self@.nodes.len()
                    &&& forall|j: int| 0 <= j < v.len() ==> #[trigger] v[j] < self@.nodes.len()
                    &&& v.len() > 0 && v[0] == 0
                    &&& forall|x: usize|
                        v@.contains(x) <==> reachable(self@.adjacency(), 0, x)
                },
                Err(e) => {
                    &&& e == GraphError::IndexOutOfRange
                    &&& reachable_order(self@.adjacency()) is None
                },
            },
    {
        let mut visited: Vec<usize> = Vec::new();
        let ghost adj = self@.adjacency();
        proof {
            lemma_dfs_from_ok(adj, seq![0usize], Seq::empty());
            assert(seq![0usize].drop_first() == Seq::<usize>::empty());
        }
        match self.dfs(0, &mut visited) {
            Ok(_) => {
                proof {
                    law_reachable_order(adj);
                    lemma_visited_len(adj.len(), visited@);
                    if 0 < adj.len() {
                        lemma_dfs_from_ok(adj, adj[0] + Seq::<usize>::empty(), seq![0usize]);
                        assert(Seq::<usize>::empty().push(0usize) == seq![0usize]);
                        assert(visited@.take(1)[0] == 0);
                    }
                }
                Ok(visited)
            },
            Err(e) => Err(e),
        }
    }

    /// Runs the search from `start` with what `visited` holds already.
    fn dfs(&self, start: usize, visited: &mut Vec<usize>) -> (r: Result<(), GraphError>)
        ensures
            match r {
                Ok(_) => dfs_from(self@.adjacency(), seq![start], old(visited)@) == Some(
                    final(visited)@,
                ),
                Err(e) => {
                    &&& e == GraphError::IndexOutOfRange
                    &&& dfs_from(self@.adjacency(), seq![start], old(visited)@) is None
                },
            },
    {
        let ghost adj = self@.adjacency();
        let ghost goal = dfs_from(adj, seq![start], old(visited)@);
        let mut stack: Vec<usize> = Vec::new();
        stack.push(start);
        let ghost mut pending: Seq<usize> = seq![start];
        while stack.len() > 0
            invariant
                adj == self@.adjacency(),
                goal == dfs_from(adj, seq![start], old(visited)@),
                pending.len() == stack.len(),
                forall|j: int| 0 <= j < pending.len() ==> pending[j] == stack@[stack.len() - 1 - j],
                dfs_from(adj, pending, visited@) == goal,
            decreases unvisited(adj.len() as int, visited@), stack.len(),
        {
            let id = stack.pop().unwrap();
            let ghost rest = pending.drop_first();
            assert(id == pending.first());
            if !contains_id(visited, id) {
                match self.get_adjacent_ids(&id) {
                    Err(_) => {
                        assert(pending.first() >= adj.len());
                        return Err(GraphError::IndexOutOfRange);
                    },
                    Ok(paths) => {
                        proof {
                            lemma_unvisited_push(adj.len() as int, visited@, id);
                        }
                        visited.push(id);
                        assert(paths@ == adj[id as int]);
                        let mut k: usize = paths.len();
                        proof {
                            pending = rest;
                        }
                        while k > 0
                            invariant
                                k <= paths.len(),
                                pending == paths@.skip(k as int) + rest,
                                pending.len() == stack.len(),
                                forall|j: int|
                                    0 <= j < pending.len() ==> pending[j] == stack@[stack.len() - 1
                                        - j],
                            decreases k,
                        {
                            k = k - 1;
                            stack.push(paths[k]);
                            proof {
                                let before = pending;
                                pending = paths@.skip(k as int) + rest;
                                assert(pending == seq![paths@[k as int]] + before);
                            }
                        }
                        assert(paths@.skip(0) == paths@);
                    },
                }
            } else {
                proof {
                    pending = rest;
                }
            }
        }
        assert(pending == Seq::<usize>::empty());
        Ok(())
    }
}

} // verus!
