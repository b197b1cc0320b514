//! The text format of a graph: one line per node with its identifier and
//! its payload, a line that holds `#` alone, and one line per node that has
//! edges, with its identifier and the identifiers that its edges lead to.

use crate::graph::Graph;
use crate::model::{GraphModel, NodeModel};
use crate::node::Node;
use crate::text::{decimal, push_decimal, to_text};
use vstd::prelude::*;
use vstd::string::StringExecFns;

verus! {

/// The line of a node: its identifier, a space, and its payload as text.
pub open spec fn node_line(id: usize, payload: Seq<char>) -> Seq<char> {
    decimal(id as nat) + seq![' '] + payload
}

/// The identifiers `targets`, each with a space in front of it.
pub open spec fn targets_text(targets: Seq<usize>) -> Seq<char>
    decreases targets.len(),
{
    if targets.len() == 0 {
        Seq::empty()
    } else {
        targets_text(targets.drop_last()) + seq![' '] + decimal(targets.last() as nat)
    }
}

/// The line of the edges of a node: its identifier, then the identifiers
/// that its edges lead to.
pub open spec fn edge_line(id: usize, targets: Seq<usize>) -> Seq<char> {
    decimal(id as nat) + targets_text(targets)
}

/// The lines of the nodes, in storage order.
pub open spec fn node_lines(nodes: Seq<NodeModel<Seq<char>>>) -> Seq<Seq<char>> {
    nodes.map_values(|n: NodeModel<Seq<char>>| node_line(n.id, n.data))
}

/// The edge line of a node, if it has an edge.
pub open spec fn edge_line_of(n: NodeModel<Seq<char>>) -> Seq<Seq<char>> {
    if n.adjacency.len() > 0 {
        seq![edge_line(n.id, n.adjacency)]
    } else {
        Seq::empty()
    }
}

/// The edge lines of the nodes that have edges, in storage order.
pub open spec fn edge_lines(nodes: Seq<NodeModel<Seq<char>>>) -> Seq<Seq<char>>
    decreases nodes.len(),
{
    if nodes.len() == 0 {
        Seq::empty()
    } else {
        edge_lines(nodes.drop_last()) + edge_line_of(nodes.last())
    }
}

/// The line that parts the nodes from the edges.
pub open spec fn separator() -> Seq<char> {
    seq!['#']
}

/// The lines of the text of a graph whose payloads are text already.
pub open spec fn tgf_lines(doc: GraphModel<Seq<char>>) -> Seq<Seq<char>> {
    node_lines(doc.nodes) + seq![separator()] + edge_lines(doc.nodes)
}

/// The text in which each of `lines` is followed by a line feed.
pub open spec fn join_lines(lines: Seq<Seq<char>>) -> Seq<char>
    decreases lines.len(),
{
    if lines.len() == 0 {
        Seq::empty()
    } else {
        join_lines(lines.drop_last()) + lines.last() + seq!['\n']
    }
}

/// The text of a graph whose payloads are text already.
pub open spec fn tgf_text(doc: GraphModel<Seq<char>>) -> Seq<char> {
    join_lines(tgf_lines(doc))
}

impl GraphModel<String> {
    /// The same graph with each payload taken as the characters it holds.
    pub open spec fn as_text(self) -> GraphModel<Seq<char>> {
        GraphModel {
            next_id: self.next_id,
            nodes: self.nodes.map_values(|n: NodeModel<String>| n.with_data(n.data@)),
        }
    }
}

impl<T> GraphModel<T> {
    /// The invariant speaks of identifiers and edges alone.
    pub proof fn lemma_same_shape_wf<U>(self, other: GraphModel<U>)
        requires
            self.next_id == other.next_id,
            self.ids() == other.ids(),
            self.adjacency() == other.adjacency(),
            other.wf(),
        ensures
            self.wf(),
    {
        assert(self.nodes.len() == self.ids().len());
        assert(other.nodes.len() == other.ids().len());
        assert forall|i: int| 0 <= i < self.nodes.len() implies (#[trigger] self.nodes[i]).id
            == other.nodes[i].id && self.nodes[i].adjacency == other.nodes[i].adjacency by {
            assert(self.ids()[i] == self.nodes[i].id);
            assert(other.ids()[i] == other.nodes[i].id);
            assert(self.adjacency()[i] == self.nodes[i].adjacency);
            assert(other.adjacency()[i] == other.nodes[i].adjacency);
        }
        assert forall|i: int| 0 <= i < self.nodes.len() implies (#[trigger] self.nodes[i]).id
            < self.next_id by {
            assert(other.nodes[i].id < other.next_id);
        }
        assert forall|i: int| 0 <= i < self.nodes.len() implies (
        #[trigger] self.nodes[i]).adjacency.no_duplicates() by {
            assert(other.nodes[i].adjacency.no_duplicates());
        }
        assert forall|i: int, k: int|
            0 <= i < self.nodes.len() && 0 <= k < self.nodes[i].adjacency.len() implies self.has_node(
            #[trigger] self.nodes[i].adjacency[k],
        ) by {
            assert(other.has_node(other.nodes[i].adjacency[k]));
        }
    }
}

impl GraphModel<String> {
    /// A graph meets the invariant if it does so with its payloads taken as text.
    pub proof fn lemma_as_text_wf(self)
        requires
            self.as_text().wf(),
        ensures
            self.wf(),
    {
        assert(self.ids() =~= self.as_text().ids());
        assert(self.adjacency() =~= self.as_text().adjacency());
        self.lemma_same_shape_wf(self.as_text());
    }
}

/// Joining two lists of lines joins their texts.
pub proof fn lemma_join_lines_concat(a: Seq<Seq<char>>, b: Seq<Seq<char>>)
    ensures
        join_lines(a + b) == join_lines(a) + join_lines(b),
    decreases b.len(),
{
    if b.len() == 0 {
        assert(a + b == a);
    } else {
        lemma_join_lines_concat(a, b.drop_last());
        assert((a + b).drop_last() == a + b.drop_last());
    }
}

impl Node<String> {
    /// The line of this node, ended by a line feed.
    pub(crate) fn get_tgf_node(&self) -> (line: String)
        ensures
            line@ == node_line(self@.id, self@.data@) + seq!['\n'],
    {
        let mut head: Vec<char> = Vec::new();
        push_decimal(&mut head, self.id());
        head.push(' ');
        let mut line = to_text(&head);
        line.append(self.data_ref().as_str());
        line.push('\n');
        line
    }
}

impl<T> Node<T> {
    /// The line of the edges of this node, ended by a line feed; nothing
    /// for a node without edges.
    pub(crate) fn get_tgf_paths(&self) -> (line: String)
        ensures
            line@ == if self@.adjacency.len() > 0 {
                edge_line(self@.id, self@.adjacency) + seq!['\n']
            } else {
                Seq::<char>::empty()
            },
    {
        let paths = self.paths();
        if paths.len() > 0 {
            let mut out: Vec<char> = Vec::new();
            push_decimal(&mut out, self.id());
            let mut i: usize = 0;
            assert(paths@.take(0) == Seq::<usize>::empty());
            while i < paths.len()
                invariant
                    i <= paths.len(),
                    out@ == edge_line(self@.id, paths@.take(i as int)),
                decreases paths.len() - i,
            {
                out.push(' ');
                push_decimal(&mut out, paths[i]);
                assert(paths@.take(i + 1).drop_last() == paths@.take(i as int));
                i = i + 1;
            }
            assert(paths@.take(i as int) == paths@);
            out.push('\n');
            to_text(&out)
        } else {
            String::new()
        }
    }
}

impl Graph<String> {
    /// The text of a graph whose payloads are text already.
    pub fn render_tgf(&self) -> (out: String)
        ensures
            out@ == tgf_text(self@.as_text()),
    {
        let ghost doc = self@.as_text();
        let mut out = String::new();
        let n = self.nodes.len();
        let mut i: usize = 0;
        proof {
            self.lemma_view();
        }
        assert(node_lines(doc.nodes.take(0)) == Seq::<Seq<char>>::empty());
        while i < n
            invariant
                i <= n,
                n == self.nodes.len(),
                n == doc.nodes.len(),
                doc == self@.as_text(),
                out@ == join_lines(node_lines(doc.nodes.take(i as int))),
            decreases n - i,
        {
            let line = self.nodes[i].get_tgf_node();
            out.append(line.as_str());
            proof {
                self.lemma_view();
                let before = node_lines(doc.nodes.take(i as int));
                let after = node_lines(doc.nodes.take(i + 1));
                assert(after.drop_last() == before);
                assert(after.last() == node_line(doc.nodes[i as int].id, doc.nodes[i as int].data));
            }
            i = i + 1;
        }
        assert(doc.nodes.take(n as int) == doc.nodes);
        out.push('#');
        out.push('\n');
        let ghost head = node_lines(doc.nodes) + seq![separator()];
        proof {
            lemma_join_lines_concat(node_lines(doc.nodes), seq![separator()]);
            assert(seq![separator()].drop_last() == Seq::<Seq<char>>::empty());
            assert(join_lines(seq![separator()].drop_last()) == Seq::<char>::empty());
            assert(join_lines(seq![separator()]) == Seq::<char>::empty() + separator() + seq!['\n']);
            assert(join_lines(seq![separator()]) == seq!['#', '\n']);
            assert(out@ == join_lines(head));
            assert(edge_lines(doc.nodes.take(0)) == Seq::<Seq<char>>::empty());
            assert(head + Seq::<Seq<char>>::empty() == head);
        }
        let mut i: usize = 0;
        while i < n
            invariant
                i <= n,
                n == self.nodes.len(),
                n == doc.nodes.len(),
                doc == self@.as_text(),
                head == node_lines(doc.nodes) + seq![separator()],
                out@ == join_lines(head + edge_lines(doc.nodes.take(i as int))),
            decreases n - i,
        {
            let line = self.nodes[i].get_tgf_paths();
            out.append(line.as_str());
            proof {
                self.lemma_view();
                let before = edge_lines(doc.nodes.take(i as int));
                let node = doc.nodes[i as int];
                assert(doc.nodes.take(i + 1).drop_last() == doc.nodes.take(i as int));
                assert(edge_lines(doc.nodes.take(i + 1)) == before + edge_line_of(node));
                lemma_join_lines_concat(head, before);
                lemma_join_lines_concat(head, before + edge_line_of(node));
                lemma_join_lines_concat(before, edge_line_of(node));
                if node.adjacency.len() > 0 {
                    assert(edge_line_of(node).drop_last() == Seq::<Seq<char>>::empty());
                    assert(join_lines(edge_line_of(node).drop_last()) == Seq::<char>::empty());
                    assert(join_lines(edge_line_of(node)) == edge_line(node.id, node.adjacency)
                        + seq!['\n']);
                }
            }
            i = i + 1;
        }
        assert(doc.nodes.take(n as int) == doc.nodes);
        out
    }
}

} // verus!
