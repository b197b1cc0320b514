//! What holds of the operations of a graph, whatever the graph.

use crate::model::{lemma_insert_unique_no_duplicates, lemma_remove_value, GraphModel, NodeModel};
use crate::parse::{next_id_after, parse_text};
use crate::round_trip::{law_text_round_trip, payload_ok};
use crate::tgf::tgf_text;
use vstd::prelude::*;

verus! {

/// Adding an edge is idempotent: the graph in which the edge from `a` to
/// `b` was added twice is the graph in which it was added once.
pub proof fn law_add_edge_idempotent<T>(g: GraphModel<T>, a: usize, b: usize)
    requires
        g.wf(),
        g.has_node(a),
        g.has_node(b),
    ensures
        g.with_edge(a, b).with_edge(a, b) == g.with_edge(a, b),
        g.with_edge(a, b).has_edge(a, b),
{
    let once = g.with_edge(a, b);
    let twice = once.with_edge(a, b);
    assert forall|i: int| 0 <= i < once.nodes.len() implies twice.nodes[i] == once.nodes[i] by {
        assert(g.nodes[i].adjacency.no_duplicates());
        lemma_insert_unique_no_duplicates(g.nodes[i].adjacency, b);
    }
    assert(twice.nodes =~= once.nodes);
    g.lemma_position(a);
    let p = g.position(a);
    lemma_insert_unique_no_duplicates(g.nodes[p].adjacency, b);
    assert(once.nodes[p].id == a && once.nodes[p].adjacency.contains(b));
}

/// Removing an edge that is not there changes nothing: where there is no
/// edge from `a` to `b`, the graph without the edge from `a` to `b` is the
/// graph itself.
pub proof fn law_remove_absent_edge<T>(g: GraphModel<T>, a: usize, b: usize)
    requires
        g.wf(),
        g.has_node(a),
        g.has_node(b),
        !g.has_edge(a, b),
    ensures
        g.without_edge(a, b) == g,
{
    let after = g.without_edge(a, b);
    assert forall|i: int| 0 <= i < g.nodes.len() implies after.nodes[i] == g.nodes[i] by {
        if g.nodes[i].id == a {
            assert(!g.nodes[i].adjacency.contains(b));
            assert(g.nodes[i].adjacency.no_duplicates());
            lemma_remove_value(g.nodes[i].adjacency, b);
        }
    }
    assert(after.nodes =~= g.nodes);
}

/// Removing an edge that is there takes it away, and it alone.
pub proof fn law_remove_edge<T>(g: GraphModel<T>, a: usize, b: usize)
    requires
        g.wf(),
        g.has_node(a),
        g.has_node(b),
    ensures
        !g.without_edge(a, b).has_edge(a, b),
        forall|x: usize, y: usize|
            (x != a || y != b) ==> (#[trigger] g.without_edge(a, b).has_edge(x, y) <==> g.has_edge(
                x,
                y,
            )),
{
    let after = g.without_edge(a, b);
    assert forall|i: int| 0 <= i < g.nodes.len() implies (#[trigger] after.nodes[i]).id
        == g.nodes[i].id && (g.nodes[i].id == a ==> !after.nodes[i].adjacency.contains(b)) && (
    forall|y: usize|
        (g.nodes[i].id != a || y != b) ==> (after.nodes[i].adjacency.contains(y)
            <==> g.nodes[i].adjacency.contains(y))) by {
        assert(g.nodes[i].adjacency.no_duplicates());
        lemma_remove_value(g.nodes[i].adjacency, b);
    }
    assert forall|x: usize, y: usize| (x != a || y != b) implies (#[trigger] after.has_edge(x, y)
        <==> g.has_edge(x, y)) by {
        if after.has_edge(x, y) {
            let i = choose|i: int|
                0 <= i < after.nodes.len() && (#[trigger] after.nodes[i]).id == x
                    && after.nodes[i].adjacency.contains(y);
            assert(g.nodes[i].id == x && g.nodes[i].adjacency.contains(y));
        }
        if g.has_edge(x, y) {
            let i = choose|i: int|
                0 <= i < g.nodes.len() && (#[trigger] g.nodes[i]).id == x
                    && g.nodes[i].adjacency.contains(y);
            assert(after.nodes[i].id == x && after.nodes[i].adjacency.contains(y));
        }
    }
}

/// Removing a node leaves no edge that leads to it: in the graph without
/// the node `id`, no node has `id` among its edges.
pub proof fn law_remove_node_strips_edges<T>(g: GraphModel<T>, id: usize)
    requires
        g.wf(),
        g.has_node(id),
    ensures
        g.without_node(id).wf(),
        !g.without_node(id).has_node(id),
        forall|i: int|
            0 <= i < g.without_node(id).nodes.len() ==> !(
            #[trigger] g.without_node(id).nodes[i]).adjacency.contains(id),
        forall|x: usize| !g.without_node(id).has_edge(x, id),
{
    g.lemma_without_node_wf(id);
    let after = g.without_node(id);
    assert forall|x: usize| !after.has_edge(x, id) by {
        if after.has_edge(x, id) {
            let i = choose|i: int|
                0 <= i < after.nodes.len() && (#[trigger] after.nodes[i]).id == x
                    && after.nodes[i].adjacency.contains(id);
            assert(!after.nodes[i].adjacency.contains(id));
        }
    }
}

/// The payloads of a graph, each turned into text by `encode`.
pub open spec fn encoded<T>(g: GraphModel<T>, encode: spec_fn(T) -> Seq<char>) -> Seq<Seq<char>> {
    g.nodes.map_values(|n: NodeModel<T>| encode(n.data))
}

/// The payload texts of a graph, each turned into a value by `decode`.
pub open spec fn decoded<T>(
    doc: GraphModel<Seq<char>>,
    decode: spec_fn(Seq<char>) -> Option<T>,
) -> Seq<Option<T>> {
    doc.nodes.map_values(|n: NodeModel<Seq<char>>| decode(n.data))
}

/// Round trip: a graph comes back from its text. Take a graph that meets the
/// invariant, stores every node at the position that its identifier names
/// and hands out next the identifier after the greatest (0 where it has no
/// node), and an encoding of
/// its payloads into texts that a line gives back, with a decoding that
/// undoes it. Then reading the text of the graph succeeds, and what was read,
/// with its payloads decoded, is the graph.
pub proof fn law_round_trip<T>(
    g: GraphModel<T>,
    encode: spec_fn(T) -> Seq<char>,
    decode: spec_fn(Seq<char>) -> Option<T>,
)
    requires
        g.wf(),
        g.aligned(),
        g.next_id == next_id_after(g.ids()),
        forall|i: int|
            0 <= i < g.nodes.len() ==> payload_ok(encode((#[trigger] g.nodes[i]).data)) && decode(
                encode(g.nodes[i].data),
            ) == Some(g.nodes[i].data),
    ensures
        parse_text(tgf_text(g.with_payloads(encoded(g, encode)))) == Some(
            g.with_payloads(encoded(g, encode)),
        ),
        forall|i: int|
            0 <= i < g.nodes.len() ==> (#[trigger] decoded(
                g.with_payloads(encoded(g, encode)),
                decode,
            )[i]) is Some,
        g.with_payloads(encoded(g, encode)).with_payloads(
            decoded(g.with_payloads(encoded(g, encode)), decode).map_values(|p: Option<T>| p->0),
        ) == g,
{
    let doc = g.with_payloads(encoded(g, encode));
    g.lemma_with_payloads_shape(encoded(g, encode));
    assert(doc.aligned());
    assert forall|i: int| 0 <= i < doc.nodes.len() implies payload_ok(
        (#[trigger] doc.nodes[i]).data,
    ) by {
        assert(payload_ok(encode(g.nodes[i].data)));
    }
    law_text_round_trip(doc);
    let back = doc.with_payloads(decoded(doc, decode).map_values(|p: Option<T>| p->0));
    assert forall|i: int| 0 <= i < g.nodes.len() implies back.nodes[i] == g.nodes[i] && (
    #[trigger] decoded(doc, decode)[i]) is Some by {
        assert(decode(encode(g.nodes[i].data)) == Some(g.nodes[i].data));
    }
    assert(back.nodes =~= g.nodes);
}

} // verus!
