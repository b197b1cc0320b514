//! Reading the text of a graph gives the graph back.

use crate::model::{insert_all, GraphModel, NodeModel};
use crate::parse::{
    all_declared, apply_edge_line, declare_node, digit_run, ids_of, next_id_after, parse_all,
    parse_from,
    parse_text, plain_node_line, read_node_line,
};
use crate::text::{decimal, is_digit, tokens};
use crate::text_laws::{
    clean_line, lemma_decimal, lemma_decimal_word, lemma_parse_decimal, lemma_split_join,
    lemma_tokens_space, lemma_tokens_word,
};
use crate::tgf::{
    edge_line, edge_line_of, edge_lines, node_line, separator, targets_text, tgf_lines, tgf_text,
};
use vstd::prelude::*;

verus! {

/// A payload text that a line can hold and give back: at least one
/// character, no line feed, and no carriage return at its end.
pub open spec fn payload_ok(payload: Seq<char>) -> bool {
    &&& payload.len() > 0
    &&& !payload.contains('\n')
    &&& payload.last() != '\r'
}

/// The numerals of a list of identifiers.
pub open spec fn numerals(ids: Seq<usize>) -> Seq<Seq<char>> {
    ids.map_values(|x: usize| decimal(x as nat))
}

/// A run of digits that ends at `k` is found from any place in it.
proof fn lemma_digit_run(line: Seq<char>, i: int, k: int)
    requires
        0 <= i <= k <= line.len(),
        forall|j: int| i <= j < k ==> is_digit(#[trigger] line[j]),
        k < line.len() ==> !is_digit(line[k]),
    ensures
        digit_run(line, i) == k,
    decreases k - i,
{
    if i < k {
        lemma_digit_run(line, i + 1, k);
    }
}

/// The line of a node is clean, is no separator, and is read as the
/// identifier and the payload that it was written from.
pub proof fn lemma_node_line_read(id: usize, payload: Seq<char>)
    requires
        payload_ok(payload),
    ensures
        clean_line(node_line(id, payload)),
        node_line(id, payload) != separator(),
        read_node_line(node_line(id, payload)) == Some((id, payload)),
{
    let digits = decimal(id as nat);
    let line = node_line(id, payload);
    let k = digits.len() as int;
    lemma_decimal(id as nat);
    lemma_decimal_word(id as nat);
    lemma_parse_decimal(id);
    assert forall|j: int| 0 <= j < k implies is_digit(#[trigger] line[j]) by {
        assert(line[j] == digits[j]);
    }
    assert(line[k] == ' ');
    lemma_digit_run(line, 0, k);
    assert(line.len() == k + 1 + payload.len());
    if line.contains('\n') {
        let j = choose|j: int| 0 <= j < line.len() && line[j] == '\n';
        if j < k {
            assert(digits[j] == '\n');
        } else if j > k {
            assert(payload[j - k - 1] == '\n');
        }
    }
    assert(line.last() == payload.last());
    assert(line.take(k) == digits);
    assert(line.skip(k + 1) == payload);
    assert(plain_node_line(line) == Some((digits, payload)));
    assert(line[0] == digits[0]);
}

/// The text of the targets, from its first target on.
proof fn lemma_targets_first(targets: Seq<usize>)
    requires
        targets.len() > 0,
    ensures
        targets_text(targets) == seq![' '] + decimal(targets.first() as nat) + targets_text(
            targets.drop_first(),
        ),
    decreases targets.len(),
{
    if targets.len() == 1 {
        assert(targets.drop_last() == Seq::<usize>::empty());
        assert(targets.drop_first() == Seq::<usize>::empty());
        assert(targets_text(targets.drop_last()) == Seq::<char>::empty());
        assert(targets_text(targets) == Seq::<char>::empty() + seq![' '] + decimal(
            targets.last() as nat,
        ));
        assert(targets_text(targets) == seq![' '] + decimal(targets.first() as nat)
            + Seq::<char>::empty());
    } else {
        lemma_targets_first(targets.drop_last());
        assert(targets.drop_last().drop_first() == targets.drop_first().drop_last());
        assert(targets.drop_last().first() == targets.first());
        assert(targets.drop_first().last() == targets.last());
        let head = seq![' '] + decimal(targets.first() as nat);
        let mid = targets_text(targets.drop_first().drop_last());
        let tail = seq![' '] + decimal(targets.last() as nat);
        assert(targets_text(targets) == (head + mid) + seq![' '] + decimal(targets.last() as nat));
        assert(targets_text(targets.drop_first()) == mid + seq![' '] + decimal(
            targets.last() as nat,
        ));
        assert((head + mid) + seq![' '] + decimal(targets.last() as nat) == head + (mid + seq![' ']
            + decimal(targets.last() as nat)));
    }
}

/// The text of the targets holds spaces and digits alone, starts with a
/// space and ends with a digit.
proof fn lemma_targets_chars(targets: Seq<usize>)
    ensures
        forall|i: int|
            0 <= i < targets_text(targets).len() ==> {
                let c = #[trigger] targets_text(targets)[i];
                c == ' ' || is_digit(c)
            },
        targets.len() > 0 ==> targets_text(targets).len() > 0 && targets_text(targets)[0] == ' '
            && is_digit(targets_text(targets).last()),
    decreases targets.len(),
{
    if targets.len() > 0 {
        let before = targets_text(targets.drop_last());
        let numeral = decimal(targets.last() as nat);
        let all = targets_text(targets);
        lemma_targets_chars(targets.drop_last());
        lemma_decimal(targets.last() as nat);
        assert(all == before + seq![' '] + numeral);
        assert forall|i: int| 0 <= i < all.len() implies {
            let c = #[trigger] all[i];
            c == ' ' || is_digit(c)
        } by {
            if i < before.len() {
                assert(all[i] == before[i]);
            } else if i > before.len() {
                assert(all[i] == numeral[i - before.len() - 1]);
            }
        }
        assert(all.last() == numeral.last());
        assert(is_digit(numeral[numeral.len() - 1]));
        if targets.len() == 1 {
            assert(targets.drop_last() == Seq::<usize>::empty());
        } else {
            assert(all[0] == before[0]);
        }
    }
}

/// The tokens of the text of the targets are their numerals.
proof fn lemma_tokens_targets(targets: Seq<usize>)
    ensures
        tokens(targets_text(targets)) == numerals(targets),
    decreases targets.len(),
{
    if targets.len() == 0 {
        assert(numerals(targets) == Seq::<Seq<char>>::empty());
    } else {
        let first = decimal(targets.first() as nat);
        let rest = targets_text(targets.drop_first());
        lemma_targets_first(targets);
        lemma_tokens_targets(targets.drop_first());
        lemma_targets_chars(targets.drop_first());
        lemma_decimal_word(targets.first() as nat);
        assert(targets_text(targets) == seq![' '] + (first + rest));
        lemma_tokens_space(first + rest);
        assert(first.take(0) == Seq::<char>::empty());
        lemma_tokens_word(first, rest, 0);
        assert(numerals(targets) == seq![first] + numerals(targets.drop_first()));
    }
}

/// The numerals of indices are read as the indices.
proof fn lemma_parse_all_numerals(ids: Seq<usize>)
    ensures
        parse_all(numerals(ids)) == Some(ids),
    decreases ids.len(),
{
    if ids.len() == 0 {
    } else {
        lemma_parse_all_numerals(ids.drop_last());
        lemma_parse_decimal(ids.last());
        assert(numerals(ids).drop_last() == numerals(ids.drop_last()));
        assert(numerals(ids).last() == decimal(ids.last() as nat));
        assert(ids.drop_last().push(ids.last()) == ids);
    }
}

/// The edge line of a node is clean, is no separator, and is read as the
/// identifier and the targets that it was written from.
pub proof fn lemma_edge_line_read(id: usize, targets: Seq<usize>)
    requires
        targets.len() > 0,
    ensures
        clean_line(edge_line(id, targets)),
        edge_line(id, targets) != separator(),
        parse_all(tokens(edge_line(id, targets))) == Some(seq![id] + targets),
{
    let digits = decimal(id as nat);
    let rest = targets_text(targets);
    let line = edge_line(id, targets);
    lemma_decimal_word(id as nat);
    lemma_decimal(id as nat);
    lemma_targets_chars(targets);
    lemma_tokens_targets(targets);
    assert(digits.take(0) == Seq::<char>::empty());
    lemma_tokens_word(digits, rest, 0);
    assert(tokens(line) == seq![digits] + numerals(targets));
    assert(seq![digits] + numerals(targets) == numerals(seq![id] + targets));
    lemma_parse_all_numerals(seq![id] + targets);
    assert(line[0] == digits[0]);
    assert(line.last() == rest.last());
    if line.contains('\n') {
        let j = choose|j: int| 0 <= j < line.len() && line[j] == '\n';
        if j < digits.len() {
            assert(digits[j] == '\n');
        } else {
            assert(rest[j - digits.len()] == '\n');
        }
    }
}

/// The graphs that come back from their text: those that meet the
/// invariant, store every node at the position that its identifier names,
/// hand out next the identifier after the greatest (0 where they have no
/// node), and hold payload texts that a line gives back.
pub open spec fn round_trip_ready(doc: GraphModel<Seq<char>>) -> bool {
    &&& doc.wf()
    &&& doc.aligned()
    &&& doc.next_id == next_id_after(doc.ids())
    &&& forall|i: int| 0 <= i < doc.nodes.len() ==> payload_ok((#[trigger] doc.nodes[i]).data)
}

/// The nodes as they stand once the edge lines of the first `j` were read:
/// these have their edges, the others have none yet.
pub open spec fn partly_read(nodes: Seq<NodeModel<Seq<char>>>, j: int) -> Seq<
    NodeModel<Seq<char>>,
> {
    Seq::new(
        nodes.len(),
        |i: int|
            if i < j {
                nodes[i]
            } else {
                NodeModel::fresh(nodes[i].id, nodes[i].data)
            },
    )
}

/// Targets without repetition, added to no edges, are the edges.
proof fn lemma_insert_all_fresh(targets: Seq<usize>)
    requires
        targets.no_duplicates(),
    ensures
        insert_all(Seq::empty(), targets) == targets,
    decreases targets.len(),
{
    if targets.len() > 0 {
        let before = targets.drop_last();
        lemma_insert_all_fresh(before);
        if before.contains(targets.last()) {
            let k = choose|k: int| 0 <= k < before.len() && before[k] == targets.last();
            assert(targets[k] == targets[targets.len() - 1]);
        }
        assert(before.push(targets.last()) == targets);
    }
}

/// The edge lines of one more node.
proof fn lemma_edge_lines_take(nodes: Seq<NodeModel<Seq<char>>>, j: int)
    requires
        0 <= j < nodes.len(),
    ensures
        edge_lines(nodes.take(j + 1)) == edge_lines(nodes.take(j)) + edge_line_of(nodes[j]),
{
    assert(nodes.take(j + 1).drop_last() == nodes.take(j));
    assert(nodes.take(j + 1).last() == nodes[j]);
}

/// The edge lines of the first nodes are the first of the edge lines.
proof fn lemma_edge_lines_prefix(nodes: Seq<NodeModel<Seq<char>>>, j: int)
    requires
        0 <= j <= nodes.len(),
    ensures
        edge_lines(nodes.take(j)).len() <= edge_lines(nodes).len(),
        edge_lines(nodes).take(edge_lines(nodes.take(j)).len() as int) == edge_lines(nodes.take(j)),
    decreases nodes.len() - j,
{
    let all = edge_lines(nodes);
    if j == nodes.len() {
        assert(nodes.take(j) == nodes);
        assert(all.take(all.len() as int) == all);
    } else {
        lemma_edge_lines_prefix(nodes, j + 1);
        lemma_edge_lines_take(nodes, j);
        let shorter = edge_lines(nodes.take(j));
        let longer = edge_lines(nodes.take(j + 1));
        assert(all.take(shorter.len() as int) == all.take(longer.len() as int).take(
            shorter.len() as int,
        ));
        assert(longer.take(shorter.len() as int) == shorter);
    }
}

/// Every edge line is clean.
proof fn lemma_edge_lines_clean(nodes: Seq<NodeModel<Seq<char>>>)
    ensures
        forall|p: int| 0 <= p < edge_lines(nodes).len() ==> clean_line(#[trigger] edge_lines(nodes)[p]),
    decreases nodes.len(),
{
    if nodes.len() > 0 {
        let before = edge_lines(nodes.drop_last());
        let all = edge_lines(nodes);
        lemma_edge_lines_clean(nodes.drop_last());
        let node = nodes.last();
        if node.adjacency.len() > 0 {
            lemma_edge_line_read(node.id, node.adjacency);
        }
        assert forall|p: int| 0 <= p < all.len() implies clean_line(#[trigger] all[p]) by {
            if p < before.len() {
                assert(all[p] == before[p]);
            }
        }
    }
}

/// Reading the node lines from the `i`-th on declares the nodes.
proof fn lemma_read_node_lines(doc: GraphModel<Seq<char>>, i: int)
    requires
        round_trip_ready(doc),
        0 <= i <= doc.nodes.len(),
    ensures
        parse_from(tgf_lines(doc), i, false, partly_read(doc.nodes, 0).take(i)) == parse_from(
            tgf_lines(doc),
            doc.nodes.len() as int,
            false,
            partly_read(doc.nodes, 0),
        ),
    decreases doc.nodes.len() - i,
{
    let lines = tgf_lines(doc);
    let fresh = partly_read(doc.nodes, 0);
    if i == doc.nodes.len() {
        assert(fresh.take(i) == fresh);
    } else {
        let node = doc.nodes[i];
        let declared = fresh.take(i);
        assert(lines[i] == node_line(node.id, node.data));
        lemma_node_line_read(node.id, node.data);
        if ids_of(declared).contains(node.id) {
            let k = choose|k: int| 0 <= k < ids_of(declared).len() && ids_of(declared)[k]
                == node.id;
            assert(doc.nodes[k].id == k);
        }
        assert(declared.push(NodeModel::fresh(node.id, node.data)) == fresh.take(i + 1));
        assert(declare_node(declared, lines[i]) == Some(fresh.take(i + 1)));
        lemma_read_node_lines(doc, i + 1);
    }
}

/// Reading the edge lines of the nodes from the `j`-th on gives the nodes
/// their edges.
proof fn lemma_read_edge_lines(doc: GraphModel<Seq<char>>, j: int)
    requires
        round_trip_ready(doc),
        0 <= j <= doc.nodes.len(),
    ensures
        parse_from(
            tgf_lines(doc),
            (doc.nodes.len() + 1 + edge_lines(doc.nodes.take(j)).len()) as int,
            true,
            partly_read(doc.nodes, j),
        ) == Some(doc.nodes),
    decreases doc.nodes.len() - j,
{
    let nodes = doc.nodes;
    let n = nodes.len() as int;
    let lines = tgf_lines(doc);
    let all = edge_lines(nodes);
    let done = edge_lines(nodes.take(j));
    let at = (n + 1 + done.len()) as int;
    let state = partly_read(nodes, j);
    lemma_edge_lines_prefix(nodes, j);
    if j == n {
        assert(nodes.take(j) == nodes);
        assert(state == nodes);
    } else {
        let node = nodes[j];
        lemma_edge_lines_take(nodes, j);
        lemma_edge_lines_prefix(nodes, j + 1);
        lemma_read_edge_lines(doc, j + 1);
        if node.adjacency.len() == 0 {
            assert(edge_lines(nodes.take(j + 1)) == done);
            assert(node.adjacency == Seq::<usize>::empty());
            assert(partly_read(nodes, j + 1) == state);
        } else {
            let line = edge_line(node.id, node.adjacency);
            let longer = edge_lines(nodes.take(j + 1));
            assert(longer == done.push(line));
            assert(all.take(longer.len() as int)[done.len() as int] == line);
            assert(lines[at] == line);
            lemma_edge_line_read(node.id, node.adjacency);
            let nums = seq![node.id] + node.adjacency;
            assert(nums.drop_first() == node.adjacency);
            assert(nums[0] == node.id);
            assert(ids_of(state) == doc.ids());
            assert forall|k: int| 0 <= k < node.adjacency.len() implies ids_of(state).contains(
                #[trigger] node.adjacency[k],
            ) by {
                assert(doc.has_node(nodes[j].adjacency[k]));
            }
            assert(all_declared(state, nums.drop_first()));
            assert(node.adjacency.no_duplicates());
            lemma_insert_all_fresh(node.adjacency);
            assert(state[j] == NodeModel::fresh(node.id, node.data));
            assert(state[j].with_adjacency(node.adjacency) == node);
            assert(state.update(j, node) == partly_read(nodes, j + 1));
            assert(apply_edge_line(state, line) == Some(partly_read(nodes, j + 1)));
        }
    }
}

/// Round trip: the text of a graph, read again, is the graph. This holds of
/// every graph that meets the invariant, stores every node at the position
/// that its identifier names, hands out next the identifier after the
/// greatest (0 where it has no node), and holds payload texts that a line
/// gives back.
pub proof fn law_text_round_trip(doc: GraphModel<Seq<char>>)
    requires
        round_trip_ready(doc),
    ensures
        parse_text(tgf_text(doc)) == Some(doc),
{
    let nodes = doc.nodes;
    let n = nodes.len() as int;
    let lines = tgf_lines(doc);
    lemma_edge_lines_clean(nodes);
    assert forall|i: int| 0 <= i < lines.len() implies clean_line(#[trigger] lines[i]) by {
        if i < n {
            assert(lines[i] == node_line(nodes[i].id, nodes[i].data));
            lemma_node_line_read(nodes[i].id, nodes[i].data);
        } else if i == n {
            assert(lines[i] == separator());
            if separator().contains('\n') {
                let k = choose|k: int| 0 <= k < separator().len() && separator()[k] == '\n';
            }
        } else {
            assert(lines[i] == edge_lines(nodes)[i - n - 1]);
        }
    }
    lemma_split_join(lines);
    lemma_read_node_lines(doc, 0);
    assert(partly_read(nodes, 0).take(0) == Seq::<NodeModel<Seq<char>>>::empty());
    assert(lines[n] == separator());
    assert(nodes.take(0) == Seq::<NodeModel<Seq<char>>>::empty());
    assert(edge_lines(nodes.take(0)).len() == 0);
    lemma_read_edge_lines(doc, 0);
    assert(ids_of(nodes) == doc.ids());
}

} // verus!
