//! Reading the text format of a graph.

use crate::error::GraphError;
use crate::graph::Graph;
use crate::model::{insert_all, lemma_insert_unique_no_duplicates, GraphModel, NodeModel};
use crate::node::{contains_id, Node};
use crate::outside::{capture_pair, pair_view, regex_capture_pair};
use crate::text::{
    is_digit, parse_index, parse_index_chars, split_lines, split_lines_chars, texts, to_chars,
    to_text, tokens, tokens_chars, views,
};
use crate::tgf::separator;
use vstd::prelude::*;

verus! {

/// The regular expression that a node line is searched with: decimal
/// digits, one white-space character, and the rest of the line.
pub const NODE_LINE_PATTERN: &'static str = "(\\d+)\\s(.+)";

/// Where the run of ASCII digits that starts at `i` ends.
pub open spec fn digit_run(line: Seq<char>, i: int) -> int
    decreases line.len() - i,
{
    if 0 <= i < line.len() && is_digit(line[i]) {
        digit_run(line, i + 1)
    } else {
        i
    }
}

/// The two fields of a node line in plain form: ASCII digits from the start
/// of the line, one space, and at least one more character, with no line
/// feed anywhere. The fields are the digits and what follows the space.
pub open spec fn plain_node_line(line: Seq<char>) -> Option<(Seq<char>, Seq<char>)> {
    let k = digit_run(line, 0);
    if 0 < k && k + 1 < line.len() && line[k] == ' ' && !line.contains('\n') {
        Some((line.take(k), line.skip(k + 1)))
    } else {
        None
    }
}

/// The two fields of a node line: those of its plain form, if it has that
/// form, and else whatever the regular expression finds in it.
pub open spec fn node_line_fields(line: Seq<char>) -> Option<(Seq<char>, Seq<char>)> {
    match plain_node_line(line) {
        Some(fields) => Some(fields),
        None => regex_capture_pair(NODE_LINE_PATTERN@, line),
    }
}

/// The identifier and the payload text that two fields of a node line stand for.
pub open spec fn node_of_fields(fields: Option<(Seq<char>, Seq<char>)>) -> Option<
    (usize, Seq<char>),
> {
    match fields {
        Some((digits, payload)) => match parse_index(digits) {
            Some(id) => Some((id, payload)),
            None => None,
        },
        None => None,
    }
}

/// The identifier and the payload text of a node line.
pub open spec fn read_node_line(line: Seq<char>) -> Option<(usize, Seq<char>)> {
    node_of_fields(node_line_fields(line))
}

/// The identifiers of a list of nodes.
pub open spec fn ids_of(nodes: Seq<NodeModel<Seq<char>>>) -> Seq<usize> {
    nodes.map_values(|n: NodeModel<Seq<char>>| n.id)
}

/// The nodes after a node line was read: one more node, without edges.
/// A line that cannot be read, or that repeats an identifier, gives `None`.
pub open spec fn declare_node(nodes: Seq<NodeModel<Seq<char>>>, line: Seq<char>) -> Option<
    Seq<NodeModel<Seq<char>>>,
> {
    match read_node_line(line) {
        Some((id, payload)) => if ids_of(nodes).contains(id) {
            None
        } else {
            Some(nodes.push(NodeModel::fresh(id, payload)))
        },
        None => None,
    }
}

/// The indices that a list of tokens denotes, if each of them denotes one.
pub open spec fn parse_all(toks: Seq<Seq<char>>) -> Option<Seq<usize>>
    decreases toks.len(),
{
    if toks.len() == 0 {
        Some(Seq::empty())
    } else {
        match (parse_all(toks.drop_last()), parse_index(toks.last())) {
            (Some(nums), Some(x)) => Some(nums.push(x)),
            _ => None,
        }
    }
}

/// Each of `targets` is the identifier of one of `nodes`.
pub open spec fn all_declared(nodes: Seq<NodeModel<Seq<char>>>, targets: Seq<usize>) -> bool {
    forall|k: int| 0 <= k < targets.len() ==> ids_of(nodes).contains(#[trigger] targets[k])
}

/// The nodes after an edge line was read. The first token names the position
/// of the node that the edges start from; each further token names, by its
/// identifier, a node that an edge leads to. A line without tokens changes
/// nothing. A token that is no index, a position that holds no node, and an
/// identifier that no node line declared give `None`.
pub open spec fn apply_edge_line(nodes: Seq<NodeModel<Seq<char>>>, line: Seq<char>) -> Option<
    Seq<NodeModel<Seq<char>>>,
> {
    match parse_all(tokens(line)) {
        None => None,
        Some(nums) => if nums.len() == 0 {
            Some(nodes)
        } else if nums[0] < nodes.len() && all_declared(nodes, nums.drop_first()) {
            Some(
                nodes.update(
                    nums[0] as int,
                    nodes[nums[0] as int].with_adjacency(
                        insert_all(nodes[nums[0] as int].adjacency, nums.drop_first()),
                    ),
                ),
            )
        } else {
            None
        },
    }
}

/// The nodes after the lines from `i` on were read. Node lines are read up
/// to the first separator, edge lines after it; a later separator is passed
/// over.
pub open spec fn parse_from(
    lines: Seq<Seq<char>>,
    i: int,
    in_edges: bool,
    nodes: Seq<NodeModel<Seq<char>>>,
) -> Option<Seq<NodeModel<Seq<char>>>>
    decreases lines.len() - i,
{
    if i < 0 || i >= lines.len() {
        Some(nodes)
    } else if lines[i] == separator() {
        parse_from(lines, i + 1, true, nodes)
    } else {
        let step = if in_edges {
            apply_edge_line(nodes, lines[i])
        } else {
            declare_node(nodes, lines[i])
        };
        match step {
            Some(next) => parse_from(lines, i + 1, in_edges, next),
            None => None,
        }
    }
}

/// The greatest of `ids`, or 0 where there is none.
pub open spec fn max_id(ids: Seq<usize>) -> usize
    decreases ids.len(),
{
    if ids.len() == 0 {
        0
    } else if ids.last() > max_id(ids.drop_last()) {
        ids.last()
    } else {
        max_id(ids.drop_last())
    }
}

/// The identifier to hand out next to a graph that holds the identifiers
/// `ids`: 0 where there is none, and else one more than the greatest.
pub open spec fn next_id_after(ids: Seq<usize>) -> int {
    if ids.len() == 0 {
        0
    } else {
        max_id(ids) + 1
    }
}

/// The graph that a list of lines denotes. Its payloads are the payload
/// texts as they stand in the lines. The next identifier to hand out is 0
/// for a graph without nodes, and else one more than the greatest
/// identifier; lines that leave no room for it are refused.
pub open spec fn parse_lines(lines: Seq<Seq<char>>) -> Option<GraphModel<Seq<char>>> {
    match parse_from(lines, 0, false, Seq::empty()) {
        Some(nodes) => if next_id_after(ids_of(nodes)) <= usize::MAX {
            Some(GraphModel { next_id: next_id_after(ids_of(nodes)) as usize, nodes })
        } else {
            None
        },
        None => None,
    }
}

/// The graph that a text denotes.
pub open spec fn parse_text(text: Seq<char>) -> Option<GraphModel<Seq<char>>> {
    parse_lines(split_lines(text))
}

/// What holds of the nodes while a text is read: no identifier twice, no
/// edge twice, and every edge leads to a declared node.
pub open spec fn nodes_ok(nodes: Seq<NodeModel<Seq<char>>>) -> bool {
    &&& ids_of(nodes).no_duplicates()
    &&& forall|i: int| 0 <= i < nodes.len() ==> (#[trigger] nodes[i]).adjacency.no_duplicates()
    &&& forall|i: int, k: int|
        0 <= i < nodes.len() && 0 <= k < nodes[i].adjacency.len() ==> ids_of(nodes).contains(
            #[trigger] nodes[i].adjacency[k],
        )
}

/// Every identifier is at most the greatest.
pub proof fn lemma_max_id(ids: Seq<usize>, k: int)
    requires
        0 <= k < ids.len(),
    ensures
        ids[k] <= max_id(ids),
    decreases ids.len(),
{
    if k < ids.len() - 1 {
        lemma_max_id(ids.drop_last(), k);
    }
}

/// `insert_all` keeps a list free of duplicates and adds only the targets.
pub proof fn lemma_insert_all(adj: Seq<usize>, targets: Seq<usize>)
    requires
        adj.no_duplicates(),
    ensures
        insert_all(adj, targets).no_duplicates(),
        forall|x: usize|
            insert_all(adj, targets).contains(x) ==> adj.contains(x) || targets.contains(x),
    decreases targets.len(),
{
    if targets.len() > 0 {
        let before = insert_all(adj, targets.drop_last());
        lemma_insert_all(adj, targets.drop_last());
        lemma_insert_unique_no_duplicates(before, targets.last());
        assert forall|x: usize| insert_all(adj, targets).contains(x) implies adj.contains(x)
            || targets.contains(x) by {
            if x == targets.last() {
                assert(targets[targets.len() - 1] == x);
            } else {
                assert(before.contains(x));
                if !adj.contains(x) {
                    let k = choose|k: int|
                        0 <= k < targets.drop_last().len() && targets.drop_last()[k] == x;
                    assert(targets[k] == x);
                }
            }
        }
    }
}

/// Reading a node line keeps what holds of the nodes.
pub proof fn lemma_declare_node_ok(nodes: Seq<NodeModel<Seq<char>>>, line: Seq<char>)
    requires
        nodes_ok(nodes),
    ensures
        declare_node(nodes, line) matches Some(next) ==> nodes_ok(next),
{
    match declare_node(nodes, line) {
        Some(next) => {
            let n = nodes.len() as int;
            assert forall|a: int, b: int|
                0 <= a < next.len() && 0 <= b < next.len() && a != b implies ids_of(next)[a]
                != ids_of(next)[b] by {
                if a < n && b < n {
                    assert(ids_of(nodes)[a] != ids_of(nodes)[b]);
                } else if a < n {
                    assert(ids_of(nodes)[a] == nodes[a].id);
                } else {
                    assert(ids_of(nodes)[b] == nodes[b].id);
                }
            }
            assert forall|i: int| 0 <= i < next.len() implies (
            #[trigger] next[i]).adjacency.no_duplicates() by {
                if i < n {
                    assert(nodes[i].adjacency.no_duplicates());
                }
            }
            assert forall|i: int, k: int|
                0 <= i < next.len() && 0 <= k < next[i].adjacency.len() implies ids_of(
                next,
            ).contains(#[trigger] next[i].adjacency[k]) by {
                let x = nodes[i].adjacency[k];
                assert(ids_of(nodes).contains(x));
                let j = choose|j: int| 0 <= j < ids_of(nodes).len() && ids_of(nodes)[j] == x;
                assert(ids_of(next)[j] == x);
            }
        },
        None => {},
    }
}

/// Reading an edge line keeps what holds of the nodes, and their identifiers.
pub proof fn lemma_apply_edge_line_ok(nodes: Seq<NodeModel<Seq<char>>>, line: Seq<char>)
    requires
        nodes_ok(nodes),
    ensures
        apply_edge_line(nodes, line) matches Some(next) ==> nodes_ok(next) && ids_of(next)
            == ids_of(nodes),
{
    match apply_edge_line(nodes, line) {
        Some(next) => {
            let nums = parse_all(tokens(line))->0;
            if nums.len() > 0 {
                let src = nums[0] as int;
                let targets = nums.drop_first();
                assert(nodes[src].adjacency.no_duplicates());
                lemma_insert_all(nodes[src].adjacency, targets);
                assert(ids_of(next) =~= ids_of(nodes));
                assert forall|i: int| 0 <= i < next.len() implies (
                #[trigger] next[i]).adjacency.no_duplicates() by {
                    if i != src {
                        assert(nodes[i].adjacency.no_duplicates());
                    }
                }
                assert forall|i: int, k: int|
                    0 <= i < next.len() && 0 <= k < next[i].adjacency.len() implies ids_of(
                    next,
                ).contains(#[trigger] next[i].adjacency[k]) by {
                    let x = next[i].adjacency[k];
                    if i != src {
                        assert(ids_of(nodes).contains(nodes[i].adjacency[k]));
                    } else {
                        assert(insert_all(nodes[src].adjacency, targets).contains(x));
                        if nodes[src].adjacency.contains(x) {
                            let k0 = choose|k0: int|
                                0 <= k0 < nodes[src].adjacency.len() && nodes[src].adjacency[k0]
                                    == x;
                            assert(ids_of(nodes).contains(nodes[src].adjacency[k0]));
                        } else {
                            let k0 = choose|k0: int| 0 <= k0 < targets.len() && targets[k0] == x;
                            assert(ids_of(nodes).contains(targets[k0]));
                        }
                    }
                }
            }
        },
        None => {},
    }
}

/// Reading lines keeps what holds of the nodes.
pub proof fn lemma_parse_from_ok(
    lines: Seq<Seq<char>>,
    i: int,
    in_edges: bool,
    nodes: Seq<NodeModel<Seq<char>>>,
)
    requires
        nodes_ok(nodes),
    ensures
        parse_from(lines, i, in_edges, nodes) matches Some(last) ==> nodes_ok(last),
    decreases lines.len() - i,
{
    if i < 0 || i >= lines.len() {
    } else if lines[i] == separator() {
        lemma_parse_from_ok(lines, i + 1, true, nodes);
    } else if in_edges {
        lemma_apply_edge_line_ok(nodes, lines[i]);
        match apply_edge_line(nodes, lines[i]) {
            Some(next) => lemma_parse_from_ok(lines, i + 1, in_edges, next),
            None => {},
        }
    } else {
        lemma_declare_node_ok(nodes, lines[i]);
        match declare_node(nodes, lines[i]) {
            Some(next) => lemma_parse_from_ok(lines, i + 1, in_edges, next),
            None => {},
        }
    }
}

/// A graph that was read from lines meets the invariant of a graph.
pub proof fn lemma_parse_lines_wf(lines: Seq<Seq<char>>)
    ensures
        parse_lines(lines) matches Some(doc) ==> doc.wf(),
{
    match parse_lines(lines) {
        Some(doc) => {
            assert(nodes_ok(Seq::<NodeModel<Seq<char>>>::empty()));
            lemma_parse_from_ok(lines, 0, false, Seq::empty());
            assert(doc.ids() == ids_of(doc.nodes));
            assert forall|i: int| 0 <= i < doc.nodes.len() implies (#[trigger] doc.nodes[i]).id
                < doc.next_id by {
                lemma_max_id(ids_of(doc.nodes), i);
            }
        },
        None => {},
    }
}

/// The nodes of a graph that is being read, with their payloads as text.
spec fn doc_nodes(nodes: Seq<Node<String>>) -> Seq<NodeModel<Seq<char>>> {
    nodes.map_values(|n: Node<String>| n@.with_data(n@.data@))
}

/// A copy of the characters of `chars` from `from` up to `to`.
fn slice_chars(chars: &Vec<char>, from: usize, to: usize) -> (r: Vec<char>)
    requires
        from <= to <= chars.len(),
    ensures
        r@ == chars@.subrange(from as int, to as int),
{
    let mut r: Vec<char> = Vec::new();
    let mut i: usize = from;
    while i < to
        invariant
            from <= i <= to,
            to <= chars.len(),
            r@ == chars@.subrange(from as int, i as int),
        decreases to - i,
    {
        r.push(chars[i]);
        i = i + 1;
    }
    r
}

/// Whether a line feed stands among `chars`.
fn has_line_feed(chars: &Vec<char>) -> (b: bool)
    ensures
        b == chars@.contains('\n'),
{
    let mut i: usize = 0;
    while i < chars.len()
        invariant
            i <= chars.len(),
            forall|j: int| 0 <= j < i ==> chars@[j] != '\n',
        decreases chars.len() - i,
    {
        if chars[i] == '\n' {
            return true;
        }
        i = i + 1;
    }
    false
}

/// Splits a node line in plain form into its two fields.
fn split_plain_node_line(chars: &Vec<char>) -> (r: Option<(Vec<char>, Vec<char>)>)
    ensures
        match r {
            Some((digits, payload)) => plain_node_line(chars@) == Some((digits@, payload@)),
            None => plain_node_line(chars@) is None,
        },
{
    let n = chars.len();
    let mut k: usize = 0;
    while k < n && chars[k] >= '0' && chars[k] <= '9'
        invariant
            k <= n,
            n == chars.len(),
            digit_run(chars@, 0) == digit_run(chars@, k as int),
        decreases n - k,
    {
        k = k + 1;
    }
    assert(digit_run(chars@, k as int) == k);
    if 0 < k && k < n - 1 && chars[k] == ' ' && !has_line_feed(chars) {
        let digits = slice_chars(chars, 0, k);
        let payload = slice_chars(chars, k + 1, n);
        Some((digits, payload))
    } else {
        None
    }
}

/// Splits a node line into its two fields: by its plain form where it has
/// that form, and else by the regular expression.
fn split_node_line(line: &str) -> (r: Option<(String, String)>)
    ensures
        pair_view(r) == node_line_fields(line@),
{
    let chars = to_chars(line);
    match split_plain_node_line(&chars) {
        Some((digits, payload)) => Some((to_text(&digits), to_text(&payload))),
        None => capture_pair(NODE_LINE_PATTERN, line),
    }
}

/// The identifier and the payload text that the two fields of a node line
/// stand for: the first field read as an index, the second as it is.
pub fn node_from_fields(fields: Option<(String, String)>) -> (r: Option<(usize, String)>)
    ensures
        match r {
            Some((id, payload)) => node_of_fields(pair_view(fields)) == Some((id, payload@)),
            None => node_of_fields(pair_view(fields)) is None,
        },
{
    match fields {
        Some((digits, payload)) => {
            let chars = to_chars(digits.as_str());
            match parse_index_chars(&chars) {
                Some(id) => Some((id, payload)),
                None => None,
            }
        },
        None => None,
    }
}

/// The indices that the tokens of an edge line denote.
fn read_edge_tokens(chars: &Vec<char>) -> (r: Option<Vec<usize>>)
    ensures
        match r {
            Some(nums) => parse_all(tokens(chars@)) == Some(nums@),
            None => parse_all(tokens(chars@)) is None,
        },
{
    let toks = tokens_chars(chars);
    let ghost all = tokens(chars@);
    let mut nums: Vec<usize> = Vec::new();
    let mut i: usize = 0;
    assert(all.take(0) == Seq::<Seq<char>>::empty());
    while i < toks.len()
        invariant
            i <= toks.len(),
            all == views(toks@),
            all == tokens(chars@),
            parse_all(all.take(i as int)) == Some(nums@),
        decreases toks.len() - i,
    {
        assert(all.take(i + 1).drop_last() == all.take(i as int));
        assert(all.take(i + 1).last() == toks@[i as int]@);
        match parse_index_chars(&toks[i]) {
            Some(x) => {
                nums.push(x);
            },
            None => {
                proof {
                    assert(parse_all(all.take(i + 1)) is None);
                    lemma_parse_all_prefix(all, i + 1);
                }
                return None;
            },
        }
        i = i + 1;
    }
    assert(all.take(i as int) == all);
    Some(nums)
}

/// Tokens of which some first ones denote no indices denote none as a whole.
proof fn lemma_parse_all_prefix(toks: Seq<Seq<char>>, k: int)
    requires
        0 <= k <= toks.len(),
        parse_all(toks.take(k)) is None,
    ensures
        parse_all(toks) is None,
    decreases toks.len() - k,
{
    if k == toks.len() {
        assert(toks.take(k) == toks);
    } else {
        assert(toks.take(k + 1).drop_last() == toks.take(k));
        lemma_parse_all_prefix(toks, k + 1);
    }
}

/// Adds to the node at position `nums[0]` an edge to each of the other
/// `nums`. Says `false` where that position holds no node, or where one of
/// the others is not among `node_ids`.
fn add_edges(nodes: &mut Vec<Node<String>>, node_ids: &Vec<usize>, nums: &Vec<usize>) -> (ok: bool)
    requires
        nums.len() > 0,
        node_ids@ == ids_of(doc_nodes(old(nodes)@)),
    ensures
        ok == (nums[0] < old(nodes).len() && all_declared(
            doc_nodes(old(nodes)@),
            nums@.drop_first(),
        )),
        ok ==> doc_nodes(final(nodes)@) == doc_nodes(old(nodes)@).update(
            nums[0] as int,
            doc_nodes(old(nodes)@)[nums[0] as int].with_adjacency(
                insert_all(doc_nodes(old(nodes)@)[nums[0] as int].adjacency, nums@.drop_first()),
            ),
        ),
{
    let ghost before = doc_nodes(nodes@);
    let src = nums[0];
    if src >= nodes.len() {
        return false;
    }
    let ghost targets = nums@.drop_first();
    let mut k: usize = 1;
    assert(targets.take(0) == Seq::<usize>::empty());
    assert(before.update(src as int, before[src as int].with_adjacency(before[src as int].adjacency))
        == before);
    while k < nums.len()
        invariant
            1 <= k <= nums.len(),
            targets == nums@.drop_first(),
            before == doc_nodes(old(nodes)@),
            src == nums[0],
            src < before.len(),
            nodes.len() == before.len(),
            node_ids@ == ids_of(before),
            all_declared(before, targets.take(k - 1)),
            doc_nodes(nodes@) == before.update(
                src as int,
                before[src as int].with_adjacency(
                    insert_all(before[src as int].adjacency, targets.take(k - 1)),
                ),
            ),
        decreases nums.len() - k,
    {
        let target = nums[k];
        assert(targets[k - 1] == target);
        if !contains_id(node_ids, target) {
            assert(!ids_of(before).contains(targets[k - 1]));
            return false;
        }
        let ghost done = doc_nodes(nodes@);
        nodes[src].add_path(target);
        proof {
            assert(targets.take(k as int).drop_last() == targets.take(k - 1));
            assert(doc_nodes(nodes@) == done.update(
                src as int,
                done[src as int].with_edge_to(target),
            ));
            assert forall|j: int| 0 <= j < targets.take(k as int).len() implies ids_of(
                before,
            ).contains(#[trigger] targets.take(k as int)[j]) by {
                if j < k - 1 {
                    assert(targets.take(k - 1)[j] == targets[j]);
                }
            }
        }
        k = k + 1;
    }
    assert(targets.take(k - 1) == targets);
    true
}

impl Graph<String> {
    /// Reads a graph from the lines of its text and keeps each payload as
    /// the text that its line holds.
    pub fn parse_tgf_lines(lines: &Vec<String>) -> (r: Result<Graph<String>, GraphError>)
        ensures
            match r {
                Ok(g) => parse_lines(texts(lines@)) == Some(g@.as_text()) && g.wf(),
                Err(e) => e == GraphError::TgfError && parse_lines(texts(lines@)) is None,
            },
    {
        let ghost all = texts(lines@);
        let ghost goal = parse_from(all, 0, false, Seq::empty());
        let mut nodes: Vec<Node<String>> = Vec::new();
        let mut node_ids: Vec<usize> = Vec::new();
        let mut in_edges = false;
        let mut i: usize = 0;
        assert(doc_nodes(nodes@) == Seq::<NodeModel<Seq<char>>>::empty());
        assert(node_ids@ == ids_of(doc_nodes(nodes@)));
        while i < lines.len()
            invariant
                i <= lines.len(),
                all == texts(lines@),
                goal == parse_from(all, 0, false, Seq::empty()),
                node_ids@ == ids_of(doc_nodes(nodes@)),
                parse_from(all, i as int, in_edges, doc_nodes(nodes@)) == goal,
            decreases lines.len() - i,
        {
            let line = &lines[i];
            let chars = to_chars(line.as_str());
            let ghost before = doc_nodes(nodes@);
            assert(all[i as int] == chars@);
            if chars.len() == 1 && chars[0] == '#' {
                assert(chars@ == separator());
                in_edges = true;
            } else if !in_edges {
                assert(chars@ != separator()) by {
                    if chars@ == separator() {
                        assert(chars@.len() == 1 && chars@[0] == '#');
                    }
                }
                match node_from_fields(split_node_line(line.as_str())) {
                    None => {
                        return Err(GraphError::TgfError);
                    },
                    Some((id, payload)) => {
                        if contains_id(&node_ids, id) {
                            return Err(GraphError::TgfError);
                        }
                        node_ids.push(id);
                        nodes.push(Node::new(id, payload));
                        assert(doc_nodes(nodes@) == before.push(NodeModel::fresh(id, payload@)));
                        assert(node_ids@ == ids_of(doc_nodes(nodes@)));
                    },
                }
            } else {
                assert(chars@ != separator()) by {
                    if chars@ == separator() {
                        assert(chars@.len() == 1 && chars@[0] == '#');
                    }
                }
                match read_edge_tokens(&chars) {
                    None => {
                        return Err(GraphError::TgfError);
                    },
                    Some(nums) => {
                        if nums.len() > 0 && !add_edges(&mut nodes, &node_ids, &nums) {
                            return Err(GraphError::TgfError);
                        }
                    },
                }
            }
            i = i + 1;
        }
        let mut max: usize = 0;
        let mut j: usize = 0;
        assert(node_ids@.take(0) == Seq::<usize>::empty());
        while j < node_ids.len()
            invariant
                j <= node_ids.len(),
                max == max_id(node_ids@.take(j as int)),
            decreases node_ids.len() - j,
        {
            assert(node_ids@.take(j + 1).drop_last() == node_ids@.take(j as int));
            if node_ids[j] > max {
                max = node_ids[j];
            }
            j = j + 1;
        }
        assert(node_ids@.take(j as int) == node_ids@);
        let next_id: usize = if node_ids.len() == 0 {
            0
        } else if max == usize::MAX {
            return Err(GraphError::TgfError);
        } else {
            max + 1
        };
        let g = Graph::from_parts(next_id, nodes);
        proof {
            lemma_parse_lines_wf(all);
            assert(g@.as_text().nodes == doc_nodes(nodes@));
            g@.lemma_as_text_wf();
        }
        Ok(g)
    }

    /// Reads a graph from its text and keeps each payload as the text that
    /// its line holds.
    pub fn parse_tgf_text(text: &str) -> (r: Result<Graph<String>, GraphError>)
        ensures
            match r {
                Ok(g) => parse_text(text@) == Some(g@.as_text()) && g.wf(),
                Err(e) => e == GraphError::TgfError && parse_text(text@) is None,
            },
    {
        let lines = lines_of(text);
        Graph::parse_tgf_lines(&lines)
    }
}

/// The lines of a text.
pub fn lines_of(text: &str) -> (lines: Vec<String>)
    ensures
        texts(lines@) == split_lines(text@),
{
    let chars = to_chars(text);
    let parts = split_lines_chars(&chars);
    let mut lines: Vec<String> = Vec::new();
    let mut i: usize = 0;
    while i < parts.len()
        invariant
            i <= parts.len(),
            texts(lines@) == views(parts@).take(i as int),
        decreases parts.len() - i,
    {
        let ghost before = texts(lines@);
        lines.push(to_text(&parts[i]));
        assert(texts(lines@) == before.push(parts@[i as int]@));
        i = i + 1;
    }
    assert(views(parts@).take(i as int) == views(parts@));
    lines
}

} // verus!
