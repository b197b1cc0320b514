use graph::parse::{lines_of, node_from_fields};
use graph::text::{is_white_space_char, parse_index_chars, push_decimal, split_lines_chars, tokens_chars};
use graph::{Graph, GraphError};
use serde::ser::SerializeStruct;

const EXAMPLE: &str = "0 \"cat\"\n1 \"car\"\n2 \"cow\"\n#\n0 1 2\n2 0\n";

#[derive(Debug, Clone, PartialEq)]
struct S {
    number: i32,
    string: String,
}

impl serde::Serialize for S {
    fn serialize<Z: serde::Serializer>(&self, serializer: Z) -> Result<Z::Ok, Z::Error> {
        let mut state = serializer.serialize_struct("S", 2)?;
        state.serialize_field("number", &self.number)?;
        state.serialize_field("string", &self.string)?;
        state.end()
    }
}

impl<'de> serde::Deserialize<'de> for S {
    fn deserialize<D: serde::Deserializer<'de>>(deserializer: D) -> Result<Self, D::Error> {
        let value = serde_json::Value::deserialize(deserializer)?;
        let number = value.get("number").and_then(|n| n.as_i64());
        let string = value.get("string").and_then(|s| s.as_str());
        match (number, string) {
            (Some(number), Some(string)) => Ok(S { number: number as i32, string: string.to_string() }),
            _ => Err(serde::de::Error::custom("not an S")),
        }
    }
}

/// A payload that cannot be written as JSON.
struct Unwritable;

impl serde::Serialize for Unwritable {
    fn serialize<Z: serde::Serializer>(&self, _serializer: Z) -> Result<Z::Ok, Z::Error> {
        Err(serde::ser::Error::custom("unwritable"))
    }
}

fn chars(s: &str) -> Vec<char> {
    s.chars().collect()
}

fn strings(lines: &[&str]) -> Vec<String> {
    lines.iter().map(|l| l.to_string()).collect()
}

#[test]
fn tgf() {
    let mut graph: Graph<String> = Graph::new();
    let cat_id = graph.add_node("cat".to_string());
    let car_id = graph.add_node("car".to_string());
    let cow_id = graph.add_node("cow".to_string());

    graph.add_edge(cat_id, car_id).expect("id error");
    graph.add_edge(cat_id, cow_id).expect("id error");
    graph.add_edge(cow_id, cat_id).expect("id error");

    assert_eq!(graph.get_tgf().unwrap(), String::from("0 \"cat\"\n1 \"car\"\n2 \"cow\"\n#\n0 1 2\n2 0\n"));
}

#[test]
fn tgf_for_struct() {
    let mut graph: Graph<S> = Graph::new();
    let cat_id = graph.add_node(S { number: 34, string: "cat".to_string() });
    let car_id = graph.add_node(S { number: 567, string: "car".to_string() });
    let cow_id = graph.add_node(S { number: -44, string: "cow".to_string() });

    graph.add_edge(cat_id, car_id).expect("id error");
    graph.add_edge(cat_id, cow_id).expect("id error");
    graph.add_edge(cow_id, cat_id).expect("id error");

    println!("{}", graph.get_tgf().unwrap());
    assert_eq!(
        graph.get_tgf().unwrap(),
        "0 {\"number\":34,\"string\":\"cat\"}\n1 {\"number\":567,\"string\":\"car\"}\n2 {\"number\":-44,\"string\":\"cow\"}\n#\n0 1 2\n2 0\n"
    );
}

#[test]
fn from_tgf_file() {
    let graph: Graph<String> = Graph::from_tgf_text(EXAMPLE).unwrap();
    println!("{:?}", graph);
    assert_eq!(graph.get_data(&0).unwrap(), "cat");
    assert_eq!(graph.get_data(&1).unwrap(), "car");
    assert_eq!(graph.get_data(&2).unwrap(), "cow");
    assert_eq!(graph.get_adjacent_ids(&0).unwrap(), vec![1, 2]);
    assert_eq!(graph.get_adjacent_ids(&1).unwrap(), Vec::<usize>::new());
    assert_eq!(graph.get_adjacent_ids(&2).unwrap(), vec![0]);
}

#[test]
fn get_node_ids() {
    let graph: Graph<String> = Graph::from_tgf_text(EXAMPLE).unwrap();

    for id in graph.node_ids().unwrap().iter() {
        println!("{}", id);
    }

    println!("{:?}", graph);
    assert_eq!(graph.node_ids().unwrap(), vec![0, 1, 2]);
}

#[test]
fn example_text_comes_back_byte_for_byte() {
    let graph: Graph<String> = Graph::from_tgf_text(EXAMPLE).unwrap();
    assert_eq!(graph.get_tgf().unwrap(), EXAMPLE);
}

#[test]
fn graph_comes_back_from_its_text() {
    let mut graph: Graph<S> = Graph::new();
    let a = graph.add_node(S { number: 1, string: "one\ntwo".to_string() });
    let b = graph.add_node(S { number: -2, string: " # ".to_string() });
    let c = graph.add_node(S { number: 0, string: String::new() });
    graph.add_edge(c, a).unwrap();
    graph.add_edge(c, b).unwrap();
    graph.add_edge(a, a).unwrap();
    let text = graph.get_tgf().unwrap();
    let back: Graph<S> = Graph::from_tgf_text(&text).unwrap();
    for id in 0..3 {
        assert_eq!(back.get_data(&id), graph.get_data(&id));
        assert_eq!(back.get_adjacent_ids(&id), graph.get_adjacent_ids(&id));
    }
    assert_eq!(back.get_data(&3), Err(GraphError::IndexOutOfRange));
    assert_eq!(back.get_tgf().unwrap(), text);
    // the next identifier is one more than the greatest
    let mut back = back;
    assert_eq!(back.add_node(S { number: 9, string: "nine".to_string() }), 3);
}

#[test]
fn raw_graph_keeps_payload_text_as_it_stands() {
    let raw = Graph::<String>::parse_tgf_text(EXAMPLE).unwrap();
    assert_eq!(raw.get_data(&0).unwrap(), "\"cat\"");
    assert_eq!(raw.render_tgf(), EXAMPLE);
}

#[test]
fn empty_graph_is_the_separator_alone() {
    let graph: Graph<String> = Graph::new();
    assert_eq!(graph.get_tgf().unwrap(), "#\n");
}

#[test]
fn text_without_nodes_gives_next_identifier_zero() {
    let mut graph: Graph<String> = Graph::from_tgf_text("#\n").unwrap();
    assert_eq!(graph.next_id(), 0);
    assert_eq!(graph.get_tgf().unwrap(), "#\n");
    assert_eq!(graph.add_node("cat".to_string()), 0);
    assert_eq!(graph.get_data(&0).unwrap(), "cat");
    let mut graph: Graph<String> = Graph::from_tgf_text("").unwrap();
    assert_eq!(graph.next_id(), 0);
    assert_eq!(graph.add_node("a".to_string()), 0);
    let raw = Graph::<String>::parse_tgf_text("#\n").unwrap();
    assert_eq!(raw.next_id(), 0);
}

#[test]
fn empty_graph_comes_back_from_its_text() {
    let graph: Graph<String> = Graph::new();
    let text = graph.get_tgf().unwrap();
    let mut back: Graph<String> = Graph::from_tgf_text(&text).unwrap();
    assert_eq!(back.next_id(), graph.next_id());
    assert_eq!(back.get_tgf().unwrap(), text);
    assert_eq!(back.get_data(&0), Err(GraphError::IndexOutOfRange));
    assert_eq!(back.add_node("cat".to_string()), 0);
}

#[test]
fn text_with_node_zero_alone_gives_next_identifier_one() {
    let mut graph: Graph<u8> = Graph::from_tgf_text("0 5\n#\n").unwrap();
    assert_eq!(graph.next_id(), 1);
    assert_eq!(graph.add_node(6), 1);
}

#[test]
fn next_identifier_follows_the_greatest() {
    let mut graph: Graph<u8> = Graph::from_tgf_text("7 1\n3 2\n#\n").unwrap();
    assert_eq!(graph.add_node(3), 8);
    assert_eq!(graph.get_tgf().unwrap(), "7 1\n3 2\n8 3\n#\n");
}

#[test]
fn repeated_identifier_is_refused_before_the_separator() {
    let r = Graph::<String>::from_tgf_text("0 \"cat\"\n0 \"car\"\n");
    assert_eq!(r.err(), Some(GraphError::TgfError));
    let r = Graph::<String>::from_tgf_text("0 \"cat\"\n1 \"cow\"\n0 \"car\"\n#\n0 1\n");
    assert_eq!(r.err(), Some(GraphError::TgfError));
    // same number, written otherwise
    let r = Graph::<String>::from_tgf_text("1 \"cat\"\n01 \"car\"\n#\n");
    assert_eq!(r.err(), Some(GraphError::TgfError));
}

#[test]
fn malformed_node_line_is_refused() {
    for text in ["cat\n#\n", "0\n#\n", "0 \n#\n", "\n#\n", "x \"cat\"\n#\n", "0\"cat\"\n#\n"] {
        let r = Graph::<String>::from_tgf_text(text);
        assert_eq!(r.err(), Some(GraphError::TgfError), "{:?}", text);
    }
}

#[test]
fn payload_that_is_no_json_is_refused() {
    let r = Graph::<String>::from_tgf_text("0 cat\n#\n");
    assert_eq!(r.err(), Some(GraphError::TgfError));
    let r = Graph::<u8>::from_tgf_text("0 300\n#\n");
    assert_eq!(r.err(), Some(GraphError::TgfError));
    // the text itself is well formed
    assert!(Graph::<String>::parse_tgf_text("0 cat\n#\n").is_ok());
}

#[test]
fn payload_that_cannot_be_written_is_refused() {
    let mut graph: Graph<Unwritable> = Graph::new();
    graph.add_node(Unwritable);
    assert_eq!(graph.get_tgf(), Err(GraphError::TgfError));
}

#[test]
fn identifier_too_large_is_refused() {
    let r = Graph::<u8>::from_tgf_text("99999999999999999999999999 1\n#\n");
    assert_eq!(r.err(), Some(GraphError::TgfError));
    let text = format!("{} 1\n#\n", usize::MAX);
    let r = Graph::<u8>::from_tgf_text(&text);
    assert_eq!(r.err(), Some(GraphError::TgfError));
    let text = format!("{} 1\n#\n", usize::MAX - 1);
    assert!(Graph::<u8>::from_tgf_text(&text).is_ok());
}

#[test]
fn edge_to_undeclared_node_is_refused() {
    let r = Graph::<u8>::from_tgf_text("0 1\n1 2\n#\n0 1 5\n");
    assert_eq!(r.err(), Some(GraphError::TgfError));
}

#[test]
fn edge_from_missing_position_is_refused() {
    let r = Graph::<u8>::from_tgf_text("0 1\n1 2\n#\n2 0\n");
    assert_eq!(r.err(), Some(GraphError::TgfError));
    let r = Graph::<u8>::from_tgf_text("0 1\n1 2\n#\n2\n");
    assert_eq!(r.err(), Some(GraphError::TgfError));
}

#[test]
fn edge_token_that_is_no_number_is_refused() {
    for text in ["0 1\n#\nx 0\n", "0 1\n#\n0 x\n", "0 1\n#\n0 -0\n", "0 1\n#\n0 0.0\n"] {
        let r = Graph::<u8>::from_tgf_text(text);
        assert_eq!(r.err(), Some(GraphError::TgfError), "{:?}", text);
    }
}

#[test]
fn edge_lines_are_read_by_position_and_tokens() {
    // the first token is a position, the others are identifiers
    let graph = Graph::<u8>::from_tgf_text("5 1\n9 2\n#\n1 5 9 5\n\n  0\t+9  \n").unwrap();
    assert_eq!(graph.get_adjacent_ids(&0).unwrap(), vec![9]);
    assert_eq!(graph.get_adjacent_ids(&1).unwrap(), vec![5, 9]);
}

#[test]
fn later_separators_are_passed_over() {
    let graph = Graph::<u8>::from_tgf_text("0 1\n1 2\n#\n0 1\n#\n1 0\n").unwrap();
    assert_eq!(graph.get_adjacent_ids(&0).unwrap(), vec![1]);
    assert_eq!(graph.get_adjacent_ids(&1).unwrap(), vec![0]);
}

#[test]
fn node_lines_may_come_in_any_order() {
    let mut graph = Graph::<String>::from_tgf_text("2 \"b\"\n0 \"a\"\n#\n0 0\n").unwrap();
    assert_eq!(graph.get_data(&0).unwrap(), "b");
    assert_eq!(graph.get_data(&1).unwrap(), "a");
    assert_eq!(graph.get_adjacent_ids(&0).unwrap(), vec![0]);
    assert_eq!(graph.add_node("c".to_string()), 3);
}

#[test]
fn node_lines_that_only_the_pattern_reads() {
    // a tab between the fields, text before the digits, digits of another script
    let graph = Graph::<u8>::from_tgf_text("0\t7\nid 1 8\n#\n").unwrap();
    assert_eq!(graph.get_data(&0).unwrap(), 7);
    assert_eq!(graph.get_data(&1).unwrap(), 8);
    let r = Graph::<u8>::from_tgf_text("\u{0663} 7\n#\n");
    assert_eq!(r.err(), Some(GraphError::TgfError));
    let graph = Graph::<u8>::from_tgf_text("4\u{00a0}7\n#\n").unwrap();
    assert_eq!(graph.get_tgf().unwrap(), "4 7\n#\n");
}

#[test]
fn plain_node_lines_are_split_as_the_pattern_splits_them() {
    let pattern = regex::Regex::new(graph::parse::NODE_LINE_PATTERN).unwrap();
    for line in ["0 \"cat\"", "12 34 x", "007  x", "1 {\"a\": [1, 2]}", "5 \r", "3 #", "18446744073709551614 1"] {
        let caps = pattern.captures(line).unwrap();
        let id: usize = caps[1].parse().unwrap();
        let raw = Graph::<String>::parse_tgf_lines(&strings(&[line])).unwrap();
        assert_eq!(raw.render_tgf(), format!("{} {}\n#\n", id, &caps[2]), "{:?}", line);
    }
    // lines that are not in plain form: the pattern finds nothing in them either
    for line in ["5 ", "5", " ", "x y"] {
        assert!(pattern.captures(line).is_none());
        assert!(Graph::<String>::parse_tgf_lines(&strings(&[line])).is_err());
    }
}

#[test]
fn fields_of_a_node_line_become_identifier_and_payload() {
    assert_eq!(
        node_from_fields(Some(("12".to_string(), "\"cat\"".to_string()))),
        Some((12, "\"cat\"".to_string()))
    );
    assert_eq!(node_from_fields(Some(("007".to_string(), "x".to_string()))), Some((7, "x".to_string())));
    assert_eq!(node_from_fields(Some(("\u{0663}".to_string(), "x".to_string()))), None);
    assert_eq!(node_from_fields(Some(("".to_string(), "x".to_string()))), None);
    assert_eq!(node_from_fields(None), None);
}

#[test]
fn with_payloads_keeps_nodes_and_edges() {
    let graph: Graph<String> = Graph::from_tgf_text(EXAMPLE).unwrap();
    let other = graph.with_payloads(vec![Some(1u8), Some(2u8), Some(3u8)]).unwrap();
    assert_eq!(other.get_tgf().unwrap(), "0 1\n1 2\n2 3\n#\n0 1 2\n2 0\n");
    assert_eq!(graph.with_payloads(vec![Some(1u8), None, Some(3u8)]).err(), Some(GraphError::TgfError));
    assert_eq!(graph.with_payloads(vec![Some(1u8), Some(2u8)]).err(), Some(GraphError::TgfError));
    assert_eq!(graph.with_payloads(Vec::<Option<u8>>::new()).err(), Some(GraphError::TgfError));
}

#[test]
fn lines_end_at_line_feeds() {
    assert_eq!(lines_of(""), Vec::<String>::new());
    assert_eq!(lines_of("\n"), strings(&[""]));
    assert_eq!(lines_of("a"), strings(&["a"]));
    assert_eq!(lines_of("a\n"), strings(&["a"]));
    assert_eq!(lines_of("a\n\nb"), strings(&["a", "", "b"]));
    assert_eq!(lines_of("a\r\nb\r"), strings(&["a", "b\r"]));
    assert_eq!(lines_of("a\r\r\n\rb\n"), strings(&["a\r", "\rb"]));
    for text in ["", "\n", "a", "a\n", "a\n\nb", "a\r\nb\r", "a\r\r\n\rb\n", "\r\n\r\n", "x\ny\r\n\n"] {
        let expected: Vec<String> = text.lines().map(|l| l.to_string()).collect();
        assert_eq!(lines_of(text), expected, "{:?}", text);
        let split: Vec<String> = split_lines_chars(&chars(text)).iter().map(|l| l.iter().collect()).collect();
        assert_eq!(split, expected, "{:?}", text);
    }
}

#[test]
fn text_with_carriage_returns_is_read() {
    let graph = Graph::<String>::from_tgf_text("0 \"cat\"\r\n1 \"car\"\r\n#\r\n0 1\r\n").unwrap();
    assert_eq!(graph.get_tgf().unwrap(), "0 \"cat\"\n1 \"car\"\n#\n0 1\n");
}

#[test]
fn white_space_is_what_the_standard_library_says() {
    for n in 0..=0x10ffffu32 {
        if let Some(c) = char::from_u32(n) {
            assert_eq!(is_white_space_char(c), c.is_whitespace(), "U+{:04X}", n);
        }
    }
}

#[test]
fn tokens_are_what_split_whitespace_gives() {
    for line in ["", " ", "0 1 2", "  0\t1\u{a0}2\u{3000}", "a", "a  b", "\u{2003}x\u{85}y z\r"] {
        let expected: Vec<String> = line.split_whitespace().map(|t| t.to_string()).collect();
        let got: Vec<String> = tokens_chars(&chars(line)).iter().map(|t| t.iter().collect()).collect();
        assert_eq!(got, expected, "{:?}", line);
    }
}

#[test]
fn indices_are_read_as_the_standard_library_reads_them() {
    let max = usize::MAX.to_string();
    let over = format!("{}0", usize::MAX);
    let next = "18446744073709551616";
    for token in ["0", "7", "007", "+5", "+", "", "-1", "1x", "x1", " 1", "1 ", "12345", "++1", max.as_str(), over.as_str(), next, "\u{0663}"] {
        assert_eq!(parse_index_chars(&chars(token)), token.parse::<usize>().ok(), "{:?}", token);
    }
    assert_eq!(parse_index_chars(&chars("42")), Some(42));
}

#[test]
fn numbers_are_written_in_decimal() {
    for n in [0usize, 1, 9, 10, 11, 99, 100, 101, 12345, usize::MAX - 1, usize::MAX] {
        let mut out = chars("x");
        push_decimal(&mut out, n);
        let got: String = out.iter().collect();
        assert_eq!(got, format!("x{}", n));
    }
}
