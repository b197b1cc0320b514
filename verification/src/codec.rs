//! Graphs with payloads of any type, to and from the text format: the
//! payloads are turned into JSON text and back by `serde_json`.

use crate::error::GraphError;
use crate::graph::Graph;
use crate::model::GraphModel;
use crate::node::Node;
use crate::outside::{decode_payload, encode_payload};
use crate::parse::{lines_of, parse_lines, parse_text};
use crate::text::texts;
use crate::tgf::tgf_text;
use vstd::prelude::*;

verus! {

/// Each of `payloads` is there.
pub open spec fn all_some<U>(payloads: Seq<Option<U>>) -> bool {
    forall|i: int| 0 <= i < payloads.len() ==> (#[trigger] payloads[i]) is Some
}

/// What a list of payloads holds, where each of them is there.
pub open spec fn unwrapped<U>(payloads: Seq<Option<U>>) -> Seq<U> {
    payloads.map_values(|p: Option<U>| p->0)
}

impl<T> GraphModel<T> {
    /// Two graphs have the same identifiers, edges and next identifier.
    pub open spec fn same_shape<U>(self, other: GraphModel<U>) -> bool {
        &&& self.next_id == other.next_id
        &&& self.ids() == other.ids()
        &&& self.adjacency() == other.adjacency()
    }

    /// Other payloads leave identifiers and edges as they are.
    pub proof fn lemma_with_payloads_shape<U>(self, payloads: Seq<U>)
        ensures
            self.with_payloads(payloads).same_shape(self),
            self.wf() ==> self.with_payloads(payloads).wf(),
    {
        let g = self.with_payloads(payloads);
        assert(g.ids() =~= self.ids());
        assert(g.adjacency() =~= self.adjacency());
        if self.wf() {
            g.lemma_same_shape_wf(self);
        }
    }
}

impl<T> Graph<T> {
    /// A graph with the nodes and edges of this one and with the given
    /// payloads, in storage order. Fails where the number of payloads is not
    /// the number of nodes, or where one of the payloads is missing.
    pub fn with_payloads<U>(&self, payloads: Vec<Option<U>>) -> (r: Result<Graph<U>, GraphError>)
        ensures
            match r {
                Ok(g) => {
                    &&& payloads.len() == self@.nodes.len()
                    &&& all_some(payloads@)
                    &&& g@ == self@.with_payloads(unwrapped(payloads@))
                    &&& self.wf() ==> g.wf()
                },
                Err(e) => {
                    &&& e == GraphError::TgfError
                    &&& !(payloads.len() == self@.nodes.len() && all_some(payloads@))
                },
            },
    {
        let n = self.nodes.len();
        proof {
            self.lemma_view();
        }
        if payloads.len() != n {
            return Err(GraphError::TgfError);
        }
        let ghost target = self@.with_payloads(unwrapped(payloads@)).nodes;
        let mut rest = payloads;
        let mut reversed: Vec<Node<U>> = Vec::new();
        let mut i: usize = n;
        while i > 0
            invariant
                i <= n,
                n == self.nodes.len(),
                n == payloads.len(),
                n == target.len(),
                target == self@.with_payloads(unwrapped(payloads@)).nodes,
                rest@ == payloads@.take(i as int),
                reversed.len() == n - i,
                forall|j: int| i <= j < n ==> (#[trigger] payloads@[j]) is Some,
                forall|j: int| 0 <= j < n - i ==> (#[trigger] reversed@[j])@ == target[n - 1 - j],
            decreases i,
        {
            i = i - 1;
            assert(rest@.last() == payloads@[i as int]);
            match rest.pop() {
                Some(Some(data)) => {
                    proof {
                        self.lemma_view();
                    }
                    let node = Node::with_paths(self.nodes[i].id(), data, self.nodes[i].paths());
                    assert(node@ == target[i as int]);
                    reversed.push(node);
                    assert(rest@ == payloads@.take(i as int));
                },
                _ => {
                    assert(!(payloads@[i as int] is Some));
                    return Err(GraphError::TgfError);
                },
            }
        }
        let mut nodes: Vec<Node<U>> = Vec::new();
        while reversed.len() > 0
            invariant
                n == target.len(),
                nodes.len() + reversed.len() == n,
                forall|j: int| 0 <= j < reversed.len() ==> (#[trigger] reversed@[j])@ == target[n - 1
                    - j],
                forall|j: int| 0 <= j < nodes.len() ==> (#[trigger] nodes@[j])@ == target[j],
            decreases reversed.len(),
        {
            let node = reversed.pop().unwrap();
            nodes.push(node);
        }
        let g = Graph::from_parts(self.next_id, nodes);
        proof {
            assert(g@.nodes =~= target);
            self@.lemma_with_payloads_shape(unwrapped(payloads@));
        }
        Ok(g)
    }

    /// The text of this graph, with each payload as the JSON text that
    /// `serde_json` gives for it. Fails where a payload cannot be encoded.
    pub fn get_tgf(&self) -> (r: Result<String, GraphError>) where T: serde::Serialize
        ensures
            match r {
                Ok(text) => exists|payloads: Seq<Seq<char>>|
                    payloads.len() == self@.nodes.len() && text@ == tgf_text(
                        #[trigger] self@.with_payloads(payloads),
                    ),
                Err(e) => e == GraphError::TgfError && self@.nodes.len() > 0,
            },
    {
        let n = self.nodes.len();
        proof {
            self.lemma_view();
        }
        let mut encoded: Vec<Option<String>> = Vec::new();
        let mut i: usize = 0;
        while i < n
            invariant
                i <= n,
                n == self.nodes.len(),
                n == self@.nodes.len(),
                encoded.len() == i,
                all_some(encoded@),
            decreases n - i,
        {
            match encode_payload(self.nodes[i].data_ref()) {
                Ok(text) => {
                    encoded.push(Some(text));
                },
                Err(_) => {
                    return Err(GraphError::TgfError);
                },
            }
            i = i + 1;
        }
        match self.with_payloads(encoded) {
            Ok(raw) => {
                let text = raw.render_tgf();
                proof {
                    let payloads = texts(unwrapped(encoded@));
                    assert(raw@.as_text().nodes =~= self@.with_payloads(payloads).nodes);
                    assert(raw@.as_text() == self@.with_payloads(payloads));
                }
                Ok(text)
            },
            Err(e) => Err(e),
        }
    }

    /// Reads a graph from the lines of its text; `serde_json` turns the text
    /// of each payload into a value of `T`. Fails where the lines are not
    /// the text of a graph, or where a payload cannot be decoded.
    pub fn from_tgf_lines(lines: &Vec<String>) -> (r: Result<Graph<T>, GraphError>) where
        T: serde::de::DeserializeOwned,

        ensures
            match r {
                Ok(g) => {
                    &&& g.wf()
                    &&& parse_lines(texts(lines@)) matches Some(doc) && g@.same_shape(doc)
                },
                Err(e) => {
                    &&& e == GraphError::TgfError
                    &&& parse_lines(texts(lines@)) matches Some(doc) ==> doc.nodes.len() > 0
                },
            },
    {
        let raw = match Graph::<String>::parse_tgf_lines(lines) {
            Ok(raw) => raw,
            Err(e) => {
                return Err(e);
            },
        };
        let n = raw.nodes.len();
        proof {
            raw.lemma_view();
        }
        let mut decoded: Vec<Option<T>> = Vec::new();
        let mut i: usize = 0;
        while i < n
            invariant
                i <= n,
                n == raw.nodes.len(),
                n == raw@.nodes.len(),
                parse_lines(texts(lines@)) == Some(raw@.as_text()),
                decoded.len() == i,
                all_some(decoded@),
            decreases n - i,
        {
            match decode_payload::<T>(raw.nodes[i].data_ref().as_str()) {
                Ok(data) => {
                    decoded.push(Some(data));
                },
                Err(_) => {
                    return Err(GraphError::TgfError);
                },
            }
            i = i + 1;
        }
        match raw.with_payloads(decoded) {
            Ok(g) => {
                proof {
                    raw@.lemma_with_payloads_shape(unwrapped(decoded@));
                    assert(raw@.ids() =~= raw@.as_text().ids());
                    assert(raw@.adjacency() =~= raw@.as_text().adjacency());
                }
                Ok(g)
            },
            Err(e) => Err(e),
        }
    }

    /// Reads a graph from its text; `serde_json` turns the text of each
    /// payload into a value of `T`.
    pub fn from_tgf_text(text: &str) -> (r: Result<Graph<T>, GraphError>) where
        T: serde::de::DeserializeOwned,

        ensures
            match r {
                Ok(g) => {
                    &&& g.wf()
                    &&& parse_text(text@) matches Some(doc) && g@.same_shape(doc)
                },
                Err(e) => {
                    &&& e == GraphError::TgfError
                    &&& parse_text(text@) matches Some(doc) ==> doc.nodes.len() > 0
                },
            },
    {
        let lines = lines_of(text);
        Graph::from_tgf_lines(&lines)
    }
}

} // verus!
