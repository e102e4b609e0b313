//! The markup parser: from text to nodes.

use crate::descent::parse_nodes;
use crate::dom::{nodes_view, KindView, Node, NodeType, NodeView};
use crate::inverse::{lemma_parse_markup_is, lemma_reading_complete, lemma_reading_sound};
use crate::markup::{is_markup, is_markup_of, parse_markup};
use vstd::prelude::*;

verus! {

/// The characters of `s`, in order.
pub fn chars_of(s: &str) -> (v: Vec<char>)
    ensures
        v@ == s@,
{
    let mut v: Vec<char> = Vec::new();
    for c in it: s.chars()
        invariant
            v.len() == it.index(),
            forall|j: int| 0 <= j < v.len() ==> v@[j] == it.seq()[j],
    {
        v.push(c);
    }
    v
}

/// Reads `markup` as a list of nodes. Yields the list when `markup` is the text of a
/// well-formed node list, and nothing otherwise.
pub fn parse_fragment(markup: &str) -> (r: Option<Vec<Node>>)
    ensures
        r matches Some(v) ==> is_markup_of(markup@, nodes_view(v@)),
        r is None ==> !is_markup(markup@),
{
    let s = chars_of(markup);
    match parse_nodes(&s, 0) {
        Some((v, e)) => {
            if e == s.len() {
                proof {
                    lemma_reading_sound(s@);
                }
                Some(v)
            } else {
                proof {
                    if is_markup(s@) {
                        let ns = choose|ns: Seq<NodeView>| is_markup_of(s@, ns);
                        lemma_reading_complete(s@, ns);
                    }
                }
                None
            }
        },
        None => {
            proof {
                if is_markup(s@) {
                    let ns = choose|ns: Seq<NodeView>| is_markup_of(s@, ns);
                    lemma_reading_complete(s@, ns);
                }
            }
            None
        },
    }
}

/// Reads `markup` as a list of nodes, best effort: text that is the markup of no node list
/// yields the empty list.
pub fn parse_children(markup: &str) -> (v: Vec<Node>)
    ensures
        nodes_view(v@) == parse_markup(markup@),
{
    match parse_fragment(markup) {
        Some(v) => {
            proof {
                lemma_parse_markup_is(markup@, nodes_view(v@));
            }
            v
        },
        None => {
            let v: Vec<Node> = Vec::new();
            assert(nodes_view(v@) =~= Seq::empty());
            v
        },
    }
}

/// Reads a whole document: a document node whose children are what `markup` reads as.
pub fn parse(markup: &str) -> (doc: Node)
    ensures
        doc@ == (NodeView { kind: KindView::Document, children: parse_markup(markup@) }),
{
    Node { node_type: NodeType::Document, children: parse_children(markup) }
}

} // verus!
