//! The markup grammar: how a list of nodes is written as text, and which lists of nodes can
//! be read back from text.
//!
//! A text node is written as its characters. An element is written as `<tag`, then each
//! attribute as a space and `name="value"`, then `>`, its children, and `</tag>`. Nothing is
//! escaped, so a node list can only be read back when its text holds no `<`, its attribute
//! values hold no `"`, and its names hold name characters only.

use crate::dom::{ElementView, KindView, NodeView};
use vstd::prelude::*;

verus! {

/// The characters a tag or attribute name is made of: ASCII letters, digits, `-` and `_`.
pub open spec fn is_name_char(c: char) -> bool {
    ||| 'a' <= c <= 'z'
    ||| 'A' <= c <= 'Z'
    ||| '0' <= c <= '9'
    ||| c == '-'
    ||| c == '_'
}

/// A name is one or more name characters.
pub open spec fn is_name(s: Seq<char>) -> bool {
    &&& s.len() > 0
    &&& forall|i: int| 0 <= i < s.len() ==> is_name_char(#[trigger] s[i])
}

/// `s` holds no occurrence of `c`.
pub open spec fn free_of(s: Seq<char>, c: char) -> bool {
    forall|i: int| 0 <= i < s.len() ==> #[trigger] s[i] != c
}

/// One attribute as text: a space, the name, `="`, the value, `"`.
pub open spec fn render_attribute(attr: (Seq<char>, Seq<char>)) -> Seq<char> {
    seq![' '] + attr.0 + seq!['=', '"'] + attr.1 + seq!['"']
}

/// An attribute list as text: its attributes one after another.
pub open spec fn render_attributes(attrs: Seq<(Seq<char>, Seq<char>)>) -> Seq<char>
    decreases attrs.len(),
{
    if attrs.len() == 0 {
        Seq::empty()
    } else {
        render_attribute(attrs[0]) + render_attributes(attrs.drop_first())
    }
}

/// The opening tag of an element.
pub open spec fn render_open_tag(e: ElementView) -> Seq<char> {
    seq!['<'] + e.tag_name + render_attributes(e.attributes) + seq!['>']
}

/// The closing tag of an element.
pub open spec fn render_close_tag(e: ElementView) -> Seq<char> {
    seq!['<', '/'] + e.tag_name + seq!['>']
}

/// One node as text. A document node is written as its children alone.
pub open spec fn render_node(n: NodeView) -> Seq<char>
    decreases n,
{
    match n.kind {
        KindView::Text(t) => t,
        KindView::Element(e) => render_open_tag(e) + render_nodes(n.children) + render_close_tag(
            e,
        ),
        KindView::Document => render_nodes(n.children),
    }
}

/// A list of nodes as text: its nodes one after another.
pub open spec fn render_nodes(ns: Seq<NodeView>) -> Seq<char>
    decreases ns,
{
    if ns.len() == 0 {
        Seq::empty()
    } else {
        render_node(ns[0]) + render_nodes(ns.drop_first())
    }
}

/// An attribute that can be read back: its name is a name and its value holds no `"`.
pub open spec fn well_formed_attribute(attr: (Seq<char>, Seq<char>)) -> bool {
    is_name(attr.0) && free_of(attr.1, '"')
}

/// Every attribute of the list can be read back.
pub open spec fn well_formed_attributes(attrs: Seq<(Seq<char>, Seq<char>)>) -> bool {
    forall|i: int| 0 <= i < attrs.len() ==> well_formed_attribute(#[trigger] attrs[i])
}

/// A node that can be read back from its text: a non-empty text without `<` and without
/// children, or an element with a proper tag name, proper attributes and children that can
/// be read back. A document node never stands inside markup.
pub open spec fn well_formed_node(n: NodeView) -> bool
    decreases n,
{
    match n.kind {
        KindView::Text(t) => t.len() > 0 && free_of(t, '<') && n.children.len() == 0,
        KindView::Element(e) => is_name(e.tag_name) && well_formed_attributes(e.attributes)
            && well_formed_nodes(n.children),
        KindView::Document => false,
    }
}

/// A list of nodes that can be read back from its text: each node can, and no two text
/// nodes stand side by side (their text would run together).
pub open spec fn well_formed_nodes(ns: Seq<NodeView>) -> bool
    decreases ns,
{
    &&& forall|i: int| 0 <= i < ns.len() ==> well_formed_node(#[trigger] ns[i])
    &&& forall|i: int|
        0 <= i < ns.len() - 1 ==> !((#[trigger] ns[i]).kind is Text && ns[i + 1].kind is Text)
}

/// `markup` is the text of the well-formed node list `ns`.
pub open spec fn is_markup_of(markup: Seq<char>, ns: Seq<NodeView>) -> bool {
    well_formed_nodes(ns) && render_nodes(ns) == markup
}

/// `markup` is the text of some well-formed node list.
pub open spec fn is_markup(markup: Seq<char>) -> bool {
    exists|ns: Seq<NodeView>| is_markup_of(markup, ns)
}

/// What reading `markup` yields: the node list it is the text of, or the empty list when it
/// is the text of none.
pub open spec fn parse_markup(markup: Seq<char>) -> Seq<NodeView> {
    if is_markup(markup) {
        choose|ns: Seq<NodeView>| is_markup_of(markup, ns)
    } else {
        Seq::empty()
    }
}

} // verus!
