//! The node tree: the document model that scripts read and mutate.

use crate::markup::{parse_markup, render_nodes};
use crate::parser::parse_children;
use crate::writer::render;
use vstd::prelude::*;

verus! {

/// What an element node carries besides its children.
#[derive(Debug, PartialEq, Eq)]
pub struct Element {
    pub tag_name: String,
    pub attributes: Vec<(String, String)>,
}

/// The variants of a node.
#[derive(Debug, PartialEq, Eq)]
pub enum NodeType {
    /// The root container of a document.
    Document,
    /// A tagged container with attributes.
    Element(Element),
    /// A run of character data.
    Text(String),
}

/// One node of the tree. A node owns its children.
#[derive(Debug, PartialEq, Eq)]
pub struct Node {
    pub node_type: NodeType,
    pub children: Vec<Node>,
}

/// The mathematical value of an [`Element`].
pub struct ElementView {
    pub tag_name: Seq<char>,
    pub attributes: Seq<(Seq<char>, Seq<char>)>,
}

/// The mathematical value of a [`NodeType`].
pub enum KindView {
    Document,
    Element(ElementView),
    Text(Seq<char>),
}

/// The mathematical value of a [`Node`] and of everything below it.
pub struct NodeView {
    pub kind: KindView,
    pub children: Seq<NodeView>,
}

/// The value of an attribute list: each (name, value) pair by its characters, in order.
pub open spec fn attributes_view(attrs: Seq<(String, String)>) -> Seq<(Seq<char>, Seq<char>)> {
    Seq::new(attrs.len(), |i: int| (attrs[i].0@, attrs[i].1@))
}

/// The values of a list of nodes, in order.
pub open spec fn nodes_view(nodes: Seq<Node>) -> Seq<NodeView>
    decreases nodes,
{
    Seq::new(nodes.len(), |i: int| if 0 <= i < nodes.len() { nodes[i]@ } else { arbitrary() })
}

impl View for Element {
    type V = ElementView;

    open spec fn view(&self) -> ElementView {
        ElementView { tag_name: self.tag_name@, attributes: attributes_view(self.attributes@) }
    }
}

impl View for NodeType {
    type V = KindView;

    open spec fn view(&self) -> KindView {
        match self {
            NodeType::Document => KindView::Document,
            NodeType::Element(e) => KindView::Element(e@),
            NodeType::Text(t) => KindView::Text(t@),
        }
    }
}

impl View for Node {
    type V = NodeView;

    open spec fn view(&self) -> NodeView
        decreases self,
    {
        NodeView { kind: self.node_type@, children: nodes_view(self.children@) }
    }
}

/// The name of the attribute that identifies an element: `id`.
pub open spec fn id_name() -> Seq<char> {
    seq!['i', 'd']
}

/// The value that an attribute list gives to `name`: that of the last attribute so named.
pub open spec fn attribute_value(attrs: Seq<(Seq<char>, Seq<char>)>, name: Seq<char>) -> Option<
    Seq<char>,
>
    decreases attrs.len(),
{
    if attrs.len() == 0 {
        None
    } else if attrs.last().0 == name {
        Some(attrs.last().1)
    } else {
        attribute_value(attrs.drop_last(), name)
    }
}

/// The attributes of a node: those of an element, none for any other node.
pub open spec fn attributes_of(n: NodeView) -> Seq<(Seq<char>, Seq<char>)> {
    match n.kind {
        KindView::Element(e) => e.attributes,
        _ => Seq::empty(),
    }
}

/// The id of a node: what its attributes give to `id`. Derived from the attribute list
/// whenever it is asked for.
pub open spec fn id_of(n: NodeView) -> Option<Seq<char>> {
    attribute_value(attributes_of(n), id_name())
}

/// A container can hold children: every node but a text node.
pub open spec fn is_container(n: NodeView) -> bool {
    !(n.kind is Text)
}

/// The node after its inner markup is set: a container keeps its kind and gets what
/// `markup` reads as for children; any other node is left as it is.
pub open spec fn with_inner_html(n: NodeView, markup: Seq<char>) -> NodeView {
    if is_container(n) {
        NodeView { kind: n.kind, children: parse_markup(markup) }
    } else {
        n
    }
}

/// A copy of an attribute list.
pub fn clone_attributes(attrs: &Vec<(String, String)>) -> (r: Vec<(String, String)>)
    ensures
        r@ == attrs@,
{
    let mut r: Vec<(String, String)> = Vec::new();
    let mut k: usize = 0;
    while k < attrs.len()
        invariant
            k <= attrs.len(),
            r@ == attrs@.take(k as int),
        decreases attrs.len() - k,
    {
        r.push((attrs[k].0.clone(), attrs[k].1.clone()));
        assert(r@ =~= attrs@.take(k + 1));
        k = k + 1;
    }
    assert(attrs@.take(attrs.len() as int) =~= attrs@);
    r
}

/// What the attribute list gives to `name`.
pub fn lookup_attribute(attrs: &Vec<(String, String)>, name: &str) -> (r: Option<String>)
    ensures
        r matches Some(v) ==> attribute_value(attributes_view(attrs@), name@) == Some(v@),
        r is None ==> attribute_value(attributes_view(attrs@), name@) is None,
{
    let key = name.to_owned();
    let ghost all = attributes_view(attrs@);
    let mut k: usize = attrs.len();
    assert(all.take(k as int) =~= all);
    while k > 0
        invariant
            k <= attrs.len(),
            all == attributes_view(attrs@),
            key@ == name@,
            attribute_value(all, name@) == attribute_value(all.take(k as int), name@),
        decreases k,
    {
        k = k - 1;
        assert(all.take(k + 1).drop_last() =~= all.take(k as int));
        if attrs[k].0 == key {
            return Some(attrs[k].1.clone());
        }
    }
    None
}

impl Element {
    /// What the attributes give to `name`.
    pub fn attribute(&self, name: &str) -> (r: Option<String>)
        ensures
            r matches Some(v) ==> attribute_value(self@.attributes, name@) == Some(v@),
            r is None ==> attribute_value(self@.attributes, name@) is None,
    {
        lookup_attribute(&self.attributes, name)
    }

    /// The element's id, if its attributes give one.
    pub fn id(&self) -> (r: Option<String>)
        ensures
            r matches Some(v) ==> attribute_value(self@.attributes, id_name()) == Some(v@),
            r is None ==> attribute_value(self@.attributes, id_name()) is None,
    {
        proof {
            reveal_strlit("id");
            assert("id"@ =~= id_name());
        }
        self.attribute("id")
    }

    /// The element's attributes, in order.
    pub fn attributes(&self) -> (r: Vec<(String, String)>)
        ensures
            attributes_view(r@) == self@.attributes,
    {
        clone_attributes(&self.attributes)
    }
}

impl Node {
    /// Whether the node can hold children.
    pub fn is_container(&self) -> (b: bool)
        ensures
            b == is_container(self@),
    {
        match &self.node_type {
            NodeType::Text(_) => false,
            _ => true,
        }
    }

    /// The node's attributes, in order; none unless the node is an element.
    pub fn attributes(&self) -> (r: Vec<(String, String)>)
        ensures
            attributes_view(r@) == attributes_of(self@),
    {
        match &self.node_type {
            NodeType::Element(e) => e.attributes(),
            _ => {
                let r: Vec<(String, String)> = Vec::new();
                assert(attributes_view(r@) =~= Seq::empty());
                r
            },
        }
    }

    /// The node's id: that of an element whose attributes give one.
    pub fn id(&self) -> (r: Option<String>)
        ensures
            r matches Some(v) ==> id_of(self@) == Some(v@),
            r is None ==> id_of(self@) is None,
    {
        match &self.node_type {
            NodeType::Element(e) => e.id(),
            _ => None,
        }
    }

    /// The markup of the node's children.
    pub fn inner_html(&self) -> (r: String)
        ensures
            r@ == render_nodes(self@.children),
    {
        render(&self.children)
    }

    /// Replaces the children of a container by what `markup` reads as; markup that reads as
    /// nothing leaves the container empty. A node that is no container is left as it is.
    pub fn set_inner_html(&mut self, markup: &str)
        ensures
            final(self)@ == with_inner_html(old(self)@, markup@),
    {
        if self.is_container() {
            let children = parse_children(markup);
            self.children = children;
        }
    }
}

} // verus!
