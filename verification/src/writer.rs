//! The markup writer: from nodes to text.

use crate::dom::{attributes_view, nodes_view, Element, Node, NodeType, NodeView};
use crate::markup::{
    render_attribute, render_attributes, render_close_tag, render_node, render_nodes,
    render_open_tag,
};
use vstd::prelude::*;
use vstd::string::*;

verus! {

/// The text of a list with one more attribute is the text of the list and then that of the
/// attribute.
pub proof fn lemma_render_attributes_push(
    attrs: Seq<(Seq<char>, Seq<char>)>,
    a: (Seq<char>, Seq<char>),
)
    ensures
        render_attributes(attrs.push(a)) == render_attributes(attrs) + render_attribute(a),
    decreases attrs.len(),
{
    if attrs.len() == 0 {
        assert(attrs.push(a).drop_first() =~= Seq::empty());
        assert(render_attributes(Seq::empty()) =~= Seq::<char>::empty());
        assert(render_attributes(attrs.push(a)) =~= render_attribute(a));
        assert(render_attributes(attrs) + render_attribute(a) =~= render_attribute(a));
    } else {
        lemma_render_attributes_push(attrs.drop_first(), a);
        assert(attrs.push(a).drop_first() =~= attrs.drop_first().push(a));
        assert(render_attributes(attrs.push(a)) =~= render_attributes(attrs) + render_attribute(
            a,
        ));
    }
}

/// The text of a list with one more node is the text of the list and then that of the node.
pub proof fn lemma_render_nodes_push(ns: Seq<NodeView>, n: NodeView)
    ensures
        render_nodes(ns.push(n)) == render_nodes(ns) + render_node(n),
    decreases ns.len(),
{
    if ns.len() == 0 {
        assert(ns.push(n).drop_first() =~= Seq::empty());
        assert(render_nodes(Seq::empty()) =~= Seq::<char>::empty());
        assert(render_nodes(ns.push(n)) =~= render_node(n));
        assert(render_nodes(ns) + render_node(n) =~= render_node(n));
    } else {
        lemma_render_nodes_push(ns.drop_first(), n);
        assert(ns.push(n).drop_first() =~= ns.drop_first().push(n));
        assert(render_nodes(ns.push(n)) =~= render_nodes(ns) + render_node(n));
    }
}

/// Appends the text of `attrs` to `out`.
pub fn write_attributes(attrs: &Vec<(String, String)>, out: &mut String)
    ensures
        final(out)@ == old(out)@ + render_attributes(attributes_view(attrs@)),
{
    let mut k: usize = 0;
    assert(attributes_view(attrs@).take(0) =~= Seq::empty());
    assert(out@ + Seq::<char>::empty() =~= out@);
    while k < attrs.len()
        invariant
            k <= attrs.len(),
            out@ == old(out)@ + render_attributes(attributes_view(attrs@).take(k as int)),
        decreases attrs.len() - k,
    {
        let ghost before = out@;
        let ghost done = attributes_view(attrs@).take(k as int);
        let ghost a = attributes_view(attrs@)[k as int];
        out.push(' ');
        out.append(attrs[k].0.as_str());
        out.push('=');
        out.push('"');
        out.append(attrs[k].1.as_str());
        out.push('"');
        proof {
            assert(out@ =~= before + render_attribute(a));
            lemma_render_attributes_push(done, a);
            assert(attributes_view(attrs@).take(k + 1) =~= done.push(a));
            assert(out@ =~= old(out)@ + render_attributes(done.push(a)));
        }
        k = k + 1;
    }
    assert(attributes_view(attrs@).take(attrs.len() as int) =~= attributes_view(attrs@));
}

/// Appends the text of `n` to `out`.
pub fn write_node(n: &Node, out: &mut String)
    ensures
        final(out)@ == old(out)@ + render_node(n@),
    decreases n,
{
    match &n.node_type {
        NodeType::Text(t) => {
            out.append(t.as_str());
        },
        NodeType::Element(e) => {
            out.push('<');
            out.append(e.tag_name.as_str());
            write_attributes(&e.attributes, out);
            out.push('>');
            let ghost opened = out@;
            assert(opened =~= old(out)@ + render_open_tag(e@));
            write_nodes(&n.children, out);
            let ghost filled = out@;
            out.push('<');
            out.push('/');
            out.append(e.tag_name.as_str());
            out.push('>');
            assert(out@ =~= filled + render_close_tag(e@));
            assert(out@ =~= old(out)@ + render_node(n@));
        },
        NodeType::Document => {
            write_nodes(&n.children, out);
        },
    }
}

/// Appends the text of `ns` to `out`.
pub fn write_nodes(ns: &Vec<Node>, out: &mut String)
    ensures
        final(out)@ == old(out)@ + render_nodes(nodes_view(ns@)),
    decreases ns,
{
    let mut k: usize = 0;
    assert(nodes_view(ns@).take(0) =~= Seq::empty());
    assert(out@ + Seq::<char>::empty() =~= out@);
    while k < ns.len()
        invariant
            k <= ns.len(),
            out@ == old(out)@ + render_nodes(nodes_view(ns@).take(k as int)),
        decreases ns.len() - k,
    {
        let ghost done = nodes_view(ns@).take(k as int);
        let ghost n = ns@[k as int]@;
        write_node(&ns[k], out);
        proof {
            lemma_render_nodes_push(done, n);
            assert(nodes_view(ns@).take(k + 1) =~= done.push(n));
            assert(out@ =~= old(out)@ + render_nodes(done.push(n)));
        }
        k = k + 1;
    }
    assert(nodes_view(ns@).take(ns.len() as int) =~= nodes_view(ns@));
}

/// The text of `ns`.
pub fn render(ns: &Vec<Node>) -> (r: String)
    ensures
        r@ == render_nodes(nodes_view(ns@)),
{
    let mut out = String::new();
    write_nodes(ns, &mut out);
    assert(Seq::<char>::empty() + render_nodes(nodes_view(ns@)) =~= render_nodes(nodes_view(ns@)));
    out
}

} // verus!
