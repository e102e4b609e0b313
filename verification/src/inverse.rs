//! Reading inverts rendering: the proofs that the recursive-descent reading of
//! [`crate::descent`] yields a node list exactly when the text is the markup of one, and
//! then yields that list.

use crate::descent::{at_close, name_end, read_attributes, read_element, read_nodes, run_end};
use crate::dom::{ElementView, KindView, NodeView};
use crate::markup::{
    is_markup, is_markup_of, is_name, is_name_char, parse_markup, render_attribute,
    render_attributes, render_close_tag, render_node, render_nodes, render_open_tag,
    well_formed_attribute, well_formed_attributes, well_formed_node, well_formed_nodes,
};
use vstd::prelude::*;

verus! {

/// `t` stands in `s` at position `i`.
pub open spec fn occurs_at(s: Seq<char>, i: int, t: Seq<char>) -> bool {
    0 <= i && i + t.len() <= s.len() && s.subrange(i, i + t.len()) == t
}

/// Where `t` stands in `s` at `i`, each character of `t` is the character of `s` at its place.
proof fn lemma_occurs_index(s: Seq<char>, i: int, t: Seq<char>, k: int)
    requires
        occurs_at(s, i, t),
        0 <= k < t.len(),
    ensures
        s[i + k] == t[k],
{
    assert(s.subrange(i, i + t.len())[k] == s[i + k]);
}

/// Two texts in a row stand at `i` exactly when the first stands at `i` and the second right
/// after it.
proof fn lemma_occurs_concat(s: Seq<char>, i: int, a: Seq<char>, b: Seq<char>)
    ensures
        occurs_at(s, i, a + b) <==> occurs_at(s, i, a) && occurs_at(s, i + a.len(), b),
{
    if occurs_at(s, i, a + b) {
        let w = s.subrange(i, i + (a + b).len());
        assert forall|k: int| 0 <= k < a.len() implies s.subrange(i, i + a.len())[k] == a[k] by {
            assert(w[k] == (a + b)[k]);
        }
        assert(s.subrange(i, i + a.len()) =~= a);
        assert forall|k: int| 0 <= k < b.len() implies s.subrange(
            i + a.len(),
            i + a.len() + b.len(),
        )[k] == b[k] by {
            assert(w[a.len() + k] == (a + b)[a.len() + k]);
        }
        assert(s.subrange(i + a.len(), i + a.len() + b.len()) =~= b);
    }
    if occurs_at(s, i, a) && occurs_at(s, i + a.len(), b) {
        let u = s.subrange(i, i + a.len());
        let v = s.subrange(i + a.len(), i + a.len() + b.len());
        assert forall|k: int| 0 <= k < (a + b).len() implies s.subrange(i, i + (a + b).len())[k]
            == (a + b)[k] by {
            if k < a.len() {
                assert(u[k] == a[k]);
            } else {
                assert(v[k - a.len()] == b[k - a.len()]);
            }
        }
        assert(s.subrange(i, i + (a + b).len()) =~= a + b);
    }
}

/// A range of `s` is its part up to `j` and then its part from `j` on.
proof fn lemma_subrange_concat(s: Seq<char>, i: int, j: int, k: int)
    requires
        0 <= i <= j <= k <= s.len(),
    ensures
        s.subrange(i, k) == s.subrange(i, j) + s.subrange(j, k),
{
    assert(s.subrange(i, k) =~= s.subrange(i, j) + s.subrange(j, k));
}

/// What [`name_end`] gives: the end of a run of name characters that no name character
/// follows.
proof fn lemma_name_end(s: Seq<char>, i: int)
    requires
        0 <= i <= s.len(),
    ensures
        i <= name_end(s, i) <= s.len(),
        forall|k: int| i <= k < name_end(s, i) ==> is_name_char(#[trigger] s[k]),
        name_end(s, i) < s.len() ==> !is_name_char(s[name_end(s, i)]),
    decreases s.len() - i,
{
    if i < s.len() && is_name_char(s[i]) {
        lemma_name_end(s, i + 1);
    }
}

/// A run of name characters from `i` to `j` that no name character follows ends at `j`.
proof fn lemma_name_end_is(s: Seq<char>, i: int, j: int)
    requires
        0 <= i <= j <= s.len(),
        forall|k: int| i <= k < j ==> is_name_char(#[trigger] s[k]),
        j < s.len() ==> !is_name_char(s[j]),
    ensures
        name_end(s, i) == j,
    decreases j - i,
{
    if i < j {
        lemma_name_end_is(s, i + 1, j);
    }
}

/// What [`run_end`] gives: the end of a run free of `stop`, at the first `stop` or at the end
/// of `s`.
proof fn lemma_run_end(s: Seq<char>, i: int, stop: char)
    requires
        0 <= i <= s.len(),
    ensures
        i <= run_end(s, i, stop) <= s.len(),
        forall|k: int| i <= k < run_end(s, i, stop) ==> #[trigger] s[k] != stop,
        run_end(s, i, stop) < s.len() ==> s[run_end(s, i, stop)] == stop,
    decreases s.len() - i,
{
    if i < s.len() && s[i] != stop {
        lemma_run_end(s, i + 1, stop);
    }
}

/// A run from `i` to `j` that is free of `stop` and meets `stop` or the end of `s` at `j`
/// ends at `j`.
proof fn lemma_run_end_is(s: Seq<char>, i: int, j: int, stop: char)
    requires
        0 <= i <= j <= s.len(),
        forall|k: int| i <= k < j ==> #[trigger] s[k] != stop,
        j < s.len() ==> s[j] == stop,
    ensures
        run_end(s, i, stop) == j,
    decreases j - i,
{
    if i < j {
        lemma_run_end_is(s, i + 1, j, stop);
    }
}

/// A well-formed list is a well-formed first node before a well-formed rest, the two not
/// both text where they meet.
proof fn lemma_well_formed_split(ns: Seq<NodeView>)
    requires
        ns.len() > 0,
    ensures
        well_formed_nodes(ns) <==> well_formed_node(ns[0]) && well_formed_nodes(ns.drop_first())
            && !(ns.len() > 1 && ns[0].kind is Text && ns[1].kind is Text),
{
    let rest = ns.drop_first();
    if well_formed_nodes(ns) {
        assert forall|i: int| 0 <= i < rest.len() implies well_formed_node(#[trigger] rest[i]) by {
            assert(rest[i] == ns[i + 1]);
        }
        assert forall|i: int| 0 <= i < rest.len() - 1 implies !((#[trigger] rest[i]).kind is Text
            && rest[i + 1].kind is Text) by {
            assert(rest[i] == ns[i + 1]);
            assert(rest[i + 1] == ns[i + 2]);
        }
        assert(well_formed_nodes(rest));
        if ns.len() > 1 {
            assert(!(ns[0int].kind is Text && ns[0int + 1].kind is Text));
        }
    }
    if well_formed_node(ns[0]) && well_formed_nodes(rest) && !(ns.len() > 1 && ns[0].kind is Text
        && ns[1].kind is Text) {
        assert forall|i: int| 0 <= i < ns.len() implies well_formed_node(#[trigger] ns[i]) by {
            if i > 0 {
                assert(ns[i] == rest[i - 1]);
            }
        }
        assert forall|i: int| 0 <= i < ns.len() - 1 implies !((#[trigger] ns[i]).kind is Text
            && ns[i + 1].kind is Text) by {
            if i > 0 {
                assert(ns[i] == rest[i - 1]);
                assert(ns[i + 1] == rest[i - 1 + 1]);
            }
        }
        assert(well_formed_nodes(ns));
    }
}

/// The attributes read are well formed, and what was read is their text; no space follows.
proof fn lemma_read_attributes_sound(s: Seq<char>, i: int)
    requires
        0 <= i <= s.len(),
        read_attributes(s, i) is Some,
    ensures
        ({
            let (attrs, e) = read_attributes(s, i).unwrap();
            &&& i <= e <= s.len()
            &&& well_formed_attributes(attrs)
            &&& s.subrange(i, e) == render_attributes(attrs)
            &&& e < s.len() ==> s[e] != ' '
        }),
    decreases s.len() - i,
{
    if i < s.len() && s[i] == ' ' {
        let j = name_end(s, i + 1);
        let k = run_end(s, j + 2, '"');
        lemma_name_end(s, i + 1);
        lemma_run_end(s, j + 2, '"');
        let (rest, e) = read_attributes(s, k + 1).unwrap();
        lemma_read_attributes_sound(s, k + 1);
        let a = (s.subrange(i + 1, j), s.subrange(j + 2, k));
        let attrs = seq![a] + rest;
        assert(attrs.drop_first() =~= rest);
        assert(attrs[0] == a);
        assert forall|x: int| 0 <= x < a.0.len() implies is_name_char(#[trigger] a.0[x]) by {
            assert(a.0[x] == s[i + 1 + x]);
        }
        assert forall|x: int| 0 <= x < a.1.len() implies #[trigger] a.1[x] != '"' by {
            assert(a.1[x] == s[j + 2 + x]);
        }
        assert(well_formed_attribute(a));
        assert forall|x: int| 0 <= x < attrs.len() implies well_formed_attribute(
            #[trigger] attrs[x],
        ) by {
            if x > 0 {
                assert(attrs[x] == rest[x - 1]);
            }
        }
        assert(s.subrange(i, i + 1) =~= seq![' ']);
        assert(s.subrange(j, j + 2) =~= seq!['=', '"']);
        assert(s.subrange(k, k + 1) =~= seq!['"']);
        lemma_subrange_concat(s, i, i + 1, j);
        lemma_subrange_concat(s, i, j, j + 2);
        lemma_subrange_concat(s, i, j + 2, k);
        lemma_subrange_concat(s, i, k, k + 1);
        lemma_subrange_concat(s, i, k + 1, e);
        assert(s.subrange(i, k + 1) == render_attribute(a));
    } else {
        assert(s.subrange(i, i) =~= Seq::<char>::empty());
    }
}

/// The nodes read are a well-formed list, and what was read is their text; the end of `s`
/// or a closing tag follows, and the first node is a text node exactly when the reading
/// began at a character other than `<`.
proof fn lemma_read_nodes_sound(s: Seq<char>, i: int)
    requires
        0 <= i <= s.len(),
        read_nodes(s, i) is Some,
    ensures
        ({
            let (ns, e) = read_nodes(s, i).unwrap();
            &&& i <= e <= s.len()
            &&& well_formed_nodes(ns)
            &&& s.subrange(i, e) == render_nodes(ns)
            &&& (e == s.len() || at_close(s, e))
            &&& ns.len() > 0 ==> i < s.len() && (ns[0].kind is Text <==> s[i] != '<')
        }),
    decreases s.len() - i, 1int,
{
    if !(i < s.len()) || at_close(s, i) {
        assert(s.subrange(i, i) =~= Seq::<char>::empty());
    } else if s[i] == '<' {
        let (n, j) = read_element(s, i).unwrap();
        lemma_read_element_sound(s, i);
        let (rest, e) = read_nodes(s, j).unwrap();
        lemma_read_nodes_sound(s, j);
        let ns = seq![n] + rest;
        assert(ns.drop_first() =~= rest);
        assert(ns[0] == n);
        if ns.len() > 1 {
            assert(ns[1] == rest[0]);
        }
        lemma_well_formed_split(ns);
        lemma_subrange_concat(s, i, j, e);
        assert(render_nodes(ns) == render_node(n) + render_nodes(rest));
        assert(read_nodes(s, i) == Some((ns, e)));
    } else {
        let j = run_end(s, i, '<');
        lemma_run_end(s, i, '<');
        let (rest, e) = read_nodes(s, j).unwrap();
        lemma_read_nodes_sound(s, j);
        let t = s.subrange(i, j);
        let n = NodeView { kind: KindView::Text(t), children: Seq::empty() };
        let ns = seq![n] + rest;
        assert(ns.drop_first() =~= rest);
        assert(ns[0] == n);
        if ns.len() > 1 {
            assert(ns[1] == rest[0]);
        }
        assert forall|x: int| 0 <= x < t.len() implies #[trigger] t[x] != '<' by {
            assert(t[x] == s[i + x]);
        }
        assert(well_formed_node(n));
        lemma_well_formed_split(ns);
        lemma_subrange_concat(s, i, j, e);
        assert(render_node(n) == t);
        assert(render_nodes(ns) == render_node(n) + render_nodes(rest));
        assert(read_nodes(s, i) == Some((ns, e)));
    }
}

/// The element read is well formed, and what was read is its text.
proof fn lemma_read_element_sound(s: Seq<char>, i: int)
    requires
        0 <= i < s.len(),
        s[i] == '<',
        read_element(s, i) is Some,
    ensures
        ({
            let (n, e) = read_element(s, i).unwrap();
            &&& i < e <= s.len()
            &&& well_formed_node(n)
            &&& n.kind is Element
            &&& s.subrange(i, e) == render_node(n)
        }),
    decreases s.len() - i, 0int,
{
    let j = name_end(s, i + 1);
    lemma_name_end(s, i + 1);
    let (attrs, k) = read_attributes(s, j).unwrap();
    lemma_read_attributes_sound(s, j);
    let (children, m) = read_nodes(s, k + 1).unwrap();
    lemma_read_nodes_sound(s, k + 1);
    let tag = s.subrange(i + 1, j);
    let e = m + 3 + tag.len();
    let el = ElementView { tag_name: tag, attributes: attrs };
    let n = NodeView { kind: KindView::Element(el), children };
    assert(read_element(s, i).unwrap() == (n, e));
    assert forall|x: int| 0 <= x < tag.len() implies is_name_char(#[trigger] tag[x]) by {
        assert(tag[x] == s[i + 1 + x]);
    }
    assert(is_name(tag));
    assert(well_formed_node(n));
    assert(s.subrange(i, i + 1) =~= seq!['<']);
    assert(s.subrange(k, k + 1) =~= seq!['>']);
    lemma_subrange_concat(s, i, i + 1, j);
    lemma_subrange_concat(s, i, j, k);
    lemma_subrange_concat(s, i, k, k + 1);
    assert(s.subrange(i, k + 1) == render_open_tag(el));
    assert(s.subrange(m, m + 2) =~= seq!['<', '/']);
    assert(s.subrange(e - 1, e) =~= seq!['>']);
    lemma_subrange_concat(s, m, m + 2, e - 1);
    lemma_subrange_concat(s, m, e - 1, e);
    assert(s.subrange(m, e) == render_close_tag(el));
    lemma_subrange_concat(s, i, k + 1, m);
    lemma_subrange_concat(s, i, m, e);
}

/// Where the text of well-formed attributes stands at `i` and no space follows it, reading
/// at `i` yields those attributes and ends after their text.
proof fn lemma_read_attributes_complete(
    s: Seq<char>,
    i: int,
    attrs: Seq<(Seq<char>, Seq<char>)>,
)
    requires
        well_formed_attributes(attrs),
        occurs_at(s, i, render_attributes(attrs)),
        i + render_attributes(attrs).len() < s.len() ==> s[i + render_attributes(attrs).len()]
            != ' ',
    ensures
        read_attributes(s, i) == Some((attrs, i + render_attributes(attrs).len())),
    decreases attrs.len(),
{
    if attrs.len() == 0 {
        assert(attrs =~= Seq::empty());
    } else {
        let a = attrs[0];
        let rest = attrs.drop_first();
        let name = a.0;
        let value = a.1;
        let j = i + 1 + name.len();
        let k = j + 2 + value.len();
        assert(well_formed_attribute(a));
        assert forall|x: int| 0 <= x < rest.len() implies well_formed_attribute(
            #[trigger] rest[x],
        ) by {
            assert(rest[x] == attrs[x + 1]);
        }
        let r1 = seq![' '] + name;
        let r2 = r1 + seq!['=', '"'];
        let r3 = r2 + value;
        let r4 = r3 + seq!['"'];
        assert(render_attribute(a) == r4);
        lemma_occurs_concat(s, i, r4, render_attributes(rest));
        lemma_occurs_concat(s, i, r3, seq!['"']);
        lemma_occurs_concat(s, i, r2, value);
        lemma_occurs_concat(s, i, r1, seq!['=', '"']);
        lemma_occurs_concat(s, i, seq![' '], name);
        lemma_occurs_index(s, i, seq![' '], 0);
        lemma_occurs_index(s, j, seq!['=', '"'], 0);
        lemma_occurs_index(s, j, seq!['=', '"'], 1);
        lemma_occurs_index(s, k, seq!['"'], 0);
        assert forall|x: int| i + 1 <= x < j implies is_name_char(#[trigger] s[x]) by {
            lemma_occurs_index(s, i + 1, name, x - (i + 1));
        }
        lemma_name_end_is(s, i + 1, j);
        assert forall|x: int| j + 2 <= x < k implies #[trigger] s[x] != '"' by {
            lemma_occurs_index(s, j + 2, value, x - (j + 2));
        }
        lemma_run_end_is(s, j + 2, k, '"');
        lemma_read_attributes_complete(s, k + 1, rest);
        assert(s.subrange(i + 1, j) == name);
        assert(s.subrange(j + 2, k) == value);
        assert(seq![a] + rest =~= attrs);
    }
}

/// The text of an element begins with `<` and the first character of its tag name.
proof fn lemma_element_start(n: NodeView, el: ElementView)
    requires
        n.kind == KindView::Element(el),
        is_name(el.tag_name),
    ensures
        render_node(n).len() >= 2,
        render_node(n)[0] == '<',
        render_node(n)[1] == el.tag_name[0],
{
    let o1 = seq!['<'] + el.tag_name;
    let o2 = o1 + render_attributes(el.attributes);
    let open = o2 + seq!['>'];
    assert(render_open_tag(el) == open);
    assert(o1[0] == '<');
    assert(o1[1] == el.tag_name[0]);
    assert(open[0] == '<');
    assert(open[1] == el.tag_name[0]);
    let front = open + render_nodes(n.children);
    assert(front[0] == '<');
    assert(front[1] == el.tag_name[0]);
}

/// Where the text of a well-formed node list stands at `i`, followed by the end of `s` or by
/// a closing tag, reading at `i` yields that list and ends after its text.
proof fn lemma_read_nodes_complete(s: Seq<char>, i: int, ns: Seq<NodeView>)
    requires
        well_formed_nodes(ns),
        occurs_at(s, i, render_nodes(ns)),
        i + render_nodes(ns).len() == s.len() || at_close(s, i + render_nodes(ns).len()),
    ensures
        read_nodes(s, i) == Some((ns, i + render_nodes(ns).len())),
    decreases ns,
{
    let e = i + render_nodes(ns).len();
    if ns.len() == 0 {
        assert(ns =~= Seq::empty());
    } else {
        let n = ns[0];
        let rest = ns.drop_first();
        lemma_well_formed_split(ns);
        lemma_occurs_concat(s, i, render_node(n), render_nodes(rest));
        let j = i + render_node(n).len();
        match n.kind {
            KindView::Text(t) => {
                assert(render_node(n) == t);
                lemma_occurs_index(s, i, t, 0);
                assert forall|x: int| i <= x < j implies #[trigger] s[x] != '<' by {
                    lemma_occurs_index(s, i, t, x - i);
                }
                if rest.len() > 0 {
                    let r = rest[0];
                    assert(r == ns[1]);
                    lemma_well_formed_split(rest);
                    match r.kind {
                        KindView::Element(el) => {
                            lemma_element_start(r, el);
                            assert(render_nodes(rest)[0] == '<');
                            lemma_occurs_index(s, j, render_nodes(rest), 0);
                        },
                        _ => {},
                    }
                }
                lemma_run_end_is(s, i, j, '<');
                lemma_read_nodes_complete(s, j, rest);
                assert(n.children =~= Seq::empty());
                assert(s.subrange(i, j) == t);
                assert(seq![n] + rest =~= ns);
            },
            KindView::Element(el) => {
                lemma_element_start(n, el);
                lemma_occurs_index(s, i, render_node(n), 0);
                lemma_occurs_index(s, i, render_node(n), 1);
                assert(!at_close(s, i));
                lemma_read_element_complete(s, i, n);
                lemma_read_nodes_complete(s, j, rest);
                assert(seq![n] + rest =~= ns);
            },
            KindView::Document => {},
        }
    }
}

/// Where the text of a well-formed element stands at `i`, reading at `i` yields that element
/// and ends after its text.
proof fn lemma_read_element_complete(s: Seq<char>, i: int, n: NodeView)
    requires
        well_formed_node(n),
        n.kind is Element,
        occurs_at(s, i, render_node(n)),
    ensures
        read_element(s, i) == Some((n, i + render_node(n).len())),
    decreases n,
{
    match n.kind {
        KindView::Element(el) => {
            let tag = el.tag_name;
            let attrs = el.attributes;
            let open = render_open_tag(el);
            let close = render_close_tag(el);
            let body = render_nodes(n.children);
            assert(render_node(n) == (open + body) + close);
            lemma_occurs_concat(s, i, open + body, close);
            lemma_occurs_concat(s, i, open, body);
            let o1 = seq!['<'] + tag;
            let o2 = o1 + render_attributes(attrs);
            assert(open == o2 + seq!['>']);
            lemma_occurs_concat(s, i, o2, seq!['>']);
            lemma_occurs_concat(s, i, o1, render_attributes(attrs));
            lemma_occurs_concat(s, i, seq!['<'], tag);
            let j = i + 1 + tag.len();
            let k = j + render_attributes(attrs).len();
            lemma_occurs_index(s, k, seq!['>'], 0);
            assert forall|x: int| i + 1 <= x < j implies is_name_char(#[trigger] s[x]) by {
                lemma_occurs_index(s, i + 1, tag, x - (i + 1));
            }
            if attrs.len() > 0 {
                assert(render_attribute(attrs[0])[0] == ' ');
                assert(render_attributes(attrs)[0] == ' ');
                lemma_occurs_index(s, j, render_attributes(attrs), 0);
            } else {
                assert(k == j);
            }
            lemma_name_end_is(s, i + 1, j);
            lemma_read_attributes_complete(s, j, attrs);
            let m = k + 1 + body.len();
            let c1 = seq!['<', '/'] + tag;
            assert(close == c1 + seq!['>']);
            lemma_occurs_concat(s, m, c1, seq!['>']);
            lemma_occurs_concat(s, m, seq!['<', '/'], tag);
            lemma_occurs_index(s, m, seq!['<', '/'], 0);
            lemma_occurs_index(s, m, seq!['<', '/'], 1);
            lemma_occurs_index(s, m + 2 + tag.len(), seq!['>'], 0);
            assert(at_close(s, m));
            lemma_read_nodes_complete(s, k + 1, n.children);
            assert(s.subrange(i + 1, j) == tag);
            assert(s.subrange(m + 2, m + 2 + tag.len()) == tag);
        },
        _ => {},
    }
}

/// Reading the markup of a well-formed node list from its start yields that list and ends
/// at the end of the text.
pub proof fn lemma_reading_complete(markup: Seq<char>, ns: Seq<NodeView>)
    requires
        is_markup_of(markup, ns),
    ensures
        read_nodes(markup, 0) == Some((ns, markup.len() as int)),
{
    assert(markup.subrange(0, markup.len() as int) =~= markup);
    lemma_read_nodes_complete(markup, 0, ns);
}

/// Whatever a reading that reaches the end of the text yields, the text is its markup.
pub proof fn lemma_reading_sound(markup: Seq<char>)
    requires
        read_nodes(markup, 0) is Some,
        read_nodes(markup, 0).unwrap().1 == markup.len(),
    ensures
        is_markup_of(markup, read_nodes(markup, 0).unwrap().0),
{
    lemma_read_nodes_sound(markup, 0);
    assert(markup.subrange(0, markup.len() as int) =~= markup);
}

/// A text is the markup of at most one well-formed node list.
pub proof fn lemma_markup_unique(markup: Seq<char>, a: Seq<NodeView>, b: Seq<NodeView>)
    requires
        is_markup_of(markup, a),
        is_markup_of(markup, b),
    ensures
        a == b,
{
    lemma_reading_complete(markup, a);
    lemma_reading_complete(markup, b);
}

/// Reading the markup of a well-formed node list yields that list.
pub proof fn lemma_parse_markup_is(markup: Seq<char>, ns: Seq<NodeView>)
    requires
        is_markup_of(markup, ns),
    ensures
        parse_markup(markup) == ns,
{
    assert(is_markup(markup));
    lemma_markup_unique(markup, parse_markup(markup), ns);
}

/// Whatever is read from a text is a well-formed node list.
pub proof fn lemma_parse_markup_well_formed(markup: Seq<char>)
    ensures
        well_formed_nodes(parse_markup(markup)),
{
}

/// Round trip: writing out what was read from a text, and reading that again, yields the
/// same node list: same tags, attributes and text, in the same order.
pub proof fn lemma_round_trip(markup: Seq<char>)
    ensures
        parse_markup(render_nodes(parse_markup(markup))) == parse_markup(markup),
{
    lemma_parse_markup_well_formed(markup);
    lemma_parse_markup_is(render_nodes(parse_markup(markup)), parse_markup(markup));
}

} // verus!
