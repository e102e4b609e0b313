//! Reading markup by recursive descent.
//!
//! The reading is defined twice: as mathematical functions over a character sequence and a
//! position, and as executable functions over a character vector that compute exactly those
//! functions. The executable functions serve [`crate::parser`], which is their one caller.
//! That the mathematical reading inverts rendering is proved in [`crate::inverse`].

use crate::dom::{Element, ElementView, KindView, Node, NodeType, NodeView};
use crate::dom::{attributes_view, nodes_view};
use crate::markup::is_name_char;
use vstd::prelude::*;

verus! {

/// Taken on trust from the standard library, not proved here: `String::push` appends the
/// given character to the end of the string and leaves the characters before it as they
/// were.
pub assume_specification[ String::push ](s: &mut String, c: char)
    ensures
        final(s)@ == old(s)@.push(c),
;

/// The end of the run of name characters that starts at `i`.
pub open spec fn name_end(s: Seq<char>, i: int) -> int
    decreases s.len() - i,
{
    if 0 <= i < s.len() && is_name_char(s[i]) {
        name_end(s, i + 1)
    } else {
        i
    }
}

/// The first position at or after `i` that holds `stop`, or the end of `s`.
pub open spec fn run_end(s: Seq<char>, i: int, stop: char) -> int
    decreases s.len() - i,
{
    if 0 <= i < s.len() && s[i] != stop {
        run_end(s, i + 1, stop)
    } else {
        i
    }
}

/// The attributes read from position `i` on, and the position after them. Each attribute
/// is a space, a name, `="`, a value and `"`; the list ends before the first character that
/// is not a space.
pub open spec fn read_attributes(s: Seq<char>, i: int) -> Option<
    (Seq<(Seq<char>, Seq<char>)>, int),
>
    decreases s.len() - i,
{
    if 0 <= i < s.len() && s[i] == ' ' {
        let j = name_end(s, i + 1);
        let k = run_end(s, j + 2, '"');
        if i + 1 < j && j + 1 < s.len() && s[j] == '=' && s[j + 1] == '"' && j + 2 <= k < s.len() {
            match read_attributes(s, k + 1) {
                Some((rest, e)) => Some(
                    (seq![(s.subrange(i + 1, j), s.subrange(j + 2, k))] + rest, e),
                ),
                None => None,
            }
        } else {
            None
        }
    } else {
        Some((Seq::empty(), i))
    }
}

/// A closing tag begins at position `i`.
pub open spec fn at_close(s: Seq<char>, i: int) -> bool {
    0 <= i && i + 1 < s.len() && s[i] == '<' && s[i + 1] == '/'
}

/// The nodes read from position `i` on, and the position after them. The list ends at the
/// end of `s` or before a closing tag.
pub open spec fn read_nodes(s: Seq<char>, i: int) -> Option<(Seq<NodeView>, int)>
    decreases s.len() - i, 1int,
{
    if !(0 <= i < s.len()) || at_close(s, i) {
        Some((Seq::empty(), i))
    } else if s[i] == '<' {
        match read_element(s, i) {
            Some((n, j)) => if i < j <= s.len() {
                match read_nodes(s, j) {
                    Some((rest, e)) => Some((seq![n] + rest, e)),
                    None => None,
                }
            } else {
                None
            },
            None => None,
        }
    } else {
        let j = run_end(s, i, '<');
        if i < j <= s.len() {
            match read_nodes(s, j) {
                Some((rest, e)) => Some(
                    (
                        seq![
                            NodeView {
                                kind: KindView::Text(s.subrange(i, j)),
                                children: Seq::empty(),
                            },
                        ] + rest,
                        e,
                    ),
                ),
                None => None,
            }
        } else {
            None
        }
    }
}

/// The element read from position `i`, which holds `<`, and the position after its closing
/// tag.
pub open spec fn read_element(s: Seq<char>, i: int) -> Option<(NodeView, int)>
    decreases s.len() - i, 0int,
{
    let j = name_end(s, i + 1);
    if 0 <= i && i + 1 < j {
        match read_attributes(s, j) {
            Some((attrs, k)) => if j <= k < s.len() && s[k] == '>' {
                match read_nodes(s, k + 1) {
                    Some((children, m)) => {
                        let tag = s.subrange(i + 1, j);
                        let e = m + 3 + tag.len();
                        if k < m && e <= s.len() && at_close(s, m) && s.subrange(
                            m + 2,
                            m + 2 + tag.len(),
                        ) == tag && s[e - 1] == '>' {
                            Some(
                                (
                                    NodeView {
                                        kind: KindView::Element(
                                            ElementView { tag_name: tag, attributes: attrs },
                                        ),
                                        children,
                                    },
                                    e,
                                ),
                            )
                        } else {
                            None
                        }
                    },
                    None => None,
                }
            } else {
                None
            },
            None => None,
        }
    } else {
        None
    }
}

/// Whether `c` is a name character.
pub fn name_char(c: char) -> (b: bool)
    ensures
        b == is_name_char(c),
{
    (c >= 'a' && c <= 'z') || (c >= 'A' && c <= 'Z') || (c >= '0' && c <= '9') || c == '-' || c
        == '_'
}

/// Computes [`name_end`].
pub(crate) fn scan_name(s: &Vec<char>, i: usize) -> (j: usize)
    requires
        i <= s.len(),
    ensures
        j == name_end(s@, i as int),
        i <= j <= s.len(),
{
    let mut j: usize = i;
    while j < s.len() && name_char(s[j])
        invariant
            i <= j <= s.len(),
            name_end(s@, i as int) == name_end(s@, j as int),
        decreases s.len() - j,
    {
        j = j + 1;
    }
    j
}

/// Computes [`run_end`].
pub(crate) fn scan_run(s: &Vec<char>, i: usize, stop: char) -> (j: usize)
    requires
        i <= s.len(),
    ensures
        j == run_end(s@, i as int, stop),
        i <= j <= s.len(),
{
    let mut j: usize = i;
    while j < s.len() && s[j] != stop
        invariant
            i <= j <= s.len(),
            run_end(s@, i as int, stop) == run_end(s@, j as int, stop),
        decreases s.len() - j,
    {
        j = j + 1;
    }
    j
}

/// The characters of `s` from `from` up to `to`, as a string.
pub(crate) fn collect(s: &Vec<char>, from: usize, to: usize) -> (r: String)
    requires
        from <= to <= s.len(),
    ensures
        r@ == s@.subrange(from as int, to as int),
{
    let mut r = String::new();
    let mut k: usize = from;
    while k < to
        invariant
            from <= k <= to <= s.len(),
            r@ == s@.subrange(from as int, k as int),
        decreases to - k,
    {
        r.push(s[k]);
        assert(s@.subrange(from as int, k as int).push(s@[k as int]) =~= s@.subrange(
            from as int,
            k + 1,
        ));
        k = k + 1;
    }
    r
}

/// Whether the `n` characters at `a` are the `n` characters at `b`.
pub(crate) fn same_run(s: &Vec<char>, a: usize, b: usize, n: usize) -> (r: bool)
    requires
        a + n <= s.len(),
        b + n <= s.len(),
    ensures
        r == (s@.subrange(a as int, a + n) == s@.subrange(b as int, b + n)),
{
    let mut k: usize = 0;
    while k < n
        invariant
            k <= n,
            a + n <= s.len(),
            b + n <= s.len(),
            s@.subrange(a as int, a + k) == s@.subrange(b as int, b + k),
        decreases n - k,
    {
        if s[a + k] != s[b + k] {
            assert(s@.subrange(a as int, a + n)[k as int] != s@.subrange(b as int, b + n)[k as int]);
            return false;
        }
        assert(s@.subrange(a as int, a + k + 1) =~= s@.subrange(a as int, a + k).push(
            s@[a + k],
        ));
        assert(s@.subrange(b as int, b + k + 1) =~= s@.subrange(b as int, b + k).push(
            s@[b + k],
        ));
        k = k + 1;
    }
    true
}

/// A reading result with `acc` put before the attributes read.
pub open spec fn after_attributes(
    acc: Seq<(Seq<char>, Seq<char>)>,
    r: Option<(Seq<(Seq<char>, Seq<char>)>, int)>,
) -> Option<(Seq<(Seq<char>, Seq<char>)>, int)> {
    match r {
        Some((rest, e)) => Some((acc + rest, e)),
        None => None,
    }
}

/// A reading result with `acc` put before the nodes read.
pub open spec fn after_nodes(acc: Seq<NodeView>, r: Option<(Seq<NodeView>, int)>) -> Option<
    (Seq<NodeView>, int),
> {
    match r {
        Some((rest, e)) => Some((acc + rest, e)),
        None => None,
    }
}

/// The run that starts at a character other than `stop` is not empty, and no run ends
/// before it starts or after the end of `s`.
pub proof fn lemma_run_end_bounds(s: Seq<char>, i: int, stop: char)
    requires
        0 <= i <= s.len(),
    ensures
        i <= run_end(s, i, stop) <= s.len(),
        i < s.len() && s[i] != stop ==> i < run_end(s, i, stop),
    decreases s.len() - i,
{
    if i < s.len() && s[i] != stop {
        lemma_run_end_bounds(s, i + 1, stop);
    }
}

/// Computes [`read_attributes`].
pub(crate) fn parse_attributes(s: &Vec<char>, i: usize) -> (r: Option<(Vec<(String, String)>, usize)>)
    requires
        i <= s.len(),
    ensures
        r matches Some((v, e)) ==> read_attributes(s@, i as int) == Some(
            (attributes_view(v@), e as int),
        ) && i <= e <= s.len(),
        r is None ==> read_attributes(s@, i as int) is None,
{
    let mut acc: Vec<(String, String)> = Vec::new();
    let mut p: usize = i;
    assert(attributes_view(acc@) + Seq::empty() =~= attributes_view(acc@));
    proof {
        match read_attributes(s@, i as int) {
            Some((rest, e)) => {
                assert(Seq::<(Seq<char>, Seq<char>)>::empty() + rest =~= rest);
            },
            None => {},
        }
    }
    loop
        invariant
            i <= p <= s.len(),
            read_attributes(s@, i as int) == after_attributes(
                attributes_view(acc@),
                read_attributes(s@, p as int),
            ),
        decreases s.len() - p,
    {
        if p < s.len() && s[p] == ' ' {
            let j = scan_name(s, p + 1);
            if !(p + 1 < j && j < s.len() && j + 1 < s.len() && s[j] == '=' && s[j + 1] == '"') {
                return None;
            }
            let k = scan_run(s, j + 2, '"');
            if k >= s.len() {
                return None;
            }
            let name = collect(s, p + 1, j);
            let value = collect(s, j + 2, k);
            let ghost before = attributes_view(acc@);
            let ghost attr = (name@, value@);
            acc.push((name, value));
            proof {
                assert(attributes_view(acc@) =~= before.push(attr));
                match read_attributes(s@, k + 1) {
                    Some((rest, e)) => {
                        assert(before + (seq![attr] + rest) =~= before.push(attr) + rest);
                    },
                    None => {},
                }
            }
            p = k + 1;
        } else {
            assert(attributes_view(acc@) + Seq::empty() =~= attributes_view(acc@));
            return Some((acc, p));
        }
    }
}

/// Computes [`read_nodes`].
pub(crate) fn parse_nodes(s: &Vec<char>, i: usize) -> (r: Option<(Vec<Node>, usize)>)
    requires
        i <= s.len(),
    ensures
        r matches Some((v, e)) ==> read_nodes(s@, i as int) == Some((nodes_view(v@), e as int))
            && i <= e <= s.len(),
        r is None ==> read_nodes(s@, i as int) is None,
    decreases s.len() - i, 1int,
{
    let mut acc: Vec<Node> = Vec::new();
    let mut p: usize = i;
    proof {
        match read_nodes(s@, i as int) {
            Some((rest, e)) => {
                assert(Seq::<NodeView>::empty() + rest =~= rest);
            },
            None => {},
        }
        assert(nodes_view(acc@) =~= Seq::empty());
    }
    loop
        invariant
            i <= p <= s.len(),
            read_nodes(s@, i as int) == after_nodes(nodes_view(acc@), read_nodes(s@, p as int)),
        decreases s.len() - p,
    {
        if p >= s.len() || (s[p] == '<' && p + 1 < s.len() && s[p + 1] == '/') {
            assert(nodes_view(acc@) + Seq::empty() =~= nodes_view(acc@));
            return Some((acc, p));
        }
        let ghost before = nodes_view(acc@);
        if s[p] == '<' {
            match parse_element(s, p) {
                None => {
                    return None;
                },
                Some((n, j)) => {
                    let ghost nv = n@;
                    acc.push(n);
                    proof {
                        assert(nodes_view(acc@) =~= before.push(nv));
                        match read_nodes(s@, j as int) {
                            Some((rest, e)) => {
                                assert(before + (seq![nv] + rest) =~= before.push(nv) + rest);
                            },
                            None => {},
                        }
                    }
                    p = j;
                },
            }
        } else {
            proof {
                lemma_run_end_bounds(s@, p as int, '<');
            }
            let j = scan_run(s, p, '<');
            let text = collect(s, p, j);
            let n = Node { node_type: NodeType::Text(text), children: Vec::new() };
            let ghost nv = n@;
            acc.push(n);
            proof {
                assert(nv.children =~= Seq::empty());
                assert(nodes_view(acc@) =~= before.push(nv));
                match read_nodes(s@, j as int) {
                    Some((rest, e)) => {
                        assert(before + (seq![nv] + rest) =~= before.push(nv) + rest);
                    },
                    None => {},
                }
            }
            p = j;
        }
    }
}

/// Computes [`read_element`].
pub(crate) fn parse_element(s: &Vec<char>, i: usize) -> (r: Option<(Node, usize)>)
    requires
        i < s.len(),
    ensures
        r matches Some((n, e)) ==> read_element(s@, i as int) == Some((n@, e as int)) && i < e
            <= s.len(),
        r is None ==> read_element(s@, i as int) is None,
    decreases s.len() - i, 0int,
{
    let j = scan_name(s, i + 1);
    if !(i + 1 < j) {
        return None;
    }
    match parse_attributes(s, j) {
        None => None,
        Some((attributes, k)) => {
            if !(k < s.len() && s[k] == '>') {
                return None;
            }
            match parse_nodes(s, k + 1) {
                None => None,
                Some((children, m)) => {
                    let tag_len: usize = j - (i + 1);
                    let left: usize = s.len() - m;
                    if left < 3 || left - 3 < tag_len {
                        return None;
                    }
                    if !(s[m] == '<' && s[m + 1] == '/') {
                        return None;
                    }
                    if !same_run(s, m + 2, i + 1, tag_len) {
                        return None;
                    }
                    if s[m + 2 + tag_len] != '>' {
                        return None;
                    }
                    let tag_name = collect(s, i + 1, j);
                    let n = Node {
                        node_type: NodeType::Element(Element { tag_name, attributes }),
                        children,
                    };
                    Some((n, m + 3 + tag_len))
                },
            }
        },
    }
}

} // verus!
