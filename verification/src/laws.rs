//! Laws of the library: what holds of lookups, of handles and of writes, for every tree.

use crate::bridge::{inner_html_key, lemma_property_of, live_inner_html, reads};
use crate::document::{
    invalidated, is_below, lemma_first_match_matches, lemma_replace_at_elsewhere,
    lemma_replace_at_there, replace_at, Document, ElementHandleView, LinkError,
};
use crate::dom::{is_container, with_inner_html, NodeView};
use crate::inverse::lemma_parse_markup_is;
use crate::markup::{is_markup, is_markup_of, parse_markup, render_nodes, well_formed_nodes};
use crate::query::{
    find_by_id, first_match, has_id_at, lemma_first_match_children, lemma_first_match_concat,
    lemma_first_match_prefixed, node_at, postorder, postorder_children, prefixed,
};
use vstd::prelude::*;

verus! {

/// Round trip on a node: setting the inner markup of a node to the markup of its own
/// children leaves the node as it is, whenever those children can be read back from text,
/// as all children can that were read from text.
pub proof fn lemma_set_inner_html_of_inner_html(n: NodeView)
    requires
        well_formed_nodes(n.children),
    ensures
        with_inner_html(n, render_nodes(n.children)) == n,
{
    if is_container(n) {
        lemma_parse_markup_is(render_nodes(n.children), n.children);
    }
}

/// Walking more children keeps what was walked, at the same places.
pub proof fn lemma_walk_grows(n: NodeView, k: nat, m: nat)
    requires
        k <= m <= n.children.len(),
    ensures
        postorder_children(n, k).len() <= postorder_children(n, m).len(),
        forall|x: int|
            0 <= x < postorder_children(n, k).len() ==> postorder_children(n, m)[x]
                == #[trigger] postorder_children(n, k)[x],
    decreases m - k,
{
    if k < m {
        lemma_walk_grows(n, k, (m - 1) as nat);
    }
}

/// Every path walked within the first `k` children begins with the index of one of them.
pub proof fn lemma_walk_of_children(n: NodeView, k: nat, x: int)
    requires
        k <= n.children.len(),
        0 <= x < postorder_children(n, k).len(),
    ensures
        postorder_children(n, k)[x].len() > 0,
        0 <= postorder_children(n, k)[x][0] < k,
    decreases k,
{
    if k > 0 {
        let before = postorder_children(n, (k - 1) as nat);
        if x < before.len() {
            lemma_walk_of_children(n, (k - 1) as nat, x);
        } else {
            let below = postorder(n.children[k - 1]);
            assert(postorder_children(n, k)[x] == prefixed(k - 1, below)[x - before.len()]);
        }
    }
}

/// A path that leads into child `i` is walked within the first `i + 1` children, once the
/// walk of that child holds the rest of the path.
proof fn lemma_walk_holds_child_path(n: NodeView, p: Seq<int>, m: nat)
    requires
        p.len() > 0,
        0 <= p[0] < m <= n.children.len(),
        postorder(n.children[p[0]]).contains(p.drop_first()),
    ensures
        postorder_children(n, m).contains(p),
{
    let i = p[0];
    let below = postorder(n.children[i]);
    let before = postorder_children(n, i as nat);
    let j = choose|j: int| 0 <= j < below.len() && below[j] == p.drop_first();
    assert(prefixed(i, below)[j] =~= p);
    let walked = postorder_children(n, (i + 1) as nat);
    assert(walked == before + prefixed(i, below));
    assert(walked[before.len() + j] == p);
    lemma_walk_grows(n, (i + 1) as nat, m);
    assert(postorder_children(n, m)[before.len() + j] == p);
}

/// The walk visits every node of the tree.
pub proof fn lemma_postorder_complete(n: NodeView, p: Seq<int>)
    requires
        node_at(n, p) is Some,
    ensures
        postorder(n).contains(p),
    decreases p.len(),
{
    let walked = postorder_children(n, n.children.len());
    if p.len() == 0 {
        assert(p =~= Seq::empty());
        assert(postorder(n)[walked.len() as int] == p);
    } else {
        lemma_postorder_complete(n.children[p[0]], p.drop_first());
        lemma_walk_holds_child_path(n, p, n.children.len());
        let j = choose|j: int| 0 <= j < walked.len() && walked[j] == p;
        assert(postorder(n)[j] == p);
    }
}

/// Where one of the paths searched leads to an element with the id, the search finds one.
pub proof fn lemma_first_match_exists(
    root: NodeView,
    paths: Seq<Seq<int>>,
    id: Seq<char>,
    p: Seq<int>,
)
    requires
        paths.contains(p),
        has_id_at(root, p, id),
    ensures
        first_match(root, paths, id) is Some,
    decreases paths.len(),
{
    if !has_id_at(root, paths[0], id) {
        let j = choose|j: int| 0 <= j < paths.len() && paths[j] == p;
        assert(paths.drop_first()[j - 1] == p);
        lemma_first_match_exists(root, paths.drop_first(), id, p);
    }
}

/// What a search finds is the first of the paths searched that leads to an element with
/// the id: the result names its place.
pub proof fn lemma_first_match_is_first(root: NodeView, paths: Seq<Seq<int>>, id: Seq<char>) -> (i:
    int)
    requires
        first_match(root, paths, id) is Some,
    ensures
        0 <= i < paths.len(),
        paths[i] == first_match(root, paths, id).unwrap(),
        has_id_at(root, paths[i], id),
        forall|j: int| 0 <= j < i ==> !has_id_at(root, #[trigger] paths[j], id),
    decreases paths.len(),
{
    if has_id_at(root, paths[0], id) {
        0
    } else {
        let rest = paths.drop_first();
        let k = lemma_first_match_is_first(root, rest, id);
        assert forall|j: int| 0 <= j < k + 1 implies !has_id_at(root, #[trigger] paths[j], id) by {
            if j > 0 {
                assert(paths[j] == rest[j - 1]);
            }
        }
        k + 1
    }
}

/// Lookup miss: a lookup finds nothing exactly when no element of the tree carries the id.
pub proof fn lemma_lookup_miss(root: NodeView, id: Seq<char>)
    ensures
        find_by_id(root, id) is None <==> forall|p: Seq<int>| !has_id_at(root, p, id),
{
    if find_by_id(root, id) is Some {
        lemma_first_match_matches(root, postorder(root), id);
    } else {
        assert forall|p: Seq<int>| !has_id_at(root, p, id) by {
            if has_id_at(root, p, id) {
                lemma_postorder_complete(root, p);
                lemma_first_match_exists(root, postorder(root), id, p);
            }
        }
    }
}

/// Id lookup: in a tree where exactly one element carries the id, a lookup finds that
/// element.
pub proof fn lemma_unique_id_found(root: NodeView, id: Seq<char>, p: Seq<int>)
    requires
        has_id_at(root, p, id),
        forall|q: Seq<int>| has_id_at(root, q, id) ==> q == p,
    ensures
        find_by_id(root, id) == Some(p),
{
    lemma_postorder_complete(root, p);
    lemma_first_match_exists(root, postorder(root), id, p);
    lemma_first_match_matches(root, postorder(root), id);
}

/// `a` is walked before `b`: `a` leads below the node of `b`, or the two paths part at a
/// place where `a` takes the earlier child.
pub open spec fn walked_before(a: Seq<int>, b: Seq<int>) -> bool {
    ||| is_below(a, b)
    ||| exists|k: int|
        0 <= k < a.len() && k < b.len() && #[trigger] a[k] < b[k] && forall|i: int|
            0 <= i < k ==> a[i] == b[i]
}

/// Duplicate ids: among the elements that carry the id, a lookup never finds one that
/// another is walked before. So the element found is the one walked first: a descendant
/// before its ancestor, and the subtree of an earlier child before that of a later one.
pub proof fn lemma_earlier_match_wins(root: NodeView, id: Seq<char>, a: Seq<int>, b: Seq<int>)
    requires
        has_id_at(root, a, id),
        walked_before(a, b),
    ensures
        find_by_id(root, id) != Some(b),
    decreases b.len(),
{
    let len = root.children.len();
    let walked = postorder_children(root, len);
    let last = seq![Seq::<int>::empty()];
    assert(postorder(root) =~= walked + last);
    lemma_first_match_concat(root, walked, last, id);
    assert(a.len() > 0);
    let j = a[0];
    lemma_postorder_complete(root.children[j], a.drop_first());
    if b.len() == 0 || j < b[0] {
        let m: nat = if b.len() == 0 {
            len
        } else {
            b[0] as nat
        };
        if b.len() > 0 && b[0] > len {
            // `b` leaves the tree: nothing walked is `b`
            if find_by_id(root, id) == Some(b) {
                lemma_first_match_matches(root, postorder(root), id);
            }
        } else {
            lemma_walk_holds_child_path(root, a, m);
            lemma_first_match_exists(root, postorder_children(root, m), id, a);
            lemma_first_match_children(root, m, len, id);
            lemma_first_match_matches(root, postorder_children(root, m), id);
            let x = first_match(root, postorder_children(root, m), id).unwrap();
            let at = choose|at: int|
                0 <= at < postorder_children(root, m).len() && postorder_children(root, m)[at]
                    == x;
            lemma_walk_of_children(root, m, at);
        }
    } else {
        // the two paths lead into the same child
        assert(j == b[0]) by {
            if !is_below(a, b) {
                let k = choose|k: int|
                    0 <= k < a.len() && k < b.len() && #[trigger] a[k] < b[k] && forall|i: int|
                        0 <= i < k ==> a[i] == b[i];
                assert(k > 0);
            }
        }
        let aa = a.drop_first();
        let bb = b.drop_first();
        let child = root.children[j];
        assert(walked_before(aa, bb)) by {
            if is_below(a, b) {
                assert forall|i: int| 0 <= i < bb.len() implies aa[i] == bb[i] by {
                    assert(a[i + 1] == b[i + 1]);
                }
                assert(is_below(aa, bb));
            } else {
                let k = choose|k: int|
                    0 <= k < a.len() && k < b.len() && #[trigger] a[k] < b[k] && forall|i: int|
                        0 <= i < k ==> a[i] == b[i];
                assert(aa[k - 1] < bb[k - 1]);
                assert forall|i: int| 0 <= i < k - 1 implies aa[i] == bb[i] by {
                    assert(a[i + 1] == b[i + 1]);
                }
            }
        }
        assert(has_id_at(child, aa, id));
        lemma_earlier_match_wins(child, id, aa, bb);
        let before = postorder_children(root, j as nat);
        let below = postorder(child);
        assert(postorder_children(root, (j + 1) as nat) == before + prefixed(j, below));
        lemma_first_match_concat(root, before, prefixed(j, below), id);
        lemma_first_match_prefixed(root, j, below, id);
        lemma_first_match_exists(child, below, id, aa);
        if first_match(root, before, id) is Some {
            lemma_first_match_children(root, j as nat, len, id);
            lemma_first_match_matches(root, before, id);
            let x = first_match(root, before, id).unwrap();
            let at = choose|at: int| 0 <= at < before.len() && before[at] == x;
            lemma_walk_of_children(root, j as nat, at);
        } else {
            lemma_first_match_children(root, (j + 1) as nat, len, id);
            let y = find_by_id(child, id).unwrap();
            assert(find_by_id(root, id) == Some(seq![j] + y));
            if seq![j] + y == b {
                assert((seq![j] + y).drop_first() =~= y);
            }
        }
    }
}

/// Snapshot and live: what reading a property gives depends on the document only for
/// `innerHTML`. Every other property reads the same in any two documents, whatever was
/// changed between them; `innerHTML` reads the markup of the children that the linked node
/// has in the document at hand.
pub proof fn lemma_snapshot_and_live(
    h: ElementHandleView,
    before: Document,
    after: Document,
    name: Seq<char>,
)
    ensures
        name != inner_html_key() ==> reads(h, before, name) == reads(h, after, name),
        reads(h, after, inner_html_key()) == (match live_inner_html(after, h.link) {
            Ok(s) => Ok(Some(s)),
            Err(e) => Err::<Option<Seq<char>>, LinkError>(e),
        }),
{
    lemma_property_of(h, name);
    lemma_property_of(h, inner_html_key());
}

/// Mutation visibility: after the inner markup is written through a link, the link still
/// leads to its node, and reading the inner markup through it gives the text of what the
/// written markup reads as: the written markup itself where that is the markup of a node
/// list, and the empty text where it is not.
pub proof fn lemma_write_then_read(before: Document, after: Document, link: usize, markup: Seq<char>)
    requires
        before.wf(),
        before.resolved(link) is Ok,
        after.tree() == replace_at(
            before.tree(),
            before.resolved(link)->Ok_0,
            with_inner_html(
                node_at(before.tree(), before.resolved(link)->Ok_0).unwrap(),
                markup,
            ),
        ),
        after.links() == invalidated(before.links(), before.resolved(link)->Ok_0),
    ensures
        after.resolved(link) == before.resolved(link),
        live_inner_html(after, link) == Ok::<Seq<char>, LinkError>(
            render_nodes(parse_markup(markup)),
        ),
        is_markup(markup) ==> render_nodes(parse_markup(markup)) == markup,
        !is_markup(markup) ==> render_nodes(parse_markup(markup)) == Seq::<char>::empty(),
{
    let p = before.resolved(link)->Ok_0;
    assert(before.links()[link as int] == Some(p));
    lemma_replace_at_there(
        before.tree(),
        p,
        with_inner_html(node_at(before.tree(), p).unwrap(), markup),
    );
    if is_markup(markup) {
        assert(is_markup_of(markup, parse_markup(markup)));
    }
}

/// A handle stays bound to its node: after the inner markup of the node at `p` is
/// written, every link that did not lead below that node leads where it led, to a node of
/// the kind it had, and every link that led below it leads nowhere.
pub proof fn lemma_links_after_write(
    before: Document,
    after: Document,
    p: Seq<int>,
    new: NodeView,
    link: usize,
)
    requires
        before.wf(),
        node_at(before.tree(), p) matches Some(n) && n.kind == new.kind,
        after.tree() == replace_at(before.tree(), p, new),
        after.links() == invalidated(before.links(), p),
    ensures
        match before.resolved(link) {
            Ok(q) => if is_below(q, p) {
                after.resolved(link) == Err::<Seq<int>, LinkError>(LinkError::Stale)
            } else {
                &&& after.resolved(link) == Ok::<Seq<int>, LinkError>(q)
                &&& node_at(after.tree(), q) is Some
                &&& node_at(after.tree(), q).unwrap().kind == node_at(
                    before.tree(),
                    q,
                ).unwrap().kind
            },
            Err(e) => after.resolved(link) == Err::<Seq<int>, LinkError>(e),
        },
{
    if link < before.links().len() {
        match before.links()[link as int] {
            Some(q) => {
                if !is_below(q, p) {
                    lemma_replace_at_elsewhere(before.tree(), p, new, q);
                }
            },
            None => {},
        }
    }
}

} // verus!
