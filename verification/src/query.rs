//! Tree queries: the order in which a tree is walked, mapping a function over it, and
//! finding an element by its id.
//!
//! A node is named by its path: the child indices that lead to it from the root. The walk
//! is depth first, children in document order, and a node after all of its descendants.

use crate::dom::{id_of, nodes_view, Node, NodeType, NodeView};
use vstd::prelude::*;

verus! {

/// The value of an executable path.
pub open spec fn path_view(path: Seq<usize>) -> Seq<int> {
    Seq::new(path.len(), |i: int| path[i] as int)
}

/// The node that `path` leads to from `n`, if the path stays inside the tree.
pub open spec fn node_at(n: NodeView, path: Seq<int>) -> Option<NodeView>
    decreases path.len(),
{
    if path.len() == 0 {
        Some(n)
    } else if 0 <= path[0] < n.children.len() {
        node_at(n.children[path[0]], path.drop_first())
    } else {
        None
    }
}

/// The node that `path` leads to from `node`; `node` itself where the path leaves the tree.
pub open spec fn descendant(node: Node, path: Seq<int>) -> Node
    decreases path.len(),
{
    if path.len() == 0 {
        node
    } else if 0 <= path[0] < node.children.len() {
        descendant(node.children@[path[0]], path.drop_first())
    } else {
        node
    }
}

/// Each path of `paths` with the child index `i` put before it.
pub open spec fn prefixed(i: int, paths: Seq<Seq<int>>) -> Seq<Seq<int>> {
    Seq::new(paths.len(), |j: int| seq![i] + paths[j])
}

/// The paths of all nodes of the tree under `n`, in the order of the walk: the subtrees of
/// the children one after another, then `n` itself.
pub open spec fn postorder(n: NodeView) -> Seq<Seq<int>>
    decreases n, n.children.len() + 1,
{
    postorder_children(n, n.children.len()).push(Seq::empty())
}

/// The paths of all nodes in the subtrees of the first `k` children of `n`, in the order of
/// the walk.
pub open spec fn postorder_children(n: NodeView, k: nat) -> Seq<Seq<int>>
    decreases n, k,
{
    if k == 0 || k > n.children.len() {
        Seq::empty()
    } else {
        postorder_children(n, (k - 1) as nat) + prefixed(k - 1, postorder(n.children[k - 1]))
    }
}

/// The node of `root` at `path` is an element whose id is `id`.
pub open spec fn has_id_at(root: NodeView, path: Seq<int>, id: Seq<char>) -> bool {
    node_at(root, path) matches Some(n) && n.kind is Element && id_of(n) == Some(id)
}

/// The first path of `paths` that leads to an element with the id `id`.
pub open spec fn first_match(root: NodeView, paths: Seq<Seq<int>>, id: Seq<char>) -> Option<
    Seq<int>,
>
    decreases paths.len(),
{
    if paths.len() == 0 {
        None
    } else if has_id_at(root, paths[0], id) {
        Some(paths[0])
    } else {
        first_match(root, paths.drop_first(), id)
    }
}

/// The path of the element that a lookup of `id` finds: the first one in the order of the
/// walk that carries the id.
pub open spec fn find_by_id(root: NodeView, id: Seq<char>) -> Option<Seq<int>> {
    first_match(root, postorder(root), id)
}

/// Descending into child `i` and then along `p` is descending along `p` from child `i`.
pub proof fn lemma_descend(node: Node, i: int, p: Seq<int>)
    requires
        0 <= i < node.children.len(),
    ensures
        descendant(node, seq![i] + p) == descendant(node.children@[i], p),
        node_at(node@, seq![i] + p) == node_at(node.children@[i]@, p),
{
    assert((seq![i] + p).drop_first() =~= p);
    assert(nodes_view(node.children@)[i] == node.children@[i]@);
}

/// The value of the node that a path leads to is the node that the path leads to in the
/// value of the tree.
pub proof fn lemma_descendant_view(node: Node, p: Seq<int>)
    requires
        node_at(node@, p) is Some,
    ensures
        node_at(node@, p) == Some(descendant(node, p)@),
    decreases p.len(),
{
    if p.len() > 0 {
        assert(node@.children == nodes_view(node.children@));
        assert(nodes_view(node.children@)[p[0]] == node.children@[p[0]]@);
        lemma_descendant_view(node.children@[p[0]], p.drop_first());
    }
}

/// Applies `f` to every node of the tree under `node`, in the order of the walk, and
/// collects the results.
pub fn map_tree<T, F: Fn(&Node) -> T>(node: &Node, f: &F) -> (v: Vec<T>)
    requires
        forall|p: Seq<int>| node_at(node@, p) is Some ==> f.requires((&descendant(*node, p),)),
    ensures
        v.len() == postorder(node@).len(),
        forall|i: int|
            0 <= i < v.len() ==> f.ensures(
                (&descendant(*node, postorder(node@)[i]),),
                #[trigger] v[i],
            ),
    decreases node,
{
    let mut v: Vec<T> = Vec::new();
    let mut k: usize = 0;
    while k < node.children.len()
        invariant
            k <= node.children.len(),
            forall|p: Seq<int>| node_at(node@, p) is Some ==> f.requires((&descendant(*node, p),)),
            v.len() == postorder_children(node@, k as nat).len(),
            forall|i: int|
                0 <= i < v.len() ==> f.ensures(
                    (&descendant(*node, postorder_children(node@, k as nat)[i]),),
                    #[trigger] v[i],
                ),
        decreases node.children.len() - k,
    {
        let child = &node.children[k];
        let ghost before = v@;
        let ghost done = postorder_children(node@, k as nat);
        let ghost below = postorder(child@);
        assert forall|p: Seq<int>| node_at(child@, p) is Some implies f.requires(
            (&descendant(*child, p),),
        ) by {
            lemma_descend(*node, k as int, p);
        }
        let mut sub = map_tree(child, f);
        v.append(&mut sub);
        proof {
            assert(nodes_view(node.children@)[k as int] == child@);
            assert(postorder_children(node@, (k + 1) as nat) == done + prefixed(k as int, below));
            assert forall|i: int| 0 <= i < v.len() implies f.ensures(
                (&descendant(*node, postorder_children(node@, (k + 1) as nat)[i]),),
                #[trigger] v[i],
            ) by {
                if i >= done.len() {
                    lemma_descend(*node, k as int, below[i - done.len()]);
                }
            }
        }
        k = k + 1;
    }
    assert(node_at(node@, Seq::empty()) is Some);
    assert(descendant(*node, Seq::empty()) == *node);
    let ghost walked = v@;
    let ghost paths = postorder_children(node@, node.children.len() as nat);
    assert(node@.children == nodes_view(node.children@));
    assert(postorder(node@) == paths.push(Seq::empty()));
    let last = f(node);
    v.push(last);
    assert forall|i: int| 0 <= i < v.len() implies f.ensures(
        (&descendant(*node, postorder(node@)[i]),),
        #[trigger] v[i],
    ) by {
        if i < walked.len() {
            assert(v[i] == walked[i]);
            assert(postorder(node@)[i] == paths[i]);
        } else {
            assert(postorder(node@)[i] == Seq::<int>::empty());
        }
    }
    v
}

/// The first match of two walks in a row is that of the first walk, or else that of the
/// second.
pub proof fn lemma_first_match_concat(
    root: NodeView,
    a: Seq<Seq<int>>,
    b: Seq<Seq<int>>,
    id: Seq<char>,
)
    ensures
        first_match(root, a + b, id) == (if first_match(root, a, id) is Some {
            first_match(root, a, id)
        } else {
            first_match(root, b, id)
        }),
    decreases a.len(),
{
    if a.len() == 0 {
        assert(a + b =~= b);
    } else {
        assert((a + b)[0] == a[0]);
        assert((a + b).drop_first() =~= a.drop_first() + b);
        lemma_first_match_concat(root, a.drop_first(), b, id);
    }
}

/// The first match of a walk below child `k` is the first match of that walk seen from the
/// child, with `k` put before it.
pub proof fn lemma_first_match_prefixed(
    node: NodeView,
    k: int,
    paths: Seq<Seq<int>>,
    id: Seq<char>,
)
    requires
        0 <= k < node.children.len(),
    ensures
        first_match(node, prefixed(k, paths), id) == (match first_match(
            node.children[k],
            paths,
            id,
        ) {
            Some(p) => Some(seq![k] + p),
            None => None,
        }),
    decreases paths.len(),
{
    let pp = prefixed(k, paths);
    if paths.len() > 0 {
        assert(pp[0] == seq![k] + paths[0]);
        assert((seq![k] + paths[0]).drop_first() =~= paths[0]);
        assert(pp.drop_first() =~= prefixed(k, paths.drop_first()));
        lemma_first_match_prefixed(node, k, paths.drop_first(), id);
    }
}

/// A match within the subtrees of the first `k` children stays the first match when more
/// children are walked.
pub proof fn lemma_first_match_children(node: NodeView, k: nat, m: nat, id: Seq<char>)
    requires
        k <= m <= node.children.len(),
        first_match(node, postorder_children(node, k), id) is Some,
    ensures
        first_match(node, postorder_children(node, m), id) == first_match(
            node,
            postorder_children(node, k),
            id,
        ),
    decreases m - k,
{
    if k < m {
        lemma_first_match_children(node, k, (m - 1) as nat, id);
        lemma_first_match_concat(
            node,
            postorder_children(node, (m - 1) as nat),
            prefixed(m - 1, postorder(node.children[m - 1])),
            id,
        );
    }
}

/// Whether `node` is an element whose id is `id`.
pub fn carries_id(node: &Node, id: &String) -> (b: bool)
    ensures
        b == has_id_at(node@, Seq::empty(), id@),
{
    match &node.node_type {
        NodeType::Element(e) => match e.id() {
            Some(v) => v == *id,
            None => false,
        },
        _ => false,
    }
}

/// Walks the tree under `node` for the first element whose id is `id`. When there is one,
/// its path from `node` is appended to `path`; when there is none, `path` is left as it
/// was.
pub fn find_in(node: &Node, id: &String, path: &mut Vec<usize>) -> (found: bool)
    ensures
        found == find_by_id(node@, id@) is Some,
        found ==> path_view(final(path)@) == path_view(old(path)@) + find_by_id(
            node@,
            id@,
        ).unwrap(),
        !found ==> final(path)@ == old(path)@,
    decreases node,
{
    let ghost base = path_view(path@);
    assert(node@.children == nodes_view(node.children@));
    assert(nodes_view(node.children@).len() == node.children@.len());
    let mut k: usize = 0;
    while k < node.children.len()
        invariant
            k <= node.children.len(),
            node@.children == nodes_view(node.children@),
            node@.children.len() == node.children.len(),
            path@ == old(path)@,
            base == path_view(old(path)@),
            first_match(node@, postorder_children(node@, k as nat), id@) is None,
        decreases node.children.len() - k,
    {
        let child = &node.children[k];
        let ghost done = postorder_children(node@, k as nat);
        let ghost below = postorder(child@);
        proof {
            assert(node@.children[k as int] == child@);
            assert(postorder_children(node@, (k + 1) as nat) == done + prefixed(k as int, below));
            lemma_first_match_concat(node@, done, prefixed(k as int, below), id@);
            lemma_first_match_prefixed(node@, k as int, below, id@);
        }
        path.push(k);
        assert(path_view(path@) =~= base + seq![k as int]);
        if find_in(child, id, path) {
            proof {
                let p = find_by_id(child@, id@).unwrap();
                assert((base + seq![k as int]) + p =~= base + (seq![k as int] + p));
                lemma_first_match_children(
                    node@,
                    (k + 1) as nat,
                    node.children.len() as nat,
                    id@,
                );
                lemma_first_match_concat(
                    node@,
                    postorder_children(node@, node.children.len() as nat),
                    seq![Seq::<int>::empty()],
                    id@,
                );
                assert(postorder(node@) =~= postorder_children(
                    node@,
                    node.children.len() as nat,
                ) + seq![Seq::<int>::empty()]);
            }
            return true;
        }
        path.pop();
        assert(path@ =~= old(path)@);
        k = k + 1;
    }
    proof {
        let walked = postorder_children(node@, node.children.len() as nat);
        lemma_first_match_concat(node@, walked, seq![Seq::<int>::empty()], id@);
        assert(postorder(node@) =~= walked + seq![Seq::<int>::empty()]);
        assert(seq![Seq::<int>::empty()].drop_first() =~= Seq::<Seq<int>>::empty());
        assert(first_match(node@, Seq::empty(), id@) is None);
        assert(base + Seq::<int>::empty() =~= base);
    }
    carries_id(node, id)
}

/// Finds the first element, in the order of the walk, whose id is `id`, and gives its path
/// from `root`. Gives nothing when no element carries the id.
pub fn find_element_by_id(root: &Node, id: &str) -> (r: Option<Vec<usize>>)
    ensures
        r matches Some(p) ==> find_by_id(root@, id@) == Some(path_view(p@)),
        r is None ==> find_by_id(root@, id@) is None,
{
    let key = id.to_owned();
    let mut path: Vec<usize> = Vec::new();
    assert(path_view(path@) =~= Seq::empty());
    if find_in(root, &key, &mut path) {
        assert(Seq::<int>::empty() + find_by_id(root@, id@).unwrap() =~= find_by_id(
            root@,
            id@,
        ).unwrap());
        Some(path)
    } else {
        None
    }
}

/// The node that `path` leads to from `root`, if the path stays inside the tree.
pub fn node_at_path<'a>(root: &'a Node, path: &Vec<usize>) -> (r: Option<&'a Node>)
    ensures
        r matches Some(n) ==> node_at(root@, path_view(path@)) == Some(n@),
        r is None ==> node_at(root@, path_view(path@)) is None,
{
    let ghost full = path_view(path@);
    let mut cur: &Node = root;
    let mut d: usize = 0;
    assert(full.skip(0) =~= full);
    while d < path.len()
        invariant
            d <= path.len(),
            full == path_view(path@),
            node_at(root@, full) == node_at(cur@, full.skip(d as int)),
        decreases path.len() - d,
    {
        let i = path[d];
        assert(full.skip(d as int)[0] == i as int);
        assert(full.skip(d as int).drop_first() =~= full.skip(d + 1));
        assert(cur@.children == nodes_view(cur.children@));
        assert(nodes_view(cur.children@).len() == cur.children@.len());
        if i >= cur.children.len() {
            return None;
        }
        assert(cur@.children[i as int] == cur.children@[i as int]@);
        cur = &cur.children[i];
        d = d + 1;
    }
    Some(cur)
}

} // verus!
