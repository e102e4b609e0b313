//! The document: the node tree together with the registry of links through which script
//! handles reach its nodes.
//!
//! A link is an index into the registry. The registry keeps, for each link ever made, the
//! path of the node it is bound to, or nothing once that node has been discarded. A link
//! therefore leads to the same node for as long as it leads anywhere.

use crate::dom::{
    attributes_of, attributes_view, nodes_view, with_inner_html, KindView, Node, NodeType,
    NodeView,
};
use crate::markup::{parse_markup, render_nodes};
use crate::parser::parse;
use crate::query::{
    find_by_id, find_element_by_id, first_match, has_id_at, node_at, node_at_path, path_view,
    postorder,
};
use vstd::prelude::*;

verus! {

/// Why a link could not be followed.
#[derive(Clone, Copy, Debug, PartialEq, Eq, Structural)]
pub enum LinkError {
    /// The link was never made by this document.
    Unknown,
    /// The node that the link was bound to has been discarded.
    Stale,
}

/// The tree `root` with the node at `path` replaced by `new`. A path that leaves the tree
/// replaces nothing.
pub open spec fn replace_at(root: NodeView, path: Seq<int>, new: NodeView) -> NodeView
    decreases path.len(),
{
    if path.len() == 0 {
        new
    } else if 0 <= path[0] < root.children.len() {
        NodeView {
            kind: root.kind,
            children: root.children.update(
                path[0],
                replace_at(root.children[path[0]], path.drop_first(), new),
            ),
        }
    } else {
        root
    }
}

/// `q` leads strictly below the node that `p` leads to.
pub open spec fn is_below(q: Seq<int>, p: Seq<int>) -> bool {
    p.len() < q.len() && forall|i: int| 0 <= i < p.len() ==> q[i] == p[i]
}

/// The registry after the children of the node at `p` are discarded: every link bound
/// below that node is bound to nothing, every other link is kept.
pub open spec fn invalidated(links: Seq<Option<Seq<int>>>, p: Seq<int>) -> Seq<
    Option<Seq<int>>,
> {
    Seq::new(
        links.len(),
        |i: int|
            if links[i] matches Some(q) && is_below(q, p) {
                None
            } else {
                links[i]
            },
    )
}

/// The value of an executable registry.
pub open spec fn links_view(links: Seq<Option<Vec<usize>>>) -> Seq<Option<Seq<int>>> {
    Seq::new(
        links.len(),
        |i: int|
            match links[i] {
                Some(p) => Some(path_view(p@)),
                None => None,
            },
    )
}

/// The tag name of a node: that of an element, empty for any other node.
pub open spec fn tag_name_of(n: NodeView) -> Seq<char> {
    match n.kind {
        KindView::Element(e) => e.tag_name,
        _ => Seq::empty(),
    }
}

/// Every bound link of `links` leads to an element of `tree`.
pub open spec fn links_bound(tree: NodeView, links: Seq<Option<Seq<int>>>) -> bool {
    forall|i: int|
        0 <= i < links.len() ==> ((#[trigger] links[i]) matches Some(p) ==> node_at(tree, p)
            matches Some(n) && n.kind is Element)
}

/// A script handle for an element: the link to its node, and the element's tag name and
/// attributes as they were when the handle was made.
#[derive(Debug, PartialEq, Eq)]
pub struct ElementHandle {
    pub link: usize,
    pub tag_name: String,
    pub attributes: Vec<(String, String)>,
}

/// The mathematical value of an [`ElementHandle`].
pub struct ElementHandleView {
    pub link: usize,
    pub tag_name: Seq<char>,
    pub attributes: Seq<(Seq<char>, Seq<char>)>,
}

impl View for ElementHandle {
    type V = ElementHandleView;

    open spec fn view(&self) -> ElementHandleView {
        ElementHandleView {
            link: self.link,
            tag_name: self.tag_name@,
            attributes: attributes_view(self.attributes@),
        }
    }
}

/// The handle made for the node `n` under the link `link`.
pub open spec fn handle_of(n: NodeView, link: usize) -> ElementHandleView {
    ElementHandleView { link, tag_name: tag_name_of(n), attributes: attributes_of(n) }
}

/// A first match is one of the paths searched, and leads to an element with the id.
pub proof fn lemma_first_match_matches(
    root: NodeView,
    paths: Seq<Seq<int>>,
    id: Seq<char>,
)
    requires
        first_match(root, paths, id) is Some,
    ensures
        has_id_at(root, first_match(root, paths, id).unwrap(), id),
        paths.contains(first_match(root, paths, id).unwrap()),
    decreases paths.len(),
{
    if paths.len() > 0 {
        if has_id_at(root, paths[0], id) {
            assert(paths[0] == first_match(root, paths, id).unwrap());
        } else {
            lemma_first_match_matches(root, paths.drop_first(), id);
            let p = first_match(root, paths, id).unwrap();
            let j = choose|j: int| 0 <= j < paths.drop_first().len() && paths.drop_first()[j] == p;
            assert(paths[j + 1] == p);
        }
    }
}

/// Replacing the node at `p` by one of the same kind leaves a node at every path that does
/// not lead below `p`, and leaves its kind as it was.
pub proof fn lemma_replace_at_elsewhere(root: NodeView, p: Seq<int>, new: NodeView, q: Seq<int>)
    requires
        node_at(root, p) matches Some(n) && n.kind == new.kind,
        node_at(root, q) is Some,
        !is_below(q, p),
    ensures
        node_at(replace_at(root, p, new), q) matches Some(m) && m.kind == node_at(
            root,
            q,
        ).unwrap().kind,
    decreases q.len(),
{
    if q.len() == 0 {
    } else if p.len() == 0 {
        assert(is_below(q, p));
    } else if p[0] == q[0] {
        let pp = p.drop_first();
        let qq = q.drop_first();
        if is_below(qq, pp) {
            assert forall|i: int| 0 <= i < p.len() implies q[i] == p[i] by {
                if i > 0 {
                    assert(qq[i - 1] == pp[i - 1]);
                }
            }
            assert(is_below(q, p));
        }
        lemma_replace_at_elsewhere(root.children[p[0]], pp, new, qq);
    } else {
    }
}

/// After the node at `p` is replaced by `new`, the node at `p` is `new`.
pub proof fn lemma_replace_at_there(root: NodeView, p: Seq<int>, new: NodeView)
    requires
        node_at(root, p) is Some,
    ensures
        node_at(replace_at(root, p, new), p) == Some(new),
    decreases p.len(),
{
    if p.len() > 0 {
        lemma_replace_at_there(root.children[p[0]], p.drop_first(), new);
    }
}

/// A document: its tree and its registry of links.
pub struct Document {
    root: Node,
    links: Vec<Option<Vec<usize>>>,
}

/// Whether `q` leads strictly below `p`.
fn leads_below(q: &Vec<usize>, p: &Vec<usize>) -> (b: bool)
    ensures
        b == is_below(path_view(q@), path_view(p@)),
{
    if p.len() >= q.len() {
        return false;
    }
    let mut k: usize = 0;
    while k < p.len()
        invariant
            k <= p.len() < q.len(),
            forall|i: int| 0 <= i < k ==> path_view(q@)[i] == path_view(p@)[i],
        decreases p.len() - k,
    {
        if q[k] != p[k] {
            assert(path_view(q@)[k as int] != path_view(p@)[k as int]);
            return false;
        }
        k = k + 1;
    }
    true
}

/// Unbinds every link that leads strictly below `p`.
fn unbind_below(links: &mut Vec<Option<Vec<usize>>>, p: &Vec<usize>)
    ensures
        links_view(final(links)@) == invalidated(links_view(old(links)@), path_view(p@)),
{
    let mut k: usize = 0;
    while k < links.len()
        invariant
            k <= links.len(),
            links.len() == old(links).len(),
            forall|i: int|
                0 <= i < k ==> #[trigger] links@[i] == (if old(links)@[i] matches Some(q)
                    && is_below(path_view(q@), path_view(p@)) {
                    None
                } else {
                    old(links)@[i]
                }),
            forall|i: int| k <= i < links.len() ==> #[trigger] links@[i] == old(links)@[i],
        decreases links.len() - k,
    {
        let below = match &links[k] {
            Some(q) => leads_below(q, p),
            None => false,
        };
        if below {
            links[k] = None;
        }
        k = k + 1;
    }
    assert(links_view(links@) =~= invalidated(links_view(old(links)@), path_view(p@)));
}

/// Sets the inner markup of the node that the rest of `path` from `depth` on leads to.
fn set_inner_html_at(node: &mut Node, path: &Vec<usize>, depth: usize, markup: &str)
    requires
        depth <= path.len(),
        node_at(old(node)@, path_view(path@).skip(depth as int)) is Some,
    ensures
        final(node)@ == replace_at(
            old(node)@,
            path_view(path@).skip(depth as int),
            with_inner_html(
                node_at(old(node)@, path_view(path@).skip(depth as int)).unwrap(),
                markup@,
            ),
        ),
    decreases path.len() - depth,
{
    let ghost rest = path_view(path@).skip(depth as int);
    if depth == path.len() {
        node.set_inner_html(markup);
    } else {
        let i = path[depth];
        assert(rest[0] == i as int);
        assert(rest.drop_first() =~= path_view(path@).skip(depth + 1));
        assert(node@.children == nodes_view(node.children@));
        assert(nodes_view(node.children@).len() == node.children@.len());
        assert(node@.children[i as int] == node.children@[i as int]@);
        let ghost before = node.children@;
        set_inner_html_at(&mut node.children[i], path, depth + 1, markup);
        assert(nodes_view(node.children@) =~= nodes_view(before).update(
            i as int,
            node.children@[i as int]@,
        ));
    }
}

impl Document {
    /// The tree of the document.
    pub closed spec fn tree(&self) -> NodeView {
        self.root@
    }

    /// The registry: for each link, the path of the node it is bound to, if any.
    pub closed spec fn links(&self) -> Seq<Option<Seq<int>>> {
        links_view(self.links@)
    }

    /// The document is well formed: every bound link leads to an element of the tree.
    pub open spec fn wf(&self) -> bool {
        links_bound(self.tree(), self.links())
    }

    /// Where `link` leads: to the path of its node, or to the reason why it leads nowhere.
    pub open spec fn resolved(&self, link: usize) -> Result<Seq<int>, LinkError> {
        if link >= self.links().len() {
            Err(LinkError::Unknown)
        } else {
            match self.links()[link as int] {
                Some(p) => Ok(p),
                None => Err(LinkError::Stale),
            }
        }
    }

    /// A document over `root`, with no link made yet.
    pub fn new(root: Node) -> (doc: Document)
        ensures
            doc.wf(),
            doc.tree() == root@,
            doc.links() == Seq::<Option<Seq<int>>>::empty(),
    {
        let doc = Document { root, links: Vec::new() };
        assert(doc.links() =~= Seq::empty());
        doc
    }

    /// The document that `markup` reads as, with no link made yet.
    pub fn parse(markup: &str) -> (doc: Document)
        ensures
            doc.wf(),
            doc.tree() == (NodeView { kind: KindView::Document, children: parse_markup(markup@) }),
            doc.links() == Seq::<Option<Seq<int>>>::empty(),
    {
        Document::new(parse(markup))
    }

    /// The root of the tree.
    pub fn root(&self) -> (n: &Node)
        ensures
            n@ == self.tree(),
    {
        &self.root
    }

    /// Follows `link` to its node.
    pub fn resolve(&self, link: usize) -> (r: Result<&Node, LinkError>)
        requires
            self.wf(),
        ensures
            match self.resolved(link) {
                Ok(p) => r matches Ok(n) && node_at(self.tree(), p) == Some(n@),
                Err(e) => r matches Err(f) && f == e,
            },
    {
        if link >= self.links.len() {
            return Err(LinkError::Unknown);
        }
        match &self.links[link] {
            None => Err(LinkError::Stale),
            Some(path) => {
                assert(self.links()[link as int] == Some(path_view(path@)));
                match node_at_path(&self.root, path) {
                    Some(n) => Ok(n),
                    None => Err(LinkError::Stale),
                }
            },
        }
    }

    /// Looks up the element whose id is `id`: the first one that carries it in a walk of
    /// the tree that takes the children in document order and each node after its
    /// descendants. Makes a new link to that element and gives a handle that holds the
    /// link and the element's tag name and attributes as they are now. Gives nothing, and
    /// makes no link, when no element carries the id.
    pub fn get_element_by_id(&mut self, id: &str) -> (r: Option<ElementHandle>)
        requires
            old(self).wf(),
        ensures
            final(self).wf(),
            final(self).tree() == old(self).tree(),
            match find_by_id(old(self).tree(), id@) {
                Some(p) => r matches Some(h) && h@ == handle_of(
                    node_at(old(self).tree(), p).unwrap(),
                    old(self).links().len() as usize,
                ) && final(self).links() == old(self).links().push(Some(p)),
                None => r is None && final(self).links() == old(self).links(),
            },
    {
        let found = find_element_by_id(&self.root, id);
        match found {
            None => None,
            Some(path) => {
                proof {
                    lemma_first_match_matches(self.tree(), postorder(self.tree()), id@);
                }
                match node_at_path(&self.root, &path) {
                    Some(node) => match &node.node_type {
                        NodeType::Element(e) => {
                            let tag_name = e.tag_name.clone();
                            let attributes = e.attributes();
                            let link = self.links.len();
                            let ghost p = path_view(path@);
                            let ghost before = self.links();
                            self.links.push(Some(path));
                            assert(self.links() =~= before.push(Some(p)));
                            Some(ElementHandle { link, tag_name, attributes })
                        },
                        _ => None,
                    },
                    None => None,
                }
            },
        }
    }

    /// The markup of the children of the node that `link` leads to.
    pub fn inner_html(&self, link: usize) -> (r: Result<String, LinkError>)
        requires
            self.wf(),
        ensures
            match self.resolved(link) {
                Ok(p) => r matches Ok(s) && s@ == render_nodes(
                    node_at(self.tree(), p).unwrap().children,
                ),
                Err(e) => r matches Err(f) && f == e,
            },
    {
        match self.resolve(link) {
            Ok(n) => Ok(n.inner_html()),
            Err(e) => Err(e),
        }
    }

    /// Replaces the children of the node that `link` leads to by what `markup` reads as,
    /// and unbinds every link that led below that node. A link that leads nowhere changes
    /// nothing.
    pub fn set_inner_html(&mut self, link: usize, markup: &str) -> (r: Result<(), LinkError>)
        requires
            old(self).wf(),
        ensures
            final(self).wf(),
            match old(self).resolved(link) {
                Ok(p) => r is Ok && final(self).tree() == replace_at(
                    old(self).tree(),
                    p,
                    with_inner_html(node_at(old(self).tree(), p).unwrap(), markup@),
                ) && final(self).links() == invalidated(old(self).links(), p),
                Err(e) => r matches Err(f) && f == e && final(self).tree() == old(self).tree()
                    && final(self).links() == old(self).links(),
            },
    {
        if link >= self.links.len() {
            return Err(LinkError::Unknown);
        }
        let path = match &self.links[link] {
            None => {
                return Err(LinkError::Stale);
            },
            Some(path) => path.clone(),
        };
        let ghost p = path_view(path@);
        let ghost tree = self.tree();
        let ghost links = self.links();
        assert(links[link as int] == Some(p));
        assert(p.skip(0) =~= p);
        set_inner_html_at(&mut self.root, &path, 0, markup);
        unbind_below(&mut self.links, &path);
        proof {
            let new = with_inner_html(node_at(tree, p).unwrap(), markup@);
            assert forall|i: int| 0 <= i < self.links().len() implies ((
            #[trigger] self.links()[i]) matches Some(q) ==> node_at(self.tree(), q) matches Some(
                n,
            ) && n.kind is Element) by {
                match self.links()[i] {
                    Some(q) => {
                        assert(links[i] == Some(q));
                        lemma_replace_at_elsewhere(tree, p, new, q);
                    },
                    None => {},
                }
            }
        }
        Ok(())
    }

    /// Whether the document is well formed.
    pub fn is_well_formed(&self) -> (b: bool)
        ensures
            b == self.wf(),
    {
        let mut k: usize = 0;
        while k < self.links.len()
            invariant
                k <= self.links.len(),
                forall|i: int|
                    0 <= i < k ==> ((#[trigger] self.links()[i]) matches Some(p) ==> node_at(
                        self.tree(),
                        p,
                    ) matches Some(n) && n.kind is Element),
            decreases self.links.len() - k,
        {
            let bound = match &self.links[k] {
                Some(path) => {
                    assert(self.links()[k as int] == Some(path_view(path@)));
                    match node_at_path(&self.root, path) {
                        Some(n) => match &n.node_type {
                            NodeType::Element(_) => true,
                            _ => false,
                        },
                        None => false,
                    }
                },
                None => true,
            };
            if !bound {
                return false;
            }
            k = k + 1;
        }
        true
    }

    /// The number of links made so far.
    pub fn link_count(&self) -> (n: usize)
        ensures
            n == self.links().len(),
    {
        self.links.len()
    }
}

} // verus!
