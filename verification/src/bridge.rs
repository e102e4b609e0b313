//! The property bridge: what a script-visible element object is made of, and what reading
//! and writing its properties does.
//!
//! An element object is defined property by property: `tagName`, then one property per
//! attribute, then `innerHTML`. A later definition replaces an earlier one of the same
//! name. `tagName` and the attribute properties are read-only copies taken when the handle
//! was made; `innerHTML` is a live accessor that reads and writes the linked node.

use crate::binding::{BrowserAPI, DispatchError};
use crate::document::{
    handle_of, invalidated, replace_at, Document, ElementHandle, ElementHandleView, LinkError,
};
use crate::dom::{attribute_value, lookup_attribute, with_inner_html};
use crate::markup::render_nodes;
use crate::query::{find_by_id, node_at};
use vstd::prelude::*;

verus! {

/// Why a property access failed.
#[derive(Clone, Copy, Debug, PartialEq, Eq, Structural)]
pub enum BridgeError {
    /// The handle's link could not be followed.
    Link(LinkError),
    /// The node was changed, but the re-render request could not be enqueued.
    Dispatch(DispatchError),
}

/// A property of a script-visible element object.
#[derive(Debug, PartialEq, Eq)]
pub enum Property {
    /// A read-only data property with a fixed value.
    ReadOnly(String),
    /// The live accessor for the inner markup of the linked node.
    InnerHtml,
}

/// The mathematical value of a [`Property`].
pub enum PropertyView {
    ReadOnly(Seq<char>),
    InnerHtml,
}

impl View for Property {
    type V = PropertyView;

    open spec fn view(&self) -> PropertyView {
        match self {
            Property::ReadOnly(v) => PropertyView::ReadOnly(v@),
            Property::InnerHtml => PropertyView::InnerHtml,
        }
    }
}

/// What writing a property did.
#[derive(Clone, Copy, Debug, PartialEq, Eq, Structural)]
pub enum SetOutcome {
    /// The linked node was changed and one re-render request was enqueued.
    Updated,
    /// The property is read-only: nothing was changed.
    ReadOnly,
    /// The bridge defines no such property: nothing was changed.
    Undefined,
}

/// The property name `tagName`.
pub open spec fn tag_name_key() -> Seq<char> {
    seq!['t', 'a', 'g', 'N', 'a', 'm', 'e']
}

/// The property name `innerHTML`.
pub open spec fn inner_html_key() -> Seq<char> {
    seq!['i', 'n', 'n', 'e', 'r', 'H', 'T', 'M', 'L']
}

/// The value of a list of property definitions.
pub open spec fn definitions_view(defs: Seq<(String, Property)>) -> Seq<
    (Seq<char>, PropertyView),
> {
    Seq::new(defs.len(), |i: int| (defs[i].0@, defs[i].1@))
}

/// One read-only property per attribute, in the order of the attributes.
pub open spec fn attribute_definitions(attrs: Seq<(Seq<char>, Seq<char>)>) -> Seq<
    (Seq<char>, PropertyView),
> {
    Seq::new(attrs.len(), |i: int| (attrs[i].0, PropertyView::ReadOnly(attrs[i].1)))
}

/// The definitions that make up the element object of a handle, in their order.
pub open spec fn definitions(h: ElementHandleView) -> Seq<(Seq<char>, PropertyView)> {
    seq![(tag_name_key(), PropertyView::ReadOnly(h.tag_name))] + attribute_definitions(
        h.attributes,
    ) + seq![(inner_html_key(), PropertyView::InnerHtml)]
}

/// The property that a list of definitions gives to `name`: the last one defined under it.
pub open spec fn defined(defs: Seq<(Seq<char>, PropertyView)>, name: Seq<char>) -> Option<
    PropertyView,
>
    decreases defs.len(),
{
    if defs.len() == 0 {
        None
    } else if defs.last().0 == name {
        Some(defs.last().1)
    } else {
        defined(defs.drop_last(), name)
    }
}

/// The property of the element object of `h` under `name`.
pub open spec fn property_of(h: ElementHandleView, name: Seq<char>) -> Option<PropertyView> {
    defined(definitions(h), name)
}

/// What reading the inner markup through `link` gives in a document with the tree `tree`
/// and the registry `links`.
pub open spec fn live_inner_html(doc: Document, link: usize) -> Result<Seq<char>, LinkError> {
    match doc.resolved(link) {
        Ok(p) => Ok(render_nodes(node_at(doc.tree(), p).unwrap().children)),
        Err(e) => Err(e),
    }
}

/// What reading the property `name` of the element object of `h` gives: nothing where no
/// such property is defined, the fixed value of a read-only property, and for `innerHTML`
/// the markup of the children that the linked node has in `doc`.
pub open spec fn reads(h: ElementHandleView, doc: Document, name: Seq<char>) -> Result<
    Option<Seq<char>>,
    LinkError,
> {
    match property_of(h, name) {
        None => Ok(None),
        Some(PropertyView::ReadOnly(v)) => Ok(Some(v)),
        Some(PropertyView::InnerHtml) => match live_inner_html(doc, h.link) {
            Ok(s) => Ok(Some(s)),
            Err(e) => Err(e),
        },
    }
}

/// The definitions before `innerHTML` give `name` what the attributes give it, or else the
/// tag name under `tagName`.
proof fn lemma_defined_data(
    tag_name: Seq<char>,
    attrs: Seq<(Seq<char>, Seq<char>)>,
    name: Seq<char>,
)
    ensures
        defined(
            seq![(tag_name_key(), PropertyView::ReadOnly(tag_name))] + attribute_definitions(attrs),
            name,
        ) == (match attribute_value(attrs, name) {
            Some(v) => Some(PropertyView::ReadOnly(v)),
            None => if name == tag_name_key() {
                Some(PropertyView::ReadOnly(tag_name))
            } else {
                None
            },
        }),
    decreases attrs.len(),
{
    let head = seq![(tag_name_key(), PropertyView::ReadOnly(tag_name))];
    let defs = head + attribute_definitions(attrs);
    if attrs.len() == 0 {
        assert(defs =~= head);
        assert(head.drop_last() =~= Seq::empty());
        assert(defined(Seq::empty(), name) is None);
    } else {
        assert(defs.last() == (attrs.last().0, PropertyView::ReadOnly(attrs.last().1)));
        assert(defs.drop_last() =~= head + attribute_definitions(attrs.drop_last()));
        lemma_defined_data(tag_name, attrs.drop_last(), name);
    }
}

/// The property under `name`, case by case: `innerHTML` is the live accessor; any other
/// name that an attribute carries is that attribute's value; `tagName`, if no attribute
/// is named so, is the tag name; nothing else is defined.
pub proof fn lemma_property_of(h: ElementHandleView, name: Seq<char>)
    ensures
        property_of(h, name) == (if name == inner_html_key() {
            Some(PropertyView::InnerHtml)
        } else {
            match attribute_value(h.attributes, name) {
                Some(v) => Some(PropertyView::ReadOnly(v)),
                None => if name == tag_name_key() {
                    Some(PropertyView::ReadOnly(h.tag_name))
                } else {
                    None
                },
            }
        }),
{
    let front = seq![(tag_name_key(), PropertyView::ReadOnly(h.tag_name))] + attribute_definitions(
        h.attributes,
    );
    assert(definitions(h).last() == (inner_html_key(), PropertyView::InnerHtml));
    assert(definitions(h).drop_last() =~= front);
    lemma_defined_data(h.tag_name, h.attributes, name);
}

impl ElementHandle {
    /// The definitions that make up the element object, in their order.
    pub fn properties(&self) -> (defs: Vec<(String, Property)>)
        ensures
            definitions_view(defs@) == definitions(self@),
    {
        let mut defs: Vec<(String, Property)> = Vec::new();
        proof {
            reveal_strlit("tagName");
            reveal_strlit("innerHTML");
            assert("tagName"@ =~= tag_name_key());
            assert("innerHTML"@ =~= inner_html_key());
        }
        defs.push(("tagName".to_owned(), Property::ReadOnly(self.tag_name.clone())));
        let ghost head = seq![(tag_name_key(), PropertyView::ReadOnly(self@.tag_name))];
        assert(definitions_view(defs@) =~= head);
        let mut k: usize = 0;
        assert(attribute_definitions(self@.attributes.take(0)) =~= Seq::empty());
        while k < self.attributes.len()
            invariant
                k <= self.attributes.len(),
                head == seq![(tag_name_key(), PropertyView::ReadOnly(self@.tag_name))],
                definitions_view(defs@) =~= head + attribute_definitions(
                    self@.attributes.take(k as int),
                ),
            decreases self.attributes.len() - k,
        {
            let ghost before = definitions_view(defs@);
            let ghost done = attribute_definitions(self@.attributes.take(k as int));
            defs.push(
                (self.attributes[k].0.clone(), Property::ReadOnly(self.attributes[k].1.clone())),
            );
            proof {
                let a = self@.attributes[k as int];
                let d = (a.0, PropertyView::ReadOnly(a.1));
                assert(a == (self.attributes@[k as int].0@, self.attributes@[k as int].1@));
                assert(definitions_view(defs@) =~= before.push(d));
                assert(attribute_definitions(self@.attributes.take(k + 1)) =~= done.push(d));
                assert(before.push(d) =~= head + done.push(d));
            }
            k = k + 1;
        }
        assert(self@.attributes.take(self.attributes.len() as int) =~= self@.attributes);
        defs.push(("innerHTML".to_owned(), Property::InnerHtml));
        assert(definitions_view(defs@) =~= definitions(self@));
        defs
    }

    /// Reads the property `name` of the element object.
    pub fn get(&self, doc: &Document, name: &str) -> (r: Result<Option<String>, LinkError>)
        requires
            doc.wf(),
        ensures
            match reads(self@, *doc, name@) {
                Ok(Some(v)) => r matches Ok(Some(s)) && s@ == v,
                Ok(None) => r matches Ok(None),
                Err(e) => r matches Err(f) && f == e,
            },
    {
        proof {
            reveal_strlit("tagName");
            reveal_strlit("innerHTML");
            assert("tagName"@ =~= tag_name_key());
            assert("innerHTML"@ =~= inner_html_key());
            lemma_property_of(self@, name@);
        }
        let key = name.to_owned();
        if key == "innerHTML".to_owned() {
            match doc.inner_html(self.link) {
                Ok(s) => Ok(Some(s)),
                Err(e) => Err(e),
            }
        } else {
            match lookup_attribute(&self.attributes, name) {
                Some(v) => Ok(Some(v)),
                None => if key == "tagName".to_owned() {
                    Ok(Some(self.tag_name.clone()))
                } else {
                    Ok(None)
                },
            }
        }
    }

    /// Writes the property `name` of the element object.
    ///
    /// Writing `innerHTML` through a link that leads to a node replaces the children of
    /// that node by what `value` reads as, unbinds every link that led below it, and then
    /// enqueues one re-render request, whether or not the new markup differs from the old.
    /// Writing a read-only property, or a name under which nothing is defined, changes
    /// nothing.
    pub fn set(&self, doc: &mut Document, api: &mut BrowserAPI, name: &str, value: &str) -> (r:
        Result<SetOutcome, BridgeError>)
        requires
            old(doc).wf(),
        ensures
            final(doc).wf(),
            match property_of(self@, name@) {
                Some(PropertyView::InnerHtml) => match old(doc).resolved(self.link) {
                    Ok(p) => {
                        &&& final(doc).tree() == replace_at(
                            old(doc).tree(),
                            p,
                            with_inner_html(node_at(old(doc).tree(), p).unwrap(), value@),
                        )
                        &&& final(doc).links() == invalidated(old(doc).links(), p)
                        &&& final(api).capacity() == old(api).capacity()
                        &&& if old(api).pending_requests() < old(api).capacity() {
                            &&& r == Ok::<SetOutcome, BridgeError>(SetOutcome::Updated)
                            &&& final(api).pending_requests() == old(api).pending_requests() + 1
                        } else {
                            &&& r == Err::<SetOutcome, BridgeError>(
                                BridgeError::Dispatch(DispatchError::QueueFull),
                            )
                            &&& *final(api) == *old(api)
                        }
                    },
                    Err(e) => {
                        &&& r == Err::<SetOutcome, BridgeError>(BridgeError::Link(e))
                        &&& final(doc).tree() == old(doc).tree()
                        &&& final(doc).links() == old(doc).links()
                        &&& *final(api) == *old(api)
                    },
                },
                Some(PropertyView::ReadOnly(_)) => {
                    &&& r == Ok::<SetOutcome, BridgeError>(SetOutcome::ReadOnly)
                    &&& final(doc).tree() == old(doc).tree()
                    &&& final(doc).links() == old(doc).links()
                    &&& *final(api) == *old(api)
                },
                None => {
                    &&& r == Ok::<SetOutcome, BridgeError>(SetOutcome::Undefined)
                    &&& final(doc).tree() == old(doc).tree()
                    &&& final(doc).links() == old(doc).links()
                    &&& *final(api) == *old(api)
                },
            },
    {
        proof {
            reveal_strlit("tagName");
            reveal_strlit("innerHTML");
            assert("tagName"@ =~= tag_name_key());
            assert("innerHTML"@ =~= inner_html_key());
            lemma_property_of(self@, name@);
        }
        let key = name.to_owned();
        if key == "innerHTML".to_owned() {
            match doc.set_inner_html(self.link, value) {
                Err(e) => Err(BridgeError::Link(e)),
                Ok(()) => match api.rerender() {
                    Ok(()) => Ok(SetOutcome::Updated),
                    Err(e) => Err(BridgeError::Dispatch(e)),
                },
            }
        } else {
            match lookup_attribute(&self.attributes, name) {
                Some(_) => Ok(SetOutcome::ReadOnly),
                None => if key == "tagName".to_owned() {
                    Ok(SetOutcome::ReadOnly)
                } else {
                    Ok(SetOutcome::Undefined)
                },
            }
        }
    }
}

/// A function that the bridge offers to script.
#[derive(Clone, Copy, Debug, PartialEq, Eq, Structural)]
pub enum HostFunction {
    /// Looks an element up by its id.
    GetElementById,
}

/// An object that the bridge puts into the script's global scope: its name there and its
/// methods.
#[derive(Debug, PartialEq, Eq)]
pub struct HostObject {
    pub name: String,
    pub methods: Vec<(String, HostFunction)>,
}

/// The mathematical value of a [`HostObject`].
pub struct HostObjectView {
    pub name: Seq<char>,
    pub methods: Seq<(Seq<char>, HostFunction)>,
}

impl View for HostObject {
    type V = HostObjectView;

    open spec fn view(&self) -> HostObjectView {
        HostObjectView {
            name: self.name@,
            methods: Seq::new(
                self.methods@.len(),
                |i: int| (self.methods@[i].0@, self.methods@[i].1),
            ),
        }
    }
}

/// The values of a list of host objects.
pub open spec fn host_objects_view(objects: Seq<HostObject>) -> Seq<HostObjectView> {
    Seq::new(objects.len(), |i: int| objects[i]@)
}

/// The name `document`.
pub open spec fn document_key() -> Seq<char> {
    seq!['d', 'o', 'c', 'u', 'm', 'e', 'n', 't']
}

/// The name `getElementById`.
pub open spec fn get_element_by_id_key() -> Seq<char> {
    seq!['g', 'e', 't', 'E', 'l', 'e', 'm', 'e', 'n', 't', 'B', 'y', 'I', 'd']
}

/// The `document` object: its one member is the method `getElementById`.
pub open spec fn document_object() -> HostObjectView {
    HostObjectView {
        name: document_key(),
        methods: seq![(get_element_by_id_key(), HostFunction::GetElementById)],
    }
}

/// Adds the `document` object to the objects of the script's global scope.
pub fn initialize_dom(global: &mut Vec<HostObject>)
    ensures
        host_objects_view(final(global)@) == host_objects_view(old(global)@).push(
            document_object(),
        ),
{
    proof {
        reveal_strlit("document");
        reveal_strlit("getElementById");
        assert("document"@ =~= document_key());
        assert("getElementById"@ =~= get_element_by_id_key());
    }
    let mut methods: Vec<(String, HostFunction)> = Vec::new();
    methods.push(("getElementById".to_owned(), HostFunction::GetElementById));
    let document = HostObject { name: "document".to_owned(), methods };
    assert(document@.methods =~= document_object().methods);
    global.push(document);
    assert(host_objects_view(global@) =~= host_objects_view(old(global)@).push(
        document_object(),
    ));
}

/// Runs a host function on behalf of script, with the argument as script converted it to a
/// string.
pub fn call(function: HostFunction, doc: &mut Document, argument: &str) -> (r: Option<
    ElementHandle,
>)
    requires
        old(doc).wf(),
    ensures
        final(doc).wf(),
        final(doc).tree() == old(doc).tree(),
        match find_by_id(old(doc).tree(), argument@) {
            Some(p) => r matches Some(h) && h@ == handle_of(
                node_at(old(doc).tree(), p).unwrap(),
                old(doc).links().len() as usize,
            ) && final(doc).links() == old(doc).links().push(Some(p)),
            None => r is None && final(doc).links() == old(doc).links(),
        },
{
    match function {
        HostFunction::GetElementById => doc.get_element_by_id(argument),
    }
}

} // verus!
