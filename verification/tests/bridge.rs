use domapi::binding::{BrowserAPI, DispatchError};
use domapi::bridge::{call, initialize_dom, BridgeError, HostFunction, HostObject, Property};
use domapi::bridge::SetOutcome;
use domapi::document::{Document, ElementHandle, LinkError};

fn pair(name: &str, value: &str) -> (String, String) {
    (name.to_string(), value.to_string())
}

fn some(s: &str) -> Result<Option<String>, LinkError> {
    Ok(Some(s.to_string()))
}

#[test]
fn lookup_binds_a_handle_to_the_element() {
    let mut doc = Document::parse("<div id=\"r\" class=\"box\"><p>old</p></div>");
    let h = doc.get_element_by_id("r").unwrap();
    assert_eq!(
        h,
        ElementHandle {
            link: 0,
            tag_name: "div".to_string(),
            attributes: vec![pair("id", "r"), pair("class", "box")],
        }
    );
    assert_eq!(doc.link_count(), 1);
    assert_eq!(doc.resolve(h.link).unwrap().id(), Some("r".to_string()));
}

#[test]
fn lookup_of_a_unique_id_is_repeatable() {
    let mut doc = Document::parse("<a><b id=\"x\" k=\"v\">t</b></a><c id=\"y\"></c>");
    let first = doc.get_element_by_id("x").unwrap();
    for n in 1usize..5 {
        let again = doc.get_element_by_id("x").unwrap();
        assert_eq!(again.link, n);
        assert_eq!(again.tag_name, first.tag_name);
        assert_eq!(again.attributes, first.attributes);
        assert!(std::ptr::eq(doc.resolve(again.link).unwrap(), doc.resolve(first.link).unwrap()));
    }
    assert_eq!(doc.resolve(first.link).unwrap().inner_html(), "t");
}

#[test]
fn lookup_miss_gives_nothing_and_makes_no_link() {
    let mut doc = Document::parse("<div id=\"r\"></div>");
    assert_eq!(doc.get_element_by_id("missing"), None);
    assert_eq!(doc.get_element_by_id("R"), None);
    assert_eq!(doc.get_element_by_id(""), None);
    assert_eq!(doc.link_count(), 0);
    assert_eq!(Document::parse("").get_element_by_id("r"), None);
}

#[test]
fn writing_inner_html_is_visible_and_asks_for_one_rerender() {
    let mut doc = Document::parse("<div id=\"r\"><p>old</p></div>");
    let mut api = BrowserAPI::new();
    let h = doc.get_element_by_id("r").unwrap();
    assert_eq!(h.get(&doc, "innerHTML"), some("<p>old</p>"));
    assert_eq!(api.pending(), 0);
    assert_eq!(h.set(&mut doc, &mut api, "innerHTML", "<p>new</p>"), Ok(SetOutcome::Updated));
    assert_eq!(h.get(&doc, "innerHTML"), some("<p>new</p>"));
    assert_eq!(doc.inner_html(h.link), Ok("<p>new</p>".to_string()));
    assert_eq!(doc.root().inner_html(), "<div id=\"r\"><p>new</p></div>");
    assert_eq!(api.pending(), 1);
}

#[test]
fn writing_the_same_markup_still_asks_for_a_rerender() {
    let mut doc = Document::parse("<div id=\"r\"><p>old</p></div>");
    let mut api = BrowserAPI::new();
    let h = doc.get_element_by_id("r").unwrap();
    assert_eq!(h.set(&mut doc, &mut api, "innerHTML", "<p>old</p>"), Ok(SetOutcome::Updated));
    assert_eq!(h.set(&mut doc, &mut api, "innerHTML", "<p>old</p>"), Ok(SetOutcome::Updated));
    assert_eq!(api.pending(), 2);
    assert_eq!(api.take_pending(), 2);
    assert_eq!(api.pending(), 0);
    assert_eq!(doc.root().inner_html(), "<div id=\"r\"><p>old</p></div>");
}

#[test]
fn writing_malformed_markup_empties_the_node() {
    let mut doc = Document::parse("<div id=\"r\"><p>old</p></div>");
    let mut api = BrowserAPI::new();
    let h = doc.get_element_by_id("r").unwrap();
    assert_eq!(h.set(&mut doc, &mut api, "innerHTML", "<p>new"), Ok(SetOutcome::Updated));
    assert_eq!(h.get(&doc, "innerHTML"), some(""));
    assert_eq!(doc.root().inner_html(), "<div id=\"r\"></div>");
    assert_eq!(api.pending(), 1);
}

#[test]
fn data_properties_are_snapshots_and_inner_html_is_live() {
    let mut doc = Document::parse("<div id=\"outer\"><p id=\"x\" class=\"a\">t</p></div>");
    let mut api = BrowserAPI::new();
    let outer = doc.get_element_by_id("outer").unwrap();
    let early = doc.get_element_by_id("outer").unwrap();
    let inner = doc.get_element_by_id("x").unwrap();
    assert_eq!(inner.get(&doc, "class"), some("a"));
    assert_eq!(
        outer.set(&mut doc, &mut api, "innerHTML", "<h1 id=\"x\" class=\"b\">u</h1>"),
        Ok(SetOutcome::Updated)
    );
    assert_eq!(inner.get(&doc, "tagName"), some("p"));
    assert_eq!(inner.get(&doc, "class"), some("a"));
    assert_eq!(inner.get(&doc, "id"), some("x"));
    assert_eq!(early.get(&doc, "innerHTML"), some("<h1 id=\"x\" class=\"b\">u</h1>"));
    assert_eq!(early.get(&doc, "tagName"), some("div"));
    let fresh = doc.get_element_by_id("x").unwrap();
    assert_eq!(fresh.get(&doc, "tagName"), some("h1"));
    assert_eq!(fresh.get(&doc, "class"), some("b"));
    assert_eq!(fresh.get(&doc, "innerHTML"), some("u"));
}

#[test]
fn a_handle_whose_node_was_discarded_is_stale() {
    let mut doc = Document::parse("<div id=\"outer\"><p id=\"x\"><b id=\"y\"></b></p></div>");
    let mut api = BrowserAPI::new();
    let outer = doc.get_element_by_id("outer").unwrap();
    let x = doc.get_element_by_id("x").unwrap();
    let y = doc.get_element_by_id("y").unwrap();
    assert_eq!(outer.set(&mut doc, &mut api, "innerHTML", "<p id=\"z\">n</p>"), Ok(SetOutcome::Updated));
    assert_eq!(x.get(&doc, "innerHTML"), Err(LinkError::Stale));
    assert_eq!(y.get(&doc, "innerHTML"), Err(LinkError::Stale));
    assert_eq!(doc.inner_html(x.link), Err(LinkError::Stale));
    assert_eq!(doc.resolve(y.link).err(), Some(LinkError::Stale));
    assert_eq!(
        x.set(&mut doc, &mut api, "innerHTML", "<i></i>"),
        Err(BridgeError::Link(LinkError::Stale))
    );
    assert_eq!(doc.set_inner_html(y.link, "q"), Err(LinkError::Stale));
    assert_eq!(doc.root().inner_html(), "<div id=\"outer\"><p id=\"z\">n</p></div>");
    assert_eq!(api.pending(), 1);
    assert_eq!(outer.get(&doc, "innerHTML"), some("<p id=\"z\">n</p>"));
    let z = doc.get_element_by_id("z").unwrap();
    assert_eq!(z.link, 3);
    assert_eq!(z.get(&doc, "innerHTML"), some("n"));
    assert!(doc.is_well_formed());
}

#[test]
fn documents_stay_well_formed() {
    let mut doc = Document::parse("<a id=\"a\"><b id=\"b\"><c id=\"c\"></c></b></a>");
    assert!(doc.is_well_formed());
    let a = doc.get_element_by_id("a").unwrap();
    let b = doc.get_element_by_id("b").unwrap();
    let c = doc.get_element_by_id("c").unwrap();
    assert!(doc.is_well_formed());
    assert_eq!(doc.set_inner_html(b.link, "text only"), Ok(()));
    assert!(doc.is_well_formed());
    assert_eq!(doc.resolve(c.link).err(), Some(LinkError::Stale));
    assert_eq!(doc.resolve(b.link).unwrap().inner_html(), "text only");
    assert_eq!(doc.set_inner_html(a.link, "not <markup"), Ok(()));
    assert!(doc.is_well_formed());
    assert_eq!(doc.resolve(b.link).err(), Some(LinkError::Stale));
    assert_eq!(doc.resolve(a.link).unwrap().inner_html(), "");
    assert_eq!(doc.link_count(), 3);
}

#[test]
fn a_link_that_was_never_made_is_unknown() {
    let mut doc = Document::parse("<div id=\"r\"></div>");
    let mut api = BrowserAPI::new();
    let forged = ElementHandle { link: 7, tag_name: "div".to_string(), attributes: vec![] };
    assert_eq!(forged.get(&doc, "innerHTML"), Err(LinkError::Unknown));
    assert_eq!(forged.get(&doc, "tagName"), some("div"));
    assert_eq!(
        forged.set(&mut doc, &mut api, "innerHTML", "x"),
        Err(BridgeError::Link(LinkError::Unknown))
    );
    assert_eq!(doc.inner_html(0), Err(LinkError::Unknown));
    assert_eq!(doc.set_inner_html(0, "x"), Err(LinkError::Unknown));
    assert_eq!(doc.resolve(0).err(), Some(LinkError::Unknown));
    assert_eq!(doc.root().inner_html(), "<div id=\"r\"></div>");
    assert_eq!(api.pending(), 0);
}

#[test]
fn duplicate_ids_resolve_to_the_element_walked_first() {
    let mut doc = Document::parse(
        "<div id=\"dup\"><p id=\"dup\">inner</p></div><span id=\"dup\">late</span>",
    );
    for _ in 0..3 {
        let h = doc.get_element_by_id("dup").unwrap();
        assert_eq!(h.tag_name, "p");
        assert_eq!(h.get(&doc, "innerHTML"), some("inner"));
    }
    let mut siblings = Document::parse("<a id=\"dup\">1</a><b id=\"dup\">2</b>");
    for _ in 0..3 {
        assert_eq!(siblings.get_element_by_id("dup").unwrap().tag_name, "a");
    }
}

#[test]
fn lookup_follows_the_tree_as_it_changes() {
    let mut doc = Document::parse("<div id=\"r\"><p id=\"a\"></p></div>");
    let mut api = BrowserAPI::new();
    let r = doc.get_element_by_id("r").unwrap();
    assert!(doc.get_element_by_id("a").is_some());
    assert_eq!(r.set(&mut doc, &mut api, "innerHTML", "<p id=\"b\"></p>"), Ok(SetOutcome::Updated));
    assert_eq!(doc.get_element_by_id("a"), None);
    assert_eq!(doc.get_element_by_id("b").unwrap().tag_name, "p");
}

#[test]
fn a_full_queue_refuses_the_request_after_the_write() {
    let mut doc = Document::parse("<div id=\"r\">0</div>");
    let mut api = BrowserAPI::with_capacity(1);
    let h = doc.get_element_by_id("r").unwrap();
    assert_eq!(h.set(&mut doc, &mut api, "innerHTML", "1"), Ok(SetOutcome::Updated));
    assert_eq!(
        h.set(&mut doc, &mut api, "innerHTML", "2"),
        Err(BridgeError::Dispatch(DispatchError::QueueFull))
    );
    assert_eq!(h.get(&doc, "innerHTML"), some("2"));
    assert_eq!(api.pending(), 1);
    assert_eq!(api.take_pending(), 1);
    assert_eq!(h.set(&mut doc, &mut api, "innerHTML", "3"), Ok(SetOutcome::Updated));
    assert_eq!(api.pending(), 1);
}

#[test]
fn read_only_and_undefined_properties_are_not_written() {
    let mut doc = Document::parse("<div id=\"r\" class=\"c\">t</div>");
    let mut api = BrowserAPI::new();
    let h = doc.get_element_by_id("r").unwrap();
    assert_eq!(h.set(&mut doc, &mut api, "tagName", "span"), Ok(SetOutcome::ReadOnly));
    assert_eq!(h.set(&mut doc, &mut api, "class", "d"), Ok(SetOutcome::ReadOnly));
    assert_eq!(h.set(&mut doc, &mut api, "title", "x"), Ok(SetOutcome::Undefined));
    assert_eq!(h.set(&mut doc, &mut api, "innerhtml", "x"), Ok(SetOutcome::Undefined));
    assert_eq!(h.get(&doc, "tagName"), some("div"));
    assert_eq!(h.get(&doc, "class"), some("c"));
    assert_eq!(h.get(&doc, "title"), Ok(None));
    assert_eq!(doc.root().inner_html(), "<div id=\"r\" class=\"c\">t</div>");
    assert_eq!(api.pending(), 0);
}

#[test]
fn a_later_definition_replaces_an_earlier_one() {
    let mut doc = Document::parse(
        "<p id=\"q\" a=\"1\" tagName=\"fake\" a=\"2\" innerHTML=\"attr\">live</p>",
    );
    let mut api = BrowserAPI::new();
    let h = doc.get_element_by_id("q").unwrap();
    assert_eq!(h.tag_name, "p");
    assert_eq!(h.get(&doc, "a"), some("2"));
    assert_eq!(h.get(&doc, "tagName"), some("fake"));
    assert_eq!(h.get(&doc, "innerHTML"), some("live"));
    assert_eq!(h.set(&mut doc, &mut api, "innerHTML", "now"), Ok(SetOutcome::Updated));
    assert_eq!(h.get(&doc, "innerHTML"), some("now"));
}

#[test]
fn properties_are_defined_in_order() {
    let mut doc = Document::parse("<p id=\"q\" class=\"c\">t</p>");
    let h = doc.get_element_by_id("q").unwrap();
    assert_eq!(
        h.properties(),
        vec![
            ("tagName".to_string(), Property::ReadOnly("p".to_string())),
            ("id".to_string(), Property::ReadOnly("q".to_string())),
            ("class".to_string(), Property::ReadOnly("c".to_string())),
            ("innerHTML".to_string(), Property::InnerHtml),
        ]
    );
}

#[test]
fn initialize_dom_adds_the_document_object() {
    let mut global: Vec<HostObject> = Vec::new();
    initialize_dom(&mut global);
    assert_eq!(
        global,
        vec![HostObject {
            name: "document".to_string(),
            methods: vec![("getElementById".to_string(), HostFunction::GetElementById)],
        }]
    );
}

#[test]
fn call_runs_get_element_by_id() {
    let mut doc = Document::parse("<div id=\"r\"></div>");
    let h = call(HostFunction::GetElementById, &mut doc, "r").unwrap();
    assert_eq!(h.tag_name, "div");
    assert_eq!(call(HostFunction::GetElementById, &mut doc, "undefined"), None);
}

const PAGE: &str = r#"<body>
    <p>hello</p>
    <p class="inline">world</p>
    <p class="inline">:)</p>
    <div class="none"><p>this should not be shown</p></div>
    <style>
        .none { 
            display: none;
        }
        .inline {
            display: inline;
        }
    </style>

    <div id="result">
        <p>not loaded</p>
    </div>
    <script>
        document.getElementById("result").innerHTML = `\x3cp\x3eloaded\x3c/p\x3e`
    </script>    
</body>"#;

#[test]
fn the_inline_script_of_a_page_loads_its_result() {
    let mut doc = Document::parse(PAGE);
    assert_eq!(doc.root().inner_html(), PAGE);
    let mut api = BrowserAPI::new();
    let result = doc.get_element_by_id("result").unwrap();
    assert_eq!(result.tag_name, "div");
    assert_eq!(result.get(&doc, "innerHTML"), some("\n        <p>not loaded</p>\n    "));
    assert_eq!(
        result.set(&mut doc, &mut api, "innerHTML", "<p>loaded</p>"),
        Ok(SetOutcome::Updated)
    );
    assert_eq!(
        doc.root().inner_html(),
        PAGE.replace("\n        <p>not loaded</p>\n    ", "<p>loaded</p>")
    );
    assert_eq!(api.take_pending(), 1);
}
