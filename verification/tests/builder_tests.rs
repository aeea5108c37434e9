use dom_builder::builder::{build_dom, BuildError, Token};
use dom_builder::dom::{build_element_kind, Document, ElementKind, NodeContent, TreeStore};

fn tag(name: &str) -> Token {
    Token::StartOpeningTag(name.to_string())
}

fn attr(k: &str, v: &str) -> Token {
    Token::Attr(k.to_string(), v.to_string())
}

fn expect_element<'a>(store: &'a TreeStore, h: usize) -> &'a dom_builder::dom::ElementData {
    match store.read(h) {
        NodeContent::Element(ed) => ed,
        NodeContent::Text(_) => panic!("expected an element at {}", h),
    }
}

#[test]
fn classify_is_total() {
    assert_eq!(build_element_kind("div"), ElementKind::Div);
    assert_eq!(
        build_element_kind("img"),
        ElementKind::Image { width: 100, height: 100 }
    );
    assert_eq!(build_element_kind("script"), ElementKind::Script);
    assert_eq!(build_element_kind("head"), ElementKind::Head);
    assert_eq!(build_element_kind("marquee"), ElementKind::Unknown);
    assert_eq!(build_element_kind(""), ElementKind::Unknown);
}

#[test]
fn end_to_end_div_with_img() {
    let tokens = vec![
        tag("div"),
        Token::EndOpeningTag,
        tag("img"),
        attr("width", "50"),
        Token::EndOpeningTag,
        Token::SelfCloseTag,
        Token::EndTag("div".to_string()),
        Token::Eof,
    ];
    let out = match build_dom(&tokens) {
        Ok(out) => out,
        Err(_) => panic!("building must succeed"),
    };
    assert_eq!(out.root, 0);
    assert_eq!(out.store.len(), 3);
    let root = expect_element(&out.store, 0);
    assert_eq!(root.tag_name, "html");
    let div = expect_element(&out.store, 1);
    assert_eq!(div.tag_name, "div");
    let img = expect_element(&out.store, 2);
    assert_eq!(img.tag_name, "img");
    assert_eq!(img.kind, ElementKind::Image { width: 50, height: 100 });
    assert_eq!(out.store.get_parent(1), Some(0));
    assert_eq!(out.store.get_parent(2), Some(1));
    assert!(out.style_links.is_empty());
    assert!(out.script_links.is_empty());
}

#[test]
fn blank_text_is_dropped_and_real_text_is_kept() {
    let tokens = vec![
        tag("div"),
        Token::EndOpeningTag,
        Token::Text("   \t\n".to_string()),
        Token::Text("hello".to_string()),
        Token::EndTag("div".to_string()),
        Token::Eof,
    ];
    let out = match build_dom(&tokens) {
        Ok(out) => out,
        Err(_) => panic!("building must succeed"),
    };
    // Root, div, and exactly one text node: the blank run made none.
    assert_eq!(out.store.len(), 3);
    match out.store.read(2) {
        NodeContent::Text(s) => assert_eq!(s, "hello"),
        NodeContent::Element(_) => panic!("expected a text node"),
    }
    // The text node hangs off the cursor, which did not move.
    assert_eq!(out.store.get_parent(2), Some(1));
}

#[test]
fn image_geometry_follows_parsable_widths() {
    let tokens = vec![
        tag("img"),
        attr("width", "120"),
        attr("height", "abc"),
        Token::EndOpeningTag,
        Token::SelfCloseTag,
        Token::Eof,
    ];
    let out = match build_dom(&tokens) {
        Ok(out) => out,
        Err(_) => panic!("building must succeed"),
    };
    let img = expect_element(&out.store, 1);
    // `width="120"` updated the geometry; `height="abc"` did not.
    assert_eq!(img.kind, ElementKind::Image { width: 120, height: 100 });
    // Both pairs are stored either way.
    assert_eq!(img.attrs.len(), 2);
    assert_eq!(img.attrs[0], ("width".to_string(), "120".to_string()));
    assert_eq!(img.attrs[1], ("height".to_string(), "abc".to_string()));
}

#[test]
fn geometry_keys_only_matter_on_images() {
    let tokens = vec![
        tag("div"),
        attr("width", "120"),
        Token::EndOpeningTag,
        Token::EndTag("div".to_string()),
        Token::Eof,
    ];
    let out = match build_dom(&tokens) {
        Ok(out) => out,
        Err(_) => panic!("building must succeed"),
    };
    let div = expect_element(&out.store, 1);
    assert_eq!(div.kind, ElementKind::Div);
    assert_eq!(div.attrs[0], ("width".to_string(), "120".to_string()));
}

#[test]
fn stylesheet_link_is_discovered_on_self_close() {
    let tokens = vec![
        tag("link"),
        attr("rel", "stylesheet"),
        attr("href", "a.css"),
        Token::EndOpeningTag,
        Token::SelfCloseTag,
        Token::Eof,
    ];
    let out = match build_dom(&tokens) {
        Ok(out) => out,
        Err(_) => panic!("building must succeed"),
    };
    assert_eq!(out.style_links.len(), 1);
    assert_eq!(out.style_links[0].url, "a.css");
    assert_eq!(out.style_links[0].kind, ElementKind::Unknown);
    assert!(out.script_links.is_empty());
}

#[test]
fn link_without_href_or_wrong_rel_is_ignored() {
    let tokens = vec![
        tag("link"),
        attr("rel", "stylesheet"),
        Token::EndOpeningTag,
        Token::SelfCloseTag,
        tag("link"),
        attr("rel", "icon"),
        attr("href", "i.png"),
        Token::EndOpeningTag,
        Token::SelfCloseTag,
        Token::Eof,
    ];
    let out = match build_dom(&tokens) {
        Ok(out) => out,
        Err(_) => panic!("building must succeed"),
    };
    assert!(out.style_links.is_empty());
}

#[test]
fn script_src_is_discovered_on_end_tag() {
    let tokens = vec![
        tag("script"),
        attr("src", "x.js"),
        Token::EndOpeningTag,
        Token::EndTag("script".to_string()),
        Token::Eof,
    ];
    let out = match build_dom(&tokens) {
        Ok(out) => out,
        Err(_) => panic!("building must succeed"),
    };
    assert_eq!(out.script_links.len(), 1);
    assert_eq!(out.script_links[0].url, "x.js");
    assert_eq!(out.script_links[0].kind, ElementKind::Script);
}

#[test]
fn closing_past_the_root_is_reported() {
    let tokens = vec![Token::EndTag("div".to_string()), Token::Eof];
    match build_dom(&tokens) {
        Err(e) => assert_eq!(e, BuildError::TagUnderflow),
        Ok(_) => panic!("closing past the root must fail"),
    }

    let tokens = vec![
        tag("div"),
        Token::EndOpeningTag,
        Token::EndTag("div".to_string()),
        Token::SelfCloseTag,
        Token::Eof,
    ];
    match build_dom(&tokens) {
        Err(e) => assert_eq!(e, BuildError::TagUnderflow),
        Ok(_) => panic!("closing past the root must fail"),
    }
}

#[test]
fn builder_stops_at_the_first_eof() {
    let tokens = vec![Token::Eof, tag("div")];
    let out = match build_dom(&tokens) {
        Ok(out) => out,
        Err(_) => panic!("building must succeed"),
    };
    assert_eq!(out.store.len(), 1);
}

#[test]
fn unclosed_tags_still_yield_the_root() {
    let tokens = vec![tag("div"), Token::EndOpeningTag, tag("span"), Token::Eof];
    let out = match build_dom(&tokens) {
        Ok(out) => out,
        Err(_) => panic!("building must succeed"),
    };
    assert_eq!(out.root, 0);
    assert_eq!(out.store.len(), 3);
}

#[test]
fn elements_are_found_by_tag_name_in_creation_order() {
    let tokens = vec![
        tag("div"),
        Token::EndOpeningTag,
        tag("div"),
        Token::EndOpeningTag,
        Token::EndTag("div".to_string()),
        tag("img"),
        Token::EndOpeningTag,
        Token::SelfCloseTag,
        Token::EndTag("div".to_string()),
        Token::Eof,
    ];
    let out = match build_dom(&tokens) {
        Ok(out) => out,
        Err(_) => panic!("building must succeed"),
    };
    let doc = Document::new(out.root);
    assert_eq!(doc.getElementsByTagName(&out.store, "div"), vec![1, 2]);
    assert_eq!(doc.getElementsByTagName(&out.store, "img"), vec![3]);
    assert_eq!(doc.getElementsByTagName(&out.store, "html"), vec![0]);
    assert!(doc.getElementsByTagName(&out.store, "span").is_empty());
}

#[test]
fn first_attribute_wins_on_lookup() {
    let tokens = vec![
        tag("link"),
        attr("rel", "stylesheet"),
        attr("href", "first.css"),
        attr("href", "second.css"),
        Token::EndOpeningTag,
        Token::SelfCloseTag,
        Token::Eof,
    ];
    let out = match build_dom(&tokens) {
        Ok(out) => out,
        Err(_) => panic!("building must succeed"),
    };
    assert_eq!(out.style_links[0].url, "first.css");
}
