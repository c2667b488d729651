//! Building trees from parsed documents.

use djust::errors::DjangoRustError;
use djust::text::{to_base62, to_decimal};
use djust::vdom::parser::{find_root, handle_to_vnode, parse_html, vnode_of_document, DomNode};

fn element(name: &str, attrs: &[(&str, &str)], children: Vec<DomNode>) -> DomNode {
    DomNode::Element {
        name: name.to_string(),
        attrs: attrs
            .iter()
            .map(|(k, v)| (k.to_string(), v.to_string()))
            .collect(),
        children,
    }
}

fn text(contents: &str) -> DomNode {
    DomNode::Text { contents: contents.to_string() }
}

fn wrapped(content: Vec<DomNode>) -> DomNode {
    DomNode::Document {
        children: vec![
            DomNode::Other,
            element(
                "html",
                &[],
                vec![element("head", &[], vec![]), element("body", &[], content)],
            ),
        ],
    }
}

#[test]
fn base_62_digits() {
    assert_eq!(to_base62(0), "0");
    assert_eq!(to_base62(9), "9");
    assert_eq!(to_base62(10), "a");
    assert_eq!(to_base62(35), "z");
    assert_eq!(to_base62(36), "A");
    assert_eq!(to_base62(61), "Z");
    assert_eq!(to_base62(62), "10");
    assert_eq!(to_base62(62 * 62 + 61), "10Z");
    assert_eq!(to_base62(u64::MAX), "lYGhA16ahyf");
}

#[test]
fn decimal_digits() {
    assert_eq!(to_decimal(0), "0");
    assert_eq!(to_decimal(7), "7");
    assert_eq!(to_decimal(10), "10");
    assert_eq!(to_decimal(1234567890), "1234567890");
}

#[test]
fn the_root_is_the_first_element_of_the_body() {
    let document = wrapped(vec![text("  "), DomNode::Comment, element("main", &[], vec![])]);
    match find_root(&document) {
        DomNode::Element { name, .. } => assert_eq!(name, "main"),
        other => panic!("unexpected root {:?}", other),
    }
}

#[test]
fn without_a_body_the_root_is_the_first_element() {
    let document = DomNode::Document {
        children: vec![DomNode::Comment, element("svg", &[], vec![]), element("p", &[], vec![])],
    };
    match find_root(&document) {
        DomNode::Element { name, .. } => assert_eq!(name, "svg"),
        other => panic!("unexpected root {:?}", other),
    }
    // A body without an element is passed over, too.
    let document = wrapped(vec![text("only text")]);
    match find_root(&document) {
        DomNode::Element { name, .. } => assert_eq!(name, "html"),
        other => panic!("unexpected root {:?}", other),
    }
}

#[test]
fn without_any_element_the_root_is_the_document() {
    let document = DomNode::Document { children: vec![DomNode::Comment] };
    assert_eq!(find_root(&document), &document);
    let tree = vnode_of_document(&document).unwrap();
    assert_eq!(tree.tag, "div");
    assert_eq!(tree.djust_id, None);
    assert!(tree.attrs.is_empty());

    let empty = DomNode::Document { children: vec![] };
    assert_eq!(vnode_of_document(&empty).unwrap().tag, "div");
    assert_eq!(vnode_of_document(&DomNode::Comment).unwrap().tag, "div");
    let lone = vnode_of_document(&text("hi")).unwrap();
    assert!(lone.is_text());
    assert_eq!(lone.text, Some("hi".to_string()));
}

#[test]
fn identities_count_elements_in_document_order() {
    let document = wrapped(vec![element(
        "ul",
        &[],
        vec![
            element("li", &[], vec![element("b", &[], vec![]), text("x")]),
            text(" \n\t"),
            DomNode::Comment,
            element("li", &[], vec![]),
        ],
    )]);
    let tree = vnode_of_document(&document).unwrap();
    assert_eq!(tree.tag, "ul");
    assert_eq!(tree.djust_id, Some("0".to_string()));
    assert_eq!(tree.attrs.get("data-dj-id"), Some(&"0".to_string()));
    assert_eq!(tree.children.len(), 2);
    assert_eq!(tree.children[0].djust_id, Some("1".to_string()));
    assert_eq!(tree.children[0].children[0].djust_id, Some("2".to_string()));
    assert_eq!(tree.children[0].children[1].djust_id, None);
    assert_eq!(tree.children[0].children[1].text, Some("x".to_string()));
    assert_eq!(tree.children[1].djust_id, Some("3".to_string()));
    assert_eq!(tree.children[1].attrs.get("data-dj-id"), Some(&"3".to_string()));
}

#[test]
fn blank_text_is_dropped_and_other_text_is_kept() {
    let node = element(
        "p",
        &[],
        vec![text(""), text(" a "), text("\u{3000}\u{a0}"), text("\u{200b}")],
    );
    let mut counter = 0u64;
    let tree = handle_to_vnode(&node, &mut counter).unwrap();
    assert_eq!(counter, 1);
    let texts: Vec<&str> = tree
        .children
        .iter()
        .map(|c| c.text.as_deref().unwrap())
        .collect();
    // A zero-width space is no white space.
    assert_eq!(texts, vec![" a ", "\u{200b}"]);
}

#[test]
fn keys_and_reserved_attributes() {
    let node = element(
        "li",
        &[
            ("data-key", "first"),
            ("data-dj-id", "written"),
            ("class", "a"),
            ("data-key", ""),
            ("class", "b"),
        ],
        vec![],
    );
    let mut counter = 61u64;
    let tree = handle_to_vnode(&node, &mut counter).unwrap();
    assert_eq!(counter, 62);
    assert_eq!(tree.key, Some("first".to_string()));
    assert_eq!(tree.djust_id, Some("Z".to_string()));
    assert_eq!(tree.attrs.len(), 3);
    assert_eq!(tree.attrs.key_at(0), "data-dj-id");
    assert_eq!(tree.attrs.get("data-dj-id"), Some(&"Z".to_string()));
    assert_eq!(tree.attrs.get("data-key"), Some(&"".to_string()));
    assert_eq!(tree.attrs.get("class"), Some(&"b".to_string()));
}

#[test]
fn a_counter_that_is_used_up_is_an_error() {
    let node = element("p", &[], vec![]);
    let mut counter = u64::MAX;
    let result = handle_to_vnode(&node, &mut counter);
    match result {
        Err(DjangoRustError::VdomError(message)) => {
            assert!(message.contains("Failed to parse HTML"));
        }
        other => panic!("expected an error, got {:?}", other),
    }
    // The last identity is still given out, to a node without elements below it.
    let mut counter = u64::MAX - 1;
    let tree = handle_to_vnode(&node, &mut counter).unwrap();
    assert_eq!(tree.djust_id, Some("lYGhA16ahye".to_string()));
    let nested = element("p", &[], vec![element("b", &[], vec![])]);
    let mut counter = u64::MAX - 1;
    assert!(handle_to_vnode(&nested, &mut counter).is_err());
    // Text takes no identity.
    let mut counter = u64::MAX;
    assert!(handle_to_vnode(&text("t"), &mut counter).is_ok());
}

#[test]
fn errors_are_shown_with_their_kind() {
    let e = DjangoRustError::VdomError("boom".to_string());
    assert_eq!(e.to_string(), "VDOM error: boom");
    let e = DjangoRustError::TemplateError("bad".to_string());
    assert_eq!(e.to_string(), "Template error: bad");
}

#[test]
fn parsed_markup_goes_through_the_outside_parser() {
    let tree = parse_html("<ul class=x><li data-key=k>one<!-- c --><li> </ul>").unwrap();
    assert_eq!(tree.tag, "ul");
    assert_eq!(tree.attrs.get("class"), Some(&"x".to_string()));
    assert_eq!(tree.djust_id, Some("0".to_string()));
    assert_eq!(tree.children.len(), 2);
    assert_eq!(tree.children[0].key, Some("k".to_string()));
    assert_eq!(tree.children[0].children.len(), 1);
    assert_eq!(tree.children[0].children[0].text, Some("one".to_string()));
    assert_eq!(tree.children[1].djust_id, Some("2".to_string()));
    assert!(tree.children[1].children.is_empty());

    // Text alone gives no element in the body: the root is then `html`.
    let tree = parse_html("just text").unwrap();
    assert_eq!(tree.tag, "html");
    assert_eq!(parse_html("").unwrap().tag, "html");
    assert_eq!(parse_html("</div></p><<>").unwrap().tag, "html");
}
