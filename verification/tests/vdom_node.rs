use djust::vdom::VNode;

#[test]
fn test_vnode_creation() {
    let node = VNode::element("div")
        .with_attr("class", "container")
        .with_child(VNode::text("Hello"));

    assert_eq!(node.tag, "div");
    assert_eq!(node.attrs.get("class"), Some(&"container".to_string()));
    assert_eq!(node.children.len(), 1);
}

#[test]
fn test_text_node() {
    let node = VNode::text("Hello World");
    assert!(node.is_text());
    assert_eq!(node.text, Some("Hello World".to_string()));
}
