use djust::vdom::patch::apply_patch;
use djust::vdom::{Patch, VNode};

#[test]
fn test_apply_set_text() {
    let mut root = VNode::text("old");
    let patch = Patch::SetText {
        path: vec![],
        d: None,
        text: "new".to_string(),
    };

    apply_patch(&mut root, &patch);
    assert_eq!(root.text, Some("new".to_string()));
}

#[test]
fn test_apply_set_attr() {
    let mut root = VNode::element("div");
    let patch = Patch::SetAttr {
        path: vec![],
        d: Some("0".to_string()),
        key: "class".to_string(),
        value: "active".to_string(),
    };

    apply_patch(&mut root, &patch);
    assert_eq!(root.attrs.get("class"), Some(&"active".to_string()));
}

#[test]
fn test_apply_insert_child() {
    let mut root = VNode::element("div");
    let patch = Patch::InsertChild {
        path: vec![],
        d: Some("0".to_string()),
        index: 0,
        node: VNode::text("child"),
    };

    apply_patch(&mut root, &patch);
    assert_eq!(root.children.len(), 1);
}
