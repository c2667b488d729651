use djust::vdom::diff::diff_nodes;
use djust::vdom::{Patch, VNode};

#[test]
fn test_diff_text_change() {
    let old = VNode::text("Hello");
    let new = VNode::text("World");
    let patches = diff_nodes(&old, &new, &[]);

    assert_eq!(patches.len(), 1);
    match &patches[0] {
        Patch::SetText { text, .. } => assert_eq!(text, "World"),
        _ => panic!("Expected SetText patch"),
    }
}

#[test]
fn test_diff_attr_change() {
    let old = VNode::element("div")
        .with_attr("class", "old")
        .with_djust_id("0");
    let new = VNode::element("div")
        .with_attr("class", "new")
        .with_djust_id("0");
    let patches = diff_nodes(&old, &new, &[]);

    assert!(patches.iter().any(
        |p| matches!(p, Patch::SetAttr { key, value, d, .. } if key == "class" && value == "new" && d == &Some("0".to_string()))
    ));
}

#[test]
fn test_diff_children_insert() {
    let old = VNode::element("div").with_djust_id("0");
    let new = VNode::element("div")
        .with_djust_id("0")
        .with_child(VNode::text("child"));
    let patches = diff_nodes(&old, &new, &[]);

    assert!(patches
        .iter()
        .any(|p| matches!(p, Patch::InsertChild { d, .. } if d == &Some("0".to_string()))));
}

#[test]
fn test_diff_replace_tag() {
    let old = VNode::element("div").with_djust_id("0");
    let new = VNode::element("span").with_djust_id("1");
    let patches = diff_nodes(&old, &new, &[]);

    assert_eq!(patches.len(), 1);
    // Use OLD node's ID for targeting - that's what's in the client DOM
    assert!(matches!(&patches[0], Patch::Replace { d, .. } if d == &Some("0".to_string())));
}

#[test]
fn test_diff_with_whitespace_text_nodes() {
    // Simulate what html5ever creates: element children interspersed with whitespace text nodes
    // This is the structure we see in the real bug: form has 11 children in Rust VDOM
    // (elements at even indices 0,2,4,6,8,10 and whitespace at odd indices 1,3,5,7,9)
    let old = VNode::element("form")
        .with_djust_id("0")
        .with_children(vec![
            VNode::element("div")
                .with_attr("class", "mb-3")
                .with_djust_id("1"),
            VNode::text("\n            "),
            VNode::element("div")
                .with_attr("class", "mb-3")
                .with_djust_id("2"),
            VNode::text("\n            "),
            VNode::element("div")
                .with_attr("class", "mb-3")
                .with_djust_id("3"),
            VNode::text("\n            "),
            VNode::element("button").with_djust_id("4"),
            VNode::text("\n        "),
        ]);

    // After removing some validation error divs, we have fewer element children
    let new = VNode::element("form")
        .with_djust_id("0")
        .with_children(vec![
            VNode::element("div")
                .with_attr("class", "mb-3")
                .with_djust_id("1"),
            VNode::text("\n            "),
            VNode::element("div")
                .with_attr("class", "mb-3")
                .with_djust_id("2"),
            VNode::text("\n            "),
            VNode::element("button").with_djust_id("4"),
            VNode::text("\n        "),
        ]);

    let patches = diff_nodes(&old, &new, &[0, 0, 0, 1, 2]);

    // Should generate RemoveChild patches for indices 6 and 7 (removed in reverse order)
    // Parent ID should be "0" (the form)
    assert!(patches.iter().any(
        |p| matches!(p, Patch::RemoveChild { index: 7, d, .. } if d == &Some("0".to_string()))
    ));
    assert!(patches.iter().any(
        |p| matches!(p, Patch::RemoveChild { index: 6, d, .. } if d == &Some("0".to_string()))
    ));
}

#[test]
fn test_form_validation_error_removal() {
    // Simulates the exact bug we encountered:
    // Form field with conditional validation error div
    //
    // Before: <div class="mb-3">
    //           <input>
    //           <div class="invalid-feedback">Error message</div>
    //         </div>
    //
    // After:  <div class="mb-3">
    //           <input>
    //         </div>

    let old_field = VNode::element("div")
        .with_attr("class", "mb-3")
        .with_djust_id("0")
        .with_children(vec![
            VNode::element("input")
                .with_attr("class", "form-control is-invalid")
                .with_djust_id("1"),
            VNode::text("\n                "),
            VNode::element("div")
                .with_attr("class", "invalid-feedback")
                .with_djust_id("2")
                .with_child(VNode::text("Username is required")),
            VNode::text("\n            "),
        ]);

    let new_field = VNode::element("div")
        .with_attr("class", "mb-3")
        .with_djust_id("0")
        .with_children(vec![
            VNode::element("input")
                .with_attr("class", "form-control")
                .with_djust_id("1"),
            VNode::text("\n                "),
            VNode::text("\n            "),
        ]);

    let patches = diff_nodes(&old_field, &new_field, &[0, 0, 0, 1, 2, 7]);

    // Should remove the "is-invalid" class from input
    // The patch should include the target's djust_id ("1")
    assert!(patches.iter().any(|p| matches!(p,
        Patch::SetAttr { key, value, d, .. }
        if key == "class" && value == "form-control" && d == &Some("1".to_string())
    )));

    // Should remove the validation error div at index 3
    // Parent ID should be "0"
    assert!(patches.iter().any(
        |p| matches!(p, Patch::RemoveChild { index: 3, d, .. } if d == &Some("0".to_string()))
    ));
}

#[test]
fn test_multiple_conditional_divs_removal() {
    // Test the scenario where multiple form fields have validation errors cleared
    // This creates patches targeting multiple child indices
    let form_old = VNode::element("form")
        .with_djust_id("form")
        .with_children(vec![
            // Field 1 WITH error
            VNode::element("div")
                .with_attr("class", "mb-3")
                .with_djust_id("f1")
                .with_children(vec![
                    VNode::element("input").with_djust_id("i1"),
                    VNode::element("div")
                        .with_attr("class", "invalid-feedback")
                        .with_djust_id("e1"),
                ]),
            VNode::text("\n            "),
            // Field 2 WITH error
            VNode::element("div")
                .with_attr("class", "mb-3")
                .with_djust_id("f2")
                .with_children(vec![
                    VNode::element("input").with_djust_id("i2"),
                    VNode::element("div")
                        .with_attr("class", "invalid-feedback")
                        .with_djust_id("e2"),
                ]),
            VNode::text("\n            "),
            // Submit button
            VNode::element("button").with_djust_id("btn"),
        ]);

    let form_new = VNode::element("form")
        .with_djust_id("form")
        .with_children(vec![
            // Field 1 WITHOUT error
            VNode::element("div")
                .with_attr("class", "mb-3")
                .with_djust_id("f1")
                .with_children(vec![VNode::element("input").with_djust_id("i1")]),
            VNode::text("\n            "),
            // Field 2 WITHOUT error
            VNode::element("div")
                .with_attr("class", "mb-3")
                .with_djust_id("f2")
                .with_children(vec![VNode::element("input").with_djust_id("i2")]),
            VNode::text("\n            "),
            // Submit button
            VNode::element("button").with_djust_id("btn"),
        ]);

    let patches = diff_nodes(&form_old, &form_new, &[0, 0, 0, 1, 2]);

    // Should generate patches to remove validation error divs from both fields
    // Each RemoveChild should have the parent's djust_id
    let remove_patches: Vec<_> = patches
        .iter()
        .filter(|p| matches!(p, Patch::RemoveChild { .. }))
        .collect();

    assert_eq!(
        remove_patches.len(),
        2,
        "Should remove 2 validation error divs"
    );

    // Verify parent IDs are included
    assert!(remove_patches
        .iter()
        .any(|p| matches!(p, Patch::RemoveChild { d, .. } if d == &Some("f1".to_string()))));
    assert!(remove_patches
        .iter()
        .any(|p| matches!(p, Patch::RemoveChild { d, .. } if d == &Some("f2".to_string()))));
}

#[test]
fn test_path_traversal_with_whitespace() {
    // Ensure patches have correct paths when whitespace nodes are present
    // Path should account for ALL children including whitespace
    let old = VNode::element("div").with_djust_id("0").with_children(vec![
        VNode::element("span")
            .with_djust_id("1")
            .with_child(VNode::text("A")),
        VNode::text("\n    "), // whitespace at index 1
        VNode::element("span")
            .with_djust_id("2")
            .with_child(VNode::text("B")),
        VNode::text("\n    "), // whitespace at index 3
        VNode::element("span")
            .with_djust_id("3")
            .with_child(VNode::text("C")),
    ]);

    let new = VNode::element("div").with_djust_id("0").with_children(vec![
        VNode::element("span")
            .with_djust_id("1")
            .with_child(VNode::text("A")),
        VNode::text("\n    "), // whitespace at index 1
        VNode::element("span")
            .with_djust_id("2")
            .with_child(VNode::text("B-modified")), // Changed
        VNode::text("\n    "), // whitespace at index 3
        VNode::element("span")
            .with_djust_id("3")
            .with_child(VNode::text("C")),
    ]);

    let patches = diff_nodes(&old, &new, &[5]);

    // The text change in the second span should have path [5, 2, 0]
    // Text nodes don't have djust_ids (d should be None)
    assert!(patches.iter().any(|p| matches!(p,
        Patch::SetText { path, text, d, .. }
        if path == &[5, 2, 0] && text == "B-modified" && d.is_none()
    )));
}

#[test]
fn test_djust_id_included_in_patches() {
    // Verify that patches include the djust_id for client-side resolution
    let old = VNode::element("div")
        .with_djust_id("abc")
        .with_attr("class", "old");
    let new = VNode::element("div")
        .with_djust_id("abc")
        .with_attr("class", "new");

    let patches = diff_nodes(&old, &new, &[]);

    assert_eq!(patches.len(), 1);
    match &patches[0] {
        Patch::SetAttr { d, key, value, .. } => {
            assert_eq!(d, &Some("abc".to_string()));
            assert_eq!(key, "class");
            assert_eq!(value, "new");
        }
        _ => panic!("Expected SetAttr patch"),
    }
}

#[test]
fn test_data_d_attr_not_diffed() {
    // Ensure that data-dj-id attribute changes don't generate patches
    // (the parser handles data-dj-id, diffing should ignore it)
    let old = VNode::element("div")
        .with_djust_id("old")
        .with_attr("data-dj-id", "old")
        .with_attr("class", "same");
    let new = VNode::element("div")
        .with_djust_id("new")
        .with_attr("data-dj-id", "new")
        .with_attr("class", "same");

    let patches = diff_nodes(&old, &new, &[]);

    // Should be empty - no attribute changes (data-dj-id is ignored)
    assert!(
        patches.is_empty(),
        "data-dj-id changes should not generate patches"
    );
}

#[test]
fn test_conditional_content_change_empty_to_messages() {
    // Test the conversation switching scenario:
    // When switching from empty state to having messages, the diff generates
    // patches that morph the old structure by:
    // 1. Changing the class attribute
    // 2. Replacing/removing children
    //
    // This is valid behavior - the patches correctly target OLD element IDs
    // because that's what exists in the client DOM.

    let old_messages = VNode::element("div")
        .with_attr("class", "messages")
        .with_djust_id("messages")
        .with_children(vec![VNode::element("div")
            .with_attr("class", "messages__empty")
            .with_djust_id("empty")
            .with_children(vec![
                VNode::element("h2")
                    .with_djust_id("h2")
                    .with_child(VNode::text("Start a new conversation")),
                VNode::element("p")
                    .with_djust_id("p")
                    .with_child(VNode::text("Choose a model and type your message below.")),
            ])]);

    let new_messages = VNode::element("div")
        .with_attr("class", "messages")
        .with_djust_id("messages")
        .with_children(vec![VNode::element("div")
            .with_attr("class", "message message--user")
            .with_djust_id("msg1")
            .with_children(vec![VNode::element("div")
                .with_attr("class", "message__content")
                .with_djust_id("content1")
                .with_child(VNode::text("Hello world"))])]);

    let patches = diff_nodes(&old_messages, &new_messages, &[]);

    // Verify patches are generated and target OLD element IDs (correct behavior)
    assert!(
        !patches.is_empty(),
        "Should generate patches for structural change"
    );

    // The patches should:
    // 1. SetAttr on "empty" to change class to "message message--user"
    // 2. Replace the h2 with the content div
    // 3. Remove the p element

    let has_class_change = patches.iter().any(|p| match p {
        Patch::SetAttr { d, key, value, .. } => {
            d == &Some("empty".to_string())
                && key == "class"
                && value == "message message--user"
        }
        _ => false,
    });
    assert!(
        has_class_change,
        "Should change class attribute on old 'empty' element"
    );

    // The h2 should be replaced (targeting OLD ID "h2")
    let has_h2_replace = patches.iter().any(|p| match p {
        Patch::Replace { d, .. } => d == &Some("h2".to_string()),
        _ => false,
    });
    assert!(
        has_h2_replace,
        "Should replace h2 with new content (targeting old h2 ID)"
    );

    // The p should be removed
    let has_p_remove = patches.iter().any(|p| match p {
        Patch::RemoveChild { d, index, .. } => d == &Some("empty".to_string()) && *index == 1,
        _ => false,
    });
    assert!(
        has_p_remove,
        "Should remove p element (index 1 of parent 'empty')"
    );
}

#[test]
fn test_conditional_content_change_messages_to_empty() {
    // Reverse test: going from messages back to empty state
    // Patches should morph the message div into empty state div

    let old_messages = VNode::element("div")
        .with_attr("class", "messages")
        .with_djust_id("messages")
        .with_children(vec![VNode::element("div")
            .with_attr("class", "message message--user")
            .with_djust_id("msg1")
            .with_children(vec![VNode::element("div")
                .with_attr("class", "message__content")
                .with_djust_id("content1")
                .with_child(VNode::text("Hello world"))])]);

    let new_messages = VNode::element("div")
        .with_attr("class", "messages")
        .with_djust_id("messages")
        .with_children(vec![VNode::element("div")
            .with_attr("class", "messages__empty")
            .with_djust_id("empty")
            .with_children(vec![
                VNode::element("h2")
                    .with_djust_id("h2")
                    .with_child(VNode::text("Start a new conversation")),
                VNode::element("p")
                    .with_djust_id("p")
                    .with_child(VNode::text("Choose a model and type your message below.")),
            ])]);

    let patches = diff_nodes(&old_messages, &new_messages, &[]);

    // Verify patches target OLD element IDs
    assert!(!patches.is_empty(), "Should generate patches");

    // Class should change on "msg1"
    let has_class_change = patches.iter().any(|p| match p {
        Patch::SetAttr { d, key, value, .. } => {
            d == &Some("msg1".to_string()) && key == "class" && value == "messages__empty"
        }
        _ => false,
    });
    assert!(
        has_class_change,
        "Should change class on old 'msg1' element"
    );

    // content1 should be replaced with h2
    let has_content_replace = patches.iter().any(|p| match p {
        Patch::Replace { d, node, .. } => {
            d == &Some("content1".to_string()) && node.tag == "h2"
        }
        _ => false,
    });
    assert!(has_content_replace, "Should replace content div with h2");

    // p should be inserted
    let has_p_insert = patches.iter().any(|p| match p {
        Patch::InsertChild { d, node, .. } => d == &Some("msg1".to_string()) && node.tag == "p",
        _ => false,
    });
    assert!(has_p_insert, "Should insert p element");
}

#[test]
fn test_data_djust_replace_removes_and_inserts_all() {
    // Test that data-djust-replace causes all children to be replaced
    // instead of diffed position-by-position
    let old = VNode::element("div")
        .with_attr("class", "messages")
        .with_attr("data-djust-replace", "")
        .with_djust_id("container")
        .with_children(vec![
            VNode::element("div")
                .with_djust_id("a1")
                .with_child(VNode::text("Message A1")),
            VNode::element("div")
                .with_djust_id("a2")
                .with_child(VNode::text("Message A2")),
            VNode::element("div")
                .with_djust_id("a3")
                .with_child(VNode::text("Message A3")),
        ]);

    let new = VNode::element("div")
        .with_attr("class", "messages")
        .with_attr("data-djust-replace", "")
        .with_djust_id("container")
        .with_children(vec![
            VNode::element("div")
                .with_djust_id("b1")
                .with_child(VNode::text("Message B1")),
            VNode::element("div")
                .with_djust_id("b2")
                .with_child(VNode::text("Message B2")),
        ]);

    let patches = diff_nodes(&old, &new, &[]);

    // Should have 3 RemoveChild + 2 InsertChild = 5 patches
    // (not SetText patches which would indicate indexed diffing)
    let remove_count = patches
        .iter()
        .filter(|p| matches!(p, Patch::RemoveChild { .. }))
        .count();
    let insert_count = patches
        .iter()
        .filter(|p| matches!(p, Patch::InsertChild { .. }))
        .count();

    assert_eq!(remove_count, 3, "Should remove all 3 old children");
    assert_eq!(insert_count, 2, "Should insert all 2 new children");

    // Verify no SetText patches (which would indicate indexed diffing happened)
    let set_text_count = patches
        .iter()
        .filter(|p| matches!(p, Patch::SetText { .. }))
        .count();
    assert_eq!(
        set_text_count, 0,
        "Should NOT have SetText patches (replace mode bypasses diffing)"
    );
}

#[test]
fn test_data_djust_replace_on_new_element() {
    // Test that data-djust-replace on the NEW element also triggers replace mode
    let old = VNode::element("div")
        .with_attr("class", "messages")
        .with_djust_id("container")
        .with_children(vec![VNode::element("div")
            .with_djust_id("a1")
            .with_child(VNode::text("Old"))]);

    let new = VNode::element("div")
        .with_attr("class", "messages")
        .with_attr("data-djust-replace", "")
        .with_djust_id("container")
        .with_children(vec![VNode::element("div")
            .with_djust_id("b1")
            .with_child(VNode::text("New"))]);

    let patches = diff_nodes(&old, &new, &[]);

    // Should use replace mode
    let remove_count = patches
        .iter()
        .filter(|p| matches!(p, Patch::RemoveChild { .. }))
        .count();
    let insert_count = patches
        .iter()
        .filter(|p| matches!(p, Patch::InsertChild { .. }))
        .count();

    assert_eq!(remove_count, 1, "Should remove old child");
    assert_eq!(insert_count, 1, "Should insert new child");
}

#[test]
fn test_data_djust_replace_empty_to_content() {
    // Test replace mode when going from empty to having content
    let old = VNode::element("div")
        .with_attr("data-djust-replace", "")
        .with_djust_id("container");
    // No children

    let new = VNode::element("div")
        .with_attr("data-djust-replace", "")
        .with_djust_id("container")
        .with_children(vec![VNode::element("p")
            .with_djust_id("p1")
            .with_child(VNode::text("Content"))]);

    let patches = diff_nodes(&old, &new, &[]);

    let insert_count = patches
        .iter()
        .filter(|p| matches!(p, Patch::InsertChild { .. }))
        .count();
    assert_eq!(insert_count, 1, "Should insert new child");
}

#[test]
fn test_data_djust_replace_content_to_empty() {
    // Test replace mode when going from content to empty
    let old = VNode::element("div")
        .with_attr("data-djust-replace", "")
        .with_djust_id("container")
        .with_children(vec![
            VNode::element("p")
                .with_djust_id("p1")
                .with_child(VNode::text("Content")),
            VNode::element("p")
                .with_djust_id("p2")
                .with_child(VNode::text("More content")),
        ]);

    let new = VNode::element("div")
        .with_attr("data-djust-replace", "")
        .with_djust_id("container");
    // No children

    let patches = diff_nodes(&old, &new, &[]);

    let remove_count = patches
        .iter()
        .filter(|p| matches!(p, Patch::RemoveChild { .. }))
        .count();
    assert_eq!(remove_count, 2, "Should remove both old children");
}

#[test]
fn test_interleaved_keyed_and_unkeyed_children() {
    // Keyed children reorder while unkeyed children change content
    // old: [keyed-A, unkeyed-X, keyed-B]
    // new: [keyed-B, unkeyed-Y, keyed-A]
    let old = VNode::element("div")
        .with_djust_id("parent")
        .with_children(vec![
            VNode::element("div")
                .with_key("a")
                .with_djust_id("a")
                .with_child(VNode::text("A content")),
            VNode::element("div")
                .with_djust_id("x")
                .with_child(VNode::text("X content")),
            VNode::element("div")
                .with_key("b")
                .with_djust_id("b")
                .with_child(VNode::text("B content")),
        ]);

    let new = VNode::element("div")
        .with_djust_id("parent")
        .with_children(vec![
            VNode::element("div")
                .with_key("b")
                .with_djust_id("b2")
                .with_child(VNode::text("B content")),
            VNode::element("div")
                .with_djust_id("y")
                .with_child(VNode::text("Y content")),
            VNode::element("div")
                .with_key("a")
                .with_djust_id("a2")
                .with_child(VNode::text("A content")),
        ]);

    let patches = diff_nodes(&old, &new, &[]);

    // Should have patches for:
    // - Moving keyed children (a and b swapped)
    // - Diffing the unkeyed child (X -> Y text change)
    assert!(!patches.is_empty(), "Should generate patches");

    // The unkeyed child text should change from X to Y
    let has_text_change = patches
        .iter()
        .any(|p| matches!(p, Patch::SetText { text, .. } if text == "Y content"));
    assert!(
        has_text_change,
        "Should update unkeyed child text from X to Y. Patches: {:?}",
        patches
    );

    // Should NOT have duplicate patches for the same node
    // (i.e., no RemoveChild for the unkeyed node that was already diffed)
    let remove_count = patches
        .iter()
        .filter(|p| matches!(p, Patch::RemoveChild { .. }))
        .count();
    assert_eq!(
        remove_count, 0,
        "Should not remove any children (all matched). Patches: {:?}",
        patches
    );
}
