use djust::vdom::parser::parse_html;

#[test]
fn test_parse_simple_html() {
    let html = "<div>Hello</div>";
    let vnode = parse_html(html).unwrap();

    assert_eq!(vnode.tag, "div");
    assert_eq!(vnode.children.len(), 1);
    assert!(vnode.children[0].is_text());
}

#[test]
fn test_parse_with_attributes() {
    let html = r#"<div class="container" id="main">Content</div>"#;
    let vnode = parse_html(html).unwrap();

    assert_eq!(vnode.tag, "div");
    assert_eq!(vnode.attrs.get("class"), Some(&"container".to_string()));
    assert_eq!(vnode.attrs.get("id"), Some(&"main".to_string()));
}

#[test]
fn test_parse_nested() {
    let html = "<div><span>Hello</span><span>World</span></div>";
    let vnode = parse_html(html).unwrap();

    assert_eq!(vnode.tag, "div");
    assert_eq!(vnode.children.len(), 2);
    assert_eq!(vnode.children[0].tag, "span");
    assert_eq!(vnode.children[1].tag, "span");
}

#[test]
fn test_parse_html_with_comments() {
    // Test that HTML comments are filtered out during parsing
    let html = "<div><!-- comment --><span>Hello</span><!-- another --></div>";
    let vnode = parse_html(html).unwrap();

    assert_eq!(vnode.tag, "div");
    // Should have 1 child (span), not 3 (comment + span + comment)
    assert_eq!(vnode.children.len(), 1);
    assert_eq!(vnode.children[0].tag, "span");
}

#[test]
fn test_parse_form_with_interspersed_comments() {
    // Test realistic form with comments between elements (like registration form)
    let html = r#"
        <form>
            <!-- Username -->
            <div class="mb-3">
                <label>Username</label>
                <input type="text" />
            </div>

            <!-- Email -->
            <div class="mb-3">
                <label>Email</label>
                <input type="email" />
            </div>

            <!-- Submit Button -->
            <div class="d-grid">
                <button type="submit">Submit</button>
            </div>
        </form>
    "#;
    let vnode = parse_html(html).unwrap();

    assert_eq!(vnode.tag, "form");
    // Should have 3 div children (comments filtered out)
    assert_eq!(vnode.children.len(), 3);
    assert_eq!(vnode.children[0].tag, "div");
    assert_eq!(vnode.children[1].tag, "div");
    assert_eq!(vnode.children[2].tag, "div");
}

#[test]
fn test_parse_nested_comments() {
    // Test that comments are filtered at all nesting levels
    let html = r#"
        <div>
            <!-- Top level comment -->
            <section>
                <!-- Nested comment -->
                <p>Content</p>
                <!-- Another nested comment -->
            </section>
            <!-- Bottom comment -->
        </div>
    "#;
    let vnode = parse_html(html).unwrap();

    assert_eq!(vnode.tag, "div");
    // Should have 1 child (section), comments filtered
    assert_eq!(vnode.children.len(), 1);
    assert_eq!(vnode.children[0].tag, "section");

    // Check nested level - should have 1 child (p), nested comments filtered
    let section = &vnode.children[0];
    assert_eq!(section.children.len(), 1);
    assert_eq!(section.children[0].tag, "p");
}

#[test]
fn test_parse_comments_with_text() {
    // Test that text nodes are preserved when comments are filtered
    let html = "<div><!-- comment -->Text content<span>Element</span><!-- end --></div>";
    let vnode = parse_html(html).unwrap();

    assert_eq!(vnode.tag, "div");
    // Should have 2 children: text node + span (comments filtered)
    assert_eq!(vnode.children.len(), 2);
    assert!(vnode.children[0].is_text());
    assert_eq!(vnode.children[1].tag, "span");
}

#[test]
fn test_parse_data_key_attribute() {
    // Test that data-key attribute is extracted and set as VNode.key
    let html = r#"<div data-key="item-123">Content</div>"#;
    let vnode = parse_html(html).unwrap();

    assert_eq!(vnode.tag, "div");
    assert_eq!(vnode.key, Some("item-123".to_string()));
    // data-key should still be in attrs for DOM rendering
    assert_eq!(vnode.attrs.get("data-key"), Some(&"item-123".to_string()));
}

#[test]
fn test_parse_list_with_data_keys() {
    // Test parsing a list where each item has a data-key for efficient diffing
    let html = r#"
        <ul>
            <li data-key="1">Item 1</li>
            <li data-key="2">Item 2</li>
            <li data-key="3">Item 3</li>
        </ul>
    "#;
    let vnode = parse_html(html).unwrap();

    assert_eq!(vnode.tag, "ul");
    assert_eq!(vnode.children.len(), 3);

    // Each child should have its key extracted
    assert_eq!(vnode.children[0].key, Some("1".to_string()));
    assert_eq!(vnode.children[1].key, Some("2".to_string()));
    assert_eq!(vnode.children[2].key, Some("3".to_string()));
}

#[test]
fn test_parse_empty_data_key_ignored() {
    // Test that empty data-key values are not set as keys
    let html = r#"<div data-key="">Content</div>"#;
    let vnode = parse_html(html).unwrap();

    assert_eq!(vnode.tag, "div");
    assert_eq!(vnode.key, None);
}

#[test]
fn test_parse_nested_data_keys() {
    // Test that data-key works at any nesting level
    let html = r#"
        <div data-key="parent">
            <span data-key="child">Nested content</span>
        </div>
    "#;
    let vnode = parse_html(html).unwrap();

    assert_eq!(vnode.key, Some("parent".to_string()));
    assert_eq!(vnode.children.len(), 1);
    assert_eq!(vnode.children[0].key, Some("child".to_string()));
}
