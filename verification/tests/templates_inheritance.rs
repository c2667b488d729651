use djust::templates::inheritance::{extract_blocks, nodes_to_template_string, InheritanceChain};
use djust::templates::parser::TemplateNode as Node;

#[test]
fn test_extract_blocks() {
    let nodes = vec![
        Node::Text("Before".to_string()),
        Node::Block {
            name: "content".to_string(),
            nodes: vec![Node::Text("Hello".to_string())],
        },
        Node::Text("After".to_string()),
    ];

    let blocks = extract_blocks(&nodes);
    assert_eq!(blocks.len(), 1);
    assert!(blocks.contains_key("content"));
}

#[test]
fn test_uses_extends() {
    let nodes = vec![
        Node::Extends("base.html".to_string()),
        Node::Block {
            name: "content".to_string(),
            nodes: vec![],
        },
    ];

    let chain = InheritanceChain::new(nodes);
    assert_eq!(chain.uses_extends(), Some("base.html"));
}

#[test]
fn test_no_extends() {
    let nodes = vec![Node::Text("Hello".to_string())];
    let chain = InheritanceChain::new(nodes);
    assert_eq!(chain.uses_extends(), None);
}

#[test]
fn test_nodes_to_template_string_preserves_variables() {
    // Test that variables are preserved as {{ var }} not rendered
    let nodes = vec![
        Node::Variable("name".to_string(), vec![]),
        Node::Text(" is here".to_string()),
    ];

    let result = nodes_to_template_string(&nodes);

    // Should preserve Django template syntax
    assert!(result.contains("{{ name }}"));
    assert!(!result.contains("{{name}}")); // Should have spaces
}

#[test]
fn test_nodes_to_template_string_preserves_filters() {
    let nodes = vec![Node::Variable(
        "price".to_string(),
        vec![
            ("floatformat".to_string(), Some("2".to_string())),
            ("default".to_string(), Some("0.00".to_string())),
        ],
    )];

    let result = nodes_to_template_string(&nodes);

    assert!(result.contains("{{ price"));
    assert!(result.contains("|floatformat:\"2\""));
    assert!(result.contains("|default:\"0.00\""));
    assert!(result.contains("}}"));
}

#[test]
fn test_nodes_to_template_string_block_syntax() {
    let nodes = vec![Node::Block {
        name: "content".to_string(),
        nodes: vec![
            Node::Text("<p>".to_string()),
            Node::Variable("message".to_string(), vec![]),
            Node::Text("</p>".to_string()),
        ],
    }];

    let result = nodes_to_template_string(&nodes);

    assert!(result.contains("{% block content %}"));
    assert!(result.contains("{{ message }}"));
    assert!(result.contains("{% endblock %}"));
}

#[test]
fn test_nodes_to_template_string_if_else() {
    let nodes = vec![Node::If {
        condition: "user.is_authenticated".to_string(),
        true_nodes: vec![Node::Text("Welcome!".to_string())],
        false_nodes: vec![Node::Text("Please login".to_string())],
    }];

    let result = nodes_to_template_string(&nodes);

    assert!(result.contains("{% if user.is_authenticated %}"));
    assert!(result.contains("Welcome!"));
    assert!(result.contains("{% else %}"));
    assert!(result.contains("Please login"));
    assert!(result.contains("{% endif %}"));
}

#[test]
fn test_nodes_to_template_string_for_loop() {
    let nodes = vec![Node::For {
        var_names: vec!["item".to_string()],
        iterable: "items".to_string(),
        reversed: false,
        nodes: vec![Node::Variable("item.name".to_string(), vec![])],
        empty_nodes: vec![],
    }];

    let result = nodes_to_template_string(&nodes);

    assert!(result.contains("{% for item in items %}"));
    assert!(result.contains("{{ item.name }}"));
    assert!(result.contains("{% endfor %}"));
}

#[test]
fn test_nodes_to_template_string_for_loop_reversed() {
    let nodes = vec![Node::For {
        var_names: vec!["item".to_string()],
        iterable: "items".to_string(),
        reversed: true,
        nodes: vec![Node::Text("Item".to_string())],
        empty_nodes: vec![],
    }];

    let result = nodes_to_template_string(&nodes);

    assert!(result.contains("{% for item in items reversed %}"));
}

#[test]
fn test_nodes_to_template_string_with_tag() {
    let nodes = vec![Node::With {
        assignments: vec![
            ("total".to_string(), "price|add:tax".to_string()),
            ("discount".to_string(), "0.1".to_string()),
        ],
        nodes: vec![Node::Variable("total".to_string(), vec![])],
    }];

    let result = nodes_to_template_string(&nodes);

    assert!(result.contains("{% with total=price|add:tax discount=0.1 %}"));
    assert!(result.contains("{{ total }}"));
    assert!(result.contains("{% endwith %}"));
}

#[test]
fn test_nodes_to_template_string_csrf_token() {
    let nodes = vec![Node::CsrfToken];
    let result = nodes_to_template_string(&nodes);
    assert_eq!(result, "{% csrf_token %}");
}

#[test]
fn test_nodes_to_template_string_static() {
    let nodes = vec![Node::Static("css/style.css".to_string())];
    let result = nodes_to_template_string(&nodes);
    assert_eq!(result, "{% static \"css/style.css\" %}");
}

#[test]
fn test_nodes_to_template_string_include() {
    let nodes = vec![Node::Include {
        template: "partials/header.html".to_string(),
        with_vars: vec![],
        only: false,
    }];
    let result = nodes_to_template_string(&nodes);
    assert_eq!(result, "{% include \"partials/header.html\" %}");
}

#[test]
fn test_nodes_to_template_string_complex_nested() {
    // Test a complex nested structure
    let nodes = vec![Node::Block {
        name: "content".to_string(),
        nodes: vec![Node::If {
            condition: "items".to_string(),
            true_nodes: vec![Node::For {
                var_names: vec!["item".to_string()],
                iterable: "items".to_string(),
                reversed: false,
                nodes: vec![
                    Node::Text("<li>".to_string()),
                    Node::Variable("item.name".to_string(), vec![("upper".to_string(), None)]),
                    Node::Text("</li>".to_string()),
                ],
                empty_nodes: vec![],
            }],
            false_nodes: vec![Node::Text("<p>No items</p>".to_string())],
        }],
    }];

    let result = nodes_to_template_string(&nodes);

    // Should preserve all nested structures
    assert!(result.contains("{% block content %}"));
    assert!(result.contains("{% if items %}"));
    assert!(result.contains("{% for item in items %}"));
    assert!(result.contains("{{ item.name |upper }}"));
    assert!(result.contains("{% else %}"));
    assert!(result.contains("<p>No items</p>"));
    assert!(result.contains("{% endfor %}"));
    assert!(result.contains("{% endif %}"));
    assert!(result.contains("{% endblock %}"));
}
