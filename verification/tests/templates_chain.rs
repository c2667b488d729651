//! Inheritance chains, block merging and the lexer's corner cases.

use djust::errors::DjangoRustError;
use djust::templates::inheritance::{
    build_inheritance_chain, depth_limit_error, extract_blocks, node_to_template_string,
    nodes_to_template_string, FilesystemTemplateLoader, InheritanceChain, TemplateLoader,
};
use djust::templates::lexer::{parse_jsx_component, tokenize, validate_no_block_tags_in_attrs, Token};
use djust::templates::parser::TemplateNode as Node;
use djust::text::{split_words, trim};
use std::path::PathBuf;

fn text(s: &str) -> Node {
    Node::Text(s.to_string())
}

fn block(name: &str, nodes: Vec<Node>) -> Node {
    Node::Block { name: name.to_string(), nodes }
}

fn extends(parent: &str) -> Node {
    Node::Extends(parent.to_string())
}

/// A loader that holds its templates in memory.
struct MemoryLoader {
    templates: Vec<(String, Vec<Node>)>,
}

impl TemplateLoader for MemoryLoader {
    fn load_template(&self, name: &str) -> Result<Vec<Node>, DjangoRustError> {
        for (known, nodes) in &self.templates {
            if known == name {
                return Ok(nodes.clone());
            }
        }
        Err(DjangoRustError::TemplateError(format!("Template not found: {name}")))
    }
}

fn family() -> MemoryLoader {
    MemoryLoader {
        templates: vec![
            (
                "base.html".to_string(),
                vec![
                    text("<html>"),
                    block("title", vec![text("Base title")]),
                    block("content", vec![text("Base content")]),
                    text("</html>"),
                ],
            ),
            (
                "middle.html".to_string(),
                vec![extends("base.html"), block("content", vec![text("Middle content")])],
            ),
            ("loop.html".to_string(), vec![extends("loop.html")]),
        ],
    }
}

#[test]
fn blocks_are_found_where_they_may_be_nested() {
    let nodes = vec![
        block("outer", vec![block("inner", vec![text("i")])]),
        Node::If {
            condition: "c".to_string(),
            true_nodes: vec![block("yes", vec![])],
            false_nodes: vec![block("no", vec![])],
        },
        Node::For {
            var_names: vec!["x".to_string()],
            iterable: "xs".to_string(),
            reversed: false,
            nodes: vec![block("each", vec![])],
            empty_nodes: vec![block("none", vec![])],
        },
        Node::With { assignments: vec![], nodes: vec![block("with", vec![])] },
        block("outer", vec![text("again")]),
    ];
    let blocks = extract_blocks(&nodes);
    let names: Vec<&str> = (0..blocks.len()).map(|i| blocks.key_at(i).as_str()).collect();
    // The blocks of `{% empty %}` are not looked for.
    assert_eq!(names, vec!["outer", "inner", "yes", "no", "each", "with"]);
    assert_eq!(blocks.get("outer"), Some(&vec![text("again")]));
    assert_eq!(blocks.get("none"), None);
    assert!(!blocks.is_empty());
    assert_eq!(blocks.nodes_at(1), &vec![text("i")]);
}

#[test]
fn a_chain_is_built_up_to_the_root() {
    let child = vec![extends("middle.html"), block("title", vec![text("Child title")])];
    let chain = build_inheritance_chain(child.clone(), &family(), 10).unwrap();
    assert_eq!(chain.layers.len(), 3);
    assert_eq!(chain.layers[0].nodes, child);
    assert_eq!(chain.uses_extends(), None);
    assert_eq!(chain.get_root_nodes().len(), 4);
    assert_eq!(chain.merged_blocks.get("title"), Some(&vec![text("Child title")]));
    assert_eq!(chain.merged_blocks.get("content"), Some(&vec![text("Middle content")]));
    assert_eq!(chain.parent_blocks.get("title"), Some(&vec![text("Base title")]));
    assert_eq!(chain.parent_blocks.get("content"), Some(&vec![text("Base content")]));
    assert_eq!(chain.merged_blocks.len(), 2);

    let merged = chain.apply_block_overrides(chain.get_root_nodes());
    assert_eq!(
        nodes_to_template_string(&merged),
        "<html>{% block title %}Child title{% endblock %}{% block content %}Middle content{% endblock %}</html>"
    );
}

#[test]
fn a_chain_without_parents() {
    let chain = build_inheritance_chain(vec![text("plain")], &family(), 1).unwrap();
    assert_eq!(chain.layers.len(), 1);
    assert!(chain.merged_blocks.is_empty());
    assert!(chain.parent_blocks.is_empty());
}

#[test]
fn a_chain_that_is_too_long_is_an_error() {
    let child = vec![extends("middle.html")];
    // Two parents need a depth of three.
    assert!(build_inheritance_chain(child.clone(), &family(), 3).is_ok());
    let error = build_inheritance_chain(child.clone(), &family(), 2).unwrap_err();
    assert_eq!(
        error,
        DjangoRustError::TemplateError(
            "Template inheritance depth limit (2) exceeded - possible circular inheritance"
                .to_string()
        )
    );
    assert_eq!(error, depth_limit_error(2));
    assert!(build_inheritance_chain(vec![text("plain")], &family(), 0).is_err());
    let circular = build_inheritance_chain(vec![extends("loop.html")], &family(), 10);
    assert_eq!(circular.unwrap_err(), depth_limit_error(10));
}

#[test]
fn the_error_of_the_loader_is_passed_on() {
    let error = build_inheritance_chain(vec![extends("missing.html")], &family(), 10).unwrap_err();
    assert_eq!(
        error,
        DjangoRustError::TemplateError("Template not found: missing.html".to_string())
    );
}

#[test]
fn merging_keeps_what_a_child_replaces() {
    let mut chain = InheritanceChain::new(vec![block("a", vec![text("child")])]);
    chain.add_parent(vec![block("a", vec![text("parent")]), block("b", vec![text("only parent")])]);
    chain.add_parent(vec![block("a", vec![text("root")])]);
    chain.merge_blocks();
    assert_eq!(chain.merged_blocks.get("a"), Some(&vec![text("child")]));
    assert_eq!(chain.merged_blocks.get("b"), Some(&vec![text("only parent")]));
    assert_eq!(chain.parent_blocks.get("a"), Some(&vec![text("parent")]));
    assert!(!chain.parent_blocks.contains_key("b"));
}

#[test]
fn overrides_reach_into_control_flow_and_drop_extends() {
    let mut chain = InheritanceChain::new(vec![block("x", vec![text("new")])]);
    chain.merge_blocks();
    let nodes = vec![
        extends("base.html"),
        Node::If {
            condition: "c".to_string(),
            true_nodes: vec![block("x", vec![text("old")])],
            false_nodes: vec![block("y", vec![text("kept")])],
        },
        Node::For {
            var_names: vec!["i".to_string()],
            iterable: "xs".to_string(),
            reversed: true,
            nodes: vec![],
            empty_nodes: vec![block("x", vec![])],
        },
        Node::CsrfToken,
    ];
    let result = chain.apply_block_overrides(&nodes);
    assert_eq!(result[0], Node::Comment);
    assert_eq!(
        nodes_to_template_string(&result),
        "{% if c %}{% block x %}new{% endblock %}{% else %}{% block y %}kept{% endblock %}{% endif %}{% for i in xs reversed %}{% empty %}{% block x %}new{% endblock %}{% endfor %}{% csrf_token %}"
    );
}

#[test]
fn template_source_of_every_kind_of_node() {
    let cases = vec![
        (
            Node::Variable(
                "v".to_string(),
                vec![("a".to_string(), Some("1".to_string())), ("b".to_string(), None)],
            ),
            "{{ v |a:\"1\" |b }}",
        ),
        (
            Node::For {
                var_names: vec!["k".to_string(), "v".to_string()],
                iterable: "items".to_string(),
                reversed: false,
                nodes: vec![text("x")],
                empty_nodes: vec![text("none")],
            },
            "{% for k, v in items %}x{% empty %}none{% endfor %}",
        ),
        (
            Node::Include {
                template: "t.html".to_string(),
                with_vars: vec![
                    ("a".to_string(), "b".to_string()),
                    ("c".to_string(), "d".to_string()),
                ],
                only: true,
            },
            "{% include \"t.html\" with a=b c=d only %}",
        ),
        (
            Node::CustomTag {
                name: "url".to_string(),
                args: vec!["'home'".to_string(), "x=1".to_string()],
            },
            "{% url 'home' x=1 %}",
        ),
        (Node::CustomTag { name: "now".to_string(), args: vec![] }, "{% now %}"),
        (Node::With { assignments: vec![], nodes: vec![] }, "{% with  %}{% endwith %}"),
        (Node::Comment, ""),
        (extends("x"), ""),
        (
            Node::ReactComponent { name: "R".to_string(), props: vec![], children: vec![text("c")] },
            "",
        ),
        (Node::RustComponent { name: "R".to_string(), props: vec![] }, ""),
        (
            Node::If { condition: "a".to_string(), true_nodes: vec![], false_nodes: vec![] },
            "{% if a %}{% endif %}",
        ),
    ];
    for (node, expected) in cases {
        assert_eq!(node_to_template_string(&node), expected);
        assert_eq!(node.clone(), node);
    }
}

#[test]
fn a_template_that_is_not_found_lists_the_directories() {
    let dirs = vec![PathBuf::from("/srv/templates"), PathBuf::from("app/templates")];
    let loader = FilesystemTemplateLoader::new(dirs.clone());
    assert_eq!(loader.template_dirs(), &dirs);
    assert_eq!(
        loader.candidates("blog/post.html"),
        vec![
            PathBuf::from("/srv/templates/blog/post.html"),
            PathBuf::from("app/templates/blog/post.html"),
        ]
    );
    assert_eq!(
        loader.not_found_error("nonexistent.html"),
        DjangoRustError::TemplateError(
            "Template not found: nonexistent.html\nSearched in:\n  - /srv/templates\n  - app/templates"
                .to_string()
        )
    );
    let nowhere = FilesystemTemplateLoader::new(vec![]);
    assert!(nowhere.candidates("x").is_empty());
    assert_eq!(
        nowhere.not_found_error("x").to_string(),
        "Template error: Template not found: x\nSearched in:\n"
    );
}

#[test]
fn trimming_and_words() {
    let chars = |s: &str| s.chars().collect::<Vec<char>>();
    assert_eq!(trim(&chars("  a b \n")), chars("a b"));
    assert_eq!(trim(&chars("\u{a0}x\u{2003}")), chars("x"));
    assert_eq!(trim(&chars(" \t ")), chars(""));
    assert_eq!(trim(&chars("")), chars(""));
    assert_eq!(
        split_words(&chars("  if  a\tand\nb ")),
        vec![chars("if"), chars("a"), chars("and"), chars("b")]
    );
    assert!(split_words(&chars(" \n ")).is_empty());
}

#[test]
fn tokens_of_tags_variables_and_comments() {
    let tokens = tokenize("a{{  x.y|f  }}b{%  for  i in xs %}{# note #}{ c }{%%}{").unwrap();
    assert_eq!(
        tokens,
        vec![
            Token::Text("a".to_string()),
            Token::Variable("x.y|f".to_string()),
            Token::Text("b".to_string()),
            Token::Tag(
                "for".to_string(),
                vec!["i".to_string(), "in".to_string(), "xs".to_string()]
            ),
            Token::Comment,
            Token::Text("{ c }".to_string()),
            Token::Text("{".to_string()),
        ]
    );
    assert!(tokenize("").unwrap().is_empty());
}

#[test]
fn what_is_never_closed_swallows_the_rest() {
    assert_eq!(tokenize("a{{ x }").unwrap(), vec![Token::Text("a".to_string())]);
    assert_eq!(tokenize("a{% if x ").unwrap(), vec![Token::Text("a".to_string())]);
    assert_eq!(tokenize("{# x").unwrap(), vec![]);
    assert_eq!(tokenize("{{}").unwrap(), vec![]);
    assert_eq!(tokenize("{{}}").unwrap(), vec![Token::Variable("".to_string())]);
}

#[test]
fn components_with_properties_and_children() {
    let tokens = tokenize("<p><Card title='Hi' data={a: {b: 1}} flag count=3>  <b>x</b> </Card>!").unwrap();
    assert_eq!(
        tokens,
        vec![
            Token::Text("<p>".to_string()),
            Token::JsxComponent {
                name: "Card".to_string(),
                props: vec![
                    ("title".to_string(), "Hi".to_string()),
                    ("data".to_string(), "a: {b: 1}".to_string()),
                    ("flag".to_string(), "".to_string()),
                    ("count".to_string(), "".to_string()),
                ],
                children: vec![Token::Text("<b>x</b>".to_string())],
                self_closing: false,
            },
            Token::Text("!".to_string()),
        ]
    );
    // A lowercase tag is text.
    assert_eq!(tokenize("<card/>").unwrap(), vec![Token::Text("<card/>".to_string())]);
}

#[test]
fn a_component_that_is_never_closed_runs_to_the_end() {
    let chars: Vec<char> = "Box>text</Other> more".chars().collect();
    let (token, next) = parse_jsx_component(&chars, 0);
    assert_eq!(next, chars.len());
    assert_eq!(
        token,
        Token::JsxComponent {
            name: "Box".to_string(),
            props: vec![],
            children: vec![],
            self_closing: false,
        }
    );
    // A closing tag without `>` ends the input as well.
    let tokens = tokenize("<Box>t</Box").unwrap();
    assert_eq!(
        tokens,
        vec![Token::JsxComponent {
            name: "Box".to_string(),
            props: vec![],
            children: vec![Token::Text("t".to_string())],
            self_closing: false,
        }]
    );
    let tokens = tokenize("<Uber/").unwrap();
    assert!(matches!(&tokens[0], Token::JsxComponent { self_closing: true, .. }));
}

#[test]
fn block_tags_in_attributes_name_the_first_offender() {
    let error = validate_no_block_tags_in_attrs("<a b = '{%  endfor x %}' c=\"{% if %}\">").unwrap_err();
    match error {
        DjangoRustError::TemplateError(message) => {
            assert!(message.starts_with("Template error: '{% endfor %}' block tag found inside"));
            assert!(message.ends_with("See: https://github.com/djust-org/djust/issues/388"));
        }
        other => panic!("unexpected {:?}", other),
    }
    // Other tags are allowed, and so are quotes that open no value.
    assert!(validate_no_block_tags_in_attrs("<a b=\"{% url 'x' %}\">").is_ok());
    assert!(validate_no_block_tags_in_attrs("<a 'x{% if y %}'>").is_ok());
    assert!(validate_no_block_tags_in_attrs("<1 a=\"{% if y %}\">").is_ok());
    assert!(validate_no_block_tags_in_attrs("<é a=\"{% else %}\">").is_err());
    // A tag that is never closed is read without its last character.
    assert!(validate_no_block_tags_in_attrs("<a b=\"{% if").is_ok());
    assert!(validate_no_block_tags_in_attrs("<a b=\"{% if ").is_err());
}
