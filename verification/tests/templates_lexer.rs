use djust::templates::lexer::{tokenize, Token};

#[test]
fn test_tokenize_text() {
    let tokens = tokenize("Hello World").unwrap();
    assert_eq!(tokens, vec![Token::Text("Hello World".to_string())]);
}

#[test]
fn test_tokenize_variable() {
    let tokens = tokenize("Hello {{ name }}").unwrap();
    assert_eq!(
        tokens,
        vec![
            Token::Text("Hello ".to_string()),
            Token::Variable("name".to_string()),
        ]
    );
}

#[test]
fn test_tokenize_tag() {
    let tokens = tokenize("{% if true %}yes{% endif %}").unwrap();
    assert_eq!(
        tokens[0],
        Token::Tag("if".to_string(), vec!["true".to_string()])
    );
}

#[test]
fn test_tokenize_comment() {
    let tokens = tokenize("Hello {# comment #} World").unwrap();
    assert_eq!(
        tokens,
        vec![
            Token::Text("Hello ".to_string()),
            Token::Comment,
            Token::Text(" World".to_string()),
        ]
    );
}

#[test]
fn test_tokenize_jsx_self_closing() {
    let tokens = tokenize("Hello <Button label=\"Click me\" />").unwrap();
    assert_eq!(tokens.len(), 2);
    assert_eq!(tokens[0], Token::Text("Hello ".to_string()));
    if let Token::JsxComponent {
        name,
        props,
        self_closing,
        ..
    } = &tokens[1]
    {
        assert_eq!(name, "Button");
        assert_eq!(props.len(), 1);
        assert_eq!(props[0].0, "label");
        assert_eq!(props[0].1, "Click me");
        assert!(self_closing);
    } else {
        panic!("Expected JsxComponent token");
    }
}

#[test]
fn test_tokenize_jsx_with_children() {
    let tokens = tokenize("<Button>Click me</Button>").unwrap();
    assert_eq!(tokens.len(), 1);
    if let Token::JsxComponent {
        name,
        children,
        self_closing,
        ..
    } = &tokens[0]
    {
        assert_eq!(name, "Button");
        assert!(!self_closing);
        assert_eq!(children.len(), 1);
    } else {
        panic!("Expected JsxComponent token");
    }
}
