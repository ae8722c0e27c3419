use wappu::{AttrMap, Parser, Token};

#[test]
fn test_tokenize_simple_html() {
    let html = "<div>Hello, World!</div>";
    let tokens = Parser::new().tokenize(html);

    assert_eq!(tokens.len(), 3); // Expecting StartTag, Text, EndTag
    assert_eq!(tokens[0], Token::StartTag("div".to_string(), AttrMap::new()));
    assert_eq!(tokens[1], Token::Text("Hello, World!".to_string()));
    assert_eq!(tokens[2], Token::EndTag("div".to_string()));
}

#[test]
fn test_tokenize_with_attributes() {
    let html = r#"<a href="https://example.com">Link</a>"#;
    let tokens = Parser::new().tokenize(html);

    let mut attributes = AttrMap::new();
    attributes.insert("href".to_string(), "https://example.com".to_string());

    assert_eq!(tokens.len(), 3); // StartTag, Text, EndTag
    assert_eq!(tokens[0], Token::StartTag("a".to_string(), attributes));
    assert_eq!(tokens[1], Token::Text("Link".to_string()));
    assert_eq!(tokens[2], Token::EndTag("a".to_string()));
}

#[test]
fn test_tokenize_nested_html() {
    let html = "<div><p>Test</p></div>";
    let tokens = Parser::new().tokenize(html);

    assert_eq!(tokens.len(), 5); // StartTag(div), StartTag(p), Text, EndTag(p), EndTag(div)
    assert_eq!(tokens[0], Token::StartTag("div".to_string(), AttrMap::new()));
    assert_eq!(tokens[1], Token::StartTag("p".to_string(), AttrMap::new()));
    assert_eq!(tokens[2], Token::Text("Test".to_string()));
    assert_eq!(tokens[3], Token::EndTag("p".to_string()));
    assert_eq!(tokens[4], Token::EndTag("div".to_string()));
}

#[test]
fn test_tokenize_with_multiple_attributes() {
    let html = r#"<input type="text" value="Sample" />"#;
    let tokens = Parser::new().tokenize(html);

    let mut attributes = AttrMap::new();
    attributes.insert("type".to_string(), "text".to_string());
    attributes.insert("value".to_string(), "Sample".to_string());

    assert_eq!(tokens.len(), 1); // Single self-closing tag considered as StartTag
    assert_eq!(tokens[0], Token::StartTag("input".to_string(), attributes));
}

#[test]
fn tokenize_single_quotes_are_stripped() {
    let html = "<a href='x.html'>Go</a>";
    let tokens = Parser::new().tokenize(html);

    let mut attributes = AttrMap::new();
    attributes.insert("href".to_string(), "x.html".to_string());

    assert_eq!(tokens[0], Token::StartTag("a".to_string(), attributes));
}

#[test]
fn tokenize_duplicate_attribute_keeps_last_value() {
    let html = r#"<a href="first" href="second">x</a>"#;
    let tokens = Parser::new().tokenize(html);

    match &tokens[0] {
        Token::StartTag(name, attrs) => {
            assert_eq!(name, "a");
            assert_eq!(attrs.len(), 1);
            assert_eq!(attrs.get("href"), Some(&"second".to_string()));
        }
        other => panic!("expected a start tag, got {:?}", other),
    }
}

#[test]
fn tokenize_word_without_equals_is_discarded() {
    let html = "<input disabled value=3>";
    let tokens = Parser::new().tokenize(html);

    match &tokens[0] {
        Token::StartTag(name, attrs) => {
            assert_eq!(name, "input");
            assert_eq!(attrs.len(), 1);
            assert_eq!(attrs.get("disabled"), None);
            assert_eq!(attrs.get("value"), Some(&"3".to_string()));
        }
        other => panic!("expected a start tag, got {:?}", other),
    }
}

#[test]
fn tokenize_dangling_open_angle_stops_cleanly() {
    let html = "<div>abc<";
    let tokens = Parser::new().tokenize(html);

    assert_eq!(tokens.len(), 2);
    assert_eq!(tokens[0], Token::StartTag("div".to_string(), AttrMap::new()));
    assert_eq!(tokens[1], Token::Text("abc".to_string()));
}

#[test]
fn tokenize_unterminated_tag_is_cut_at_end() {
    let tokens = Parser::new().tokenize("<div");
    assert_eq!(tokens.len(), 1);
    assert_eq!(tokens[0], Token::StartTag("div".to_string(), AttrMap::new()));

    let tokens = Parser::new().tokenize("</p");
    assert_eq!(tokens.len(), 1);
    assert_eq!(tokens[0], Token::EndTag("p".to_string()));
}

#[test]
fn tokenize_whitespace_only_text_is_dropped() {
    let html = "<div>   \n\t  </div>";
    let tokens = Parser::new().tokenize(html);

    assert_eq!(tokens.len(), 2);
    assert_eq!(tokens[0], Token::StartTag("div".to_string(), AttrMap::new()));
    assert_eq!(tokens[1], Token::EndTag("div".to_string()));
}

#[test]
fn tokenize_text_runs_are_trimmed() {
    let html = "<p>  Hello  </p>";
    let tokens = Parser::new().tokenize(html);

    assert_eq!(tokens[1], Token::Text("Hello".to_string()));
}

#[test]
fn parse_attributes_splits_on_first_equals() {
    let attrs = Parser::parse_attributes(r#"q="a=b" empty"#);
    assert_eq!(attrs.len(), 1);
    assert_eq!(attrs.get("q"), Some(&"a=b".to_string()));
}

#[test]
fn parse_attributes_of_empty_text_is_empty() {
    let attrs = Parser::parse_attributes("");
    assert_eq!(attrs.len(), 0);
    assert!(attrs.is_empty());
}
