use wappu::HtmlParser;

#[test]
fn parse_empty_document_yields_bare_root() {
    let root = HtmlParser::new().parse_html("");
    assert_eq!(root.tag_name, None);
    assert_eq!(root.text, "");
    assert_eq!(root.children.len(), 0);
    assert_eq!(root.attributes.len(), 0);
}

#[test]
fn parse_whitespace_only_document_yields_bare_root() {
    let root = HtmlParser::new().parse_html("  \n\t ");
    assert_eq!(root.tag_name, None);
    assert_eq!(root.children.len(), 0);
}

#[test]
fn parse_builds_nested_tree() {
    let root = HtmlParser::new().parse_html("<div><p>Test</p></div>");
    assert_eq!(root.children.len(), 1);
    let div = &root.children[0];
    assert_eq!(div.tag_name, Some("div".to_string()));
    assert_eq!(div.children.len(), 1);
    let p = &div.children[0];
    assert_eq!(p.tag_name, Some("p".to_string()));
    assert_eq!(p.text, "Test");
    assert_eq!(p.children.len(), 0);
}

#[test]
fn text_runs_around_a_child_join_with_one_space() {
    let root = HtmlParser::new().parse_html("<div>a<p>b</p>c</div>");
    let div = &root.children[0];
    assert_eq!(div.text, "a c");
    assert_eq!(div.children.len(), 1);
    assert_eq!(div.children[0].text, "b");
}

#[test]
fn mismatched_end_tag_names_are_tolerated() {
    let root = HtmlParser::new().parse_html("<div><p>Test</i></div>");
    let div = &root.children[0];
    assert_eq!(div.tag_name, Some("div".to_string()));
    assert_eq!(div.children.len(), 1);
    assert_eq!(div.children[0].tag_name, Some("p".to_string()));
    assert_eq!(div.children[0].text, "Test");
}

#[test]
fn end_tag_with_only_root_open_is_ignored() {
    let root = HtmlParser::new().parse_html("</div><p>Hi</p>");
    assert_eq!(root.children.len(), 1);
    assert_eq!(root.children[0].tag_name, Some("p".to_string()));
    assert_eq!(root.children[0].text, "Hi");
}

#[test]
fn unclosed_elements_at_end_are_discarded() {
    let root = HtmlParser::new().parse_html("<div><p>Test</p>");
    // The still-open div, and the p inside it, are dropped with it.
    assert_eq!(root.children.len(), 0);
}

#[test]
fn attributes_reach_the_built_node() {
    let root = HtmlParser::new().parse_html(r#"<a href="https://example.com">Link</a>"#);
    let a = &root.children[0];
    assert_eq!(a.attributes.get("href"), Some(&"https://example.com".to_string()));
    assert_eq!(a.text, "Link");
}

#[test]
fn build_consumes_tokens_from_tokenizer() {
    let tokens = wappu::Parser::new().tokenize("<ul><li>one</li><li>two</li></ul>");
    let root = HtmlParser::new().build(tokens);
    let ul = &root.children[0];
    assert_eq!(ul.children.len(), 2);
    assert_eq!(ul.children[0].text, "one");
    assert_eq!(ul.children[1].text, "two");
}
