use wappu::{select_by_class, select_by_tag_name, HtmlParser, Selector};

#[test]
fn test_html_parsing_and_selection_with_nested_elements() {
    let parser = HtmlParser::new();
    let html = r#"
            <div class="content">
                <h1 id="title">Test Title</h1>
                <a href="https://example.com">Example Link</a>
                <div>
                    <p>Some text</p>
                    <a href="https://example.com">Another link</a>
                </div>
            </div>
        "#;

    let parsed_html = parser.parse_html(html);

    // Test selecting by tag name
    let p_selection = Selector::new().from_tag_name("p").select(&parsed_html);
    assert_eq!(p_selection.text(), "Some text");

    let a_selection = Selector::new().from_tag_name("a").select(&parsed_html);
    assert_eq!(a_selection.text(), "Example Link Another link");
}

#[test]
fn test_iteration_over_multiple_elements() {
    let parser = HtmlParser::new();
    let html = r#"
            <div class="links">
                <a href="https://example.com/1">Link 1</a>
                <a href="https://example.com/2">Link 2</a>
                <a href="https://example.com/3">Link 3</a>
            </div>
        "#;

    let parsed_html = parser.parse_html(html);
    let links_selection = Selector::new().from_tag_name("a").select(&parsed_html);

    // Using the iterator to access each link's href attribute
    let hrefs: Vec<Option<String>> = links_selection
        .elements
        .into_iter()
        .map(|elem| elem.attributes.get("href").cloned())
        .collect();

    // Asserting that we have the expected hrefs
    assert_eq!(
        hrefs,
        vec![
            Some("https://example.com/1".to_string()),
            Some("https://example.com/2".to_string()),
            Some("https://example.com/3".to_string())
        ]
    );
}

#[test]
fn test_selecting_specific_element_from_multiple() {
    let parser = HtmlParser::new();
    let html = r#"
            <div class="links">
                <a href="https://example.com/1">Link 1</a>
                <a href="https://example.com/special">Special Link</a>
                <a href="https://example.com/3">Link 3</a>
            </div>
        "#;

    let parsed_html = parser.parse_html(html);
    let links_selection = Selector::new().from_tag_name("a").select(&parsed_html);

    // Iterate over links and find the one with the specific href attribute
    let special_link = links_selection
        .elements
        .into_iter()
        .find(|elem| elem.attributes.get("href") == Some(&"https://example.com/special".to_string()))
        .expect("Special link not found");

    // Asserting that we have the correct text for the special link
    assert_eq!(special_link.text, "Special Link");
}

#[test]
fn select_by_tag_in_nested_tree() {
    let root = HtmlParser::new().parse_html("<div><p>Test</p></div>");
    let selection = Selector::new().from_tag_name("p").select(&root);
    assert_eq!(selection.len(), 1);
    assert_eq!(selection.text(), "Test");
    assert_eq!(selection.tag_name(), Some("p".to_string()));
}

#[test]
fn selection_accessors_find_first_carrier() {
    let html = r#"
        <div class="content">
            <h1 id="title">Test Title</h1>
            <img src="image.jpg" alt="An image"></img>
            <a href="https://example.com">Example Link</a>
        </div>
    "#;
    let root = HtmlParser::new().parse_html(html);

    let h1 = select_by_tag_name(&root, "h1");
    assert_eq!(h1.text(), "Test Title");
    assert_eq!(h1.tag_name(), Some("h1".to_string()));
    assert_eq!(h1.id(), Some("title".to_string()));
    assert_eq!(h1.href(), None);

    let img = select_by_tag_name(&root, "img");
    assert_eq!(img.src(), Some("image.jpg".to_string()));

    let a = select_by_tag_name(&root, "a");
    assert_eq!(a.href(), Some("https://example.com".to_string()));

    let div = select_by_tag_name(&root, "div");
    assert_eq!(div.class(), Some("content".to_string()));
}

/// A node whose `class` attribute holds several whitespace-separated
/// classes, built directly: the tokenizer itself cuts quoted values at
/// whitespace, so a multi-word class reaches the selector only this way.
fn root_with_class(class_value: &str) -> wappu::HtmlElement {
    let mut attrs = wappu::AttrMap::new();
    attrs.insert("class".to_string(), class_value.to_string());
    let div = wappu::HtmlElement {
        tag_name: Some("div".to_string()),
        text: "x".to_string(),
        children: vec![],
        attributes: attrs,
    };
    wappu::HtmlElement {
        tag_name: None,
        text: String::new(),
        children: vec![div],
        attributes: wappu::AttrMap::new(),
    }
}

#[test]
fn class_word_must_match_exactly() {
    let root = root_with_class("test testing");

    assert_eq!(select_by_class(&root, "test").len(), 1);
    assert_eq!(select_by_class(&root, "testing").len(), 1);
    assert_eq!(select_by_class(&root, "tes").len(), 0);
    assert_eq!(select_by_class(&root, "est").len(), 0);
}

#[test]
fn class_selection_reaches_nested_matches() {
    let mut inner_attrs = wappu::AttrMap::new();
    inner_attrs.insert("class".to_string(), "outer inner".to_string());
    let p = wappu::HtmlElement {
        tag_name: Some("p".to_string()),
        text: "a".to_string(),
        children: vec![],
        attributes: inner_attrs,
    };
    let mut outer_attrs = wappu::AttrMap::new();
    outer_attrs.insert("class".to_string(), "outer".to_string());
    let div = wappu::HtmlElement {
        tag_name: Some("div".to_string()),
        text: String::new(),
        children: vec![p],
        attributes: outer_attrs,
    };
    let root = wappu::HtmlElement {
        tag_name: None,
        text: String::new(),
        children: vec![div],
        attributes: wappu::AttrMap::new(),
    };

    let outer = select_by_class(&root, "outer");
    assert_eq!(outer.len(), 2);
    // The outer div has no direct text of its own, so the join keeps its
    // empty contribution: a single separator before the inner text.
    assert_eq!(outer.text(), " a");

    let inner = select_by_class(&root, "inner");
    assert_eq!(inner.len(), 1);
    assert_eq!(inner.tag_name(), Some("p".to_string()));
}

#[test]
fn quoted_attribute_value_is_cut_at_whitespace() {
    // The tokenizer splits attribute text on whitespace before it looks at
    // quotes, so a quoted value with a space loses its tail; the selector
    // then sees only the first word.
    let root = HtmlParser::new().parse_html(r#"<div class="test testing">x</div>"#);
    let div = &root.children[0];
    assert_eq!(div.attributes.get("class"), Some(&"test".to_string()));
    assert_eq!(select_by_class(&root, "test").len(), 1);
    assert_eq!(select_by_class(&root, "testing").len(), 0);
}

#[test]
fn selection_is_in_document_order() {
    let html = "<div><a href=\"1\">one</a><span><a href=\"2\">two</a></span><a href=\"3\">three</a></div>";
    let root = HtmlParser::new().parse_html(html);
    let links = select_by_tag_name(&root, "a");
    assert_eq!(links.len(), 3);
    assert_eq!(links.text(), "one two three");
    assert_eq!(links.href(), Some("1".to_string()));
}

#[test]
fn selecting_twice_gives_equal_selections() {
    let html = r#"<div class="c"><a href="x">one</a><a href="y">two</a></div>"#;
    let root = HtmlParser::new().parse_html(html);

    let s1 = Selector::new().from_tag_name("a").select(&root);
    let s2 = Selector::new().from_tag_name("a").select(&root);

    assert_eq!(s1.len(), s2.len());
    assert_eq!(s1.text(), s2.text());
    assert_eq!(s1.tag_name(), s2.tag_name());
    assert_eq!(s1.href(), s2.href());
    let texts1: Vec<&String> = s1.elements.iter().map(|e| &e.text).collect();
    let texts2: Vec<&String> = s2.elements.iter().map(|e| &e.text).collect();
    assert_eq!(texts1, texts2);
}

#[test]
fn select_first_returns_first_match_or_none() {
    let html = r#"<div><a href="1">one</a><a href="2">two</a></div>"#;
    let root = HtmlParser::new().parse_html(html);

    let first = Selector::new().from_tag_name("a").select_first(&root);
    let first = first.expect("expected a match");
    assert_eq!(first.text, "one");

    let none = Selector::new().from_tag_name("table").select_first(&root);
    assert!(none.is_none());
}

#[test]
fn queries_on_empty_document_are_empty() {
    let root = HtmlParser::new().parse_html("");
    assert_eq!(select_by_tag_name(&root, "div").len(), 0);
    assert_eq!(select_by_class(&root, "c").len(), 0);
    assert_eq!(select_by_tag_name(&root, "div").text(), "");
    assert_eq!(select_by_tag_name(&root, "div").tag_name(), None);
}

#[test]
fn root_without_tag_never_matches() {
    let root = HtmlParser::new().parse_html("<p>x</p>");
    // A selector with no criterion set matches nothing, not even the
    // synthetic root.
    let nothing = Selector::new().select(&root);
    assert_eq!(nothing.len(), 0);
}

#[test]
fn selector_with_both_criteria_matches_either() {
    let html = r#"<div class="c">a</div><p>b</p><span>c</span>"#;
    let root = HtmlParser::new().parse_html(html);
    let s = Selector::new().from_tag_name("p").from_class_name("c").select(&root);
    assert_eq!(s.len(), 2);
    assert_eq!(s.text(), "a b");
}
