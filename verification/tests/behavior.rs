use html_editor::operation::Selector;
use html_editor::operation::edit::Editable;
use html_editor::SourceLocation;
use html_editor::operation::html::Htmlifiable;
use html_editor::{parse, try_parse, Element, Node};

fn element(name: &str, attrs: Vec<(&str, &str)>) -> Element {
    Element::new(name, attrs, vec![])
}

#[test]
fn selector_matching_by_tag_and_id() {
    let selector = Selector::from("div#app");
    assert!(selector.matches(&element("div", vec![("id", "app")])));
    assert!(!selector.matches(&element("span", vec![("id", "app")])));
    assert!(!selector.matches(&element("div", vec![("id", "other")])));
}

#[test]
fn selector_matching_by_list() {
    let selector = Selector::from("h1, h2");
    assert!(selector.matches(&element("h1", vec![])));
    assert!(selector.matches(&element("h2", vec![])));
    assert!(!selector.matches(&element("p", vec![])));
}

#[test]
fn selector_matching_by_class_list() {
    let selector = Selector::from(".round");
    assert!(selector.matches(&element("button", vec![("class", "round wide")])));
    assert!(selector.matches(&element("button", vec![("class", "wide  round")])));
    assert!(!selector.matches(&element("button", vec![("class", "rounded")])));
    assert!(!selector.matches(&element("button", vec![])));
}

#[test]
fn selector_matching_is_repeatable() {
    let selector = Selector::from("div#app");
    let el = element("div", vec![("id", "app")]);
    let first = selector.matches(&el);
    let second = selector.matches(&el);
    assert_eq!(first, second);
}

#[test]
fn script_body_is_not_markup() {
    let nodes = parse(r#"<script>let x = "<div>"</script>"#).unwrap();
    assert_eq!(nodes.len(), 1);
    match &nodes[0] {
        Node::Element(script) => {
            assert_eq!(script.name, "script");
            assert_eq!(script.children.len(), 1);
            match &script.children[0] {
                Node::Text(body) => assert_eq!(body, r#"let x = "<div>""#),
                _ => panic!("script body should be a single text child"),
            }
        }
        _ => panic!("expected one script element"),
    }
}

#[test]
fn empty_input_parses_to_nothing() {
    assert_eq!(parse("").unwrap().len(), 0);
    assert_eq!(try_parse("").len(), 0);
}

#[test]
fn decoded_references_in_text_and_attributes() {
    let nodes = parse("<p title=\"&lt;b&gt;\">&amp;x &#65;</p>").unwrap();
    match &nodes[0] {
        Node::Element(p) => {
            assert_eq!(p.attrs, vec![("title".to_string(), "<b>".to_string())]);
            match &p.children[0] {
                Node::Text(body) => assert_eq!(body, "&x A"),
                _ => panic!("expected a text child"),
            }
        }
        _ => panic!("expected one element"),
    }
}

#[test]
fn unknown_references_stay_as_written() {
    let nodes = parse("<p>&unknown; &#xyz;</p>").unwrap();
    match &nodes[0] {
        Node::Element(p) => match &p.children[0] {
            Node::Text(body) => assert_eq!(body, "&unknown; &#xyz;"),
            _ => panic!("expected a text child"),
        },
        _ => panic!("expected one element"),
    }
}

#[test]
fn void_tag_with_attributes_round_trips() {
    let html = parse(r#"<img src="a.png" alt=demo>"#).unwrap().html();
    assert_eq!(html, r#"<img alt="demo" src="a.png">"#);
}

#[test]
fn boolean_attribute_renders_bare() {
    let html = parse(r#"<input disabled type="button">"#).unwrap().html();
    assert_eq!(html, r#"<input type="button" disabled>"#);
}

#[test]
fn first_attribute_occurrence_wins() {
    let selector = Selector::from("#a");
    let el = element("div", vec![("id", "a"), ("id", "b")]);
    assert!(selector.matches(&el));
}

#[test]
fn comment_round_trip() {
    let html = parse("<!-- note -->").unwrap().html();
    assert_eq!(html, "<!-- note -->");
    let html = parse("<!---->").unwrap().html();
    assert_eq!(html, "<!---->");
}

#[test]
fn xml_declaration_round_trips() {
    let html = parse(r#"<?xml version="1.0" encoding="UTF-8"?>"#).unwrap().html();
    assert_eq!(html, r#"<?xml version="1.0" encoding="UTF-8"?>"#);
}

#[test]
fn doctype_renders_upper_case() {
    let html = parse("<!doctype html>").unwrap().html();
    assert_eq!(html, "<!DOCTYPE html>");
}

#[test]
fn strict_and_lenient_agree_on_well_formed_input() {
    let text = r#"<div id="app"><p>One</p><img><p>Two</p></div>"#;
    let strict = parse(text).unwrap().html();
    let lenient = try_parse(text).html();
    assert_eq!(strict, lenient);
}

#[test]
fn lenient_drops_unmatched_end_tag_entirely() {
    assert_eq!(try_parse("</b>").len(), 0);
}

#[test]
fn bare_closing_angle_is_invalid() {
    // `>` always ends a bracketed region, so text holding a bare `>` is
    // classified as a tag and refused.
    assert!(parse("a > b").is_err());
    assert_eq!(try_parse("a > b").len(), 0);
}

#[test]
fn self_closing_syntax_yields_childless_element() {
    let html = parse("<div />").unwrap().html();
    assert_eq!(html, "<div></div>");
}

#[test]
fn escaped_quote_inside_attribute_value() {
    let nodes = parse(r#"<p title="a\"b"></p>"#).unwrap();
    match &nodes[0] {
        Node::Element(p) => {
            assert_eq!(p.attrs, vec![("title".to_string(), "a\\\"b".to_string())]);
        }
        _ => panic!("expected one element"),
    }
}

#[test]
fn source_location_offsets_fail_instead_of_wrapping() {
    assert_eq!(SourceLocation(10).offset(-3), Some(SourceLocation(7)));
    assert_eq!(SourceLocation(10).offset(5), Some(SourceLocation(15)));
    assert_eq!(SourceLocation(2).offset(-3), None);
    assert_eq!(SourceLocation(usize::MAX).offset(1), None);
}

#[test]
fn replace_matching_elements() {
    let mut doc = parse("<div><p>Hello</p><span>x</span></div>").unwrap();
    doc.replace_with(&Selector::from("p"), |p: &Element| {
        Node::Comment(p.children.html())
    });
    assert_eq!(doc.html(), "<div><!--Hello--><span>x</span></div>");
}
