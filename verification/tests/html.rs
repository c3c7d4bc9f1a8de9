use html_editor::operation::edit::Editable;
use html_editor::operation::html::Htmlifiable;
use html_editor::parse;

const HTML: &str = r#"
    <div>
        <span id="class">Hello</span>
        <span class="id">World</span>
    </div>"#;

#[test]
fn original_html() {
    let html = parse(HTML).unwrap().html();
    assert_eq!(html, HTML);
}

#[test]
fn trimmed_html() {
    let mut nodes = parse(HTML).unwrap();
    nodes.trim();
    let html = nodes.html();
    assert_eq!(
        html,
        r#"<div><span id="class">Hello</span><span class="id">World</span></div>"#
    );
}
