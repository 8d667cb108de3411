use html_query_parser::{html::Htmlifiable, parse, trim::Trimable};

const HTML: &str = r#"
    <div>
        <span id="class">Hello</span>
        <span class="id">World</span>
    </div>"#;

#[test]
fn original_html() {
    let html = parse(HTML).unwrap().html();
    assert_eq!(html, HTML);
}

#[test]
fn html_trimmed_html() {
    let html = parse(HTML).unwrap().trim().html();
    assert_eq!(
        html,
        r#"<div><span id="class">Hello</span><span class="id">World</span></div>"#
    );
}
