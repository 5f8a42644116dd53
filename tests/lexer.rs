use blueprint_markup::parse::{index_to_rc, lex, parse_html, ErrorKind, HtmlElement};
use blueprint_markup::render::serialize;
use blueprint_markup::trace;

fn s(x: &str) -> String {
    x.to_string()
}

fn attrs(pairs: &[(&str, &str)]) -> Vec<(String, String)> {
    pairs.iter().map(|(k, v)| (s(k), s(v))).collect()
}

fn open(name: &str, pairs: &[(&str, &str)], is_empty: bool) -> HtmlElement {
    HtmlElement::OpenTag { name: s(name), attributes: attrs(pairs), is_empty }
}

fn close(name: &str) -> HtmlElement {
    HtmlElement::CloseTag { name: s(name) }
}

#[test]
fn lexes_nested_tags_text_and_attributes() {
    let ts = parse_html("<div class=\"a\" id='b' hidden data-x=y>\n  hi <b>there</b>\n</div>").unwrap();
    assert_eq!(
        ts,
        vec![
            open("div", &[("class", "a"), ("id", "b"), ("hidden", ""), ("data-x", "y")], false),
            HtmlElement::Text(s("\n  hi ")),
            open("b", &[], false),
            HtmlElement::Text(s("there")),
            close("b"),
            close("div"),
        ]
    );
}

#[test]
fn whitespace_only_text_is_dropped() {
    let ts = parse_html("  <p>  </p>\n\t").unwrap();
    assert_eq!(ts, vec![open("p", &[], false), close("p")]);
}

#[test]
fn later_attribute_value_replaces_earlier() {
    let ts = parse_html("<a x=\"1\" y=\"2\" x=\"3\"></a>").unwrap();
    assert_eq!(ts[0], open("a", &[("x", "3"), ("y", "2")], false));
}

#[test]
fn mismatched_close_is_a_balance_error() {
    let e = parse_html("<div><span></div>").unwrap_err();
    assert!(matches!(e.kind, trace::ErrorKind::Parsing));
    assert_eq!(e.reason, "Unbalanced open and close tags");
    assert_eq!(e.backtrace, vec![s("at line 1 column 12")]);
}

#[test]
fn unclosed_tag_fails_at_end_of_input() {
    let e = parse_html("<div>").unwrap_err();
    assert!(matches!(e.kind, trace::ErrorKind::Parsing));
    assert_eq!(e.reason, "Unbalanced open and close tags");
    assert_eq!(e.backtrace, vec![s("at line 1 column 6")]);
    let chars: Vec<char> = "<div>".chars().collect();
    let inner = lex(&chars).unwrap_err();
    assert_eq!(inner.kind, ErrorKind::UnbalancedTags);
    assert_eq!(inner.char_index, 5);
}

#[test]
fn stray_close_is_a_balance_error() {
    let e = parse_html("</p>").unwrap_err();
    assert_eq!(e.reason, "Unbalanced open and close tags");
}

#[test]
fn void_elements_are_empty_with_or_without_slash() {
    assert_eq!(parse_html("<br>").unwrap(), vec![open("br", &[], true)]);
    assert_eq!(parse_html("<br/>").unwrap(), vec![open("br", &[], true)]);
    assert_eq!(parse_html("<img src=\"a.png\" />").unwrap(), vec![open("img", &[("src", "a.png")], true)]);
    assert_eq!(parse_html("<widget/>").unwrap(), vec![open("widget", &[], true)]);
}

#[test]
fn closing_a_void_element_is_rejected() {
    let e = parse_html("</br>").unwrap_err();
    assert_eq!(e.reason, "Unbalanced open and close tags");
    let e = parse_html("<br></br>").unwrap_err();
    assert_eq!(e.reason, "Unbalanced open and close tags");
}

#[test]
fn illegal_syntax_reports_line_and_column() {
    let e = parse_html("<p>\n  ok\n</p>\n<a href=\"x></a>").unwrap_err();
    assert!(matches!(e.kind, trace::ErrorKind::Parsing));
    assert_eq!(e.reason, "Illegal character encountered");
    assert_eq!(e.backtrace, vec![s("at line 4 column 1")]);
}

#[test]
fn comments_and_doctype() {
    let ts = parse_html("<!DocType   HTML ><!-- note --><p></p><!--end-->").unwrap();
    assert_eq!(
        ts,
        vec![
            HtmlElement::DocType,
            HtmlElement::Comment(s(" note ")),
            open("p", &[], false),
            close("p"),
            HtmlElement::Comment(s("end")),
        ]
    );
}

#[test]
fn doctype_needs_whitespace() {
    let e = parse_html("<!doctypehtml>").unwrap_err();
    assert_eq!(e.reason, "Illegal character encountered");
}

#[test]
fn script_and_style_contents_are_raw() {
    let ts = parse_html("<script type=\"m\">if (a < b) { x(\"</p>\"); }</script><style>p > a {}</style>")
        .unwrap();
    assert_eq!(
        ts,
        vec![
            HtmlElement::Script {
                attributes: attrs(&[("type", "m")]),
                contents: s("if (a < b) { x(\"</p>\"); }"),
            },
            HtmlElement::Style { attributes: attrs(&[]), contents: s("p > a {}") },
        ]
    );
}

#[test]
fn unterminated_script_is_illegal() {
    let e = parse_html("<script>var a;").unwrap_err();
    assert_eq!(e.reason, "Illegal character encountered");
}

#[test]
fn directive_blocks() {
    let ts = parse_html("<@code lang=\"rust\">fn <b>main</b>() {}</@code><@children/>").unwrap();
    assert_eq!(
        ts,
        vec![
            HtmlElement::Directive {
                name: s("code"),
                attributes: attrs(&[("lang", "rust")]),
                contents: s("fn <b>main</b>() {}"),
            },
            HtmlElement::Directive { name: s("children"), attributes: attrs(&[]), contents: s("") },
        ]
    );
    let ts = parse_html("<@code lang=\"toml\">a = 1</code>").unwrap();
    assert_eq!(
        ts,
        vec![HtmlElement::Directive {
            name: s("code"),
            attributes: attrs(&[("lang", "toml")]),
            contents: s("a = 1"),
        }]
    );
}

#[test]
fn token_ceiling_is_enforced_by_the_lexer() {
    let ok = "<br>".repeat(65535);
    assert_eq!(parse_html(&ok).unwrap().len(), 65535);
    let too_many = "<br>".repeat(65536);
    let e = parse_html(&too_many).unwrap_err();
    assert!(matches!(e.kind, trace::ErrorKind::Memory));
    assert_eq!(e.reason, "Ran out of memory");
    assert_eq!(e.backtrace, vec![s("at line 1 column 262141")]);
}

#[test]
fn row_and_column_of_offsets() {
    let chars: Vec<char> = "ab\ncd\n\nx".chars().collect();
    assert_eq!(index_to_rc(&chars, 0), (1, 1));
    assert_eq!(index_to_rc(&chars, 2), (1, 3));
    assert_eq!(index_to_rc(&chars, 3), (2, 1));
    assert_eq!(index_to_rc(&chars, 8), (4, 2));
}

#[test]
fn serialized_tokens_lex_back() {
    let src = "<!doctype html>\n<html lang=\"en\">\n  <!-- c --><body class=\"a b\" hidden>\n    <p>Hi &amp; bye</p><br>\n    <input type=\"text\" value='x'/>\n  </body>\n</html>";
    let first = parse_html(src).unwrap();
    let printed = serialize(&first);
    let second = parse_html(&printed).unwrap();
    let expected: Vec<HtmlElement> = first
        .iter()
        .map(|t| match t {
            HtmlElement::Comment(_) => HtmlElement::Comment(String::new()),
            other => other.clone(),
        })
        .collect();
    assert_eq!(second, expected);
    assert_eq!(serialize(&second), printed);
}
