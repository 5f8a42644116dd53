use blueprint_markup::directives::{
    code_block, dedent, lines, parse_language, plan_directive, render_piece, script_block, style_block, trim,
    CodeLanguage, DirectiveRequest, HighlightPiece,
};
use blueprint_markup::macros::{default_macros, plan_include, render_include, IncludeKind, Macro};
use blueprint_markup::trace::ErrorKind;

fn s(x: &str) -> String {
    x.to_string()
}

fn attrs(pairs: &[(&str, &str)]) -> Vec<(String, String)> {
    pairs.iter().map(|(k, v)| (s(k), s(v))).collect()
}

fn chars(x: &str) -> Vec<char> {
    x.chars().collect()
}

#[test]
fn lines_follow_str_lines() {
    for text in ["", "a", "a\n", "a\nb", "a\r\nb\r\n", "a\rb", "\n\nx", "x\r"] {
        let got: Vec<String> = lines(&chars(text)).iter().map(|l| l.iter().collect()).collect();
        let want: Vec<String> = text.lines().map(|l| l.to_string()).collect();
        assert_eq!(got, want, "{:?}", text);
    }
}

#[test]
fn trim_follows_str_trim() {
    for text in ["", "  ", " a b ", "\u{3000}x\t\n", "x"] {
        assert_eq!(trim(&s(text)), text.trim());
    }
}

#[test]
fn dedent_measures_indentation_after_trimming() {
    // Trimming leaves the first line without indentation, so nothing is removed.
    assert_eq!(dedent(&s("\n    fn a() {\n      b();\n    }\n")), "\n    fn a() {\n      b();\n    }\n");
    assert_eq!(dedent(&s("x")), "x\n");
    assert_eq!(dedent(&s("")), "");
}

#[test]
fn languages() {
    assert_eq!(parse_language(&s("rust")), Some(CodeLanguage::Rust));
    assert_eq!(parse_language(&s("toml")), Some(CodeLanguage::Toml));
    assert_eq!(parse_language(&s("cobol")), None);
}

#[test]
fn directive_plans() {
    match plan_directive(&s("style"), &attrs(&[("href", "a.css")]), &s("")) {
        DirectiveRequest::Style(p) => assert_eq!(p, "a.css"),
        _ => panic!("expected a style request"),
    }
    match plan_directive(&s("script"), &attrs(&[("href", "a.js")]), &s("")) {
        DirectiveRequest::Script(p) => assert_eq!(p, "a.js"),
        _ => panic!("expected a script request"),
    }
    match plan_directive(&s("code"), &attrs(&[("lang", "python")]), &s("  x = 1\n  y = 2")) {
        DirectiveRequest::Code(l, c) => {
            assert_eq!(l, CodeLanguage::Python);
            assert_eq!(c, "  x = 1\n  y = 2\n");
        },
        _ => panic!("expected a code request"),
    }
    assert!(matches!(plan_directive(&s("style"), &attrs(&[]), &s("")), DirectiveRequest::Inert));
    assert!(matches!(plan_directive(&s("code"), &attrs(&[("lang", "x")]), &s("")), DirectiveRequest::Inert));
    assert!(matches!(plan_directive(&s("other"), &attrs(&[("href", "a")]), &s("")), DirectiveRequest::Inert));
}

#[test]
fn blocks() {
    assert_eq!(style_block(&s("\n p {} \n")), "<style>\np {}\n</style>");
    assert_eq!(script_block(&s(" go() ")), "<script>\ngo()\n</script>");
    assert_eq!(code_block(&s("k")), "<div class=\"code-block\">\n<pre><code>k</code></pre>\n</div>");
}

#[test]
fn highlight_pieces_are_escaped() {
    assert_eq!(render_piece(&HighlightPiece::Source(s("a<b>&\"c'/"))), "a&lt;b&gt;&amp;&quot;c&#x27;&#x2f;");
    assert_eq!(render_piece(&HighlightPiece::Source(s("plain é"))), "plain é");
    assert_eq!(render_piece(&HighlightPiece::Start(s("keyword"))), "<span class=\"keyword\">");
    assert_eq!(render_piece(&HighlightPiece::End), "</span>");
}

#[test]
fn macro_table() {
    let m = default_macros();
    assert_eq!(m.len(), 1);
    assert_eq!(m[0].0, "lg:include");
    assert_eq!(m[0].1, Macro::Include);
}

#[test]
fn include_plans_and_errors() {
    let (p, k) = plan_include(&attrs(&[("href", "f.css"), ("rel", "css")])).unwrap();
    assert_eq!(p, "f.css");
    assert_eq!(k, IncludeKind::Css);
    assert_eq!(plan_include(&attrs(&[("href", "f"), ("rel", "js")])).unwrap().1, IncludeKind::Js);
    assert_eq!(plan_include(&attrs(&[("href", "f"), ("rel", "inline")])).unwrap().1, IncludeKind::Inline);
    let e = plan_include(&attrs(&[("rel", "css")])).unwrap_err();
    assert_eq!(e.reason, "'href' attribute missing");
    assert!(matches!(e.kind, ErrorKind::Compilation));
    assert_eq!(plan_include(&attrs(&[("href", "")])).unwrap_err().reason, "'href' attribute is empty");
    assert_eq!(plan_include(&attrs(&[("href", "f")])).unwrap_err().reason, "'rel' attribute missing");
    assert_eq!(plan_include(&attrs(&[("href", "f"), ("rel", "")])).unwrap_err().reason, "'rel' attribute is empty");
    assert_eq!(plan_include(&attrs(&[("href", "f"), ("rel", "md")])).unwrap_err().reason, "Invalid 'rel' value: md");
}

#[test]
fn include_rendering() {
    assert_eq!(render_include(IncludeKind::Css, &s("a")), "<style>\na\n</style>\n");
    assert_eq!(render_include(IncludeKind::Js, &s("a")), "<script>\na\n</script>\n");
    assert_eq!(render_include(IncludeKind::Inline, &s("a")), "a");
}
