use blueprint_markup::compile::{
    collect_templates, compilation_pass, compile_source, compile_tokens, expand_template, parse_element, parse_templates, Element,
    Templates,
};
use blueprint_markup::parse::{parse_html, HtmlElement};
use blueprint_markup::render::{serialize, serialize_mini, serialize_with};
use blueprint_markup::trace;

fn store(defs: &str) -> Templates {
    parse_templates(defs).unwrap().0
}

fn compile_text(defs: &str, doc: &str) -> String {
    serialize(&compile_source(doc, &store(defs)).unwrap())
}

const CARD: &str = "<card><div class=\"card\" title=\"@title\"><@children/></div></card>";

#[test]
fn binds_attribute_and_fills_content_slot() {
    let out = compile_text(CARD, "<card title=\"Hi\"><p>Body</p></card>");
    assert_eq!(out, "<div class=\"card\" title=\"Hi\"><p>Body</p></div>");
}

#[test]
fn missing_variable_drops_the_attribute() {
    let out = compile_text(CARD, "<card><p>Body</p></card>");
    assert_eq!(out, "<div class=\"card\"><p>Body</p></div>");
    assert!(!out.contains("title"));
}

#[test]
fn nested_invocations_expand_over_several_passes() {
    let defs = "<outer><section><inner v=\"@v\"></inner><@children/></section></outer><inner><em x=\"@v\"></em></inner>";
    let out = compile_text(defs, "<outer v=\"1\"><outer v=\"2\"></outer></outer>");
    assert_eq!(out, "<section><em x=\"1\"></em><section><em x=\"2\"></em></section></section>");
}

#[test]
fn self_invoking_blueprint_hits_the_pass_limit() {
    let e = compile_source("<loop></loop>", &store("<loop><loop></loop></loop>")).unwrap_err();
    assert!(matches!(e.kind, trace::ErrorKind::Compilation));
    assert_eq!(e.reason, "reached recursion limit expanding blueprints");
}

#[test]
fn self_invoking_empty_blueprint_hits_the_pass_limit() {
    let e = compile_source("<again a=\"1\"/>", &store("<again><again b=\"@a\"/></again>")).unwrap_err();
    assert_eq!(e.reason, "reached recursion limit expanding blueprints");
}

#[test]
fn growing_expansion_hits_the_size_limit_first() {
    let e = compile_source("<dup></dup>", &store("<dup><dup></dup><dup></dup></dup>")).unwrap_err();
    assert!(matches!(e.kind, trace::ErrorKind::Memory));
    assert_eq!(e.reason, "reached memory limit expanding blueprints");
}

#[test]
fn compiling_a_fixed_point_changes_nothing() {
    let st = store(CARD);
    let first = compile_source("<main><card title=\"T\"><b>x</b></card></main>", &st).unwrap();
    let (again, n) = compilation_pass(&first, &st).unwrap();
    assert_eq!(n, 0);
    assert_eq!(again, first);
    let second = compile_tokens(first.clone(), &st).unwrap();
    assert_eq!(second, first);
    let relexed = compile_source(&serialize(&first), &st).unwrap();
    assert_eq!(relexed, first);
}

#[test]
fn document_without_blueprints_is_unchanged() {
    let doc = "<!DOCTYPE html><html><body class=\"x\"><p>Hi</p><br/></body></html>";
    let out = compile_text("", doc);
    assert_eq!(out, doc);
}

#[test]
fn later_definition_of_a_name_wins() {
    let st = store("<x><a></a></x><x><b></b></x>");
    assert_eq!(st.len(), 1);
    let out = serialize(&compile_source("<x></x>", &st).unwrap());
    assert_eq!(out, "<b></b>");
}

#[test]
fn extend_merges_stores() {
    let mut st = store("<x><a></a></x><y><c></c></y>");
    st.extend(store("<x><b></b></x><z><d/></z>"));
    assert_eq!(st.len(), 3);
    assert_eq!(serialize(&compile_source("<x></x><y></y><z></z>", &st).unwrap()), "<b></b><c></c><d/>");
}

#[test]
fn store_skips_comments_and_sets_aside_other_roots() {
    let (st, skipped) = parse_templates("<!-- c --><a><i></i></a>stray text<br/><b></b>").unwrap();
    assert_eq!(st.len(), 2);
    assert_eq!(skipped.len(), 2);
    assert_eq!(skipped[0].serialize(), "stray text");
    assert_eq!(skipped[1].serialize(), "<br/>");
    assert!(st.get(&"a".to_string()).is_some());
    assert!(st.get(&"c".to_string()).is_none());
}

#[test]
fn store_reports_lexer_errors() {
    let e = parse_templates("<a>").err().unwrap();
    assert_eq!(e.reason, "Unbalanced open and close tags");
}

#[test]
fn span_extraction_takes_the_balanced_body() {
    let ts = parse_html("<a k=\"v\"><b><br/></b><c></c></a><d></d>").unwrap();
    let (e, next) = parse_element(&ts, 0).unwrap();
    assert_eq!(next, 7);
    assert_eq!(e.attributes, vec![("k".to_string(), "v".to_string())]);
    assert_eq!(serialize(&e.child_span), "<b><br/></b><c></c>");
    let (e, next) = parse_element(&ts, 2).unwrap();
    assert_eq!(next, 3);
    assert!(e.child_span.is_empty());
    assert!(parse_element(&ts, 3).is_none());
    let cut = ts[0..3].to_vec();
    assert!(parse_element(&cut, 0).is_none());
}

#[test]
fn unbalanced_invocation_reports_its_name() {
    let st = store("<w><p></p></w>");
    let tokens = vec![HtmlElement::OpenTag { name: "w".to_string(), attributes: vec![], is_empty: false }];
    let e = compilation_pass(&tokens, &st).unwrap_err();
    assert!(matches!(e.kind, trace::ErrorKind::Unknown));
    assert_eq!(e.reason, "Missing expected value");
    assert_eq!(e.backtrace, vec!["at blueprint usage w".to_string()]);
}

#[test]
fn expansion_copies_other_tokens_and_keeps_literal_attributes() {
    let def = Element {
        attributes: vec![],
        child_span: parse_html("<p a=\"lit\" b=\"@x\" c=\"@y\">t<!--c--><@children/><@code>k</@code></p>").unwrap(),
    };
    let call = Element {
        attributes: vec![("x".to_string(), "X".to_string())],
        child_span: parse_html("<i></i>").unwrap(),
    };
    let mut out = vec![HtmlElement::DocType];
    expand_template(&call, &def, &mut out);
    assert_eq!(serialize(&out), "<!DOCTYPE html><p a=\"lit\" b=\"X\">t<!----><i></i><!-- --></p>");
}

#[test]
fn serializer_renders_each_kind() {
    let ts = parse_html("<!doctype html><a href=\"x\" on>t</a><br><script>s</script><style k=\"v\">c</style>").unwrap();
    assert_eq!(
        serialize(&ts),
        "<!DOCTYPE html><a href=\"x\" on>t</a><br/><script>\ns\n</script><style k=\"v\">\nc\n</style>"
    );
    assert_eq!(serialize_mini(&ts), serialize(&ts));
}

#[test]
fn directives_take_the_text_produced_for_them() {
    let ts = parse_html("<p><@one></@one><@two></@two><@three></@three></p>").unwrap();
    let produced = vec![Some("[1]".to_string()), None];
    assert_eq!(serialize_with(&ts, &produced), "<p>[1]<!-- --><!-- --></p>");
    assert_eq!(serialize(&ts), "<p><!-- --><!-- --><!-- --></p>");
}

#[test]
fn unbalanced_definition_reports_its_name() {
    let tokens = vec![
        HtmlElement::Comment("c".to_string()),
        HtmlElement::OpenTag { name: "def".to_string(), attributes: vec![], is_empty: false },
        HtmlElement::Text("x".to_string()),
    ];
    let e = collect_templates(&tokens).err().unwrap();
    assert!(matches!(e.kind, trace::ErrorKind::Unknown));
    assert_eq!(e.reason, "Missing expected value");
    assert_eq!(e.backtrace, vec!["at blueprint definition def".to_string()]);
}
