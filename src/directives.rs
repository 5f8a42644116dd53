//! The built-in directives: what each one asks of the outside world, and the
//! text it makes from what comes back. Reading files and highlighting code
//! happen outside the library.

use vstd::prelude::*;
use vstd::string::StringExecFns;
use crate::assoc::{assoc_get, find_key, keys_of, lemma_key_index_bounds};
use crate::parse::{lemma_attrs_view, str_is, AttrModel, Attributes};
use crate::text::{chars_of, is_whitespace, is_ws, push_char, string_of};

verus! {

// ---------------------------------------------------------------------------
// Trimming and lines, as `str::trim` and `str::lines` give them.

/// `s` without leading whitespace.
pub open spec fn trim_start_spec(s: Seq<char>) -> Seq<char>
    decreases s.len(),
{
    if s.len() > 0 && is_ws(s[0]) {
        trim_start_spec(s.drop_first())
    } else {
        s
    }
}

/// `s` without trailing whitespace.
pub open spec fn trim_end_spec(s: Seq<char>) -> Seq<char>
    decreases s.len(),
{
    if s.len() > 0 && is_ws(s.last()) {
        trim_end_spec(s.drop_last())
    } else {
        s
    }
}

/// `s` without leading and trailing whitespace.
pub open spec fn trim_spec(s: Seq<char>) -> Seq<char> {
    trim_end_spec(trim_start_spec(s))
}

proof fn lemma_trim_start_from(s: Seq<char>, i: int)
    requires
        0 <= i <= s.len(),
        forall|k: int| 0 <= k < i ==> is_ws(#[trigger] s[k]),
    ensures
        trim_start_spec(s) == trim_start_spec(s.subrange(i, s.len() as int)),
    decreases i,
{
    if i > 0 {
        assert(s.drop_first().subrange(i - 1, s.drop_first().len() as int) =~= s.subrange(
            i,
            s.len() as int,
        ));
        lemma_trim_start_from(s.drop_first(), i - 1);
    } else {
        assert(s.subrange(0, s.len() as int) =~= s);
    }
}

proof fn lemma_trim_end_to(s: Seq<char>, j: int)
    requires
        0 <= j <= s.len(),
        forall|k: int| j <= k < s.len() ==> is_ws(#[trigger] s[k]),
    ensures
        trim_end_spec(s) == trim_end_spec(s.subrange(0, j)),
    decreases s.len() - j,
{
    if j < s.len() {
        assert(s.drop_last().subrange(0, j) =~= s.subrange(0, j));
        lemma_trim_end_to(s.drop_last(), j);
    } else {
        assert(s.subrange(0, s.len() as int) =~= s);
    }
}

/// `s` without leading and trailing whitespace.
pub fn trim(s: &String) -> (r: String)
    ensures
        r@ == trim_spec(s@),
{
    let c = chars_of(s.as_str());
    let mut a: usize = 0;
    while a < c.len() && is_whitespace(c[a])
        invariant
            a <= c@.len(),
            forall|k: int| 0 <= k < a ==> is_ws(#[trigger] c@[k]),
        decreases c@.len() - a,
    {
        a = a + 1;
    }
    proof {
        lemma_trim_start_from(c@, a as int);
    }
    let ghost mid = c@.subrange(a as int, c@.len() as int);
    assert(trim_start_spec(mid) == mid);
    let mut b: usize = c.len();
    while b > a && is_whitespace(c[b - 1])
        invariant
            a <= b <= c@.len(),
            forall|k: int| b <= k < c@.len() ==> is_ws(#[trigger] c@[k]),
        decreases b - a,
    {
        b = b - 1;
    }
    proof {
        lemma_trim_end_to(mid, b - a);
        assert(mid.subrange(0, b - a) =~= c@.subrange(a as int, b as int));
    }
    string_of(&c, a, b)
}

/// The lines of `s` from position `i`: split at each `\n`, a `\r` right
/// before it removed, and no empty line after a final `\n`.
pub open spec fn lines_from(s: Seq<char>, i: int) -> Seq<Seq<char>>
    decreases s.len() - i,
    via lines_from_decreases
{
    if i < 0 || i >= s.len() {
        Seq::empty()
    } else {
        let e = crate::parse::scan(s, i, crate::parse::CharClass::Not('\n'));
        if e >= s.len() {
            seq![s.subrange(i, e)]
        } else if e > i && s[e - 1] == '\r' {
            seq![s.subrange(i, e - 1)] + lines_from(s, e + 1)
        } else {
            seq![s.subrange(i, e)] + lines_from(s, e + 1)
        }
    }
}

#[via_fn]
proof fn lines_from_decreases(s: Seq<char>, i: int) {
    if 0 <= i < s.len() {
        crate::parse::lemma_scan(s, i, crate::parse::CharClass::Not('\n'));
    }
}

/// The lines of `s`, as `str::lines` gives them.
pub open spec fn lines_spec(s: Seq<char>) -> Seq<Seq<char>> {
    lines_from(s, 0)
}

/// The number of whitespace characters that `line` starts with.
pub open spec fn indent(line: Seq<char>) -> nat {
    (line.len() - trim_start_spec(line).len()) as nat
}

/// The smallest indent of `lines`, or 0 when there are none.
pub open spec fn min_indent(lines: Seq<Seq<char>>) -> nat
    decreases lines.len(),
{
    if lines.len() == 0 {
        0
    } else if lines.len() == 1 {
        indent(lines[0])
    } else {
        let rest = min_indent(lines.drop_first());
        if indent(lines[0]) <= rest {
            indent(lines[0])
        } else {
            rest
        }
    }
}

/// `line` without its first `k` spaces, wherever they stand.
pub open spec fn drop_spaces(line: Seq<char>, k: nat) -> Seq<char>
    decreases line.len(),
{
    if line.len() == 0 || k == 0 {
        line
    } else if line[0] == ' ' {
        drop_spaces(line.drop_first(), (k - 1) as nat)
    } else {
        seq![line[0]] + drop_spaces(line.drop_first(), k)
    }
}

/// Each line with its first `k` spaces removed, and a `\n` after it.
pub open spec fn join_dedented(lines: Seq<Seq<char>>, k: nat) -> Seq<char>
    decreases lines.len(),
{
    if lines.len() == 0 {
        Seq::empty()
    } else {
        drop_spaces(lines[0], k) + seq!['\n'] + join_dedented(lines.drop_first(), k)
    }
}

/// The code of a code directive with the common indentation taken out:
/// the smallest indent over the lines of the trimmed code is removed, as
/// spaces, from every line.
pub open spec fn dedent_spec(code: Seq<char>) -> Seq<char> {
    join_dedented(lines_spec(code), min_indent(lines_spec(trim_spec(code))))
}

proof fn lemma_lines_step(s: Seq<char>, i: int)
    requires
        0 <= i < s.len(),
    ensures
        crate::parse::scan(s, i, crate::parse::CharClass::Not('\n')) >= i,
        crate::parse::scan(s, i, crate::parse::CharClass::Not('\n')) <= s.len(),
{
    crate::parse::lemma_scan(s, i, crate::parse::CharClass::Not('\n'));
}

/// The lines of `s`.
pub fn lines(s: &Vec<char>) -> (r: Vec<Vec<char>>)
    ensures
        r.deep_view() == lines_spec(s@),
{
    let mut out: Vec<Vec<char>> = Vec::new();
    let mut i: usize = 0;
    assert(out.deep_view() =~= Seq::<Seq<char>>::empty());
    while i < s.len()
        invariant
            i <= s@.len(),
            out.deep_view() + lines_from(s@, i as int) == lines_spec(s@),
        decreases s@.len() - i,
    {
        proof {
            lemma_lines_step(s@, i as int);
        }
        let mut e = i;
        while e < s.len() && s[e] != '\n'
            invariant
                i <= e <= s@.len(),
                crate::parse::scan(s@, i as int, crate::parse::CharClass::Not('\n'))
                    == crate::parse::scan(s@, e as int, crate::parse::CharClass::Not('\n')),
            decreases s@.len() - e,
        {
            e = e + 1;
        }
        let end = if e < s.len() && e > i && s[e - 1] == '\r' {
            e - 1
        } else {
            e
        };
        let mut line: Vec<char> = Vec::new();
        let mut k = i;
        while k < end
            invariant
                i <= k <= end <= s@.len(),
                line@ == s@.subrange(i as int, k as int),
            decreases end - k,
        {
            line.push(s[k]);
            assert(s@.subrange(i as int, k + 1) =~= s@.subrange(i as int, k as int).push(s@[k as int]));
            k = k + 1;
        }
        let ghost before = out.deep_view();
        assert(line.deep_view() =~= line@);
        out.push(line);
        proof {
            assert(out.deep_view() =~= before.push(s@.subrange(i as int, end as int)));
            if e >= s.len() {
                assert(lines_from(s@, e + 1) =~= Seq::<Seq<char>>::empty());
            }
            assert(out.deep_view() + lines_from(s@, e + 1) =~= before + lines_from(s@, i as int));
        }
        if e >= s.len() {
            i = s.len();
        } else {
            i = e + 1;
        }
    }
    assert(out.deep_view() + Seq::<Seq<char>>::empty() =~= out.deep_view());
    out
}

fn indent_of(line: &Vec<char>) -> (r: usize)
    ensures
        r == indent(line@),
{
    let mut a: usize = 0;
    while a < line.len() && is_whitespace(line[a])
        invariant
            a <= line@.len(),
            forall|k: int| 0 <= k < a ==> is_ws(#[trigger] line@[k]),
        decreases line@.len() - a,
    {
        a = a + 1;
    }
    proof {
        lemma_trim_start_from(line@, a as int);
        let rest = line@.subrange(a as int, line@.len() as int);
        assert(trim_start_spec(rest) == rest);
    }
    a
}

/// Appends `line` without its first `k` spaces.
fn push_dedented(out: &mut String, line: &Vec<char>, k: usize)
    ensures
        final(out)@ == old(out)@ + drop_spaces(line@, k as nat),
{
    let mut left = k;
    let mut j: usize = 0;
    assert(line@.subrange(0, line@.len() as int) =~= line@);
    while j < line.len()
        invariant
            j <= line@.len(),
            old(out)@ + drop_spaces(line@, k as nat) == out@ + drop_spaces(
                line@.subrange(j as int, line@.len() as int),
                left as nat,
            ),
        decreases line@.len() - j,
    {
        let ghost rest = line@.subrange(j as int, line@.len() as int);
        assert(rest.drop_first() =~= line@.subrange(j + 1, line@.len() as int));
        if left == 0 {
            assert(out@ + rest == out@.push(line@[j as int]) + rest.drop_first());
            push_char(out, line[j]);
        } else if line[j] == ' ' {
            left = left - 1;
        } else {
            assert(out@ + (seq![rest[0]] + drop_spaces(rest.drop_first(), left as nat)) =~= out@.push(
                line@[j as int],
            ) + drop_spaces(rest.drop_first(), left as nat));
            push_char(out, line[j]);
        }
        j = j + 1;
    }
    assert(out@ + drop_spaces(Seq::<char>::empty(), left as nat) =~= out@);
}

/// The code of a code directive with the common indentation taken out.
pub fn dedent(code: &String) -> (r: String)
    ensures
        r@ == dedent_spec(code@),
{
    let trimmed = trim(code);
    let tc = chars_of(trimmed.as_str());
    let tl = lines(&tc);
    let ghost tls = tl.deep_view();
    let mut k: usize = 0;
    if tl.len() > 0 {
        assert(tl@[tl@.len() - 1]@ == tls[tls.len() - 1]);
        k = indent_of(&tl[tl.len() - 1]);
        let mut j: usize = tl.len() - 1;
        assert(tls.subrange(j as int, tls.len() as int) =~= seq![tls[j as int]]);
        while j > 0
            invariant
                tls == tl.deep_view(),
                j < tls.len(),
                k == min_indent(tls.subrange(j as int, tls.len() as int)),
            decreases j,
        {
            j = j - 1;
            assert(tl@[j as int]@ == tls[j as int]);
            let d = indent_of(&tl[j]);
            assert(tls.subrange(j as int, tls.len() as int).drop_first() =~= tls.subrange(
                j + 1,
                tls.len() as int,
            ));
            if d <= k {
                k = d;
            }
        }
        assert(tls.subrange(0, tls.len() as int) =~= tls);
    }
    let cc = chars_of(code.as_str());
    let cl = lines(&cc);
    let ghost cls = cl.deep_view();
    let mut out = String::new();
    let mut i: usize = 0;
    assert(cls.subrange(0, cls.len() as int) =~= cls);
    while i < cl.len()
        invariant
            cls == cl.deep_view(),
            i <= cls.len(),
            out@ + join_dedented(cls.subrange(i as int, cls.len() as int), k as nat) == join_dedented(
                cls,
                k as nat,
            ),
        decreases cls.len() - i,
    {
        let ghost rest = cls.subrange(i as int, cls.len() as int);
        assert(rest.drop_first() =~= cls.subrange(i + 1, cls.len() as int));
        assert(cl@[i as int]@ == cls[i as int]);
        let ghost o0 = out@;
        push_dedented(&mut out, &cl[i], k);
        push_char(&mut out, '\n');
        assert(o0 + join_dedented(rest, k as nat) =~= out@ + join_dedented(rest.drop_first(), k as nat));
        i = i + 1;
    }
    assert(out@ + join_dedented(Seq::<Seq<char>>::empty(), k as nat) =~= out@);
    out
}

// ---------------------------------------------------------------------------
// The directive table.

/// The languages that the code directive highlights.
#[derive(Clone, Copy, Debug, PartialEq, Eq, Structural)]
pub enum CodeLanguage {
    Rust,
    Python,
    Javascript,
    Html,
    Css,
    Toml,
}

/// The language named `name`, if the code directive knows it.
pub open spec fn language_of(name: Seq<char>) -> Option<CodeLanguage> {
    if name == "rust"@ {
        Some(CodeLanguage::Rust)
    } else if name == "python"@ {
        Some(CodeLanguage::Python)
    } else if name == "javascript"@ {
        Some(CodeLanguage::Javascript)
    } else if name == "html"@ {
        Some(CodeLanguage::Html)
    } else if name == "css"@ {
        Some(CodeLanguage::Css)
    } else if name == "toml"@ {
        Some(CodeLanguage::Toml)
    } else {
        None
    }
}

/// The language named `lang`, if the code directive knows it.
pub fn parse_language(lang: &String) -> (r: Option<CodeLanguage>)
    ensures
        r == language_of(lang@),
{
    if str_is(lang, "rust") {
        Some(CodeLanguage::Rust)
    } else if str_is(lang, "python") {
        Some(CodeLanguage::Python)
    } else if str_is(lang, "javascript") {
        Some(CodeLanguage::Javascript)
    } else if str_is(lang, "html") {
        Some(CodeLanguage::Html)
    } else if str_is(lang, "css") {
        Some(CodeLanguage::Css)
    } else if str_is(lang, "toml") {
        Some(CodeLanguage::Toml)
    } else {
        None
    }
}

/// What a directive needs before its text can be made.
pub enum DirectiveRequest {
    /// The file at this path, inlined as a style block.
    Style(String),
    /// The file at this path, inlined as a script block.
    Script(String),
    /// This code, highlighted in this language.
    Code(CodeLanguage, String),
    /// Nothing: the directive renders as the inert placeholder.
    Inert,
}

/// The value of attribute `key`.
pub fn attribute(attributes: &Attributes, key: &str) -> (r: Option<String>)
    ensures
        match assoc_get(attributes.deep_view(), key@) {
            Some(v) => r matches Some(s) && s@ == v,
            None => r is None,
        },
{
    proof {
        lemma_attrs_view(*attributes);
    }
    let k = String::from_str(key);
    proof {
        lemma_key_index_bounds(keys_of(attributes.deep_view()), k@, 0);
    }
    match find_key(attributes, &k) {
        Some(j) => Some(attributes[j].1.clone()),
        None => None,
    }
}

/// What the directive `name` with `attributes` and raw `contents` needs:
/// `style` and `script` need the file named by `href`; `code` needs its
/// contents, dedented, highlighted in the language named by `lang`. A
/// directive that is unknown, or lacks what it needs, is inert.
pub open spec fn request_matches(r: DirectiveRequest, name: Seq<char>, attributes: AttrModel, contents: Seq<char>) -> bool {
    if name == "style"@ {
        match assoc_get(attributes, "href"@) {
            Some(h) => r matches DirectiveRequest::Style(p) && p@ == h,
            None => r is Inert,
        }
    } else if name == "script"@ {
        match assoc_get(attributes, "href"@) {
            Some(h) => r matches DirectiveRequest::Script(p) && p@ == h,
            None => r is Inert,
        }
    } else if name == "code"@ {
        match assoc_get(attributes, "lang"@) {
            Some(l) => match language_of(l) {
                Some(lang) => r matches DirectiveRequest::Code(g, c) && g == lang && c@ == dedent_spec(contents),
                None => r is Inert,
            },
            None => r is Inert,
        }
    } else {
        r is Inert
    }
}

/// What the directive `name` with `attributes` and raw `contents` needs.
pub fn plan_directive(name: &String, attributes: &Attributes, contents: &String) -> (r: DirectiveRequest)
    ensures
        request_matches(r, name@, attributes.deep_view(), contents@),
{
    if str_is(name, "style") {
        match attribute(attributes, "href") {
            Some(h) => DirectiveRequest::Style(h),
            None => DirectiveRequest::Inert,
        }
    } else if str_is(name, "script") {
        match attribute(attributes, "href") {
            Some(h) => DirectiveRequest::Script(h),
            None => DirectiveRequest::Inert,
        }
    } else if str_is(name, "code") {
        match attribute(attributes, "lang") {
            Some(l) => match parse_language(&l) {
                Some(lang) => DirectiveRequest::Code(lang, dedent(contents)),
                None => DirectiveRequest::Inert,
            },
            None => DirectiveRequest::Inert,
        }
    } else {
        DirectiveRequest::Inert
    }
}

/// A style block holding the trimmed text of a file.
pub fn style_block(file: &String) -> (r: String)
    ensures
        r@ == "<style>\n"@ + trim_spec(file@) + "\n</style>"@,
{
    let mut t = String::from_str("<style>\n");
    let body = trim(file);
    t.append(body.as_str());
    t.append("\n</style>");
    t
}

/// A script block holding the trimmed text of a file.
pub fn script_block(file: &String) -> (r: String)
    ensures
        r@ == "<script>\n"@ + trim_spec(file@) + "\n</script>"@,
{
    let mut t = String::from_str("<script>\n");
    let body = trim(file);
    t.append(body.as_str());
    t.append("\n</script>");
    t
}

/// Highlighted code in its frame.
pub fn code_block(highlighted: &String) -> (r: String)
    ensures
        r@ == "<div class=\"code-block\">\n<pre><code>"@ + highlighted@ + "</code></pre>\n</div>"@,
{
    let mut t = String::from_str("<div class=\"code-block\">\n<pre><code>");
    t.append(highlighted.as_str());
    t.append("</code></pre>\n</div>");
    t
}

// ---------------------------------------------------------------------------
// Highlighted code.

/// What a character becomes in escaped HTML.
pub open spec fn escape_char(c: char) -> Seq<char> {
    if c == '<' {
        "&lt;"@
    } else if c == '>' {
        "&gt;"@
    } else if c == '&' {
        "&amp;"@
    } else if c == '"' {
        "&quot;"@
    } else if c == '\'' {
        "&#x27;"@
    } else if c == '/' {
        "&#x2f;"@
    } else {
        seq![c]
    }
}

/// `s` with each of `< > & " ' /` replaced by its character reference.
pub open spec fn escape_spec(s: Seq<char>) -> Seq<char>
    decreases s.len(),
{
    if s.len() == 0 {
        Seq::empty()
    } else {
        escape_spec(s.drop_last()) + escape_char(s.last())
    }
}

/// Relies on `v_htmlescape::escape`: its table replaces `<`, `>`, `&`, `"`,
/// `'` and `/` by `&lt;`, `&gt;`, `&amp;`, `&quot;`, `&#x27;` and `&#x2f;`,
/// and keeps every other character.
#[verifier::external_body]
fn escape_html(s: &str) -> (r: String)
    ensures
        r@ == escape_spec(s@),
{
    v_htmlescape::escape(s).to_string()
}

/// One event of a highlighter.
pub enum HighlightPiece {
    /// A span of the source.
    Source(String),
    /// The start of a highlighted region with this class.
    Start(String),
    /// The end of the innermost highlighted region.
    End,
}

/// The markup for one highlighter event: source text escaped, a region as a
/// `span` with its class.
pub fn render_piece(p: &HighlightPiece) -> (r: String)
    ensures
        match p {
            HighlightPiece::Source(t) => r@ == escape_spec(t@),
            HighlightPiece::Start(c) => r@ == "<span class=\""@ + c@ + "\">"@,
            HighlightPiece::End => r@ == "</span>"@,
        },
{
    match p {
        HighlightPiece::Source(t) => escape_html(t.as_str()),
        HighlightPiece::Start(c) => {
            let mut t = String::from_str("<span class=\"");
            t.append(c.as_str());
            t.append("\">");
            t
        },
        HighlightPiece::End => String::from_str("</span>"),
    }
}

} // verus!
