//! The lexer: source text to a flat sequence of tokens, with tag balance
//! checked on the way and a ceiling on the number of tokens.

use vstd::prelude::*;
use vstd::string::StringExecFns;
use crate::assoc::{assoc_set, find_key, keys_of, string_keys};
use crate::text::{
    all_ws, is_name, is_name_char, is_whitespace, is_ws, matches_at, matches_at_ci, starts_with_at,
    starts_with_at_ci, string_of, decimal, push_decimal,
};

verus! {

/// Attribute names and their values. A bare attribute has an empty value.
pub type Attributes = Vec<(String, String)>;

/// The model of an attribute list.
pub type AttrModel = Seq<(Seq<char>, Seq<char>)>;

/// The largest number of tokens a document may hold.
pub const LEXEME_MEMORY_LIMIT: usize = 65535;

/// The mathematical model of a token.
pub enum Token {
    DocType,
    Comment(Seq<char>),
    OpenTag { name: Seq<char>, attributes: AttrModel, is_empty: bool },
    CloseTag { name: Seq<char> },
    Text(Seq<char>),
    Script { attributes: AttrModel, contents: Seq<char> },
    Style { attributes: AttrModel, contents: Seq<char> },
    Directive { name: Seq<char>, attributes: AttrModel, contents: Seq<char> },
}

/// One token of markup.
#[derive(Clone, Debug, PartialEq, Eq)]
pub enum HtmlElement {
    /// The `<!DOCTYPE html>` preamble.
    DocType,
    /// The text inside a `<!-- comment -->`.
    Comment(String),
    /// An opening tag. `is_empty` holds for `<tag/>` and for void elements,
    /// which never take a closing tag.
    OpenTag { name: String, attributes: Attributes, is_empty: bool },
    /// A closing tag.
    CloseTag { name: String },
    /// Text between tags that is not all whitespace.
    Text(String),
    /// A `<script>` block and its raw contents.
    Script { attributes: Attributes, contents: String },
    /// A `<style>` block and its raw contents.
    Style { attributes: Attributes, contents: String },
    /// A `<@name>` block, rendered by a directive at serialization time.
    Directive { name: String, attributes: Attributes, contents: String },
}

impl View for HtmlElement {
    type V = Token;

    open spec fn view(&self) -> Token {
        match self {
            HtmlElement::DocType => Token::DocType,
            HtmlElement::Comment(c) => Token::Comment(c@),
            HtmlElement::OpenTag { name, attributes, is_empty } => Token::OpenTag {
                name: name@,
                attributes: attributes.deep_view(),
                is_empty: *is_empty,
            },
            HtmlElement::CloseTag { name } => Token::CloseTag { name: name@ },
            HtmlElement::Text(t) => Token::Text(t@),
            HtmlElement::Script { attributes, contents } => Token::Script {
                attributes: attributes.deep_view(),
                contents: contents@,
            },
            HtmlElement::Style { attributes, contents } => Token::Style {
                attributes: attributes.deep_view(),
                contents: contents@,
            },
            HtmlElement::Directive { name, attributes, contents } => Token::Directive {
                name: name@,
                attributes: attributes.deep_view(),
                contents: contents@,
            },
        }
    }
}

impl DeepView for HtmlElement {
    type V = Token;

    open spec fn deep_view(&self) -> Token {
        self@
    }
}

/// What the lexer can fail on.
#[derive(Clone, Copy, Debug, PartialEq, Eq, Structural)]
pub enum ErrorKind {
    /// Nothing that the language allows starts here.
    Illegal,
    /// A closing tag does not match the innermost open tag, or a tag is
    /// never closed.
    UnbalancedTags,
    /// The document holds more tokens than the ceiling allows.
    MemoryLimit,
}

/// A lexer failure and where it happened: a character offset and its
/// 1-based line and column.
#[derive(Clone, Debug)]
pub struct Error {
    pub kind: ErrorKind,
    pub char_index: usize,
    pub row: usize,
    pub column: usize,
}

// ---------------------------------------------------------------------------
// The grammar, as spec functions over the characters `s` and a position.

/// A run of characters that a scan moves over.
#[derive(Clone, Copy)]
pub enum CharClass {
    Space,
    Name,
    Not(char),
}

pub open spec fn in_class(cl: CharClass, c: char) -> bool {
    match cl {
        CharClass::Space => is_ws(c),
        CharClass::Name => is_name_char(c),
        CharClass::Not(d) => c != d,
    }
}

/// The first position at or after `i` whose character is outside `cl`, or
/// the end of `s`.
pub open spec fn scan(s: Seq<char>, i: int, cl: CharClass) -> int
    decreases s.len() - i,
{
    if i < 0 || i >= s.len() {
        i
    } else if in_class(cl, s[i]) {
        scan(s, i + 1, cl)
    } else {
        i
    }
}

/// The first position at or after `p` where `lit` occurs.
pub open spec fn find_lit(s: Seq<char>, p: int, lit: Seq<char>) -> Option<int>
    decreases s.len() + 1 - p,
{
    if p < 0 || p + lit.len() > s.len() {
        None
    } else if matches_at(s, p, lit) {
        Some(p)
    } else {
        find_lit(s, p + 1, lit)
    }
}

/// Names of the elements that never take a closing tag.
pub open spec fn is_void(name: Seq<char>) -> bool {
    name == "area"@ || name == "base"@ || name == "br"@ || name == "col"@ || name == "command"@
        || name == "embed"@ || name == "hr"@ || name == "img"@ || name == "input"@ || name
        == "keygen"@ || name == "link"@ || name == "meta"@ || name == "param"@ || name
        == "source"@ || name == "track"@ || name == "wbr"@
}

/// `<!-- ... -->`
pub open spec fn comment_at(s: Seq<char>, i: int) -> Option<(Token, int)> {
    if !matches_at(s, i, "<!--"@) {
        None
    } else {
        match find_lit(s, i + 4, "-->"@) {
            Some(p) => Some((Token::Comment(s.subrange(i + 4, p)), p + 3)),
            None => None,
        }
    }
}

/// `<!doctype html>`, ignoring ASCII case, with whitespace after `doctype`.
pub open spec fn doctype_at(s: Seq<char>, i: int) -> Option<(Token, int)> {
    if !matches_at_ci(s, i, "<!doctype"@) {
        None
    } else {
        let a = scan(s, i + 9, CharClass::Space);
        if a == i + 9 || !matches_at_ci(s, a, "html"@) {
            None
        } else {
            let b = scan(s, a + 4, CharClass::Space);
            if b < s.len() && s[b] == '>' {
                Some((Token::DocType, b + 1))
            } else {
                None
            }
        }
    }
}

/// A value between two `q` characters, and the position after the second.
pub open spec fn delimited_at(s: Seq<char>, b: int, q: char) -> Option<(Seq<char>, int)> {
    if !(0 <= b < s.len() && s[b] == q) {
        None
    } else {
        let e = scan(s, b + 1, CharClass::Not(q));
        if e < s.len() && s[e] == q {
            Some((s.subrange(b + 1, e), e + 1))
        } else {
            None
        }
    }
}

/// `= value`, the value double-quoted, single-quoted or a run of name
/// characters.
pub open spec fn value_at(s: Seq<char>, p: int) -> Option<(Seq<char>, int)> {
    let a = scan(s, p, CharClass::Space);
    if !(0 <= a < s.len() && s[a] == '=') {
        None
    } else {
        let b = scan(s, a + 1, CharClass::Space);
        match delimited_at(s, b, '"') {
            Some(r) => Some(r),
            None => match delimited_at(s, b, '\'') {
                Some(r) => Some(r),
                None => {
                    let e = scan(s, b, CharClass::Name);
                    Some((s.subrange(b, e), e))
                },
            },
        }
    }
}

/// Whitespace, a key, and an optional value.
pub open spec fn attribute_at(s: Seq<char>, p: int) -> Option<(Seq<char>, Seq<char>, int)> {
    let w = scan(s, p, CharClass::Space);
    let ke = scan(s, w, CharClass::Name);
    if w == p || ke == w {
        None
    } else {
        match value_at(s, ke) {
            Some((v, e)) => Some((s.subrange(w, ke), v, e)),
            None => Some((s.subrange(w, ke), Seq::empty(), ke)),
        }
    }
}

/// All the attributes from `p` on, added to `acc`; a later value for a key
/// replaces an earlier one.
pub open spec fn attrs_from(s: Seq<char>, p: int, acc: AttrModel) -> (AttrModel, int)
    decreases s.len() - p,
    via attrs_from_decreases
{
    if p < 0 {
        (acc, p)
    } else {
        match attribute_at(s, p) {
            Some((k, v, e)) => attrs_from(s, e, assoc_set(acc, k, v)),
            None => (acc, p),
        }
    }
}

#[via_fn]
proof fn attrs_from_decreases(s: Seq<char>, p: int, acc: AttrModel) {
    if p >= 0 {
        lemma_attribute_at(s, p);
    }
}

/// An opening tag: its name, attributes, whether it is empty, and the
/// position after it.
pub open spec fn open_tag_at(s: Seq<char>, i: int) -> Option<(Seq<char>, AttrModel, bool, int)> {
    if !(0 <= i < s.len() && s[i] == '<') {
        None
    } else {
        let ne = scan(s, i + 1, CharClass::Name);
        let name = s.subrange(i + 1, ne);
        let ap = attrs_from(s, ne, Seq::empty());
        let w = scan(s, ap.1, CharClass::Space);
        let slash = w < s.len() && s[w] == '/';
        let q = if slash {
            w + 1
        } else {
            w
        };
        if q < s.len() && s[q] == '>' {
            Some((name, ap.0, slash || is_void(name), q + 1))
        } else {
            None
        }
    }
}

/// A closing tag: its name and the position after it.
pub open spec fn close_tag_at(s: Seq<char>, i: int) -> Option<(Seq<char>, int)> {
    if !matches_at(s, i, "</"@) {
        None
    } else {
        let ne = scan(s, i + 2, CharClass::Name);
        let w = scan(s, ne, CharClass::Space);
        if ne > i + 2 && w < s.len() && s[w] == '>' {
            Some((s.subrange(i + 2, ne), w + 1))
        } else {
            None
        }
    }
}

/// Whether a closing tag named `close` ends a raw block opened as `open`.
/// A directive `<@name>` may be closed as `</@name>` or as `</name>`.
pub open spec fn closes(open: Seq<char>, close: Seq<char>) -> bool {
    close == open || (open.len() > 0 && open[0] == '@' && close == open.drop_first())
}

/// The first closing tag at or after `p` that ends a raw block opened as
/// `name`: where it starts and the position after it.
pub open spec fn raw_end(s: Seq<char>, p: int, name: Seq<char>) -> Option<(int, int)>
    decreases s.len() - p,
{
    if p < 0 || p >= s.len() {
        None
    } else {
        match close_tag_at(s, p) {
            Some((c, q)) => if closes(name, c) {
                Some((p, q))
            } else {
                raw_end(s, p + 1, name)
            },
            None => raw_end(s, p + 1, name),
        }
    }
}

/// An opening tag and the raw text up to its closing tag: the name,
/// attributes, contents and the position after the closing tag.
pub open spec fn raw_at(s: Seq<char>, i: int) -> Option<(Seq<char>, AttrModel, Seq<char>, int)> {
    match open_tag_at(s, i) {
        None => None,
        Some((name, attrs, empty, j)) => if empty {
            Some((name, attrs, Seq::empty(), j))
        } else {
            match raw_end(s, j, name) {
                Some((p, q)) => Some((name, attrs, s.subrange(j, p), q)),
                None => None,
            }
        },
    }
}

pub open spec fn style_at(s: Seq<char>, i: int) -> Option<(Token, int)> {
    match raw_at(s, i) {
        Some((name, attributes, contents, j)) => if name == "style"@ {
            Some((Token::Style { attributes, contents }, j))
        } else {
            None
        },
        None => None,
    }
}

pub open spec fn script_at(s: Seq<char>, i: int) -> Option<(Token, int)> {
    match raw_at(s, i) {
        Some((name, attributes, contents, j)) => if name == "script"@ {
            Some((Token::Script { attributes, contents }, j))
        } else {
            None
        },
        None => None,
    }
}

pub open spec fn directive_at(s: Seq<char>, i: int) -> Option<(Token, int)> {
    match raw_at(s, i) {
        Some((name, attributes, contents, j)) => if name.len() > 0 && name[0] == '@' {
            Some((Token::Directive { name: name.drop_first(), attributes, contents }, j))
        } else {
            None
        },
        None => None,
    }
}

pub open spec fn open_at(s: Seq<char>, i: int) -> Option<(Token, int)> {
    match open_tag_at(s, i) {
        Some((name, attributes, is_empty, j)) => Some((Token::OpenTag { name, attributes, is_empty }, j)),
        None => None,
    }
}

pub open spec fn close_at(s: Seq<char>, i: int) -> Option<(Token, int)> {
    match close_tag_at(s, i) {
        Some((name, j)) => Some((Token::CloseTag { name }, j)),
        None => None,
    }
}

/// What the lexer does at one position.
pub enum Step {
    /// Whitespace-only text up to the given position.
    Skip(int),
    /// A token, and the position after it.
    Emit(Token, int),
    /// Nothing can be read here.
    Fail,
}

pub open spec fn emit(r: Option<(Token, int)>) -> Step {
    match r {
        Some((t, j)) => Step::Emit(t, j),
        None => Step::Fail,
    }
}

/// One token at `i`, chosen by the characters found there, in this order:
/// comment, doctype, style, script, closing tag, directive, opening tag,
/// text.
pub open spec fn step(s: Seq<char>, i: int) -> Step {
    if matches_at(s, i, "<!--"@) {
        emit(comment_at(s, i))
    } else if matches_at(s, i, "<!"@) {
        emit(doctype_at(s, i))
    } else if matches_at(s, i, "<style"@) {
        emit(style_at(s, i))
    } else if matches_at(s, i, "<script"@) {
        emit(script_at(s, i))
    } else if matches_at(s, i, "</"@) {
        emit(close_at(s, i))
    } else if matches_at(s, i, "<@"@) {
        emit(directive_at(s, i))
    } else if s[i] == '<' {
        emit(open_at(s, i))
    } else {
        let j = scan(s, i, CharClass::Not('<'));
        if all_ws(s, i, j) {
            Step::Skip(j)
        } else {
            Step::Emit(Token::Text(s.subrange(i, j)), j)
        }
    }
}

/// The lexer from position `i`, with the tokens `out` read so far and the
/// names of the tags still open.
pub open spec fn lex_from(s: Seq<char>, i: int, out: Seq<Token>, stack: Seq<Seq<char>>) -> Result<
    Seq<Token>,
    (ErrorKind, int),
>
    decreases s.len() - i,
    via lex_from_decreases
{
    if i < 0 || i >= s.len() {
        if stack.len() == 0 {
            Ok(out)
        } else {
            Err((ErrorKind::UnbalancedTags, i))
        }
    } else {
        match step(s, i) {
            Step::Fail => Err((ErrorKind::Illegal, i)),
            Step::Skip(j) => lex_from(s, j, out, stack),
            Step::Emit(t, j) => if out.len() >= LEXEME_MEMORY_LIMIT {
                Err((ErrorKind::MemoryLimit, i))
            } else {
                match t {
                    Token::OpenTag { name, is_empty, .. } => if is_empty {
                        lex_from(s, j, out.push(t), stack)
                    } else {
                        lex_from(s, j, out.push(t), stack.push(name))
                    },
                    Token::CloseTag { name } => if stack.len() > 0 && stack.last() == name {
                        lex_from(s, j, out.push(t), stack.drop_last())
                    } else {
                        Err((ErrorKind::UnbalancedTags, i))
                    },
                    _ => lex_from(s, j, out.push(t), stack),
                }
            },
        }
    }
}

#[via_fn]
proof fn lex_from_decreases(s: Seq<char>, i: int, out: Seq<Token>, stack: Seq<Seq<char>>) {
    if 0 <= i < s.len() {
        lemma_step_advances(s, i);
    }
}

/// The tokens of `s`, or the kind and position of the first failure.
pub open spec fn lex_spec(s: Seq<char>) -> Result<Seq<Token>, (ErrorKind, int)> {
    lex_from(s, 0, Seq::empty(), Seq::empty())
}

/// 1-based line and column of the character at `idx`.
pub open spec fn row_col(s: Seq<char>, idx: int) -> (nat, nat)
    decreases idx,
{
    if idx <= 0 {
        (1, 1)
    } else {
        let rc = row_col(s, idx - 1);
        if s[idx - 1] == '\n' {
            (rc.0 + 1, 1)
        } else {
            (rc.0, rc.1 + 1)
        }
    }
}

// ---------------------------------------------------------------------------
// Facts about the grammar.

pub proof fn lemma_scan(s: Seq<char>, i: int, cl: CharClass)
    requires
        0 <= i <= s.len(),
    ensures
        i <= scan(s, i, cl) <= s.len(),
        forall|k: int| i <= k < scan(s, i, cl) ==> in_class(cl, #[trigger] s[k]),
        scan(s, i, cl) < s.len() ==> !in_class(cl, s[scan(s, i, cl)]),
    decreases s.len() - i,
{
    if i < s.len() && in_class(cl, s[i]) {
        lemma_scan(s, i + 1, cl);
    }
}

pub proof fn lemma_find_lit(s: Seq<char>, p: int, lit: Seq<char>)
    requires
        0 <= p,
    ensures
        find_lit(s, p, lit) matches Some(q) ==> p <= q && q + lit.len() <= s.len() && matches_at(
            s,
            q,
            lit,
        ),
    decreases s.len() + 1 - p,
{
    if p + lit.len() <= s.len() && !matches_at(s, p, lit) {
        lemma_find_lit(s, p + 1, lit);
    }
}

pub proof fn lemma_raw_end(s: Seq<char>, p: int, name: Seq<char>)
    requires
        0 <= p,
    ensures
        raw_end(s, p, name) matches Some((a, b)) ==> {
            &&& p <= a < b <= s.len()
            &&& close_tag_at(s, a) is Some
            &&& close_tag_at(s, a).unwrap().1 == b
            &&& closes(name, close_tag_at(s, a).unwrap().0)
        },
    decreases s.len() - p,
{
    if p < s.len() {
        lemma_close_tag_at(s, p);
        lemma_raw_end(s, p + 1, name);
    }
}

pub proof fn lemma_attribute_at(s: Seq<char>, p: int)
    requires
        0 <= p,
    ensures
        attribute_at(s, p) matches Some((k, v, e)) ==> p < e <= s.len(),
{
    if p <= s.len() {
        lemma_scan(s, p, CharClass::Space);
        let w = scan(s, p, CharClass::Space);
        lemma_scan(s, w, CharClass::Name);
        let ke = scan(s, w, CharClass::Name);
        let a = scan(s, ke, CharClass::Space);
        lemma_scan(s, ke, CharClass::Space);
        if 0 <= a < s.len() && s[a] == '=' {
            let b = scan(s, a + 1, CharClass::Space);
            lemma_scan(s, a + 1, CharClass::Space);
            lemma_scan(s, b, CharClass::Name);
            if 0 <= b < s.len() {
                lemma_scan(s, b + 1, CharClass::Not('"'));
                lemma_scan(s, b + 1, CharClass::Not('\''));
            }
        }
    }
}

pub proof fn lemma_attrs_from(s: Seq<char>, p: int, acc: AttrModel)
    requires
        0 <= p <= s.len(),
    ensures
        p <= attrs_from(s, p, acc).1 <= s.len(),
    decreases s.len() - p,
{
    lemma_attribute_at(s, p);
    if let Some((k, v, e)) = attribute_at(s, p) {
        lemma_attrs_from(s, e, assoc_set(acc, k, v));
    }
}

pub proof fn lemma_open_tag_at(s: Seq<char>, i: int)
    requires
        0 <= i,
    ensures
        open_tag_at(s, i) matches Some((n, a, e, j)) ==> i < j <= s.len(),
{
    if 0 <= i < s.len() && s[i] == '<' {
        lemma_scan(s, i + 1, CharClass::Name);
        let ne = scan(s, i + 1, CharClass::Name);
        lemma_attrs_from(s, ne, Seq::empty());
        lemma_scan(s, attrs_from(s, ne, Seq::empty()).1, CharClass::Space);
    }
}

pub proof fn lemma_close_tag_at(s: Seq<char>, i: int)
    requires
        0 <= i,
    ensures
        close_tag_at(s, i) matches Some((n, j)) ==> i < j <= s.len(),
{
    if i + 2 <= s.len() {
        lemma_scan(s, i + 2, CharClass::Name);
        lemma_scan(s, scan(s, i + 2, CharClass::Name), CharClass::Space);
    }
}

pub proof fn lemma_raw_at(s: Seq<char>, i: int)
    requires
        0 <= i,
    ensures
        raw_at(s, i) matches Some((n, a, c, j)) ==> i < j <= s.len(),
{
    lemma_open_tag_at(s, i);
    if let Some((name, attrs, empty, j)) = open_tag_at(s, i) {
        lemma_raw_end(s, j, name);
    }
}

pub proof fn lemma_step_advances(s: Seq<char>, i: int)
    requires
        0 <= i < s.len(),
    ensures
        step(s, i) matches Step::Skip(j) ==> i < j <= s.len(),
        step(s, i) matches Step::Emit(t, j) ==> i < j <= s.len(),
{
    reveal_strlit("<!--");
    reveal_strlit("-->");
    reveal_strlit("<!doctype");
    reveal_strlit("html");
    lemma_raw_at(s, i);
    lemma_open_tag_at(s, i);
    lemma_close_tag_at(s, i);
    if matches_at(s, i, "<!--"@) {
        lemma_find_lit(s, i + 4, "-->"@);
    }
    if i + 9 <= s.len() {
        lemma_scan(s, i + 9, CharClass::Space);
        let a = scan(s, i + 9, CharClass::Space);
        if a + 4 <= s.len() {
            lemma_scan(s, a + 4, CharClass::Space);
        }
    }
    lemma_scan(s, i, CharClass::Not('<'));
}

// ---------------------------------------------------------------------------
// The lexer.

/// The model of a parse result: a token and the position after it.
pub open spec fn parsed(r: Option<(HtmlElement, usize)>) -> Option<(Token, int)> {
    match r {
        Some((t, j)) => Some((t@, j as int)),
        None => None,
    }
}

pub proof fn lemma_string_keys(a: Seq<(String, String)>)
    ensures
        string_keys(a) =~= keys_of(a.map_values(|p: (String, String)| (p.0@, p.1@))),
{
}

pub proof fn lemma_attrs_view(a: Attributes)
    ensures
        a.deep_view() =~= a@.map_values(|p: (String, String)| (p.0@, p.1@)),
        string_keys(a@) =~= keys_of(a.deep_view()),
{
    lemma_string_keys(a@);
}

/// Binds `k` to `v` in `a`, replacing an earlier value of `k`.
pub fn attr_insert(a: &mut Attributes, k: String, v: String)
    ensures
        final(a).deep_view() == assoc_set(old(a).deep_view(), k@, v@),
{
    proof {
        lemma_attrs_view(*a);
    }
    match find_key(a, &k) {
        Some(j) => {
            let ghost before = a.deep_view();
            proof {
                crate::assoc::lemma_key_index_bounds(keys_of(before), k@, 0);
            }
            a[j] = (k, v);
            proof {
                lemma_attrs_view(*a);
                assert(a.deep_view() =~= before.update(j as int, (k@, v@)));
            }
        },
        None => {
            let ghost before = a.deep_view();
            a.push((k, v));
            proof {
                lemma_attrs_view(*a);
                assert(a.deep_view() =~= before.push((k@, v@)));
            }
        },
    }
}

/// A copy of `a`.
pub fn clone_attributes(a: &Attributes) -> (r: Attributes)
    ensures
        r.deep_view() == a.deep_view(),
{
    let mut r: Attributes = Vec::new();
    let mut j: usize = 0;
    while j < a.len()
        invariant
            j <= a@.len(),
            r@.len() == j,
            forall|m: int| 0 <= m < j ==> r@[m].0@ == a@[m].0@ && r@[m].1@ == a@[m].1@,
        decreases a@.len() - j,
    {
        r.push((a[j].0.clone(), a[j].1.clone()));
        j = j + 1;
    }
    proof {
        lemma_attrs_view(r);
        lemma_attrs_view(*a);
        assert(r.deep_view() =~= a.deep_view());
    }
    r
}

impl HtmlElement {
    /// A copy of this token.
    pub fn cloned(&self) -> (r: HtmlElement)
        ensures
            r@ == self@,
    {
        match self {
            HtmlElement::DocType => HtmlElement::DocType,
            HtmlElement::Comment(c) => HtmlElement::Comment(c.clone()),
            HtmlElement::OpenTag { name, attributes, is_empty } => HtmlElement::OpenTag {
                name: name.clone(),
                attributes: clone_attributes(attributes),
                is_empty: *is_empty,
            },
            HtmlElement::CloseTag { name } => HtmlElement::CloseTag { name: name.clone() },
            HtmlElement::Text(t) => HtmlElement::Text(t.clone()),
            HtmlElement::Script { attributes, contents } => HtmlElement::Script {
                attributes: clone_attributes(attributes),
                contents: contents.clone(),
            },
            HtmlElement::Style { attributes, contents } => HtmlElement::Style {
                attributes: clone_attributes(attributes),
                contents: contents.clone(),
            },
            HtmlElement::Directive { name, attributes, contents } => HtmlElement::Directive {
                name: name.clone(),
                attributes: clone_attributes(attributes),
                contents: contents.clone(),
            },
        }
    }
}

fn class_has(cl: CharClass, c: char) -> (r: bool)
    ensures
        r == in_class(cl, c),
{
    match cl {
        CharClass::Space => is_whitespace(c),
        CharClass::Name => is_name(c),
        CharClass::Not(d) => c != d,
    }
}

/// The first position at or after `i` whose character is outside `cl`.
fn parse_while(s: &Vec<char>, i: usize, cl: CharClass) -> (j: usize)
    requires
        i <= s@.len(),
    ensures
        j == scan(s@, i as int, cl),
        i <= j <= s@.len(),
{
    proof {
        lemma_scan(s@, i as int, cl);
    }
    let mut j = i;
    while j < s.len() && class_has(cl, s[j])
        invariant
            i <= j <= s@.len(),
            scan(s@, i as int, cl) == scan(s@, j as int, cl),
        decreases s@.len() - j,
    {
        j = j + 1;
    }
    j
}

/// The first position at or after `p` where `lit` occurs.
fn parse_until_str(s: &Vec<char>, p: usize, lit: &str) -> (r: Option<usize>)
    requires
        p <= s@.len(),
        lit@.len() > 0,
    ensures
        match r {
            Some(q) => find_lit(s@, p as int, lit@) == Some(q as int),
            None => find_lit(s@, p as int, lit@) is None,
        },
{
    let n = lit.unicode_len();
    let mut q = p;
    while q <= s.len() && n <= s.len() - q
        invariant
            p <= q,
            n == lit@.len(),
            n > 0,
            find_lit(s@, p as int, lit@) == find_lit(s@, q as int, lit@),
        decreases s@.len() + 1 - q,
    {
        if starts_with_at(s, q, lit) {
            return Some(q);
        }
        q = q + 1;
    }
    None
}

/// Whether `s[a..b]` is `lit`.
fn range_is(s: &Vec<char>, a: usize, b: usize, lit: &str) -> (r: bool)
    requires
        a <= b <= s@.len(),
    ensures
        r == (s@.subrange(a as int, b as int) == lit@),
{
    if b - a != lit.unicode_len() {
        assert(s@.subrange(a as int, b as int).len() != lit@.len());
        false
    } else {
        starts_with_at(s, a, lit)
    }
}

fn is_void_name(s: &Vec<char>, a: usize, b: usize) -> (r: bool)
    requires
        a <= b <= s@.len(),
    ensures
        r == is_void(s@.subrange(a as int, b as int)),
{
    range_is(s, a, b, "area") || range_is(s, a, b, "base") || range_is(s, a, b, "br")
        || range_is(s, a, b, "col") || range_is(s, a, b, "command") || range_is(s, a, b, "embed")
        || range_is(s, a, b, "hr") || range_is(s, a, b, "img") || range_is(s, a, b, "input")
        || range_is(s, a, b, "keygen") || range_is(s, a, b, "link") || range_is(s, a, b, "meta")
        || range_is(s, a, b, "param") || range_is(s, a, b, "source") || range_is(s, a, b, "track")
        || range_is(s, a, b, "wbr")
}

fn parse_comment(s: &Vec<char>, i: usize) -> (r: Option<(HtmlElement, usize)>)
    requires
        i <= s@.len(),
    ensures
        parsed(r) == comment_at(s@, i as int),
{
    proof {
        reveal_strlit("<!--");
        reveal_strlit("-->");
    }
    if !starts_with_at(s, i, "<!--") {
        return None;
    }
    match parse_until_str(s, i + 4, "-->") {
        Some(p) => {
            proof {
                lemma_find_lit(s@, i + 4, "-->"@);
            }
            Some((HtmlElement::Comment(string_of(s, i + 4, p)), p + 3))
        },
        None => None,
    }
}

fn parse_doctype(s: &Vec<char>, i: usize) -> (r: Option<(HtmlElement, usize)>)
    requires
        i <= s@.len(),
    ensures
        parsed(r) == doctype_at(s@, i as int),
{
    proof {
        reveal_strlit("<!doctype");
        reveal_strlit("html");
    }
    if !starts_with_at_ci(s, i, "<!doctype") {
        return None;
    }
    let a = parse_while(s, i + 9, CharClass::Space);
    if a == i + 9 || !starts_with_at_ci(s, a, "html") {
        return None;
    }
    let b = parse_while(s, a + 4, CharClass::Space);
    if b < s.len() && s[b] == '>' {
        Some((HtmlElement::DocType, b + 1))
    } else {
        None
    }
}

fn parse_delimited(s: &Vec<char>, b: usize, q: char) -> (r: Option<(String, usize)>)
    requires
        b <= s@.len(),
    ensures
        match r {
            Some((v, e)) => delimited_at(s@, b as int, q) == Some((v@, e as int)),
            None => delimited_at(s@, b as int, q) is None,
        },
{
    if !(b < s.len() && s[b] == q) {
        return None;
    }
    let e = parse_while(s, b + 1, CharClass::Not(q));
    if e < s.len() && s[e] == q {
        Some((string_of(s, b + 1, e), e + 1))
    } else {
        None
    }
}

fn parse_attribute_val(s: &Vec<char>, p: usize) -> (r: Option<(String, usize)>)
    requires
        p <= s@.len(),
    ensures
        match r {
            Some((v, e)) => value_at(s@, p as int) == Some((v@, e as int)),
            None => value_at(s@, p as int) is None,
        },
{
    let a = parse_while(s, p, CharClass::Space);
    if !(a < s.len() && s[a] == '=') {
        return None;
    }
    let b = parse_while(s, a + 1, CharClass::Space);
    match parse_delimited(s, b, '"') {
        Some(r) => Some(r),
        None => match parse_delimited(s, b, '\'') {
            Some(r) => Some(r),
            None => {
                let e = parse_while(s, b, CharClass::Name);
                Some((string_of(s, b, e), e))
            },
        },
    }
}

fn parse_attribute(s: &Vec<char>, p: usize) -> (r: Option<(String, String, usize)>)
    requires
        p <= s@.len(),
    ensures
        match r {
            Some((k, v, e)) => attribute_at(s@, p as int) == Some((k@, v@, e as int)),
            None => attribute_at(s@, p as int) is None,
        },
{
    let w = parse_while(s, p, CharClass::Space);
    let ke = parse_while(s, w, CharClass::Name);
    if w == p || ke == w {
        return None;
    }
    let key = string_of(s, w, ke);
    match parse_attribute_val(s, ke) {
        Some((v, e)) => Some((key, v, e)),
        None => Some((key, String::new(), ke)),
    }
}

/// An opening tag at `i`: name, attributes, whether it is empty, and the
/// position after it.
fn parse_open_tag(s: &Vec<char>, i: usize) -> (r: Option<(String, Attributes, bool, usize)>)
    requires
        i <= s@.len(),
    ensures
        match r {
            Some((n, a, e, j)) => open_tag_at(s@, i as int) == Some(
                (n@, a.deep_view(), e, j as int),
            ),
            None => open_tag_at(s@, i as int) is None,
        },
{
    if !(i < s.len() && s[i] == '<') {
        return None;
    }
    let ne = parse_while(s, i + 1, CharClass::Name);
    let mut attributes: Attributes = Vec::new();
    let mut p = ne;
    proof {
        assert(attributes.deep_view() =~= Seq::<(Seq<char>, Seq<char>)>::empty());
    }
    loop
        invariant
            ne <= p <= s@.len(),
            attrs_from(s@, ne as int, Seq::empty()) == attrs_from(
                s@,
                p as int,
                attributes.deep_view(),
            ),
        ensures
            ne <= p <= s@.len(),
            attrs_from(s@, ne as int, Seq::empty()) == (attributes.deep_view(), p as int),
        decreases s@.len() - p,
    {
        proof {
            lemma_attribute_at(s@, p as int);
        }
        match parse_attribute(s, p) {
            Some((k, v, e)) => {
                attr_insert(&mut attributes, k, v);
                p = e;
            },
            None => {
                assert(attrs_from(s@, p as int, attributes.deep_view()) == (
                    attributes.deep_view(),
                    p as int,
                ));
                break;
            },
        }
    }
    let w = parse_while(s, p, CharClass::Space);
    let slash = w < s.len() && s[w] == '/';
    let q = if slash {
        w + 1
    } else {
        w
    };
    if q < s.len() && s[q] == '>' {
        let is_empty = slash || is_void_name(s, i + 1, ne);
        Some((string_of(s, i + 1, ne), attributes, is_empty, q + 1))
    } else {
        None
    }
}

/// A closing tag at `i`: its name and the position after it.
fn parse_close_tag(s: &Vec<char>, i: usize) -> (r: Option<(String, usize)>)
    requires
        i <= s@.len(),
    ensures
        match r {
            Some((n, j)) => close_tag_at(s@, i as int) == Some((n@, j as int)),
            None => close_tag_at(s@, i as int) is None,
        },
{
    proof {
        reveal_strlit("</");
    }
    if !starts_with_at(s, i, "</") {
        return None;
    }
    let ne = parse_while(s, i + 2, CharClass::Name);
    let w = parse_while(s, ne, CharClass::Space);
    if ne > i + 2 && w < s.len() && s[w] == '>' {
        Some((string_of(s, i + 2, ne), w + 1))
    } else {
        None
    }
}

/// Whether `a[off..]` is `b`.
fn tail_is(a: &Vec<char>, off: usize, b: &Vec<char>) -> (r: bool)
    requires
        off <= a@.len(),
    ensures
        r == (a@.subrange(off as int, a@.len() as int) == b@),
{
    if a.len() - off != b.len() {
        assert(a@.subrange(off as int, a@.len() as int).len() != b@.len());
        return false;
    }
    let mut k: usize = 0;
    while k < b.len()
        invariant
            a.len() - off == b@.len(),
            off <= a@.len(),
            k <= b@.len(),
            forall|m: int| 0 <= m < k ==> a@[off + m] == b@[m],
        decreases b@.len() - k,
    {
        if a[off + k] != b[k] {
            assert(a@.subrange(off as int, a@.len() as int)[k as int] != b@[k as int]);
            return false;
        }
        k = k + 1;
    }
    assert(a@.subrange(off as int, a@.len() as int) =~= b@);
    true
}

fn closes_exec(open: &Vec<char>, close: &String) -> (r: bool)
    ensures
        r == closes(open@, close@),
{
    let c = crate::text::chars_of(close.as_str());
    assert(open@.subrange(0, open@.len() as int) =~= open@);
    if tail_is(open, 0, &c) {
        return true;
    }
    if open.len() > 0 && open[0] == '@' {
        assert(open@.subrange(1, open@.len() as int) =~= open@.drop_first());
        tail_is(open, 1, &c)
    } else {
        false
    }
}

/// The first closing tag at or after `p` that ends a raw block opened as
/// `name`.
fn find_raw_end(s: &Vec<char>, p: usize, name: &Vec<char>) -> (r: Option<(usize, usize)>)
    requires
        p <= s@.len(),
    ensures
        match r {
            Some((a, b)) => raw_end(s@, p as int, name@) == Some((a as int, b as int)),
            None => raw_end(s@, p as int, name@) is None,
        },
{
    let mut q = p;
    while q < s.len()
        invariant
            p <= q <= s@.len(),
            raw_end(s@, p as int, name@) == raw_end(s@, q as int, name@),
        decreases s@.len() - q,
    {
        match parse_close_tag(s, q) {
            Some((c, e)) => {
                if closes_exec(name, &c) {
                    return Some((q, e));
                }
            },
            None => {},
        }
        q = q + 1;
    }
    None
}

/// An opening tag and the raw text up to its closing tag.
fn parse_raw_text(s: &Vec<char>, i: usize) -> (r: Option<(String, Attributes, String, usize)>)
    requires
        i <= s@.len(),
    ensures
        match r {
            Some((n, a, c, j)) => raw_at(s@, i as int) == Some(
                (n@, a.deep_view(), c@, j as int),
            ),
            None => raw_at(s@, i as int) is None,
        },
{
    match parse_open_tag(s, i) {
        None => None,
        Some((name, attributes, is_empty, j)) => {
            if is_empty {
                Some((name, attributes, String::new(), j))
            } else {
                let nc = crate::text::chars_of(name.as_str());
                proof {
                    lemma_raw_end(s@, j as int, name@);
                }
                match find_raw_end(s, j, &nc) {
                    Some((p, q)) => Some((name, attributes, string_of(s, j, p), q)),
                    None => None,
                }
            }
        },
    }
}

/// Whether `t` holds exactly the characters of `lit`.
pub fn str_is(t: &String, lit: &str) -> (r: bool)
    ensures
        r == (t@ == lit@),
{
    *t == String::from_str(lit)
}

fn parse_style(s: &Vec<char>, i: usize) -> (r: Option<(HtmlElement, usize)>)
    requires
        i <= s@.len(),
    ensures
        parsed(r) == style_at(s@, i as int),
{
    match parse_raw_text(s, i) {
        Some((name, attributes, contents, j)) => {
            if str_is(&name, "style") {
                Some((HtmlElement::Style { attributes, contents }, j))
            } else {
                None
            }
        },
        None => None,
    }
}

fn parse_script(s: &Vec<char>, i: usize) -> (r: Option<(HtmlElement, usize)>)
    requires
        i <= s@.len(),
    ensures
        parsed(r) == script_at(s@, i as int),
{
    match parse_raw_text(s, i) {
        Some((name, attributes, contents, j)) => {
            if str_is(&name, "script") {
                Some((HtmlElement::Script { attributes, contents }, j))
            } else {
                None
            }
        },
        None => None,
    }
}

fn parse_directive(s: &Vec<char>, i: usize) -> (r: Option<(HtmlElement, usize)>)
    requires
        i <= s@.len(),
    ensures
        parsed(r) == directive_at(s@, i as int),
{
    match parse_raw_text(s, i) {
        Some((name, attributes, contents, j)) => {
            let nc = crate::text::chars_of(name.as_str());
            if nc.len() > 0 && nc[0] == '@' {
                let bare = string_of(&nc, 1, nc.len());
                assert(bare@ =~= name@.drop_first());
                Some((HtmlElement::Directive { name: bare, attributes, contents }, j))
            } else {
                None
            }
        },
        None => None,
    }
}

fn parse_element_open(s: &Vec<char>, i: usize) -> (r: Option<(HtmlElement, usize)>)
    requires
        i <= s@.len(),
    ensures
        parsed(r) == open_at(s@, i as int),
{
    match parse_open_tag(s, i) {
        Some((name, attributes, is_empty, j)) => Some(
            (HtmlElement::OpenTag { name, attributes, is_empty }, j),
        ),
        None => None,
    }
}

fn parse_element_close(s: &Vec<char>, i: usize) -> (r: Option<(HtmlElement, usize)>)
    requires
        i <= s@.len(),
    ensures
        parsed(r) == close_at(s@, i as int),
{
    match parse_close_tag(s, i) {
        Some((name, j)) => Some((HtmlElement::CloseTag { name }, j)),
        None => None,
    }
}

fn all_whitespace(s: &Vec<char>, a: usize, b: usize) -> (r: bool)
    requires
        a <= b <= s@.len(),
    ensures
        r == all_ws(s@, a as int, b as int),
{
    let mut k = a;
    while k < b
        invariant
            a <= k <= b <= s@.len(),
            all_ws(s@, a as int, k as int),
        decreases b - k,
    {
        if !is_whitespace(s[k]) {
            return false;
        }
        k = k + 1;
    }
    true
}

/// What the lexer found at one position.
enum Lexed {
    Skip(usize),
    Emit(HtmlElement, usize),
    Fail,
}

spec fn lexed_view(r: Lexed) -> Step {
    match r {
        Lexed::Skip(j) => Step::Skip(j as int),
        Lexed::Emit(t, j) => Step::Emit(t@, j as int),
        Lexed::Fail => Step::Fail,
    }
}

fn lexed(r: Option<(HtmlElement, usize)>) -> (l: Lexed)
    ensures
        lexed_view(l) == emit(parsed(r)),
{
    match r {
        Some((t, j)) => Lexed::Emit(t, j),
        None => Lexed::Fail,
    }
}

fn parse_step(s: &Vec<char>, i: usize) -> (r: Lexed)
    requires
        i < s@.len(),
    ensures
        lexed_view(r) == step(s@, i as int),
{
    if starts_with_at(s, i, "<!--") {
        lexed(parse_comment(s, i))
    } else if starts_with_at(s, i, "<!") {
        lexed(parse_doctype(s, i))
    } else if starts_with_at(s, i, "<style") {
        lexed(parse_style(s, i))
    } else if starts_with_at(s, i, "<script") {
        lexed(parse_script(s, i))
    } else if starts_with_at(s, i, "</") {
        lexed(parse_element_close(s, i))
    } else if starts_with_at(s, i, "<@") {
        lexed(parse_directive(s, i))
    } else if s[i] == '<' {
        lexed(parse_element_open(s, i))
    } else {
        let j = parse_while(s, i, CharClass::Not('<'));
        if all_whitespace(s, i, j) {
            Lexed::Skip(j)
        } else {
            Lexed::Emit(HtmlElement::Text(string_of(s, i, j)), j)
        }
    }
}

pub proof fn lemma_row_col_bound(s: Seq<char>, idx: int)
    requires
        0 <= idx,
    ensures
        row_col(s, idx).0 <= idx + 1,
        row_col(s, idx).1 <= idx + 1,
    decreases idx,
{
    if idx > 0 {
        lemma_row_col_bound(s, idx - 1);
    }
}

/// 1-based line and column of the character at `index`.
pub fn index_to_rc(input: &Vec<char>, index: usize) -> (r: (usize, usize))
    requires
        index <= input@.len(),
        input@.len() < usize::MAX,
    ensures
        (r.0 as nat, r.1 as nat) == row_col(input@, index as int),
{
    let mut row: usize = 1;
    let mut col: usize = 1;
    let mut k: usize = 0;
    while k < index
        invariant
            k <= index <= input@.len() < usize::MAX,
            (row as nat, col as nat) == row_col(input@, k as int),
        decreases index - k,
    {
        proof {
            lemma_row_col_bound(input@, k as int);
        }
        if input[k] == '\n' {
            row = row + 1;
            col = 1;
        } else {
            col = col + 1;
        }
        k = k + 1;
    }
    (row, col)
}

/// The lexer failure of kind `kind` at character `at` of `s`.
pub open spec fn lex_error_at(e: Error, s: Seq<char>, kind: ErrorKind, at: int) -> bool {
    &&& e.kind == kind
    &&& e.char_index == at
    &&& e.row as nat == row_col(s, at).0
    &&& e.column as nat == row_col(s, at).1
}

fn throw_err(s: &Vec<char>, kind: ErrorKind, at: usize) -> (e: Error)
    requires
        at <= s@.len() < usize::MAX,
    ensures
        lex_error_at(e, s@, kind, at as int),
{
    let (row, column) = index_to_rc(s, at);
    Error { kind, char_index: at, row, column }
}

/// Lexes the characters `s`: the tokens in order, or the first failure.
pub fn lex(s: &Vec<char>) -> (r: core::result::Result<Vec<HtmlElement>, Error>)
    requires
        s@.len() < usize::MAX,
    ensures
        match lex_spec(s@) {
            Ok(ts) => r matches Ok(v) && v.deep_view() == ts,
            Err((kind, at)) => r matches Err(e) && lex_error_at(e, s@, kind, at),
        },
{
    let mut output: Vec<HtmlElement> = Vec::new();
    let mut stack: Vec<String> = Vec::new();
    let mut i: usize = 0;
    proof {
        assert(output.deep_view() =~= Seq::<Token>::empty());
        assert(stack.deep_view() =~= Seq::<Seq<char>>::empty());
    }
    while i < s.len()
        invariant
            i <= s@.len() < usize::MAX,
            lex_spec(s@) == lex_from(s@, i as int, output.deep_view(), stack.deep_view()),
        decreases s@.len() - i,
    {
        proof {
            lemma_step_advances(s@, i as int);
        }
        match parse_step(s, i) {
            Lexed::Fail => {
                return Err(throw_err(s, ErrorKind::Illegal, i));
            },
            Lexed::Skip(j) => {
                i = j;
            },
            Lexed::Emit(t, j) => {
                if output.len() >= LEXEME_MEMORY_LIMIT {
                    return Err(throw_err(s, ErrorKind::MemoryLimit, i));
                }
                let ghost tv = t@;
                let ghost before = output.deep_view();
                let ghost st = stack.deep_view();
                match &t {
                    HtmlElement::OpenTag { name, is_empty, .. } => {
                        if !*is_empty {
                            stack.push(name.clone());
                            assert(stack.deep_view() =~= st.push(name@));
                        }
                    },
                    HtmlElement::CloseTag { name } => {
                        match stack.pop() {
                            Some(top) => {
                                assert(stack.deep_view() =~= st.drop_last());
                                if top != *name {
                                    return Err(throw_err(s, ErrorKind::UnbalancedTags, i));
                                }
                            },
                            None => {
                                return Err(throw_err(s, ErrorKind::UnbalancedTags, i));
                            },
                        }
                    },
                    _ => {},
                }
                output.push(t);
                assert(output.deep_view() =~= before.push(tv));
                i = j;
            },
        }
    }
    if stack.len() == 0 {
        Ok(output)
    } else {
        Err(throw_err(s, ErrorKind::UnbalancedTags, i))
    }
}

/// What a lexer failure is reported as.
pub open spec fn report_kind(k: ErrorKind) -> crate::trace::ErrorKind {
    match k {
        ErrorKind::MemoryLimit => crate::trace::ErrorKind::Memory,
        _ => crate::trace::ErrorKind::Parsing,
    }
}

pub open spec fn report_reason(k: ErrorKind) -> Seq<char> {
    match k {
        ErrorKind::Illegal => "Illegal character encountered"@,
        ErrorKind::UnbalancedTags => "Unbalanced open and close tags"@,
        ErrorKind::MemoryLimit => "Ran out of memory"@,
    }
}

/// The context frame that gives a failure's place.
pub open spec fn position_frame(row: nat, column: nat) -> Seq<char> {
    "at line "@ + decimal(row) + " column "@ + decimal(column)
}

/// The report of a lexer failure of kind `kind` at character `at` of `s`.
pub open spec fn is_lex_report(e: crate::trace::Error, s: Seq<char>, kind: ErrorKind, at: int) -> bool {
    &&& e.kind == report_kind(kind)
    &&& e.reason@ == report_reason(kind)
    &&& e.backtrace.deep_view() == seq![position_frame(row_col(s, at).0, row_col(s, at).1)]
}

impl Error {
    /// This failure as a general error, with its place as a context frame.
    pub fn to_report(&self) -> (r: crate::trace::Error)
        ensures
            r.kind == report_kind(self.kind),
            r.reason@ == report_reason(self.kind),
            r.backtrace.deep_view() == seq![position_frame(self.row as nat, self.column as nat)],
    {
        let reason = match self.kind {
            ErrorKind::Illegal => "Illegal character encountered",
            ErrorKind::UnbalancedTags => "Unbalanced open and close tags",
            ErrorKind::MemoryLimit => "Ran out of memory",
        };
        let kind = match self.kind {
            ErrorKind::MemoryLimit => crate::trace::ErrorKind::Memory,
            _ => crate::trace::ErrorKind::Parsing,
        };
        let mut frame = String::from_str("at line ");
        push_decimal(&mut frame, self.row);
        frame.append(" column ");
        push_decimal(&mut frame, self.column);
        let mut backtrace: Vec<String> = Vec::new();
        backtrace.push(frame);
        assert(backtrace.deep_view() =~= seq![position_frame(self.row as nat, self.column as nat)]);
        crate::trace::Error { kind, reason: String::from_str(reason), backtrace }
    }
}

/// Lexes `input` into tokens, or reports the first failure with its line and
/// column.
pub fn parse_html(input: &str) -> (r: crate::trace::Result<Vec<HtmlElement>>)
    requires
        input@.len() < usize::MAX,
    ensures
        match lex_spec(input@) {
            Ok(ts) => r matches Ok(v) && v.deep_view() == ts,
            Err((kind, at)) => r matches Err(e) && is_lex_report(e, input@, kind, at),
        },
        r matches Ok(v) ==> well_formed(v.deep_view()) && v@.len() <= LEXEME_MEMORY_LIMIT,
{
    proof {
        if lex_spec(input@) is Ok {
            lemma_lex_well_formed(input@);
        }
    }
    let s = crate::text::chars_of(input);
    match lex(&s) {
        Ok(v) => Ok(v),
        Err(e) => Err(e.to_report()),
    }
}

// ---------------------------------------------------------------------------
// Laws of the lexer.

/// The names of the tags left open after reading `ts` from the left, or
/// `None` when a closing tag does not match the innermost open tag.
pub open spec fn open_stack(ts: Seq<Token>) -> Option<Seq<Seq<char>>>
    decreases ts.len(),
{
    if ts.len() == 0 {
        Some(Seq::empty())
    } else {
        match open_stack(ts.drop_last()) {
            None => None,
            Some(st) => match ts.last() {
                Token::OpenTag { name, is_empty, .. } => if is_empty {
                    Some(st)
                } else {
                    Some(st.push(name))
                },
                Token::CloseTag { name } => if st.len() > 0 && st.last() == name {
                    Some(st.drop_last())
                } else {
                    None
                },
                _ => Some(st),
            },
        }
    }
}

/// Every non-empty opening tag is matched by one closing tag of the same
/// name, properly nested, and no closing tag is left unmatched.
pub open spec fn well_formed(ts: Seq<Token>) -> bool {
    open_stack(ts) == Some(Seq::<Seq<char>>::empty())
}

proof fn lemma_lex_from_result(s: Seq<char>, i: int, out: Seq<Token>, stack: Seq<Seq<char>>)
    requires
        0 <= i,
        open_stack(out) == Some(stack),
        out.len() <= LEXEME_MEMORY_LIMIT,
        lex_from(s, i, out, stack) is Ok,
    ensures
        well_formed(lex_from(s, i, out, stack)->Ok_0),
        lex_from(s, i, out, stack)->Ok_0.len() <= LEXEME_MEMORY_LIMIT,
    decreases s.len() - i,
{
    if i < s.len() {
        lemma_step_advances(s, i);
        match step(s, i) {
            Step::Skip(j) => lemma_lex_from_result(s, j, out, stack),
            Step::Emit(t, j) => {
                assert(out.push(t).drop_last() =~= out);
                match t {
                    Token::OpenTag { name, is_empty, .. } => {
                        if is_empty {
                            lemma_lex_from_result(s, j, out.push(t), stack);
                        } else {
                            lemma_lex_from_result(s, j, out.push(t), stack.push(name));
                        }
                    },
                    Token::CloseTag { name } => {
                        lemma_lex_from_result(s, j, out.push(t), stack.drop_last());
                    },
                    _ => lemma_lex_from_result(s, j, out.push(t), stack),
                }
            },
            Step::Fail => {},
        }
    } else {
        assert(stack =~= Seq::<Seq<char>>::empty());
    }
}

/// What the lexer gives is well formed and within the token ceiling.
pub proof fn lemma_lex_well_formed(s: Seq<char>)
    requires
        lex_spec(s) is Ok,
    ensures
        well_formed(lex_spec(s)->Ok_0),
        lex_spec(s)->Ok_0.len() <= LEXEME_MEMORY_LIMIT,
{
    lemma_lex_from_result(s, 0, Seq::empty(), Seq::empty());
}

} // verus!
