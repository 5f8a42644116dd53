//! Re-lexing what the serializer wrote gives the tokens back: comments lose
//! their text, everything else comes back as it was.

use vstd::prelude::*;
use crate::assoc::{assoc_set, key_index, keys_of};
use crate::parse::{
    close_tag_at, doctype_at, in_class, is_void, lex_from, lex_spec, open_stack, scan, step, well_formed,
    AttrModel, CharClass, Step, Token, LEXEME_MEMORY_LIMIT,
};
use crate::render::{attr_text, attrs_text, doc_text, token_text};
use crate::text::{all_ws, is_name_char, is_ws, lower_code, matches_at, matches_at_ci};

verus! {

/// `scan` stops at the first character outside the class.
proof fn lemma_scan_to(s: Seq<char>, i: int, j: int, cl: CharClass)
    requires
        0 <= i <= j <= s.len(),
        forall|k: int| i <= k < j ==> in_class(cl, #[trigger] s[k]),
        j == s.len() || !in_class(cl, s[j]),
    ensures
        scan(s, i, cl) == j,
    decreases j - i,
{
    if i < j {
        lemma_scan_to(s, i + 1, j, cl);
    }
}

/// `s` holds `x` at `i`.
pub open spec fn holds_at(s: Seq<char>, i: int, x: Seq<char>) -> bool {
    0 <= i && i + x.len() <= s.len() && s.subrange(i, i + x.len()) == x
}

proof fn lemma_holds_at_index(s: Seq<char>, i: int, x: Seq<char>, k: int)
    requires
        holds_at(s, i, x),
        0 <= k < x.len(),
    ensures
        s[i + k] == x[k],
{
    assert(s.subrange(i, i + x.len())[k] == s[i + k]);
}

/// A tag, attribute or key name: non-empty, of name characters.
pub open spec fn is_name(n: Seq<char>) -> bool {
    n.len() > 0 && forall|k: int| 0 <= k < n.len() ==> is_name_char(#[trigger] n[k])
}

pub open spec fn starts_with(n: Seq<char>, p: Seq<char>) -> bool {
    n.len() >= p.len() && n.subrange(0, p.len() as int) == p
}

/// Attributes that print and read back as they are: names as keys, values
/// without a double quote, no key twice.
pub open spec fn printable_attrs(a: AttrModel) -> bool {
    &&& forall|k: int| 0 <= k < a.len() ==> is_name(#[trigger] a[k].0)
    &&& forall|k: int, m: int| 0 <= k < a.len() && 0 <= m < a[k].1.len() ==> a[k].1[m] != '"'
    &&& forall|j: int, k: int| 0 <= j < k < a.len() ==> a[j].0 != a[k].0
}

/// A token whose text reads back as one token.
pub open spec fn printable(t: Token) -> bool {
    match t {
        Token::DocType => true,
        Token::Comment(_) => true,
        Token::OpenTag { name, attributes, is_empty } => {
            &&& is_name(name)
            &&& name[0] != '@'
            &&& !starts_with(name, "style"@)
            &&& !starts_with(name, "script"@)
            &&& (is_void(name) ==> is_empty)
            &&& printable_attrs(attributes)
        },
        Token::CloseTag { name } => is_name(name),
        Token::Text(t) => {
            &&& t.len() > 0
            &&& forall|k: int| 0 <= k < t.len() ==> t[k] != '<'
            &&& !all_ws(t, 0, t.len() as int)
        },
        _ => false,
    }
}

/// What a token reads back as: a comment without its text.
pub open spec fn normalize(t: Token) -> Token {
    match t {
        Token::Comment(_) => Token::Comment(Seq::empty()),
        _ => t,
    }
}

proof fn lemma_doctype(s: Seq<char>, i: int)
    requires
        holds_at(s, i, token_text(Token::DocType, None)),
    ensures
        step(s, i) == Step::Emit(Token::DocType, i + 15),
{
    reveal_strlit("<!DOCTYPE html>");
    reveal_strlit("<!--");
    reveal_strlit("<!");
    reveal_strlit("<!doctype");
    reveal_strlit("html");
    let x = token_text(Token::DocType, None);
    assert(x =~= seq!['<', '!', 'D', 'O', 'C', 'T', 'Y', 'P', 'E', ' ', 'h', 't', 'm', 'l', '>']);
    assert("<!doctype"@ =~= seq!['<', '!', 'd', 'o', 'c', 't', 'y', 'p', 'e']);
    assert("html"@ =~= seq!['h', 't', 'm', 'l']);
    assert forall|k: int| 0 <= k < 15 implies s[i + k] == x[k] by {
        lemma_holds_at_index(s, i, x, k);
    }
    assert(s[i + 2] != "<!--"@[2]);
    assert(s.subrange(i, i + 2) =~= "<!"@);
    assert forall|k: int| 0 <= k < 9 implies lower_code(#[trigger] s[i + k]) == lower_code(
        "<!doctype"@[k],
    ) by {
        assert(s[i + k] == x[k]);
        if k == 0 {
        } else if k == 1 {
        } else if k == 2 {
        } else if k == 3 {
        } else if k == 4 {
        } else if k == 5 {
        } else if k == 6 {
        } else if k == 7 {
        } else {
        }
    }
    assert(matches_at_ci(s, i, "<!doctype"@));
    assert(s[i + 9] == ' ' && s[i + 10] == 'h');
    lemma_scan_to(s, i + 9, i + 10, CharClass::Space);
    assert forall|k: int| 0 <= k < 4 implies lower_code(#[trigger] s[i + 10 + k]) == lower_code(
        "html"@[k],
    ) by {
        assert(s[i + 10 + k] == x[10 + k]);
    }
    assert(matches_at_ci(s, i + 10, "html"@));
    assert(s[i + 14] == '>');
    lemma_scan_to(s, i + 14, i + 14, CharClass::Space);
    assert(doctype_at(s, i) == Some((Token::DocType, i + 15)));
}

proof fn lemma_dispatch_literals()
    ensures
        "<!--"@ =~= seq!['<', '!', '-', '-'],
        "<!"@ =~= seq!['<', '!'],
        "<style"@ =~= seq!['<', 's', 't', 'y', 'l', 'e'],
        "<script"@ =~= seq!['<', 's', 'c', 'r', 'i', 'p', 't'],
        "</"@ =~= seq!['<', '/'],
        "<@"@ =~= seq!['<', '@'],
        "-->"@ =~= seq!['-', '-', '>'],
        "style"@ =~= seq!['s', 't', 'y', 'l', 'e'],
        "script"@ =~= seq!['s', 'c', 'r', 'i', 'p', 't'],
{
    reveal_strlit("<!--");
    reveal_strlit("<!");
    reveal_strlit("<style");
    reveal_strlit("<script");
    reveal_strlit("</");
    reveal_strlit("<@");
    reveal_strlit("-->");
    reveal_strlit("style");
    reveal_strlit("script");
}

proof fn lemma_comment(s: Seq<char>, i: int, c: Seq<char>)
    requires
        holds_at(s, i, token_text(Token::Comment(c), None)),
    ensures
        step(s, i) == Step::Emit(Token::Comment(Seq::empty()), i + 7),
{
    reveal_strlit("<!---->");
    lemma_dispatch_literals();
    let x = token_text(Token::Comment(c), None);
    assert(x =~= seq!['<', '!', '-', '-', '-', '-', '>']);
    assert forall|k: int| 0 <= k < 7 implies s[i + k] == x[k] by {
        lemma_holds_at_index(s, i, x, k);
    }
    assert(s.subrange(i, i + 4) =~= "<!--"@);
    assert(s.subrange(i + 4, i + 7) =~= "-->"@);
    assert(s.subrange(i + 4, i + 4) =~= Seq::<char>::empty());
}

proof fn lemma_text(s: Seq<char>, i: int, t: Seq<char>)
    requires
        printable(Token::Text(t)),
        holds_at(s, i, t),
        i + t.len() == s.len() || s[i + t.len()] == '<',
    ensures
        step(s, i) == Step::Emit(Token::Text(t), i + t.len()),
{
    lemma_dispatch_literals();
    lemma_holds_at_index(s, i, t, 0);
    assert forall|k: int| i <= k < i + t.len() implies in_class(CharClass::Not('<'), #[trigger] s[k]) by {
        lemma_holds_at_index(s, i, t, k - i);
    }
    lemma_scan_to(s, i, i + t.len(), CharClass::Not('<'));
    if all_ws(s, i, i + t.len()) {
        assert forall|k: int| 0 <= k < t.len() implies is_ws(#[trigger] t[k]) by {
            lemma_holds_at_index(s, i, t, k);
            assert(is_ws(s[i + k]));
        }
    }
}

proof fn lemma_close(s: Seq<char>, i: int, name: Seq<char>)
    requires
        printable(Token::CloseTag { name }),
        holds_at(s, i, token_text(Token::CloseTag { name }, None)),
    ensures
        step(s, i) == Step::Emit(Token::CloseTag { name }, i + name.len() + 3),
{
    lemma_dispatch_literals();
    reveal_strlit(">");
    let x = token_text(Token::CloseTag { name }, None);
    let n = name.len() as int;
    assert(x =~= seq!['<', '/'] + name + seq!['>']);
    assert forall|k: int| 0 <= k < x.len() implies s[i + k] == x[k] by {
        lemma_holds_at_index(s, i, x, k);
    }
    lemma_holds_at_index(s, i, x, 0);
    lemma_holds_at_index(s, i, x, 1);
    assert(s[i] == '<' && s[i + 1] == '/');
    assert(s.subrange(i, i + 2) =~= "</"@);
    assert forall|k: int| i + 2 <= k < i + 2 + n implies in_class(CharClass::Name, #[trigger] s[k]) by {
        assert(s[k] == x[k - i]);
        assert(x[k - i] == name[k - i - 2]);
    }
    lemma_holds_at_index(s, i, x, n + 2);
    lemma_scan_to(s, i + 2, i + 2 + n, CharClass::Name);
    lemma_scan_to(s, i + 2 + n, i + 2 + n, CharClass::Space);
    assert forall|k: int| 0 <= k < n implies s[i + 2 + k] == name[k] by {
        lemma_holds_at_index(s, i, x, k + 2);
    }
    assert(s.subrange(i + 2, i + 2 + n) =~= name);
    assert(close_tag_at(s, i) == Some((name, i + n + 3)));
}

proof fn lemma_name_char(c: char)
    requires
        is_name_char(c),
    ensures
        !is_ws(c),
        c != '=' && c != '"' && c != '>' && c != '/' && c != '<' && c != '!' && c != ' ',
{
}

proof fn lemma_holds_split(s: Seq<char>, p: int, x: Seq<char>, y: Seq<char>)
    requires
        holds_at(s, p, x + y),
    ensures
        holds_at(s, p, x),
        holds_at(s, p + x.len(), y),
{
    let w = s.subrange(p, p + x.len() + y.len());
    assert(w == x + y);
    assert forall|k: int| 0 <= k < x.len() implies s[p + k] == x[k] by {
        assert(w[k] == s[p + k]);
    }
    assert forall|k: int| 0 <= k < y.len() implies s[p + x.len() + k] == y[k] by {
        assert(w[x.len() + k] == s[p + x.len() + k]);
    }
    assert(s.subrange(p, p + x.len()) =~= x);
    assert(s.subrange(p + x.len(), p + x.len() + y.len()) =~= y);
}

proof fn lemma_attrs_text_prefix(a: AttrModel, m: int)
    requires
        0 <= m <= a.len(),
    ensures
        attrs_text(a.subrange(0, m)).len() <= attrs_text(a).len(),
        attrs_text(a).subrange(0, attrs_text(a.subrange(0, m)).len() as int) == attrs_text(
            a.subrange(0, m),
        ),
    decreases a.len() - m,
{
    if m == a.len() {
        assert(a.subrange(0, m) =~= a);
        assert(attrs_text(a).subrange(0, attrs_text(a).len() as int) =~= attrs_text(a));
    } else {
        lemma_attrs_text_prefix(a, m + 1);
        assert(a.subrange(0, m + 1).drop_last() =~= a.subrange(0, m));
        let shorter = attrs_text(a.subrange(0, m));
        let longer = attrs_text(a.subrange(0, m + 1));
        assert(longer == shorter + attr_text(a[m]));
        assert(attrs_text(a).subrange(0, shorter.len() as int) =~= longer.subrange(0, shorter.len() as int));
        assert(longer.subrange(0, shorter.len() as int) =~= shorter);
    }
}

/// The text of the attributes up to `m`, then that of attribute `m`.
proof fn lemma_attr_at(s: Seq<char>, p: int, a: AttrModel, m: int)
    requires
        0 <= m < a.len(),
        holds_at(s, p, attrs_text(a)),
    ensures
        holds_at(s, p + attrs_text(a.subrange(0, m)).len(), attr_text(a[m])),
        attrs_text(a.subrange(0, m + 1)).len() == attrs_text(a.subrange(0, m)).len() + attr_text(
            a[m],
        ).len(),
        attrs_text(a.subrange(0, m + 1)).len() <= attrs_text(a).len(),
{
    lemma_attrs_text_prefix(a, m + 1);
    assert(a.subrange(0, m + 1).drop_last() =~= a.subrange(0, m));
    let longer = attrs_text(a.subrange(0, m + 1));
    assert(longer == attrs_text(a.subrange(0, m)) + attr_text(a[m]));
    assert(s.subrange(p, p + longer.len()) =~= s.subrange(p, p + attrs_text(a).len()).subrange(0, longer.len() as int));
    assert(holds_at(s, p, longer));
    lemma_holds_split(s, p, attrs_text(a.subrange(0, m)), attr_text(a[m]));
}

/// One attribute reads back, when what follows it cannot continue it.
proof fn lemma_attr_one(s: Seq<char>, p: int, kv: (Seq<char>, Seq<char>))
    requires
        is_name(kv.0),
        forall|m: int| 0 <= m < kv.1.len() ==> kv.1[m] != '"',
        holds_at(s, p, attr_text(kv)),
        p + attr_text(kv).len() < s.len(),
        ({
            let c = s[p + attr_text(kv).len()];
            c == '/' || c == '>' || (c == ' ' && p + attr_text(kv).len() + 1 < s.len()
                && is_name_char(s[p + attr_text(kv).len() + 1]))
        }),
    ensures
        crate::parse::attribute_at(s, p) == Some((kv.0, kv.1, p + attr_text(kv).len())),
{
    reveal_strlit(" ");
    reveal_strlit("=\"");
    reveal_strlit("\"");
    let x = attr_text(kv);
    let k = kv.0;
    let v = kv.1;
    let nk = k.len() as int;
    let nv = v.len() as int;
    let q = p + x.len();
    assert(" "@ =~= seq![' ']);
    assert("=\""@ =~= seq!['=', '"']);
    assert("\""@ =~= seq!['"']);
    lemma_holds_at_index(s, p, x, 0);
    assert(s[p] == ' ');
    assert forall|m: int| 0 <= m < nk implies s[p + 1 + m] == k[m] by {
        lemma_holds_at_index(s, p, x, 1 + m);
    }
    lemma_name_char(k[0]);
    lemma_scan_to(s, p, p + 1, CharClass::Space);
    assert forall|m: int| p + 1 <= m < p + 1 + nk implies in_class(CharClass::Name, #[trigger] s[m]) by {
        assert(s[p + 1 + (m - p - 1)] == k[m - p - 1]);
    }
    if nv == 0 {
        assert(x =~= seq![' '] + k);
        assert(q == p + 1 + nk);
        lemma_scan_to(s, p + 1, q, CharClass::Name);
        assert(s.subrange(p + 1, q) =~= k);
        let c = s[q];
        if c == ' ' {
            lemma_name_char(s[q + 1]);
            lemma_scan_to(s, q, q + 1, CharClass::Space);
        } else {
            lemma_scan_to(s, q, q, CharClass::Space);
        }
    } else {
        assert(x =~= seq![' '] + k + seq!['=', '"'] + v + seq!['"']);
        let ke = p + 1 + nk;
        lemma_holds_at_index(s, p, x, 1 + nk);
        lemma_holds_at_index(s, p, x, 2 + nk);
        lemma_holds_at_index(s, p, x, 3 + nk + nv);
        assert(s[ke] == '=' && s[ke + 1] == '"' && s[ke + 2 + nv] == '"');
        lemma_scan_to(s, p + 1, ke, CharClass::Name);
        lemma_scan_to(s, ke, ke, CharClass::Space);
        lemma_scan_to(s, ke + 1, ke + 1, CharClass::Space);
        assert forall|m: int| 0 <= m < nv implies s[ke + 2 + m] == v[m] by {
            lemma_holds_at_index(s, p, x, 3 + nk + m);
        }
        assert forall|m: int| ke + 2 <= m < ke + 2 + nv implies in_class(CharClass::Not('"'), #[trigger] s[m]) by {
            assert(s[ke + 2 + (m - ke - 2)] == v[m - ke - 2]);
        }
        lemma_scan_to(s, ke + 2, ke + 2 + nv, CharClass::Not('"'));
        assert(s.subrange(p + 1, ke) =~= k);
        assert(s.subrange(ke + 2, ke + 2 + nv) =~= v);
    }
}

proof fn lemma_attrs_from_m(s: Seq<char>, p: int, a: AttrModel, m: int)
    requires
        0 <= m <= a.len(),
        printable_attrs(a),
        holds_at(s, p, attrs_text(a)),
        p + attrs_text(a).len() < s.len(),
        s[p + attrs_text(a).len()] == '/' || s[p + attrs_text(a).len()] == '>',
    ensures
        crate::parse::attrs_from(s, p + attrs_text(a.subrange(0, m)).len(), a.subrange(0, m)) == (
            a,
            p + attrs_text(a).len(),
        ),
    decreases a.len() - m,
{
    let l = attrs_text(a).len() as int;
    if m == a.len() {
        assert(a.subrange(0, m) =~= a);
        lemma_scan_to(s, p + l, p + l, CharClass::Space);
    } else {
        lemma_attr_at(s, p, a, m);
        let pm = p + attrs_text(a.subrange(0, m)).len();
        let kv = a[m];
        let pn = pm + attr_text(kv).len();
        assert(pn == p + attrs_text(a.subrange(0, m + 1)).len());
        if m + 1 < a.len() {
            lemma_attr_at(s, p, a, m + 1);
            reveal_strlit(" ");
            assert(" "@ =~= seq![' ']);
            let nx = attr_text(a[m + 1]);
            lemma_holds_at_index(s, pn, nx, 0);
            lemma_holds_at_index(s, pn, nx, 1);
            assert(is_name(a[m + 1].0));
            assert(nx[1] == a[m + 1].0[0]);
        } else {
            assert(a.subrange(0, m + 1) =~= a);
        }
        lemma_attr_one(s, pm, kv);
        let pre = a.subrange(0, m);
        crate::assoc::lemma_key_index_bounds(keys_of(pre), kv.0, 0);
        if key_index(keys_of(pre), kv.0, 0) != -1 {
            let j = key_index(keys_of(pre), kv.0, 0);
            assert(a[j].0 == kv.0);
            assert(false);
        }
        assert(assoc_set(pre, kv.0, kv.1) =~= a.subrange(0, m + 1));
        lemma_attrs_from_m(s, p, a, m + 1);
    }
}

/// An opening tag reads back as itself.
proof fn lemma_open(s: Seq<char>, i: int, name: Seq<char>, attributes: AttrModel, is_empty: bool)
    requires
        printable(Token::OpenTag { name, attributes, is_empty }),
        holds_at(s, i, token_text(Token::OpenTag { name, attributes, is_empty }, None)),
    ensures
        step(s, i) == Step::Emit(
            Token::OpenTag { name, attributes, is_empty },
            i + token_text(Token::OpenTag { name, attributes, is_empty }, None).len(),
        ),
{
    lemma_dispatch_literals();
    reveal_strlit("<");
    reveal_strlit(">");
    reveal_strlit("/>");
    reveal_strlit(" ");
    assert("<"@ =~= seq!['<']);
    assert(">"@ =~= seq!['>']);
    assert("/>"@ =~= seq!['/', '>']);
    assert(" "@ =~= seq![' ']);
    let t = Token::OpenTag { name, attributes, is_empty };
    let x = token_text(t, None);
    let at = attrs_text(attributes);
    let n = name.len() as int;
    let l = at.len() as int;
    let end: Seq<char> = if is_empty {
        seq!['/', '>']
    } else {
        seq!['>']
    };
    assert(x =~= seq!['<'] + name + at + end);
    lemma_holds_split(s, i, seq!['<'] + name + at, end);
    lemma_holds_split(s, i, seq!['<'] + name, at);
    lemma_holds_split(s, i, seq!['<'], name);
    lemma_holds_at_index(s, i, x, 0);
    let ne = i + 1 + n;
    assert forall|m: int| 0 <= m < n implies s[i + 1 + m] == name[m] by {
        lemma_holds_at_index(s, i + 1, name, m);
    }
    lemma_holds_at_index(s, ne + l, end, 0);
    if is_empty {
        lemma_holds_at_index(s, ne + l, end, 1);
    }
    // the character after the name
    if l > 0 {
        let a0 = attributes.subrange(0, 1);
        lemma_attr_at(s, ne, attributes, 0);
        assert(attributes.subrange(0, 0) =~= Seq::<(Seq<char>, Seq<char>)>::empty());
        lemma_holds_at_index(s, ne, attr_text(attributes[0]), 0);
        assert(s[ne] == ' ');
    } else {
        assert(s[ne] == '/' || s[ne] == '>');
    }
    assert(s[ne] == ' ' || s[ne] == '/' || s[ne] == '>');
    lemma_name_char(name[0]);
    assert(s[i + 1] == name[0]);
    // the dispatch goes to the opening tag
    if matches_at(s, i, "<style"@) {
        if n >= 5 {
            assert forall|m: int| 0 <= m < 5 implies name[m] == "style"@[m] by {
                assert(s.subrange(i, i + 6)[m + 1] == s[i + 1 + m]);
            }
            assert(name.subrange(0, 5) =~= "style"@);
        } else {
            assert(s.subrange(i, i + 6)[n + 1] == s[ne]);
        }
    }
    if matches_at(s, i, "<script"@) {
        if n >= 6 {
            assert forall|m: int| 0 <= m < 6 implies name[m] == "script"@[m] by {
                assert(s.subrange(i, i + 7)[m + 1] == s[i + 1 + m]);
            }
            assert(name.subrange(0, 6) =~= "script"@);
        } else {
            assert(s.subrange(i, i + 7)[n + 1] == s[ne]);
        }
    }
    if matches_at(s, i, "<!"@) {
        assert(s.subrange(i, i + 2)[1] == s[i + 1]);
    }
    if matches_at(s, i, "<!--"@) {
        assert(s.subrange(i, i + 4)[1] == s[i + 1]);
    }
    if matches_at(s, i, "</"@) {
        assert(s.subrange(i, i + 2)[1] == s[i + 1]);
    }
    if matches_at(s, i, "<@"@) {
        assert(s.subrange(i, i + 2)[1] == s[i + 1]);
    }
    // the tag itself
    assert forall|m: int| i + 1 <= m < ne implies in_class(CharClass::Name, #[trigger] s[m]) by {
        assert(s[i + 1 + (m - i - 1)] == name[m - i - 1]);
    }
    lemma_name_char(name[0]);
    lemma_scan_to(s, i + 1, ne, CharClass::Name);
    assert(s.subrange(i + 1, ne) =~= name);
    lemma_attrs_from_m(s, ne, attributes, 0);
    assert(attributes.subrange(0, 0) =~= Seq::<(Seq<char>, Seq<char>)>::empty());
    lemma_scan_to(s, ne + l, ne + l, CharClass::Space);
}

/// Tokens whose text reads back token by token: each printable, and no
/// two texts side by side (they would read back as one).
pub open spec fn printable_seq(ts: Seq<Token>) -> bool {
    &&& forall|k: int| 0 <= k < ts.len() ==> printable(#[trigger] ts[k])
    &&& forall|k: int| 0 <= k < ts.len() - 1 ==> !(#[trigger] ts[k] is Text && ts[k + 1] is Text)
}

/// What a sequence of tokens reads back as.
pub open spec fn normalize_seq(ts: Seq<Token>) -> Seq<Token> {
    ts.map_values(|t: Token| normalize(t))
}

proof fn lemma_doc_text_prefix(ts: Seq<Token>, m: int)
    requires
        0 <= m <= ts.len(),
    ensures
        doc_text(ts.subrange(0, m), Seq::empty()).len() <= doc_text(ts, Seq::empty()).len(),
        doc_text(ts, Seq::empty()).subrange(0, doc_text(ts.subrange(0, m), Seq::empty()).len() as int)
            == doc_text(ts.subrange(0, m), Seq::empty()),
    decreases ts.len() - m,
{
    let e = Seq::<Option<Seq<char>>>::empty();
    if m == ts.len() {
        assert(ts.subrange(0, m) =~= ts);
        assert(doc_text(ts, e).subrange(0, doc_text(ts, e).len() as int) =~= doc_text(ts, e));
    } else {
        lemma_doc_text_prefix(ts, m + 1);
        assert(ts.subrange(0, m + 1).drop_last() =~= ts.subrange(0, m));
        let shorter = doc_text(ts.subrange(0, m), e);
        let longer = doc_text(ts.subrange(0, m + 1), e);
        assert(longer == shorter + token_text(ts[m], None));
        assert(doc_text(ts, e).subrange(0, shorter.len() as int) =~= longer.subrange(0, shorter.len() as int));
        assert(longer.subrange(0, shorter.len() as int) =~= shorter);
    }
}

proof fn lemma_token_at(ts: Seq<Token>, m: int)
    requires
        0 <= m < ts.len(),
    ensures
        holds_at(
            doc_text(ts, Seq::empty()),
            doc_text(ts.subrange(0, m), Seq::empty()).len() as int,
            token_text(ts[m], None),
        ),
        doc_text(ts.subrange(0, m + 1), Seq::empty()).len() == doc_text(ts.subrange(0, m), Seq::empty()).len()
            + token_text(ts[m], None).len(),
{
    let e = Seq::<Option<Seq<char>>>::empty();
    let s = doc_text(ts, e);
    lemma_doc_text_prefix(ts, m + 1);
    assert(ts.subrange(0, m + 1).drop_last() =~= ts.subrange(0, m));
    let longer = doc_text(ts.subrange(0, m + 1), e);
    assert(longer == doc_text(ts.subrange(0, m), e) + token_text(ts[m], None));
    assert(s.subrange(0, longer.len() as int) == longer);
    assert(holds_at(s, 0, longer));
    lemma_holds_split(s, 0, doc_text(ts.subrange(0, m), e), token_text(ts[m], None));
}

/// The text of a printable token that is not text starts with `<`.
proof fn lemma_starts_with_lt(t: Token)
    requires
        printable(t),
        !(t is Text),
    ensures
        token_text(t, None).len() > 0,
        token_text(t, None)[0] == '<',
{
    reveal_strlit("<!DOCTYPE html>");
    reveal_strlit("<!---->");
    reveal_strlit("<");
    reveal_strlit("</");
    assert("<!DOCTYPE html>"@[0] == '<');
    assert("<!---->"@[0] == '<');
    assert("<"@ =~= seq!['<']);
    assert("</"@ =~= seq!['<', '/']);
}

proof fn lemma_token_step(s: Seq<char>, i: int, t: Token)
    requires
        printable(t),
        holds_at(s, i, token_text(t, None)),
        t is Text ==> (i + token_text(t, None).len() == s.len() || s[i + token_text(t, None).len()]
            == '<'),
    ensures
        step(s, i) == Step::Emit(normalize(t), i + token_text(t, None).len()),
        token_text(t, None).len() > 0,
{
    match t {
        Token::DocType => {
            lemma_doctype(s, i);
            reveal_strlit("<!DOCTYPE html>");
        },
        Token::Comment(c) => {
            lemma_comment(s, i, c);
            reveal_strlit("<!---->");
        },
        Token::OpenTag { name, attributes, is_empty } => {
            lemma_open(s, i, name, attributes, is_empty);
            lemma_starts_with_lt(t);
        },
        Token::CloseTag { name } => {
            lemma_close(s, i, name);
            reveal_strlit("</");
            reveal_strlit(">");
        },
        Token::Text(x) => {
            lemma_text(s, i, x);
        },
        _ => {},
    }
}

proof fn lemma_open_stack_prefix(ts: Seq<Token>, m: int)
    requires
        0 <= m <= ts.len(),
        open_stack(ts) is Some,
    ensures
        open_stack(ts.subrange(0, m)) is Some,
    decreases ts.len() - m,
{
    if m == ts.len() {
        assert(ts.subrange(0, m) =~= ts);
    } else {
        lemma_open_stack_prefix(ts, m + 1);
        assert(ts.subrange(0, m + 1).drop_last() =~= ts.subrange(0, m));
    }
}

proof fn lemma_lex_rest(ts: Seq<Token>, k: int)
    requires
        0 <= k <= ts.len(),
        printable_seq(ts),
        well_formed(ts),
        ts.len() <= LEXEME_MEMORY_LIMIT,
    ensures
        lex_from(
            doc_text(ts, Seq::empty()),
            doc_text(ts.subrange(0, k), Seq::empty()).len() as int,
            normalize_seq(ts.subrange(0, k)),
            open_stack(ts.subrange(0, k))->Some_0,
        ) == Ok::<Seq<Token>, (crate::parse::ErrorKind, int)>(normalize_seq(ts)),
    decreases ts.len() - k,
{
    let e = Seq::<Option<Seq<char>>>::empty();
    let s = doc_text(ts, e);
    lemma_open_stack_prefix(ts, k);
    if k == ts.len() {
        assert(ts.subrange(0, k) =~= ts);
        assert(open_stack(ts)->Some_0 =~= Seq::<Seq<char>>::empty());
    } else {
        let i = doc_text(ts.subrange(0, k), e).len() as int;
        let t = ts[k];
        lemma_token_at(ts, k);
        if k + 1 < ts.len() {
            lemma_token_at(ts, k + 1);
            if t is Text {
                assert(!(ts[k + 1] is Text));
                lemma_starts_with_lt(ts[k + 1]);
                lemma_holds_at_index(s, i + token_text(t, None).len(), token_text(ts[k + 1], None), 0);
            }
        } else {
            lemma_doc_text_prefix(ts, k + 1);
            assert(ts.subrange(0, k + 1) =~= ts);
        }
        lemma_token_step(s, i, t);
        lemma_open_stack_prefix(ts, k + 1);
        assert(ts.subrange(0, k + 1).drop_last() =~= ts.subrange(0, k));
        assert(normalize_seq(ts.subrange(0, k)).push(normalize(t)) =~= normalize_seq(
            ts.subrange(0, k + 1),
        ));
        lemma_lex_rest(ts, k + 1);
    }
}

/// What the serializer writes for printable, well-formed tokens within the
/// ceiling lexes back to the same tokens, comments without their text.
pub proof fn lemma_round_trip(ts: Seq<Token>)
    requires
        printable_seq(ts),
        well_formed(ts),
        ts.len() <= LEXEME_MEMORY_LIMIT,
    ensures
        lex_spec(doc_text(ts, Seq::empty())) == Ok::<Seq<Token>, (crate::parse::ErrorKind, int)>(
            normalize_seq(ts),
        ),
{
    lemma_lex_rest(ts, 0);
    assert(ts.subrange(0, 0) =~= Seq::<Token>::empty());
    assert(normalize_seq(ts.subrange(0, 0)) =~= Seq::<Token>::empty());
}

/// Lexing, serializing and lexing again gives the tokens of the first lexing
/// back, comments without their text, whenever those tokens are printable.
pub proof fn lemma_lex_serialize_lex(s: Seq<char>)
    requires
        lex_spec(s) is Ok,
        printable_seq(lex_spec(s)->Ok_0),
    ensures
        lex_spec(doc_text(lex_spec(s)->Ok_0, Seq::empty())) == Ok::<
            Seq<Token>,
            (crate::parse::ErrorKind, int),
        >(normalize_seq(lex_spec(s)->Ok_0)),
{
    crate::parse::lemma_lex_well_formed(s);
    lemma_round_trip(lex_spec(s)->Ok_0);
}

} // verus!
