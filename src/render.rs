//! The serializer: tokens back to text. A directive is rendered from text
//! that the caller's directive table produced for it, or as an inert
//! placeholder when there is none.

use vstd::prelude::*;
use vstd::string::StringExecFns;
use crate::parse::{lemma_attrs_view, AttrModel, Attributes, HtmlElement, Token};

verus! {

/// What a directive becomes when no text was produced for it.
pub open spec fn inert() -> Seq<char> {
    "<!-- -->"@
}

/// ` key` for an empty value, else ` key="value"`.
pub open spec fn attr_text(kv: (Seq<char>, Seq<char>)) -> Seq<char> {
    if kv.1.len() == 0 {
        " "@ + kv.0
    } else {
        " "@ + kv.0 + "=\""@ + kv.1 + "\""@
    }
}

/// The attributes in order, each with a leading space.
pub open spec fn attrs_text(a: AttrModel) -> Seq<char>
    decreases a.len(),
{
    if a.len() == 0 {
        Seq::empty()
    } else {
        attrs_text(a.drop_last()) + attr_text(a.last())
    }
}

/// The text of a directive: what was produced for it, or the placeholder.
pub open spec fn directive_text(produced: Option<Seq<char>>) -> Seq<char> {
    match produced {
        Some(t) => t,
        None => inert(),
    }
}

/// The text of one token; a directive becomes `produced` or the placeholder.
pub open spec fn token_text(t: Token, produced: Option<Seq<char>>) -> Seq<char> {
    match t {
        Token::DocType => "<!DOCTYPE html>"@,
        Token::Comment(_) => "<!---->"@,
        Token::OpenTag { name, attributes, is_empty } => if is_empty {
            "<"@ + name + attrs_text(attributes) + "/>"@
        } else {
            "<"@ + name + attrs_text(attributes) + ">"@
        },
        Token::CloseTag { name } => "</"@ + name + ">"@,
        Token::Style { attributes, contents } => "<style"@ + attrs_text(attributes) + ">\n"@
            + contents + "\n</style>"@,
        Token::Script { attributes, contents } => "<script"@ + attrs_text(attributes) + ">\n"@
            + contents + "\n</script>"@,
        Token::Text(t) => t,
        Token::Directive { .. } => directive_text(produced),
    }
}

/// The number of directives in `ts`.
pub open spec fn count_directives(ts: Seq<Token>) -> nat
    decreases ts.len(),
{
    if ts.len() == 0 {
        0
    } else {
        count_directives(ts.drop_last()) + if ts.last() is Directive {
            1nat
        } else {
            0nat
        }
    }
}

/// The text produced for the `k`-th directive, if any.
pub open spec fn produced_at(produced: Seq<Option<Seq<char>>>, k: nat) -> Option<Seq<char>> {
    if k < produced.len() {
        produced[k as int]
    } else {
        None
    }
}

/// The text of `ts`: each token's text in order, the `k`-th directive
/// rendered from `produced[k]`.
pub open spec fn doc_text(ts: Seq<Token>, produced: Seq<Option<Seq<char>>>) -> Seq<char>
    decreases ts.len(),
{
    if ts.len() == 0 {
        Seq::empty()
    } else {
        doc_text(ts.drop_last(), produced) + token_text(
            ts.last(),
            produced_at(produced, count_directives(ts.drop_last())),
        )
    }
}

/// The attributes as text, each with a leading space.
pub fn serialize_attributes(attr: &Attributes) -> (r: String)
    ensures
        r@ == attrs_text(attr.deep_view()),
{
    let ghost a = attr.deep_view();
    let mut t = String::new();
    let mut j: usize = 0;
    assert(a.subrange(0, 0) =~= Seq::<(Seq<char>, Seq<char>)>::empty());
    while j < attr.len()
        invariant
            a == attr.deep_view(),
            j <= a.len(),
            t@ == attrs_text(a.subrange(0, j as int)),
        decreases a.len() - j,
    {
        proof {
            lemma_attrs_view(*attr);
        }
        let k = &attr[j].0;
        let v = &attr[j].1;
        assert(a[j as int] == (k@, v@));
        assert(a.subrange(0, j + 1).drop_last() =~= a.subrange(0, j as int));
        let ghost t0 = t@;
        t.append(" ");
        t.append(k.as_str());
        if !v.as_str().is_empty() {
            t.append("=\"");
            t.append(v.as_str());
            t.append("\"");
            assert(t@ =~= t0 + attr_text((k@, v@)));
        } else {
            assert(t@ =~= t0 + attr_text((k@, v@)));
        }
        j = j + 1;
    }
    assert(a.subrange(0, a.len() as int) =~= a);
    t
}

impl HtmlElement {
    /// The text of this token. A directive becomes `produced`, the text its
    /// directive made, or the inert placeholder when there is none.
    pub fn serialize_with(&self, produced: Option<&String>) -> (r: String)
        ensures
            r@ == token_text(
                self@,
                match produced {
                    Some(p) => Some(p@),
                    None => None,
                },
            ),
    {
        match self {
            HtmlElement::DocType => String::from_str("<!DOCTYPE html>"),
            HtmlElement::Comment(_) => String::from_str("<!---->"),
            HtmlElement::OpenTag { name, attributes, is_empty } => {
                let mut t = String::from_str("<");
                t.append(name.as_str());
                let a = serialize_attributes(attributes);
                t.append(a.as_str());
                if *is_empty {
                    t.append("/>");
                } else {
                    t.append(">");
                }
                t
            },
            HtmlElement::CloseTag { name } => {
                let mut t = String::from_str("</");
                t.append(name.as_str());
                t.append(">");
                t
            },
            HtmlElement::Style { attributes, contents } => {
                let mut t = String::from_str("<style");
                let a = serialize_attributes(attributes);
                t.append(a.as_str());
                t.append(">\n");
                t.append(contents.as_str());
                t.append("\n</style>");
                t
            },
            HtmlElement::Script { attributes, contents } => {
                let mut t = String::from_str("<script");
                let a = serialize_attributes(attributes);
                t.append(a.as_str());
                t.append(">\n");
                t.append(contents.as_str());
                t.append("\n</script>");
                t
            },
            HtmlElement::Text(t) => t.clone(),
            HtmlElement::Directive { .. } => match produced {
                Some(p) => p.clone(),
                None => String::from_str("<!-- -->"),
            },
        }
    }

    /// The text of this token, with a directive as the inert placeholder.
    pub fn serialize(&self) -> (r: String)
        ensures
            r@ == token_text(self@, None),
    {
        self.serialize_with(None)
    }
}

/// The text of `output`; the `k`-th directive is rendered from
/// `produced[k]`, or as the inert placeholder where that is missing.
pub fn serialize_with(output: &Vec<HtmlElement>, produced: &Vec<Option<String>>) -> (r: String)
    ensures
        r@ == doc_text(output.deep_view(), produced.deep_view()),
{
    let ghost ts = output.deep_view();
    let ghost pv = produced.deep_view();
    let mut t = String::new();
    let mut k: usize = 0;
    let mut n_dir: usize = 0;
    assert(ts.subrange(0, 0) =~= Seq::<Token>::empty());
    while k < output.len()
        invariant
            ts == output.deep_view(),
            pv == produced.deep_view(),
            k <= ts.len(),
            n_dir <= k,
            n_dir == count_directives(ts.subrange(0, k as int)),
            t@ == doc_text(ts.subrange(0, k as int), pv),
        decreases ts.len() - k,
    {
        let tok = &output[k];
        assert(ts[k as int] == tok@);
        assert(ts.subrange(0, k + 1).drop_last() =~= ts.subrange(0, k as int));
        let piece = if n_dir < produced.len() {
            match &produced[n_dir] {
                Some(p) => tok.serialize_with(Some(p)),
                None => tok.serialize_with(None),
            }
        } else {
            tok.serialize_with(None)
        };
        t.append(piece.as_str());
        if let HtmlElement::Directive { .. } = tok {
            n_dir = n_dir + 1;
        }
        k = k + 1;
    }
    assert(ts.subrange(0, ts.len() as int) =~= ts);
    t
}

/// The text of `output`, with every directive as the inert placeholder.
pub fn serialize(output: &Vec<HtmlElement>) -> (r: String)
    ensures
        r@ == doc_text(output.deep_view(), Seq::empty()),
{
    let produced: Vec<Option<String>> = Vec::new();
    assert(produced.deep_view() =~= Seq::<Option<Seq<char>>>::empty());
    serialize_with(output, &produced)
}

/// The text of `output`, as `serialize` gives it.
pub fn serialize_mini(output: &Vec<HtmlElement>) -> (r: String)
    ensures
        r@ == doc_text(output.deep_view(), Seq::empty()),
{
    serialize(output)
}

} // verus!
