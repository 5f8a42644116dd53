//! Blueprints: the store of named definitions, span extraction, expansion of
//! one invocation, and the bounded fixed-point compile loop.

use vstd::prelude::*;
use vstd::string::StringExecFns;
use crate::trace::WithContext;
use crate::assoc::{assoc_get, assoc_set, find_key, keys_of, lemma_key_index_bounds, string_keys};
use crate::parse::{
    attr_insert, clone_attributes, is_lex_report, lemma_attrs_view, lex_spec, parse_html, str_is,
    AttrModel, Attributes, HtmlElement, Token, LEXEME_MEMORY_LIMIT,
};
pub use crate::render::{serialize, serialize_mini};

verus! {

/// The largest number of expansion passes.
pub const RECURSION_LIMIT: usize = 256;

/// A blueprint definition or an invocation: attributes and the flat run of
/// tokens strictly between its opening and closing tags.
pub struct Element {
    pub attributes: Attributes,
    pub child_span: Vec<HtmlElement>,
}

/// The model of an element.
pub struct ElementModel {
    pub attributes: AttrModel,
    pub child_span: Seq<Token>,
}

impl View for Element {
    type V = ElementModel;

    open spec fn view(&self) -> ElementModel {
        ElementModel { attributes: self.attributes.deep_view(), child_span: self.child_span.deep_view() }
    }
}

/// The model of a store: names and definitions.
pub type StoreModel = Seq<(Seq<char>, ElementModel)>;

/// Blueprint definitions by name. A later definition of a name replaces an
/// earlier one.
pub struct Templates {
    entries: Vec<(String, Element)>,
}

pub open spec fn entries_view(v: Seq<(String, Element)>) -> StoreModel {
    v.map_values(|p: (String, Element)| (p.0@, p.1@))
}

/// `a` with each entry of `b` set in turn.
pub open spec fn store_merge(a: StoreModel, b: StoreModel) -> StoreModel
    decreases b.len(),
{
    if b.len() == 0 {
        a
    } else {
        let m = store_merge(a, b.drop_last());
        assoc_set(m, b.last().0, b.last().1)
    }
}

impl View for Templates {
    type V = StoreModel;

    closed spec fn view(&self) -> StoreModel {
        entries_view(self.entries@)
    }
}

proof fn lemma_entry_keys(v: Seq<(String, Element)>)
    ensures
        string_keys(v) =~= keys_of(entries_view(v)),
{
}

fn clone_tokens(v: &Vec<HtmlElement>, a: usize, b: usize) -> (r: Vec<HtmlElement>)
    requires
        a <= b <= v@.len(),
    ensures
        r.deep_view() == v.deep_view().subrange(a as int, b as int),
{
    let mut r: Vec<HtmlElement> = Vec::new();
    let mut k = a;
    while k < b
        invariant
            a <= k <= b <= v@.len(),
            r.deep_view() == v.deep_view().subrange(a as int, k as int),
        decreases b - k,
    {
        let ghost before = r.deep_view();
        r.push(v[k].cloned());
        assert(r.deep_view() =~= before.push(v@[k as int]@));
        assert(v.deep_view().subrange(a as int, k + 1) =~= v.deep_view().subrange(a as int, k as int).push(
            v@[k as int]@,
        ));
        k = k + 1;
    }
    r
}

impl Element {
    /// A copy of this element.
    pub fn cloned(&self) -> (r: Element)
        ensures
            r@ == self@,
    {
        let child_span = clone_tokens(&self.child_span, 0, self.child_span.len());
        assert(self.child_span.deep_view().subrange(0, self.child_span@.len() as int)
            =~= self.child_span.deep_view());
        Element { attributes: clone_attributes(&self.attributes), child_span }
    }
}

impl Templates {
    /// An empty store.
    pub fn new() -> (r: Templates)
        ensures
            r@ == Seq::<(Seq<char>, ElementModel)>::empty(),
    {
        let r = Templates { entries: Vec::new() };
        assert(r@ =~= Seq::<(Seq<char>, ElementModel)>::empty());
        r
    }

    /// The number of names defined.
    pub fn len(&self) -> (r: usize)
        ensures
            r == self@.len(),
    {
        self.entries.len()
    }

    /// The definition of `name`, if any.
    pub fn get(&self, name: &String) -> (r: Option<&Element>)
        ensures
            match r {
                Some(e) => assoc_get(self@, name@) == Some(e@),
                None => assoc_get(self@, name@) is None,
            },
    {
        proof {
            lemma_entry_keys(self.entries@);
            lemma_key_index_bounds(keys_of(self@), name@, 0);
        }
        match find_key(&self.entries, name) {
            Some(j) => Some(&self.entries[j].1),
            None => None,
        }
    }

    /// Defines `name` as `element`, replacing an earlier definition.
    pub fn insert(&mut self, name: String, element: Element)
        ensures
            final(self)@ == assoc_set(old(self)@, name@, element@),
    {
        proof {
            lemma_entry_keys(self.entries@);
            lemma_key_index_bounds(keys_of(self@), name@, 0);
        }
        let ghost before = self@;
        let ghost ev = element@;
        match find_key(&self.entries, &name) {
            Some(j) => {
                self.entries[j] = (name, element);
                assert(self@ =~= before.update(j as int, (name@, ev)));
            },
            None => {
                self.entries.push((name, element));
                assert(self@ =~= before.push((name@, ev)));
            },
        }
    }

    /// Adds every definition of `other`, in order; a definition in `other`
    /// replaces one of the same name here.
    pub fn extend(&mut self, other: Templates)
        ensures
            final(self)@ == store_merge(old(self)@, other@),
    {
        let ghost start = self@;
        let ghost om = other@;
        let mut k: usize = 0;
        assert(om.subrange(0, 0) =~= Seq::<(Seq<char>, ElementModel)>::empty());
        while k < other.entries.len()
            invariant
                om == other@,
                om.len() == other.entries@.len(),
                k <= om.len(),
                self@ == store_merge(start, om.subrange(0, k as int)),
            decreases om.len() - k,
        {
            let name = other.entries[k].0.clone();
            let element = other.entries[k].1.cloned();
            assert(om[k as int] == (name@, element@));
            self.insert(name, element);
            assert(om.subrange(0, k + 1).drop_last() =~= om.subrange(0, k as int));
            k = k + 1;
        }
        assert(om.subrange(0, om.len() as int) =~= om);
    }
}

// ---------------------------------------------------------------------------
// Balanced-span extraction.

/// The position of the closing tag that brings the nesting `depth` to zero,
/// scanning from `q`.
pub open spec fn span_end(ts: Seq<Token>, q: int, depth: nat) -> Option<int>
    decreases ts.len() - q,
{
    if q < 0 || q >= ts.len() {
        None
    } else {
        match ts[q] {
            Token::OpenTag { is_empty, .. } => if is_empty {
                span_end(ts, q + 1, depth)
            } else {
                span_end(ts, q + 1, depth + 1)
            },
            Token::CloseTag { .. } => if depth <= 1 {
                Some(q)
            } else {
                span_end(ts, q + 1, (depth - 1) as nat)
            },
            _ => span_end(ts, q + 1, depth),
        }
    }
}

/// The element that opens at `p`, and the position after it: an empty tag
/// alone, or a tag with everything up to its matching closing tag.
pub open spec fn element_at(ts: Seq<Token>, p: int) -> Option<(ElementModel, int)> {
    if p < 0 || p >= ts.len() {
        None
    } else {
        match ts[p] {
            Token::OpenTag { attributes, is_empty, .. } => if is_empty {
                Some((ElementModel { attributes, child_span: Seq::empty() }, p + 1))
            } else {
                match span_end(ts, p + 1, 1) {
                    Some(e) => Some(
                        (ElementModel { attributes, child_span: ts.subrange(p + 1, e) }, e + 1),
                    ),
                    None => None,
                }
            },
            _ => None,
        }
    }
}

pub proof fn lemma_span_end(ts: Seq<Token>, q: int, depth: nat)
    requires
        0 <= q,
    ensures
        span_end(ts, q, depth) matches Some(e) ==> q <= e < ts.len(),
    decreases ts.len() - q,
{
    if q < ts.len() {
        match ts[q] {
            Token::OpenTag { is_empty, .. } => {
                lemma_span_end(ts, q + 1, depth);
                lemma_span_end(ts, q + 1, depth + 1);
            },
            Token::CloseTag { .. } => {
                if depth > 1 {
                    lemma_span_end(ts, q + 1, (depth - 1) as nat);
                }
            },
            _ => lemma_span_end(ts, q + 1, depth),
        }
    }
}

pub proof fn lemma_element_at(ts: Seq<Token>, p: int)
    requires
        0 <= p,
    ensures
        element_at(ts, p) matches Some((e, n)) ==> p < n <= ts.len(),
{
    lemma_span_end(ts, p + 1, 1);
}

/// The element that opens at `p` in `tokens`, and the position after it.
pub fn parse_element(tokens: &Vec<HtmlElement>, p: usize) -> (r: Option<(Element, usize)>)
    requires
        p <= tokens@.len(),
    ensures
        match r {
            Some((e, n)) => element_at(tokens.deep_view(), p as int) == Some((e@, n as int)),
            None => element_at(tokens.deep_view(), p as int) is None,
        },
{
    let ghost ts = tokens.deep_view();
    if p >= tokens.len() {
        return None;
    }
    let attributes = match &tokens[p] {
        HtmlElement::OpenTag { attributes, is_empty, .. } => {
            if *is_empty {
                let child_span: Vec<HtmlElement> = Vec::new();
                assert(child_span.deep_view() =~= Seq::<Token>::empty());
                return Some(
                    (Element { attributes: clone_attributes(attributes), child_span }, p + 1),
                );
            }
            clone_attributes(attributes)
        },
        _ => {
            return None;
        },
    };
    assert(ts[p as int] == tokens@[p as int]@);
    assert(ts[p as int] matches Token::OpenTag { attributes: a, is_empty: false, .. }
        && a == attributes.deep_view());
    let mut depth: usize = 1;
    let mut q: usize = p + 1;
    while q < tokens.len()
        invariant
            p < q <= tokens@.len(),
            ts == tokens.deep_view(),
            1 <= depth <= q - p,
            ts[p as int] matches Token::OpenTag { attributes: a, is_empty: false, .. }
                && a == attributes.deep_view(),
            span_end(ts, p + 1, 1) == span_end(ts, q as int, depth as nat),
        decreases tokens@.len() - q,
    {
        match &tokens[q] {
            HtmlElement::OpenTag { is_empty, .. } => {
                if !*is_empty {
                    depth = depth + 1;
                }
            },
            HtmlElement::CloseTag { .. } => {
                if depth <= 1 {
                    let child_span = clone_tokens(tokens, p + 1, q);
                    return Some((Element { attributes, child_span }, q + 1));
                }
                depth = depth - 1;
            },
            _ => {},
        }
        q = q + 1;
    }
    None
}

// ---------------------------------------------------------------------------
// Expansion of one invocation.

/// One attribute of a definition, applied to the attributes built so far: a
/// value `@var` takes the invocation's value of `var`, or drops the
/// attribute when the invocation has none; any other value is kept.
pub open spec fn bind_one(acc: AttrModel, call: AttrModel, kv: (Seq<char>, Seq<char>)) -> AttrModel {
    if kv.1.len() > 0 && kv.1[0] == '@' {
        match assoc_get(call, kv.1.drop_first()) {
            Some(v) => assoc_set(acc, kv.0, v),
            None => acc,
        }
    } else {
        assoc_set(acc, kv.0, kv.1)
    }
}

/// The attributes of a definition's tag bound against an invocation's.
pub open spec fn bind_attrs(call: AttrModel, def: AttrModel) -> AttrModel
    decreases def.len(),
{
    if def.len() == 0 {
        Seq::empty()
    } else {
        bind_one(bind_attrs(call, def.drop_last()), call, def.last())
    }
}

/// Whether `t` is the content slot.
pub open spec fn is_slot(t: Token) -> bool {
    t matches Token::Directive { name, .. } && name == "children"@
}

/// What one token of a definition's body becomes.
pub open spec fn expand_token(inv: ElementModel, t: Token) -> Seq<Token> {
    match t {
        Token::OpenTag { name, attributes, is_empty } => seq![
            Token::OpenTag { name, attributes: bind_attrs(inv.attributes, attributes), is_empty },
        ],
        _ => if is_slot(t) {
            inv.child_span
        } else {
            seq![t]
        },
    }
}

/// What a definition's body becomes for an invocation.
pub open spec fn expand_seq(inv: ElementModel, body: Seq<Token>) -> Seq<Token>
    decreases body.len(),
{
    if body.len() == 0 {
        Seq::empty()
    } else {
        expand_seq(inv, body.drop_last()) + expand_token(inv, body.last())
    }
}

/// The tokens that the invocation `base` of the definition `template` becomes.
pub open spec fn expand_spec(base: ElementModel, template: ElementModel) -> Seq<Token> {
    expand_seq(base, template.child_span)
}

/// The attributes of a definition's tag bound against the invocation's.
fn bind_attributes(call: &Attributes, def: &Attributes) -> (r: Attributes)
    ensures
        r.deep_view() == bind_attrs(call.deep_view(), def.deep_view()),
{
    let ghost dv = def.deep_view();
    let ghost cv = call.deep_view();
    let mut out: Attributes = Vec::new();
    assert(out.deep_view() =~= Seq::<(Seq<char>, Seq<char>)>::empty());
    assert(dv.subrange(0, 0) =~= Seq::<(Seq<char>, Seq<char>)>::empty());
    let mut j: usize = 0;
    while j < def.len()
        invariant
            dv == def.deep_view(),
            cv == call.deep_view(),
            j <= def@.len(),
            out.deep_view() == bind_attrs(cv, dv.subrange(0, j as int)),
        decreases def@.len() - j,
    {
        proof {
            lemma_attrs_view(*def);
            lemma_attrs_view(*call);
        }
        let key = &def[j].0;
        let value = &def[j].1;
        assert(dv[j as int] == (key@, value@));
        assert(dv.subrange(0, j + 1).drop_last() =~= dv.subrange(0, j as int));
        let vc = crate::text::chars_of(value.as_str());
        if vc.len() > 0 && vc[0] == '@' {
            let var = crate::text::string_of(&vc, 1, vc.len());
            assert(var@ =~= value@.drop_first());
            proof {
                lemma_key_index_bounds(keys_of(cv), var@, 0);
            }
            match find_key(call, &var) {
                Some(m) => {
                    attr_insert(&mut out, key.clone(), call[m].1.clone());
                },
                None => {},
            }
        } else {
            attr_insert(&mut out, key.clone(), value.clone());
        }
        j = j + 1;
    }
    assert(dv.subrange(0, def@.len() as int) =~= dv);
    out
}

/// Appends to `output` what the invocation `base` of the definition
/// `template` becomes: each opening tag with its attributes bound, the
/// content slot replaced by the invocation's body, everything else as it is.
pub fn expand_template(base: &Element, template: &Element, output: &mut Vec<HtmlElement>)
    ensures
        final(output).deep_view() == old(output).deep_view() + expand_spec(base@, template@),
{
    let ghost start = output.deep_view();
    let ghost body = template.child_span.deep_view();
    let mut k: usize = 0;
    assert(body.subrange(0, 0) =~= Seq::<Token>::empty());
    assert(start + Seq::<Token>::empty() =~= start);
    while k < template.child_span.len()
        invariant
            body == template.child_span.deep_view(),
            k <= body.len(),
            output.deep_view() == start + expand_seq(base@, body.subrange(0, k as int)),
        decreases body.len() - k,
    {
        let t = &template.child_span[k];
        let ghost before = output.deep_view();
        assert(body.subrange(0, k + 1).drop_last() =~= body.subrange(0, k as int));
        assert(body[k as int] == t@);
        match t {
            HtmlElement::OpenTag { name, attributes, is_empty } => {
                let bound = bind_attributes(&base.attributes, attributes);
                output.push(
                    HtmlElement::OpenTag { name: name.clone(), attributes: bound, is_empty: *is_empty },
                );
                assert(output.deep_view() =~= before + expand_token(base@, t@));
            },
            HtmlElement::Directive { name, .. } => {
                if str_is(name, "children") {
                    let mut j: usize = 0;
                    let ghost cs = base.child_span.deep_view();
                    assert(before + cs.subrange(0, 0) =~= before);
                    while j < base.child_span.len()
                        invariant
                            cs == base.child_span.deep_view(),
                            j <= cs.len(),
                            output.deep_view() == before + cs.subrange(0, j as int),
                        decreases cs.len() - j,
                    {
                        let ghost b2 = output.deep_view();
                        output.push(base.child_span[j].cloned());
                        assert(output.deep_view() =~= b2.push(cs[j as int]));
                        assert(cs.subrange(0, j + 1) =~= cs.subrange(0, j as int).push(cs[j as int]));
                        j = j + 1;
                    }
                    assert(cs.subrange(0, cs.len() as int) =~= cs);
                } else {
                    output.push(t.cloned());
                    assert(output.deep_view() =~= before + expand_token(base@, t@));
                }
            },
            _ => {
                output.push(t.cloned());
                assert(output.deep_view() =~= before + expand_token(base@, t@));
            },
        }
        assert(output.deep_view() =~= start + expand_seq(base@, body.subrange(0, k + 1)));
        k = k + 1;
    }
    assert(body.subrange(0, body.len() as int) =~= body);
}

// ---------------------------------------------------------------------------
// Compilation passes.

/// Whether `t` invokes a blueprint of `store`.
pub open spec fn is_invocation(t: Token, store: StoreModel) -> bool {
    t matches Token::OpenTag { name, .. } && assoc_get(store, name) is Some
}

/// One pass from position `q`: each invocation replaced by its expansion,
/// every other token copied; with the number of expansions made, or the
/// name of the first invocation whose span could not be extracted.
pub open spec fn pass_from(ts: Seq<Token>, q: int, store: StoreModel) -> Result<
    (Seq<Token>, nat),
    Seq<char>,
>
    decreases ts.len() - q,
    via pass_from_decreases
{
    if q < 0 || q >= ts.len() {
        Ok((Seq::empty(), 0))
    } else {
        match ts[q] {
            Token::OpenTag { name, .. } => match assoc_get(store, name) {
                Some(def) => match element_at(ts, q) {
                    None => Err(name),
                    Some((inv, nq)) => match pass_from(ts, nq, store) {
                        Err(n) => Err(n),
                        Ok((rest, c)) => Ok((expand_spec(inv, def) + rest, c + 1)),
                    },
                },
                None => match pass_from(ts, q + 1, store) {
                    Err(n) => Err(n),
                    Ok((rest, c)) => Ok((seq![ts[q]] + rest, c)),
                },
            },
            _ => match pass_from(ts, q + 1, store) {
                Err(n) => Err(n),
                Ok((rest, c)) => Ok((seq![ts[q]] + rest, c)),
            },
        }
    }
}

#[via_fn]
proof fn pass_from_decreases(ts: Seq<Token>, q: int, store: StoreModel) {
    if q >= 0 {
        lemma_element_at(ts, q);
    }
}

/// One pass over the whole sequence.
pub open spec fn pass_spec(ts: Seq<Token>, store: StoreModel) -> Result<(Seq<Token>, nat), Seq<char>> {
    pass_from(ts, 0, store)
}

/// `r` with `out` put in front of its tokens and `c` added to its count.
pub open spec fn prepend(out: Seq<Token>, c: nat, r: Result<(Seq<Token>, nat), Seq<char>>) -> Result<
    (Seq<Token>, nat),
    Seq<char>,
> {
    match r {
        Err(n) => Err(n),
        Ok((rest, k)) => Ok((out + rest, c + k)),
    }
}

/// One pass over `source`: the new tokens and the number of expansions, or
/// an error naming the invocation whose span could not be extracted.
pub fn compilation_pass(source: &Vec<HtmlElement>, templates: &Templates) -> (r: crate::trace::Result<
    (Vec<HtmlElement>, usize),
>)
    ensures
        match pass_spec(source.deep_view(), templates@) {
            Ok((out, c)) => r matches Ok((v, n)) && v.deep_view() == out && n == c,
            Err(name) => r matches Err(e) && is_usage_report(e, name),
        },
{
    let ghost ts = source.deep_view();
    let ghost st = templates@;
    let mut output: Vec<HtmlElement> = Vec::new();
    let mut num_expanded: usize = 0;
    let mut q: usize = 0;
    proof {
        assert(output.deep_view() =~= Seq::<Token>::empty());
        if let Ok((rest, k)) = pass_from(ts, 0, st) {
            assert(Seq::<Token>::empty() + rest =~= rest);
        }
    }
    while q < source.len()
        invariant
            ts == source.deep_view(),
            st == templates@,
            q <= ts.len(),
            num_expanded <= q,
            pass_spec(ts, st) == prepend(output.deep_view(), num_expanded as nat, pass_from(ts, q as int, st)),
        decreases ts.len() - q,
    {
        let ghost out0 = output.deep_view();
        let t = &source[q];
        assert(ts[q as int] == t@);
        let mut copy = true;
        if let HtmlElement::OpenTag { name, .. } = t {
            if let Some(tmp) = templates.get(name) {
                proof {
                    lemma_element_at(ts, q as int);
                }
                let (base, nq) = match parse_element(source, q).ctx(frame("at blueprint usage ", name)) {
                    Ok(found) => found,
                    Err(e) => {
                        return Err(e);
                    },
                };
                expand_template(&base, tmp, &mut output);
                proof {
                    if let Ok((rest, k)) = pass_from(ts, nq as int, st) {
                        assert(out0 + (expand_spec(base@, tmp@) + rest) =~= output.deep_view() + rest);
                    }
                }
                num_expanded = num_expanded + 1;
                q = nq;
                copy = false;
            }
        }
        if copy {
            output.push(t.cloned());
            proof {
                assert(output.deep_view() =~= out0.push(ts[q as int]));
                if let Ok((rest, k)) = pass_from(ts, q + 1, st) {
                    assert(out0 + (seq![ts[q as int]] + rest) =~= output.deep_view() + rest);
                }
            }
            q = q + 1;
        }
    }
    proof {
        assert(output.deep_view() + Seq::<Token>::empty() =~= output.deep_view());
    }
    Ok((output, num_expanded))
}

// ---------------------------------------------------------------------------
// The fixed-point driver.

/// Why compilation stopped without a result.
pub enum CompileFailure {
    /// The span of an invocation of this name could not be extracted.
    Usage(Seq<char>),
    /// The document reached the token ceiling while expanding.
    MemoryLimit,
    /// Expansion went on for the largest number of passes.
    RecursionLimit,
}

/// Passes from the `pass`-th on, until one expands nothing. After each
/// pass that expanded something the size guard is checked, then the pass
/// count.
pub open spec fn run_passes(ts: Seq<Token>, store: StoreModel, pass: int) -> Result<
    Seq<Token>,
    CompileFailure,
>
    decreases RECURSION_LIMIT - pass,
{
    match pass_spec(ts, store) {
        Err(n) => Err(CompileFailure::Usage(n)),
        Ok((out, c)) => if c == 0 {
            Ok(out)
        } else if out.len() >= LEXEME_MEMORY_LIMIT {
            Err(CompileFailure::MemoryLimit)
        } else if pass >= RECURSION_LIMIT {
            Err(CompileFailure::RecursionLimit)
        } else {
            run_passes(out, store, pass + 1)
        },
    }
}

/// The compiled form of the tokens `ts`.
pub open spec fn compile_spec(ts: Seq<Token>, store: StoreModel) -> Result<Seq<Token>, CompileFailure> {
    run_passes(ts, store, 1)
}

/// The report of an invocation whose span could not be extracted.
pub open spec fn is_usage_report(e: crate::trace::Error, name: Seq<char>) -> bool {
    &&& e.kind == crate::trace::ErrorKind::Unknown
    &&& e.reason@ == "Missing expected value"@
    &&& e.backtrace.deep_view() == seq!["at blueprint usage "@ + name]
}

/// The report of a compilation failure.
pub open spec fn is_compile_report(e: crate::trace::Error, f: CompileFailure) -> bool {
    match f {
        CompileFailure::Usage(name) => is_usage_report(e, name),
        CompileFailure::MemoryLimit => {
            &&& e.kind == crate::trace::ErrorKind::Memory
            &&& e.reason@ == "reached memory limit expanding blueprints"@
            &&& e.backtrace@.len() == 0
        },
        CompileFailure::RecursionLimit => {
            &&& e.kind == crate::trace::ErrorKind::Compilation
            &&& e.reason@ == "reached recursion limit expanding blueprints"@
            &&& e.backtrace@.len() == 0
        },
    }
}

/// A context frame naming an operation on a blueprint.
fn frame(prefix: &str, name: &String) -> (r: String)
    ensures
        r@ == prefix@ + name@,
{
    let mut f = String::from_str(prefix);
    f.append(name.as_str());
    f
}

/// Expands blueprint invocations in `tokens`, pass after pass, until a pass
/// expands nothing. Fails when a pass leaves the document at the token
/// ceiling, or when the largest number of passes is used up.
pub fn compile_tokens(tokens: Vec<HtmlElement>, templates: &Templates) -> (r: crate::trace::Result<
    Vec<HtmlElement>,
>)
    ensures
        match compile_spec(tokens.deep_view(), templates@) {
            Ok(out) => r matches Ok(v) && v.deep_view() == out,
            Err(f) => r matches Err(e) && is_compile_report(e, f),
        },
        r matches Ok(v) ==> no_invocations(v.deep_view(), templates@),
{
    proof {
        if compile_spec(tokens.deep_view(), templates@) is Ok {
            lemma_compile_idempotent(tokens.deep_view(), templates@);
        }
    }
    let ghost st = templates@;
    let ghost goal = compile_spec(tokens.deep_view(), st);
    let mut source = tokens;
    let mut i: usize = 1;
    loop
        invariant
            1 <= i <= RECURSION_LIMIT,
            st == templates@,
            goal == compile_spec(tokens.deep_view(), st),
            goal == run_passes(source.deep_view(), st, i as int),
            goal is Ok ==> no_invocations(goal->Ok_0, st),
        decreases RECURSION_LIMIT - i,
    {
        let ghost prev = source.deep_view();
        let (new_source, num_expanded) = match compilation_pass(&source, templates) {
            Ok(p) => p,
            Err(e) => {
                return Err(e);
            },
        };
        source = new_source;
        assert(pass_spec(prev, st) == Ok::<(Seq<Token>, nat), Seq<char>>(
            (source.deep_view(), num_expanded as nat),
        ));
        if num_expanded == 0 {
            return Ok(source);
        }
        if source.len() >= LEXEME_MEMORY_LIMIT {
            return Err(
                crate::trace::Error::new(
                    crate::trace::ErrorKind::Memory,
                    "reached memory limit expanding blueprints",
                ),
            );
        }
        if i == RECURSION_LIMIT {
            return Err(compilation_error_limit());
        }
        i = i + 1;
    }
}

fn compilation_error_limit() -> (e: crate::trace::Error)
    ensures
        is_compile_report(e, CompileFailure::RecursionLimit),
{
    crate::trace::compilation_error("reached recursion limit expanding blueprints")
}

/// Lexes `source` and compiles it against `templates`.
pub fn compile_source(source: &str, templates: &Templates) -> (r: crate::trace::Result<Vec<HtmlElement>>)
    requires
        source@.len() < usize::MAX,
    ensures
        match lex_spec(source@) {
            Err((kind, at)) => r matches Err(e) && is_lex_report(e, source@, kind, at),
            Ok(ts) => match compile_spec(ts, templates@) {
                Ok(out) => r matches Ok(v) && v.deep_view() == out,
                Err(f) => r matches Err(e) && is_compile_report(e, f),
            },
        },
{
    let tokens = parse_html(source)?;
    compile_tokens(tokens, templates)
}

// ---------------------------------------------------------------------------
// Building a store from definitions.

/// Walks the top level of `ts` from `q`: each non-empty opening tag starts a
/// definition named after it, comments are skipped, and any other token is
/// set aside as unexpected. Gives the store and the tokens set aside, or the
/// name of a definition whose span could not be extracted.
pub open spec fn collect_from(ts: Seq<Token>, q: int, store: StoreModel, skipped: Seq<Token>) -> Result<
    (StoreModel, Seq<Token>),
    Seq<char>,
>
    decreases ts.len() - q,
    via collect_from_decreases
{
    if q < 0 || q >= ts.len() {
        Ok((store, skipped))
    } else {
        match ts[q] {
            Token::OpenTag { name, is_empty, .. } => if is_empty {
                collect_from(ts, q + 1, store, skipped.push(ts[q]))
            } else {
                match element_at(ts, q) {
                    None => Err(name),
                    Some((e, nq)) => collect_from(ts, nq, assoc_set(store, name, e), skipped),
                }
            },
            Token::Comment(_) => collect_from(ts, q + 1, store, skipped),
            _ => collect_from(ts, q + 1, store, skipped.push(ts[q])),
        }
    }
}

#[via_fn]
proof fn collect_from_decreases(ts: Seq<Token>, q: int, store: StoreModel, skipped: Seq<Token>) {
    if q >= 0 {
        lemma_element_at(ts, q);
    }
}

/// The store that the definitions `ts` make, and the unexpected top-level
/// tokens.
pub open spec fn collect_spec(ts: Seq<Token>) -> Result<(StoreModel, Seq<Token>), Seq<char>> {
    collect_from(ts, 0, Seq::empty(), Seq::empty())
}

/// The report of a definition whose span could not be extracted.
pub open spec fn is_definition_report(e: crate::trace::Error, name: Seq<char>) -> bool {
    &&& e.kind == crate::trace::ErrorKind::Unknown
    &&& e.reason@ == "Missing expected value"@
    &&& e.backtrace.deep_view() == seq!["at blueprint definition "@ + name]
}

/// The store that the definitions in `tokens` make, and the top-level tokens
/// that are neither definitions nor comments.
pub fn collect_templates(tokens: &Vec<HtmlElement>) -> (r: crate::trace::Result<(Templates, Vec<HtmlElement>)>)
    ensures
        match collect_spec(tokens.deep_view()) {
            Ok((st, sk)) => r matches Ok((t, w)) && t@ == st && w.deep_view() == sk,
            Err(name) => r matches Err(e) && is_definition_report(e, name),
        },
{
    let ghost ts = tokens.deep_view();
    let mut templates = Templates::new();
    let mut skipped: Vec<HtmlElement> = Vec::new();
    assert(skipped.deep_view() =~= Seq::<Token>::empty());
    let mut q: usize = 0;
    while q < tokens.len()
        invariant
            ts == tokens.deep_view(),
            q <= ts.len(),
            collect_spec(ts) == collect_from(ts, q as int, templates@, skipped.deep_view()),
        decreases ts.len() - q,
    {
        let t = &tokens[q];
        assert(ts[q as int] == t@);
        proof {
            lemma_element_at(ts, q as int);
        }
        match t {
            HtmlElement::OpenTag { name, is_empty, .. } => {
                if *is_empty {
                    let ghost before = skipped.deep_view();
                    skipped.push(t.cloned());
                    assert(skipped.deep_view() =~= before.push(ts[q as int]));
                    q = q + 1;
                } else {
                    let (head, nq) = match parse_element(tokens, q).ctx(
                        frame("at blueprint definition ", name),
                    ) {
                        Ok(found) => found,
                        Err(e) => {
                            return Err(e);
                        },
                    };
                    templates.insert(name.clone(), head);
                    q = nq;
                }
            },
            HtmlElement::Comment(_) => {
                q = q + 1;
            },
            _ => {
                let ghost before = skipped.deep_view();
                skipped.push(t.cloned());
                assert(skipped.deep_view() =~= before.push(ts[q as int]));
                q = q + 1;
            },
        }
    }
    Ok((templates, skipped))
}

/// Lexes `source` and builds a store from its top-level definitions. Also
/// gives the top-level tokens that are neither definitions nor comments, so
/// that the caller can warn about them.
pub fn parse_templates(source: &str) -> (r: crate::trace::Result<(Templates, Vec<HtmlElement>)>)
    requires
        source@.len() < usize::MAX,
    ensures
        match lex_spec(source@) {
            Err((kind, at)) => r matches Err(e) && is_lex_report(e, source@, kind, at),
            Ok(ts) => match collect_spec(ts) {
                Ok((st, sk)) => r matches Ok((t, w)) && t@ == st && w.deep_view() == sk,
                Err(name) => r matches Err(e) && is_definition_report(e, name),
            },
        },
{
    let tokens = parse_html(source)?;
    collect_templates(&tokens)
}

// ---------------------------------------------------------------------------
// Laws of compilation.

/// No token of `ts` invokes a blueprint of `store`.
pub open spec fn no_invocations(ts: Seq<Token>, store: StoreModel) -> bool {
    forall|i: int| 0 <= i < ts.len() ==> !is_invocation(#[trigger] ts[i], store)
}

proof fn lemma_pass_without_invocations(ts: Seq<Token>, q: int, store: StoreModel)
    requires
        0 <= q <= ts.len(),
        no_invocations(ts, store),
    ensures
        pass_from(ts, q, store) == Ok::<(Seq<Token>, nat), Seq<char>>(
            (ts.subrange(q, ts.len() as int), 0),
        ),
    decreases ts.len() - q,
{
    if q < ts.len() {
        lemma_pass_without_invocations(ts, q + 1, store);
        assert(!is_invocation(ts[q], store));
        assert(seq![ts[q]] + ts.subrange(q + 1, ts.len() as int) =~= ts.subrange(q, ts.len() as int));
    } else {
        assert(ts.subrange(q, ts.len() as int) =~= Seq::<Token>::empty());
    }
}

proof fn lemma_pass_zero(ts: Seq<Token>, q: int, store: StoreModel)
    requires
        0 <= q <= ts.len(),
        pass_from(ts, q, store) matches Ok((out, c)) && c == 0,
    ensures
        pass_from(ts, q, store) == Ok::<(Seq<Token>, nat), Seq<char>>(
            (ts.subrange(q, ts.len() as int), 0),
        ),
        forall|i: int| q <= i < ts.len() ==> !is_invocation(#[trigger] ts[i], store),
    decreases ts.len() - q,
{
    if q < ts.len() {
        lemma_element_at(ts, q);
        if is_invocation(ts[q], store) {
            assert(false);
        } else {
            lemma_pass_zero(ts, q + 1, store);
            assert(seq![ts[q]] + ts.subrange(q + 1, ts.len() as int) =~= ts.subrange(
                q,
                ts.len() as int,
            ));
        }
    } else {
        assert(ts.subrange(q, ts.len() as int) =~= Seq::<Token>::empty());
    }
}

/// A sequence without invocations is a fixed point: a pass copies it and
/// expands nothing, and compiling it gives it back.
pub proof fn lemma_fixed_point(ts: Seq<Token>, store: StoreModel)
    requires
        no_invocations(ts, store),
    ensures
        pass_spec(ts, store) == Ok::<(Seq<Token>, nat), Seq<char>>((ts, 0)),
        compile_spec(ts, store) == Ok::<Seq<Token>, CompileFailure>(ts),
{
    lemma_pass_without_invocations(ts, 0, store);
    assert(ts.subrange(0, ts.len() as int) =~= ts);
}

proof fn lemma_run_passes_result(ts: Seq<Token>, store: StoreModel, pass: int)
    requires
        run_passes(ts, store, pass) is Ok,
    ensures
        no_invocations(run_passes(ts, store, pass)->Ok_0, store),
        ts.len() <= LEXEME_MEMORY_LIMIT ==> run_passes(ts, store, pass)->Ok_0.len()
            <= LEXEME_MEMORY_LIMIT,
    decreases RECURSION_LIMIT - pass,
{
    if let Ok((out, c)) = pass_spec(ts, store) {
        if c == 0 {
            lemma_pass_zero(ts, 0, store);
            assert(ts.subrange(0, ts.len() as int) =~= ts);
        } else if out.len() < LEXEME_MEMORY_LIMIT && pass < RECURSION_LIMIT {
            lemma_run_passes_result(out, store, pass + 1);
        }
    }
}

/// Compiling is idempotent: what `compile` gives holds no invocation, and
/// compiling it again gives it back with a pass that expands nothing.
pub proof fn lemma_compile_idempotent(ts: Seq<Token>, store: StoreModel)
    requires
        compile_spec(ts, store) is Ok,
    ensures
        no_invocations(compile_spec(ts, store)->Ok_0, store),
        pass_spec(compile_spec(ts, store)->Ok_0, store) == Ok::<(Seq<Token>, nat), Seq<char>>(
            (compile_spec(ts, store)->Ok_0, 0),
        ),
        compile_spec(compile_spec(ts, store)->Ok_0, store) == compile_spec(ts, store),
{
    lemma_run_passes_result(ts, store, 1);
    lemma_fixed_point(compile_spec(ts, store)->Ok_0, store);
}

/// The compiled document never exceeds the token ceiling when its input did
/// not.
pub proof fn lemma_compile_within_ceiling(ts: Seq<Token>, store: StoreModel)
    requires
        ts.len() <= LEXEME_MEMORY_LIMIT,
        compile_spec(ts, store) is Ok,
    ensures
        compile_spec(ts, store)->Ok_0.len() <= LEXEME_MEMORY_LIMIT,
{
    lemma_run_passes_result(ts, store, 1);
}

/// The size guard comes before the pass guard: a pass that expands
/// something and leaves the document at the token ceiling ends compilation
/// with the memory-limit failure, even on the last allowed pass.
pub proof fn lemma_size_guard_first(ts: Seq<Token>, store: StoreModel, pass: int)
    requires
        1 <= pass <= RECURSION_LIMIT,
        pass_spec(ts, store) matches Ok((out, c)) && c > 0 && out.len() >= LEXEME_MEMORY_LIMIT,
    ensures
        run_passes(ts, store, pass) == Err::<Seq<Token>, CompileFailure>(
            CompileFailure::MemoryLimit,
        ),
{
}

/// The body of a blueprint that does nothing but invoke itself, with or
/// without a closing tag.
pub open spec fn self_invoking(name: Seq<char>, attributes: AttrModel, is_empty: bool) -> Seq<Token> {
    if is_empty {
        seq![Token::OpenTag { name, attributes, is_empty: true }]
    } else {
        seq![
            Token::OpenTag { name, attributes, is_empty: false },
            Token::CloseTag { name },
        ]
    }
}

proof fn lemma_self_invoking_pass(
    name: Seq<char>,
    a: AttrModel,
    b: AttrModel,
    is_empty: bool,
    store: StoreModel,
)
    requires
        assoc_get(store, name) matches Some(def) && def.child_span == self_invoking(name, a, is_empty),
    ensures
        pass_spec(self_invoking(name, b, is_empty), store) == Ok::<(Seq<Token>, nat), Seq<char>>(
            (self_invoking(name, bind_attrs(b, a), is_empty), 1),
        ),
{
    let ts = self_invoking(name, b, is_empty);
    let def = assoc_get(store, name)->Some_0;
    let inv = ElementModel { attributes: b, child_span: Seq::empty() };
    let body = def.child_span;
    let out = self_invoking(name, bind_attrs(b, a), is_empty);
    if is_empty {
        assert(element_at(ts, 0) == Some((inv, 1int)));
        assert(pass_from(ts, 1, store) == Ok::<(Seq<Token>, nat), Seq<char>>((Seq::empty(), 0)));
        assert(body.drop_last() =~= Seq::<Token>::empty());
        assert(expand_seq(inv, body.drop_last()) == Seq::<Token>::empty());
        assert(body.last() == Token::OpenTag { name, attributes: a, is_empty: true });
        assert(expand_token(inv, body.last()) == seq![
            Token::OpenTag { name, attributes: bind_attrs(b, a), is_empty: true },
        ]);
        assert(expand_spec(inv, def) =~= out);
    } else {
        assert(ts.subrange(1, 1) =~= Seq::<Token>::empty());
        assert(span_end(ts, 1, 1) == Some(1int));
        assert(element_at(ts, 0) == Some((inv, 2int)));
        assert(pass_from(ts, 2, store) == Ok::<(Seq<Token>, nat), Seq<char>>((Seq::empty(), 0)));
        assert(body.drop_last().drop_last() =~= Seq::<Token>::empty());
        assert(!is_slot(body.last()));
        assert(expand_seq(inv, body.drop_last().drop_last()) == Seq::<Token>::empty());
        assert(body.drop_last().last() == Token::OpenTag { name, attributes: a, is_empty: false });
        assert(expand_seq(inv, body.drop_last()) =~= seq![
            Token::OpenTag { name, attributes: bind_attrs(b, a), is_empty: false },
        ]);
        assert(expand_spec(inv, def) =~= out);
    }
    assert(expand_spec(inv, def) + Seq::<Token>::empty() =~= out);
}

proof fn lemma_self_invoking_from(
    name: Seq<char>,
    a: AttrModel,
    b: AttrModel,
    is_empty: bool,
    store: StoreModel,
    pass: int,
)
    requires
        1 <= pass <= RECURSION_LIMIT,
        assoc_get(store, name) matches Some(def) && def.child_span == self_invoking(name, a, is_empty),
    ensures
        run_passes(self_invoking(name, b, is_empty), store, pass) == Err::<Seq<Token>, CompileFailure>(
            CompileFailure::RecursionLimit,
        ),
    decreases RECURSION_LIMIT - pass,
{
    lemma_self_invoking_pass(name, a, b, is_empty, store);
    if pass < RECURSION_LIMIT {
        lemma_self_invoking_from(name, a, bind_attrs(b, a), is_empty, store, pass + 1);
    }
}

/// A blueprint whose body only invokes itself makes an invocation of it
/// fail with the recursion-limit failure once every pass is used up: each
/// pass expands one invocation and the document keeps its size.
pub proof fn lemma_self_invocation_hits_pass_limit(
    name: Seq<char>,
    a: AttrModel,
    b: AttrModel,
    is_empty: bool,
    store: StoreModel,
)
    requires
        assoc_get(store, name) matches Some(def) && def.child_span == self_invoking(name, a, is_empty),
    ensures
        compile_spec(self_invoking(name, b, is_empty), store) == Err::<Seq<Token>, CompileFailure>(
            CompileFailure::RecursionLimit,
        ),
{
    lemma_self_invoking_from(name, a, b, is_empty, store, 1);
}

} // verus!
