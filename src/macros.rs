//! Named macros: tags that pull other files into a page. The library decides
//! what a macro asks for and what text it makes; reading the file happens
//! outside it.

use vstd::prelude::*;
use vstd::string::StringExecFns;
use crate::assoc::assoc_get;
use crate::directives::attribute;
use crate::parse::{str_is, Attributes};
use crate::trace::{compilation_error, Error, ErrorKind};

verus! {

/// The built-in macros.
#[derive(Clone, Copy, Debug, PartialEq, Eq, Structural)]
pub enum Macro {
    /// Inlines a file, as a style block, a script block, or as it is.
    Include,
}

/// The built-in macros by name.
pub fn default_macros() -> (r: Vec<(String, Macro)>)
    ensures
        r@.len() == 1,
        r@[0].0@ == "lg:include"@,
        r@[0].1 == Macro::Include,
{
    let mut v: Vec<(String, Macro)> = Vec::new();
    v.push((String::from_str("lg:include"), Macro::Include));
    v
}

/// How an included file is placed in the page.
#[derive(Clone, Copy, Debug, PartialEq, Eq, Structural)]
pub enum IncludeKind {
    /// `rel="css"`: inside a style block.
    Css,
    /// `rel="js"`: inside a script block.
    Js,
    /// `rel="inline"`: as it is.
    Inline,
}

/// An error of the compilation kind with this reason.
pub open spec fn is_compilation_error(e: Error, reason: Seq<char>) -> bool {
    e.kind == ErrorKind::Compilation && e.reason@ == reason && e.backtrace@.len() == 0
}

fn required(attributes: &Attributes, key: &str, missing: &str, empty: &str) -> (r: Result<String, Error>)
    ensures
        match assoc_get(attributes.deep_view(), key@) {
            None => r matches Err(e) && is_compilation_error(e, missing@),
            Some(v) => if v.len() == 0 {
                r matches Err(e) && is_compilation_error(e, empty@)
            } else {
                r matches Ok(s) && s@ == v
            },
        },
{
    match attribute(attributes, key) {
        None => Err(compilation_error(missing)),
        Some(v) => {
            if v.as_str().is_empty() {
                Err(compilation_error(empty))
            } else {
                Ok(v)
            }
        },
    }
}

/// The file that an include asks for and how to place it: `href` names the
/// file and `rel` the placement, both required and non-empty.
pub fn plan_include(attributes: &Attributes) -> (r: Result<(String, IncludeKind), Error>)
    ensures
        match assoc_get(attributes.deep_view(), "href"@) {
            None => r matches Err(e) && is_compilation_error(e, "'href' attribute missing"@),
            Some(h) => if h.len() == 0 {
                r matches Err(e) && is_compilation_error(e, "'href' attribute is empty"@)
            } else {
                match assoc_get(attributes.deep_view(), "rel"@) {
                    None => r matches Err(e) && is_compilation_error(e, "'rel' attribute missing"@),
                    Some(rel) => if rel.len() == 0 {
                        r matches Err(e) && is_compilation_error(e, "'rel' attribute is empty"@)
                    } else if rel == "css"@ {
                        r matches Ok((p, k)) && p@ == h && k == IncludeKind::Css
                    } else if rel == "js"@ {
                        r matches Ok((p, k)) && p@ == h && k == IncludeKind::Js
                    } else if rel == "inline"@ {
                        r matches Ok((p, k)) && p@ == h && k == IncludeKind::Inline
                    } else {
                        r matches Err(e) && is_compilation_error(e, "Invalid 'rel' value: "@ + rel)
                    },
                }
            },
        },
{
    let href = match required(attributes, "href", "'href' attribute missing", "'href' attribute is empty") {
        Ok(h) => h,
        Err(e) => {
            return Err(e);
        },
    };
    let rel = match required(attributes, "rel", "'rel' attribute missing", "'rel' attribute is empty") {
        Ok(r) => r,
        Err(e) => {
            return Err(e);
        },
    };
    if str_is(&rel, "css") {
        Ok((href, IncludeKind::Css))
    } else if str_is(&rel, "js") {
        Ok((href, IncludeKind::Js))
    } else if str_is(&rel, "inline") {
        Ok((href, IncludeKind::Inline))
    } else {
        let mut reason = String::from_str("Invalid 'rel' value: ");
        reason.append(rel.as_str());
        Err(compilation_error(reason.as_str()))
    }
}

/// The text that an include makes from the file it read.
pub fn render_include(kind: IncludeKind, file: &String) -> (r: String)
    ensures
        kind == IncludeKind::Css ==> r@ == "<style>\n"@ + file@ + "\n</style>\n"@,
        kind == IncludeKind::Js ==> r@ == "<script>\n"@ + file@ + "\n</script>\n"@,
        kind == IncludeKind::Inline ==> r@ == file@,
{
    match kind {
        IncludeKind::Css => {
            let mut t = String::from_str("<style>\n");
            t.append(file.as_str());
            t.append("\n</style>\n");
            t
        },
        IncludeKind::Js => {
            let mut t = String::from_str("<script>\n");
            t.append(file.as_str());
            t.append("\n</script>\n");
            t
        },
        IncludeKind::Inline => file.clone(),
    }
}

} // verus!
