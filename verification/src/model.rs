//! The kinds of top-level items and their labels.

use vstd::prelude::*;

use crate::text::{chars_of, push_str, replace_all, replace_vec, string_of};

verus! {

/// The syntactic kind of a top-level item.
#[derive(Debug, Clone, Copy, PartialEq, Eq, Structural)]
pub enum ItemKind {
    Fn,
    Struct,
    Enum,
    Union,
    Trait,
    Impl,
    Const,
    Static,
    TypeAlias,
    Mod,
    MacroDef,
    MacroCall,
    Use,
    ExternCrate,
    Other,
}

/// The label of each kind, as shown in summaries.
pub open spec fn kind_label(k: ItemKind) -> Seq<char> {
    match k {
        ItemKind::Fn => "fn"@,
        ItemKind::Struct => "struct"@,
        ItemKind::Enum => "enum"@,
        ItemKind::Union => "union"@,
        ItemKind::Trait => "trait"@,
        ItemKind::Impl => "impl"@,
        ItemKind::Const => "const"@,
        ItemKind::Static => "static"@,
        ItemKind::TypeAlias => "type"@,
        ItemKind::Mod => "mod"@,
        ItemKind::MacroDef => "macro"@,
        ItemKind::MacroCall => "macro-call"@,
        ItemKind::Use => "use"@,
        ItemKind::ExternCrate => "extern crate"@,
        ItemKind::Other => "other"@,
    }
}

impl ItemKind {
    pub fn label(self) -> (s: &'static str)
        ensures
            s@ == kind_label(self),
    {
        match self {
            ItemKind::Fn => "fn",
            ItemKind::Struct => "struct",
            ItemKind::Enum => "enum",
            ItemKind::Union => "union",
            ItemKind::Trait => "trait",
            ItemKind::Impl => "impl",
            ItemKind::Const => "const",
            ItemKind::Static => "static",
            ItemKind::TypeAlias => "type",
            ItemKind::Mod => "mod",
            ItemKind::MacroDef => "macro",
            ItemKind::MacroCall => "macro-call",
            ItemKind::Use => "use",
            ItemKind::ExternCrate => "extern crate",
            ItemKind::Other => "other",
        }
    }
}

/// What the parser reports of a top-level item, as plain values. Texts of
/// paths and types are their token streams printed with spaces between
/// tokens, as `quote` prints them.
#[derive(Debug, Clone)]
pub enum Shape {
    /// An item that introduces a name: `fn`, `struct`, `enum`, `union`,
    /// `trait` (and trait alias), `type`, `const`, `static`, `mod`.
    Named(ItemKind, String),
    /// `macro_rules! name`.
    MacroRules(String),
    /// An item-level macro invocation, with the text of its path.
    MacroCall(String),
    /// An `impl`, with the text of its self type and of its trait, if any.
    Impl(String, Option<String>),
    Use,
    /// `extern crate name`.
    ExternCrate(String),
    /// An `extern { .. }` block.
    ForeignMod,
    /// Any other item.
    Other,
}

/// A single top-level item carved out of the source file (in source order).
#[derive(Debug, Clone)]
pub struct Item {
    pub kind: ItemKind,
    /// Name introduced into the namespace, if any.
    pub name: Option<String>,
    /// Human-readable label for summaries / graphs.
    pub display: String,
    /// Comment lines attached directly above (no blank line between).
    pub lead: String,
    /// Comment block sitting above but separated by a blank line.
    pub pre_floating: String,
    /// Verbatim source of the item (attrs + body), trailing whitespace trimmed.
    pub body: String,
    /// Byte offset of the item's start in the original source.
    pub byte_start: usize,
    /// Whether the original gap before this item contained a blank line.
    pub blank_before: bool,
    /// Indices (into the item list) of the items this item depends on.
    pub deps: Vec<usize>,
    /// `use` / `extern crate` / opaque blocks are pinned (never hoisted).
    pub pinned: bool,
}

/// Token-stream spacing removed around `::`, `<`, `>` and `,`.
pub open spec fn clean_spec(s: Seq<char>) -> Seq<char> {
    let s1 = replace_all(s, " :: "@, "::"@);
    let s2 = replace_all(s1, ":: "@, "::"@);
    let s3 = replace_all(s2, " ::"@, "::"@);
    let s4 = replace_all(s3, " < "@, "<"@);
    let s5 = replace_all(s4, "< "@, "<"@);
    let s6 = replace_all(s5, " >"@, ">"@);
    replace_all(s6, " ,"@, ","@)
}

fn replace_str(s: &Vec<char>, pat: &str, rep: &str) -> (r: Vec<char>)
    ensures
        r@ == replace_all(s@, pat@, rep@),
{
    let p = chars_of(pat);
    let q = chars_of(rep);
    replace_vec(s.as_slice(), p.as_slice(), q.as_slice())
}

/// Remove the spaces that printing a token stream puts around `::`, `<`,
/// `>` and `,`.
pub fn clean(s: &str) -> (r: String)
    ensures
        r@ == clean_spec(s@),
{
    let v = chars_of(s);
    let v1 = replace_str(&v, " :: ", "::");
    let v2 = replace_str(&v1, ":: ", "::");
    let v3 = replace_str(&v2, " ::", "::");
    let v4 = replace_str(&v3, " < ", "<");
    let v5 = replace_str(&v4, "< ", "<");
    let v6 = replace_str(&v5, " >", ">");
    let v7 = replace_str(&v6, " ,", ",");
    string_of(v7.as_slice())
}

/// How an item of a given shape is classified: its kind, the name it
/// defines, its display label, and whether it is pinned.
pub open spec fn classify_spec(shape: Shape) -> (ItemKind, Option<Seq<char>>, Seq<char>, bool) {
    match shape {
        Shape::Named(k, n) => (k, Some(n@), kind_label(k) + " "@ + n@, false),
        Shape::MacroRules(n) => (ItemKind::MacroDef, Some(n@), "macro "@ + n@ + "!"@, false),
        Shape::MacroCall(p) => (ItemKind::MacroCall, None, clean_spec(p@) + "!(…)"@, false),
        Shape::Impl(t, tr) => (
            ItemKind::Impl,
            None,
            match tr {
                Some(tp) => "impl "@ + clean_spec(tp@) + " for "@ + clean_spec(t@),
                None => "impl "@ + clean_spec(t@),
            },
            false,
        ),
        Shape::Use => (ItemKind::Use, None, "use …"@, true),
        Shape::ExternCrate(n) => (ItemKind::ExternCrate, None, "extern crate "@ + n@, true),
        Shape::ForeignMod => (ItemKind::Other, None, "extern { … }"@, true),
        Shape::Other => (ItemKind::Other, None, "<item>"@, true),
    }
}

/// A shape the parser can report: a named item is a `fn`, `struct`,
/// `enum`, `union`, `trait`, `type`, `const`, `static` or `mod`.
pub open spec fn shape_ok(s: Shape) -> bool {
    match s {
        Shape::Named(k, _) => k is Fn || k is Struct || k is Enum || k is Union || k is Trait || k is TypeAlias
            || k is Const || k is Static || k is Mod,
        _ => true,
    }
}

/// (kind, defined-name, display-label, pinned)
pub fn classify(shape: &Shape) -> (r: (ItemKind, Option<String>, String, bool))
    requires
        shape_ok(*shape),
    ensures
        r.0 == classify_spec(*shape).0,
        r.1 matches Some(n) ==> classify_spec(*shape).1 == Some(n@),
        r.1 is None ==> classify_spec(*shape).1 is None,
        r.2@ == classify_spec(*shape).2,
        r.3 == classify_spec(*shape).3,
{
    match shape {
        Shape::Named(k, n) => {
            let mut v = chars_of(k.label());
            push_str(&mut v, " ");
            push_str(&mut v, n.as_str());
            (*k, Some(n.clone()), string_of(v.as_slice()), false)
        },
        Shape::MacroRules(n) => {
            let mut v = chars_of("macro ");
            push_str(&mut v, n.as_str());
            push_str(&mut v, "!");
            (ItemKind::MacroDef, Some(n.clone()), string_of(v.as_slice()), false)
        },
        Shape::MacroCall(p) => {
            let c = clean(p.as_str());
            let mut v = chars_of(c.as_str());
            push_str(&mut v, "!(…)");
            (ItemKind::MacroCall, None, string_of(v.as_slice()), false)
        },
        Shape::Impl(t, tr) => {
            let mut v = chars_of("impl ");
            match tr {
                Some(tp) => {
                    let c = clean(tp.as_str());
                    push_str(&mut v, c.as_str());
                    push_str(&mut v, " for ");
                    let c2 = clean(t.as_str());
                    push_str(&mut v, c2.as_str());
                },
                None => {
                    let c2 = clean(t.as_str());
                    push_str(&mut v, c2.as_str());
                },
            }
            (ItemKind::Impl, None, string_of(v.as_slice()), false)
        },
        Shape::Use => (ItemKind::Use, None, String::from_str("use …"), true),
        Shape::ExternCrate(n) => {
            let mut v = chars_of("extern crate ");
            push_str(&mut v, n.as_str());
            (ItemKind::ExternCrate, None, string_of(v.as_slice()), true)
        },
        Shape::ForeignMod => (ItemKind::Other, None, String::from_str("extern { … }"), true),
        Shape::Other => (ItemKind::Other, None, String::from_str("<item>"), true),
    }
}

} // verus!
