//! End-to-end tests: sources parsed with syn, cut and reordered by the
//! library, compared with the expected text.

use proc_macro2::TokenTree;
use quote::ToTokens;
use syn::visit::{self, Visit};

use rsorder::analyze::RawItem;
use rsorder::syntax::{check_text, reorder_text, ItemInfo, TextError};
use rsorder::model::{ItemKind, Shape};
use rsorder::order::{OrderOpts, Tie};
use rsorder::{check, reorder, Outcome};

fn tokens<T: ToTokens>(t: &T) -> String {
    t.to_token_stream().to_string()
}

fn shape_of(item: &syn::Item) -> Shape {
    let named = |k: ItemKind, id: &syn::Ident| Shape::Named(k, id.to_string());
    match item {
        syn::Item::Fn(f) => named(ItemKind::Fn, &f.sig.ident),
        syn::Item::Struct(s) => named(ItemKind::Struct, &s.ident),
        syn::Item::Enum(e) => named(ItemKind::Enum, &e.ident),
        syn::Item::Union(u) => named(ItemKind::Union, &u.ident),
        syn::Item::Trait(t) => named(ItemKind::Trait, &t.ident),
        syn::Item::TraitAlias(t) => named(ItemKind::Trait, &t.ident),
        syn::Item::Type(t) => named(ItemKind::TypeAlias, &t.ident),
        syn::Item::Const(c) => named(ItemKind::Const, &c.ident),
        syn::Item::Static(s) => named(ItemKind::Static, &s.ident),
        syn::Item::Mod(m) => named(ItemKind::Mod, &m.ident),
        syn::Item::Macro(m) => match &m.ident {
            Some(id) => Shape::MacroRules(id.to_string()),
            None => Shape::MacroCall(tokens(&m.mac.path)),
        },
        syn::Item::Impl(i) => Shape::Impl(tokens(&*i.self_ty), i.trait_.as_ref().map(|(_, p, _)| tokens(p))),
        syn::Item::Use(_) => Shape::Use,
        syn::Item::ExternCrate(e) => Shape::ExternCrate(e.ident.to_string()),
        syn::Item::ForeignMod(_) => Shape::ForeignMod,
        _ => Shape::Other,
    }
}

struct Refs(Vec<String>);

impl Refs {
    fn scan(&mut self, ts: &proc_macro2::TokenStream) {
        for tt in ts.clone() {
            match tt {
                TokenTree::Ident(id) => self.0.push(id.to_string()),
                TokenTree::Group(g) => self.scan(&g.stream()),
                _ => {}
            }
        }
    }
}

impl<'ast> Visit<'ast> for Refs {
    fn visit_path(&mut self, p: &'ast syn::Path) {
        for seg in &p.segments {
            let id = seg.ident.to_string();
            if !matches!(id.as_str(), "crate" | "self" | "Self" | "super") {
                self.0.push(id);
            }
        }
        visit::visit_path(self, p);
    }

    fn visit_macro(&mut self, m: &'ast syn::Macro) {
        for seg in &m.path.segments {
            self.0.push(seg.ident.to_string());
        }
        self.scan(&m.tokens);
    }
}

fn infos(src: &str) -> Vec<ItemInfo> {
    let file = syn::parse_file(src).expect("test input parses");
    file.items
        .iter()
        .map(|item| {
            let mut r = Refs(Vec::new());
            r.visit_item(item);
            ItemInfo { shape: shape_of(item), refs: r.0 }
        })
        .collect()
}

fn run_reorder(src: &str, opts: OrderOpts) -> Outcome {
    reorder_text(src, infos(src), opts).expect("parses and fits")
}

const WHOLE_BASIC: &str = r#"use std::collections::HashMap;

pub fn run(c: Config) -> u32 { Helper::new().apply(c.value) + ping(3) }

const SCALE: u32 = 10;

pub struct Helper { cache: HashMap<u32, u32> }

impl Helper {
    fn new() -> Helper { Helper { cache: HashMap::new() } }
    fn apply(&self, v: u32) -> u32 { v * SCALE }
}

pub struct Config { pub value: u32 }

fn ping(n: u32) -> u32 { if n == 0 { 0 } else { pong(n - 1) } }
fn pong(n: u32) -> u32 { if n == 0 { 1 } else { ping(n - 1) } }
"#;

const SCOPED_REGIONS: &str = r#"use std::fmt;

pub fn keep_first() -> u32 { keep_second() }
pub fn keep_second() -> u32 { 0 }

// TO REORDER same-level-outside-of-mutual--alphabetically
pub fn zeta() -> u32 { alpha() }
pub fn alpha() -> u32 { 1 }
const BETA: u32 = 2;
// TO REORDER END

// TO REORDER
fn user() -> u32 { even(4) }
fn even(n: u32) -> u32 { if n == 0 { 1 } else { odd(n - 1) } }
fn odd(n: u32) -> u32 { if n == 0 { 0 } else { even(n - 1) } }
// TO REORDER END

pub fn keep_last() -> u32 { keep_first() }
"#;

const WHOLE_BASIC_ORIGINAL: &str = "use std::collections::HashMap;

const SCALE: u32 = 10;

pub struct Helper { cache: HashMap<u32, u32> }

impl Helper {
    fn new() -> Helper { Helper { cache: HashMap::new() } }
    fn apply(&self, v: u32) -> u32 { v * SCALE }
}

pub struct Config { pub value: u32 }

// mutual start
fn ping(n: u32) -> u32 { if n == 0 { 0 } else { pong(n - 1) } }

fn pong(n: u32) -> u32 { if n == 0 { 1 } else { ping(n - 1) } }
// mutual end

pub fn run(c: Config) -> u32 { Helper::new().apply(c.value) + ping(3) }
";

const WHOLE_BASIC_ALPHA: &str = "use std::collections::HashMap;

pub struct Config { pub value: u32 }

pub struct Helper { cache: HashMap<u32, u32> }

const SCALE: u32 = 10;

impl Helper {
    fn new() -> Helper { Helper { cache: HashMap::new() } }
    fn apply(&self, v: u32) -> u32 { v * SCALE }
}

// mutual start
fn ping(n: u32) -> u32 { if n == 0 { 0 } else { pong(n - 1) } }

fn pong(n: u32) -> u32 { if n == 0 { 1 } else { ping(n - 1) } }
// mutual end

pub fn run(c: Config) -> u32 { Helper::new().apply(c.value) + ping(3) }
";

const SCOPED_REGIONS_ORIGINAL: &str = "use std::fmt;

pub fn keep_first() -> u32 { keep_second() }

pub fn keep_second() -> u32 { 0 }

// TO REORDER same-level-outside-of-mutual--alphabetically

const BETA: u32 = 2;

pub fn alpha() -> u32 { 1 }

pub fn zeta() -> u32 { alpha() }

// TO REORDER END

// TO REORDER

// mutual start
fn even(n: u32) -> u32 { if n == 0 { 1 } else { odd(n - 1) } }

fn odd(n: u32) -> u32 { if n == 0 { 0 } else { even(n - 1) } }
// mutual end

fn user() -> u32 { even(4) }

// TO REORDER END

pub fn keep_last() -> u32 { keep_first() }
";

fn orig() -> OrderOpts {
    OrderOpts { inside: Tie::Original, outside: Tie::Original }
}

fn alpha() -> OrderOpts {
    OrderOpts { inside: Tie::Alphabetical, outside: Tie::Alphabetical }
}

#[test]
fn golden() {
    let cases: [(&str, &str, OrderOpts, &str); 3] = [
        ("whole_basic", WHOLE_BASIC, orig(), WHOLE_BASIC_ORIGINAL),
        ("whole_alpha_both", WHOLE_BASIC, alpha(), WHOLE_BASIC_ALPHA),
        ("scoped_regions", SCOPED_REGIONS, orig(), SCOPED_REGIONS_ORIGINAL),
    ];
    let mut failures = Vec::new();
    for (name, input, opts, expected) in cases {
        let out = run_reorder(input, opts).new_src;
        // Idempotence: reordering the output again is a no-op.
        let twice = run_reorder(&out, opts).new_src;
        assert_eq!(out, twice, "case `{}` is not idempotent", name);
        if out != expected {
            failures.push(name);
            println!("--- mismatch for `{}` ---\n{out}", name);
        }
    }
    assert!(failures.is_empty(), "golden mismatches: {failures:?}");
}

/// Outside items stay fixed and regions are detected in scoped mode.
#[test]
fn scoped_keeps_outside_fixed() {
    let out = run_reorder(SCOPED_REGIONS, orig());
    assert!(out.plan.scoped);
    assert_eq!(out.plan.region_count, 2);
    let p1 = out.new_src.find("fn keep_first").unwrap();
    let p2 = out.new_src.find("fn keep_second").unwrap();
    let p3 = out.new_src.find("fn keep_last").unwrap();
    assert!(p1 < p2 && p2 < p3, "outside items must keep their order");
}

/// A real cycle becomes a mutual block; a self-recursive fn does not.
#[test]
fn mutual_detection() {
    let src = "fn a(){b();} fn b(){a();} fn c(){c();}";
    let out = run_reorder(src, orig());
    assert_eq!(out.plan.mutual_groups.len(), 1);
    assert_eq!(out.plan.mutual_groups[0].len(), 2);
    assert!(out.new_src.contains("// mutual start"));
}

#[test]
fn whole_basic_plan() {
    let out = run_reorder(WHOLE_BASIC, orig());
    let p = &out.plan;
    assert!(!p.scoped);
    assert_eq!(p.region_count, 0);
    let labels: Vec<&str> = p.nodes.iter().map(|n| n.display.as_str()).collect();
    assert_eq!(
        labels,
        vec!["fn run", "const SCALE", "struct Helper", "impl Helper", "struct Config", "fn ping", "fn pong"]
    );
    assert_eq!(p.before, vec![0, 1, 2, 3, 4, 5, 6]);
    assert_eq!(p.after, vec![1, 2, 3, 4, 5, 6, 0]);
    assert_eq!(p.deps, vec![vec![2, 4, 5], vec![], vec![], vec![1, 2], vec![], vec![6], vec![5]]);
    assert_eq!(p.edges, 7);
    assert_eq!(p.moved, 7);
    assert_eq!(p.mutual_groups, vec![vec![5, 6]]);
    assert_eq!(p.group_of, vec![-1, -1, -1, -1, -1, 0, 0]);
    let counts: Vec<(&str, usize)> = p.kind_counts.iter().map(|(k, v)| (k.as_str(), *v)).collect();
    assert_eq!(counts, vec![("const", 1), ("fn", 3), ("impl", 1), ("struct", 2), ("use", 1)]);
}

#[test]
fn topological_order_walks_sources() {
    let src = "fn x() { z() }\nfn y() {}\nfn z() {}\n";
    let out = run_reorder(src, OrderOpts { inside: Tie::Original, outside: Tie::Topological });
    assert_eq!(out.new_src, "fn z() {}\n\nfn x() { z() }\n\nfn y() {}\n");
    let out = run_reorder(src, orig());
    assert_eq!(out.new_src, "fn y() {}\n\nfn z() {}\n\nfn x() { z() }\n");
}

#[test]
fn comments_travel_with_items() {
    let src = "//! header\n\nfn user() { helper() }\n\n// floating note\n\n/// helper docs\nfn helper() {}\n";
    let out = run_reorder(src, orig());
    assert_eq!(
        out.new_src,
        "//! header\n\n// floating note\n\n/// helper docs\nfn helper() {}\n\nfn user() { helper() }\n"
    );
}

#[test]
fn spans_that_do_not_fit_are_refused() {
    let src = "fn a() {}";
    let rs = vec![RawItem { shape: Shape::Named(ItemKind::Fn, "a".to_string()), start: 0, end: 100, refs: vec![] }];
    assert!(reorder(src, &rs, orig()).is_none());
    assert!(check(src, &rs).is_none());
    assert_eq!(reorder_text("fn a( {", vec![], orig()).unwrap_err(), TextError::Unparsed);
    assert_eq!(check_text(src, vec![]).unwrap_err(), TextError::Misaligned);
}

#[test]
fn check_lists_late_dependencies() {
    let src = "fn user() { helper() }\nfn helper() {}\nfn even() { odd() }\nfn odd() { even() }\n";
    let rep = check_text(src, infos(src)).unwrap();
    assert!(!rep.is_ok());
    assert_eq!(rep.violations.len(), 1);
    let v = &rep.violations[0];
    assert_eq!((v.user.as_str(), v.user_index), ("user", 0));
    assert_eq!((v.dependency.as_str(), v.dependency_index), ("helper", 1));
}

#[test]
fn check_accepts_ordered_file() {
    let out = run_reorder(WHOLE_BASIC, orig());
    let rep = check_text(&out.new_src, infos(&out.new_src)).unwrap();
    assert!(rep.is_ok());
    let rep = check_text(WHOLE_BASIC, infos(WHOLE_BASIC)).unwrap();
    let pairs: Vec<(usize, usize)> = rep.violations.iter().map(|v| (v.user_index, v.dependency_index)).collect();
    assert_eq!(pairs, vec![(1, 3), (1, 5), (1, 6)]);
}

#[test]
fn region_options_override_global() {
    let src = "// TO REORDER sorting-non-mutual=alphabetical\nfn b() {}\nfn a() {}\n// TO REORDER END\n";
    let out = run_reorder(src, orig());
    assert_eq!(out.new_src, "// TO REORDER sorting-non-mutual=alphabetical\n\nfn a() {}\n\nfn b() {}\n\n// TO REORDER END\n");
    assert_eq!(out.plan.after, vec![1, 0]);
    assert_eq!(out.plan.moved, 2);
}

#[test]
fn empty_region_marker_stays_text() {
    let src = "fn b() { a() }\nfn a() {}\n// TO REORDER\n";
    let out = run_reorder(src, orig());
    assert!(!out.plan.scoped);
    assert_eq!(out.new_src, "fn a() {}\n\nfn b() { a() }\n\n// TO REORDER\n");
}

#[test]
fn inside_alphabetical_sorts_mutual_members() {
    let src = "fn zed() { amy() }\nfn amy() { zed() }\n";
    let out = run_reorder(src, OrderOpts { inside: Tie::Alphabetical, outside: Tie::Original });
    assert_eq!(
        out.new_src,
        "// mutual start\nfn amy() { zed() }\n\nfn zed() { amy() }\n// mutual end\n"
    );
    let out = run_reorder(src, orig());
    assert_eq!(
        out.new_src,
        "// mutual start\nfn zed() { amy() }\n\nfn amy() { zed() }\n// mutual end\n"
    );
}

#[test]
fn dependencies_precede_users_in_plan() {
    for opts in [orig(), alpha(), OrderOpts { inside: Tie::Original, outside: Tie::Topological }] {
        let out = run_reorder(WHOLE_BASIC, opts);
        let p = &out.plan;
        for a in 0..p.after.len() {
            for b in a + 1..p.after.len() {
                if p.deps[p.after[a]].contains(&p.after[b]) {
                    assert!(p.group_of[p.after[a]] >= 0);
                    assert_eq!(p.group_of[p.after[a]], p.group_of[p.after[b]]);
                }
            }
        }
    }
}

#[test]
fn every_movable_item_is_emitted_once() {
    for (src, opts) in [(WHOLE_BASIC, orig()), (SCOPED_REGIONS, orig()), (SCOPED_REGIONS, alpha())] {
        let p = run_reorder(src, opts).plan;
        let mut sorted = p.after.clone();
        sorted.sort();
        assert_eq!(sorted, p.before);
    }
}

#[test]
fn kind_counts_add_up_and_are_sorted() {
    let out = run_reorder(SCOPED_REGIONS, orig());
    let total: usize = out.plan.kind_counts.iter().map(|(_, v)| *v).sum();
    assert_eq!(total, 10);
    let labels: Vec<&str> = out.plan.kind_counts.iter().map(|(k, _)| k.as_str()).collect();
    let mut sorted = labels.clone();
    sorted.sort();
    assert_eq!(labels, sorted);
    assert_eq!(labels, vec!["const", "fn", "use"]);
}

#[test]
fn ordered_file_stays_in_place() {
    let src = "const A: u32 = 1;\n\nfn b() -> u32 { A }\n\nfn c() -> u32 { b() }\n";
    let out = run_reorder(src, orig());
    assert_eq!(out.new_src, src);
    assert_eq!(out.plan.after, out.plan.before);
    assert_eq!(out.plan.moved, 0);
    assert!(out.plan.mutual_groups.is_empty());
}

#[test]
fn pinned_item_in_region_is_refused() {
    let src = "// TO REORDER\nuse std::fmt;\nfn a() {}\n// TO REORDER END\n";
    assert_eq!(reorder_text(src, infos(src), orig()).unwrap_err(), TextError::PinnedInRegion);
    assert!(check_text(src, infos(src)).is_ok());
}

#[test]
fn items_are_taken_at_syn_spans_in_source_order() {
    let src = "//! top\n\nfn b() { a() }\n\n/// doc\nfn a() {}\n";
    let out = reorder_text(src, infos(src), orig()).unwrap();
    assert_eq!(out.new_src, "//! top\n\n/// doc\nfn a() {}\n\nfn b() { a() }\n");
}

#[test]
fn reordering_twice_keeps_the_text_with_pinned_items() {
    let src = "//! crate docs\n\nuse std::fmt;\n\nfn user() { helper() }\n\n// a note\n\nfn helper() {}\n";
    let first = run_reorder(src, orig());
    let second = run_reorder(&first.new_src, orig());
    assert_eq!(first.new_src, "//! crate docs\n\nuse std::fmt;\n\n// a note\n\nfn helper() {}\n\nfn user() { helper() }\n");
    assert_eq!(second.new_src, first.new_src);
}
