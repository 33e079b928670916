//! Tests of the library's parts on hand-made inputs.

use rsorder::analyze::{parse, spans_fit, FileModel, RawItem};
use rsorder::demo::{ping, pong, run, Config, Helper};
use rsorder::mermaid::{after, before, diff, diff_table, ItemOrder};
use rsorder::model::{classify, clean, ItemKind, Shape};
use rsorder::order::{order_scope, OrderOpts, Tie};
use rsorder::rewrite::emit;
use rsorder::render::{esc_xml, html_diff, mermaid_after, mermaid_before};
use rsorder::{reorder, CheckReport, CheckViolation, Node, Plan};

/// An item of `src`: its shape, its text (found in `src`) and its references.
fn raw(src: &str, shape: Shape, text: &str, refs: &[&str]) -> RawItem {
    let start = src.find(text).expect("item text in source");
    RawItem { shape, start, end: start + text.len(), refs: refs.iter().map(|r| r.to_string()).collect() }
}

fn fn_shape(name: &str) -> Shape {
    Shape::Named(ItemKind::Fn, name.to_string())
}

fn small_model() -> FileModel {
    let src = "fn run() { help() }\n\nfn help() {}\n";
    let raws = vec![
        raw(src, fn_shape("run"), "fn run() { help() }", &["help"]),
        raw(src, fn_shape("help"), "fn help() {}", &[]),
    ];
    parse(src, &raws).unwrap()
}

#[test]
fn labels_of_kinds() {
    assert_eq!(ItemKind::Fn.label(), "fn");
    assert_eq!(ItemKind::TypeAlias.label(), "type");
    assert_eq!(ItemKind::MacroDef.label(), "macro");
    assert_eq!(ItemKind::MacroCall.label(), "macro-call");
    assert_eq!(ItemKind::ExternCrate.label(), "extern crate");
    assert_eq!(ItemKind::Other.label(), "other");
}

#[test]
fn clean_removes_token_spacing() {
    assert_eq!(clean("std :: fmt :: Display"), "std::fmt::Display");
    assert_eq!(clean("Vec < u8 >"), "Vec<u8>");
    assert_eq!(clean("HashMap < K , V >"), "HashMap<K, V>");
}

#[test]
fn classify_shapes() {
    let (k, n, d, p) = classify(&Shape::Named(ItemKind::Struct, "Helper".to_string()));
    assert_eq!((k, n.as_deref(), d.as_str(), p), (ItemKind::Struct, Some("Helper"), "struct Helper", false));
    let (k, n, d, p) = classify(&Shape::MacroRules("m".to_string()));
    assert_eq!((k, n.as_deref(), d.as_str(), p), (ItemKind::MacroDef, Some("m"), "macro m!", false));
    let (k, n, d, p) = classify(&Shape::MacroCall("lazy_static".to_string()));
    assert_eq!((k, n, d.as_str(), p), (ItemKind::MacroCall, None, "lazy_static!(…)", false));
    let (k, n, d, p) = classify(&Shape::Impl("Vec < u8 >".to_string(), Some("std :: fmt :: Debug".to_string())));
    assert_eq!((k, n, d.as_str(), p), (ItemKind::Impl, None, "impl std::fmt::Debug for Vec<u8>", false));
    let (k, n, d, p) = classify(&Shape::Impl("Helper".to_string(), None));
    assert_eq!((k, n, d.as_str(), p), (ItemKind::Impl, None, "impl Helper", false));
    let (k, n, d, p) = classify(&Shape::Use);
    assert_eq!((k, n, d.as_str(), p), (ItemKind::Use, None, "use …", true));
    let (k, _, d, p) = classify(&Shape::ExternCrate("alloc".to_string()));
    assert_eq!((k, d.as_str(), p), (ItemKind::ExternCrate, "extern crate alloc", true));
    let (k, _, d, p) = classify(&Shape::ForeignMod);
    assert_eq!((k, d.as_str(), p), (ItemKind::Other, "extern { … }", true));
    let (k, _, d, p) = classify(&Shape::Other);
    assert_eq!((k, d.as_str(), p), (ItemKind::Other, "<item>", true));
}

#[test]
fn parse_cuts_comments_and_deps() {
    let src = "// head\nuse std::fmt;\n\n// floating\n\n// attached\nfn a() { b() }\nfn b() {}\n// tail\n";
    let raws = vec![
        raw(src, Shape::Use, "use std::fmt;", &["std", "fmt"]),
        raw(src, fn_shape("a"), "fn a() { b() }", &["b"]),
        raw(src, fn_shape("b"), "fn b() {}", &[]),
    ];
    assert!(spans_fit(src, &raws));
    let fm = parse(src, &raws).unwrap();
    assert_eq!(fm.preamble, "// head\n");
    assert_eq!(fm.postamble, "\n// tail\n");
    assert_eq!(fm.items.len(), 3);
    assert!(fm.items[0].pinned);
    assert_eq!(fm.items[1].lead, "// attached");
    assert_eq!(fm.items[1].pre_floating, "// floating");
    assert!(fm.items[1].blank_before);
    assert_eq!(fm.items[1].deps, vec![2]);
    assert_eq!(fm.items[1].byte_start, src.find("fn a").unwrap());
    assert!(!fm.items[2].blank_before);
    assert!(fm.regions.is_empty());
}

#[test]
fn parse_drops_mutual_markers() {
    let src = "// mutual start\n// about a\nfn a() { b() }\n\n// mutual end\n\n// mutual start\nfn b() { a() }\n// mutual end\n";
    let raws = vec![raw(src, fn_shape("a"), "fn a() { b() }", &["b"]), raw(src, fn_shape("b"), "fn b() { a() }", &["a"])];
    let fm = parse(src, &raws).unwrap();
    let texts = [&fm.preamble, &fm.postamble, &fm.items[0].lead, &fm.items[1].lead, &fm.items[1].pre_floating];
    for t in texts {
        assert!(!t.contains("// mutual"), "marker left in {t:?}");
    }
    assert_eq!(fm.preamble, "// about a\n");
    let out = reorder(src, &raws, OrderOpts { inside: Tie::Original, outside: Tie::Original }).unwrap();
    assert_eq!(out.new_src.matches("// mutual start").count(), 1);
    assert_eq!(out.new_src.matches("// mutual end").count(), 1);
}

#[test]
fn parse_reads_regions() {
    let src = "// TO REORDER sorting-inside-mutual=alphabetical sorting-non-mutual=topological\nfn a() {}\n// TO REORDER END\nfn b() {}\n";
    let raws = vec![raw(src, fn_shape("a"), "fn a() {}", &[]), raw(src, fn_shape("b"), "fn b() {}", &[])];
    let fm = parse(src, &raws).unwrap();
    assert_eq!(fm.regions.len(), 1);
    let r = &fm.regions[0];
    assert_eq!((r.first, r.last_excl), (0, 1));
    assert_eq!(r.start_line, "// TO REORDER sorting-inside-mutual=alphabetical sorting-non-mutual=topological");
    assert_eq!(r.end_line, "// TO REORDER END");
    assert_eq!(r.opts.inside, Some(Tie::Alphabetical));
    assert_eq!(r.opts.outside, Some(Tie::Topological));
}

#[test]
fn later_definition_wins() {
    let src = "fn u() { x() }\nfn x() {}\nmod m {}\nfn x() {}\n";
    let first = src.find("fn x() {}").unwrap();
    let second = src.rfind("fn x() {}").unwrap();
    let raws = vec![
        raw(src, fn_shape("u"), "fn u() { x() }", &["x"]),
        RawItem { shape: fn_shape("x"), start: first, end: first + 9, refs: vec![] },
        raw(src, Shape::Named(ItemKind::Mod, "m".to_string()), "mod m {}", &[]),
        RawItem { shape: fn_shape("x"), start: second, end: second + 9, refs: vec![] },
    ];
    let fm = parse(src, &raws).unwrap();
    assert_eq!(fm.items[0].deps, vec![3]);
}

#[test]
fn order_scope_groups_cycles() {
    let deps = vec![vec![1], vec![2], vec![1], vec![]];
    let names: Vec<String> = ["d", "c", "b", "a"].iter().map(|s| s.to_string()).collect();
    let (order, groups) =
        order_scope(&[0, 1, 2, 3], &deps, &names, OrderOpts { inside: Tie::Original, outside: Tie::Original });
    assert_eq!(order, vec![1, 2, 0, 3]);
    assert_eq!(groups, vec![vec![1, 2]]);
    let (order, groups) =
        order_scope(&[0, 1, 2, 3], &deps, &names, OrderOpts { inside: Tie::Alphabetical, outside: Tie::Alphabetical });
    assert_eq!(order, vec![3, 2, 1, 0]);
    assert_eq!(groups, vec![vec![2, 1]]);
}

#[test]
fn order_scope_ignores_edges_leaving_scope() {
    let deps = vec![vec![2], vec![0], vec![]];
    let names: Vec<String> = ["x", "y", "z"].iter().map(|s| s.to_string()).collect();
    let (order, groups) = order_scope(&[0, 1], &deps, &names, OrderOpts { inside: Tie::Original, outside: Tie::Original });
    assert_eq!(order, vec![0, 1]);
    assert!(groups.is_empty());
}

#[test]
fn order_scope_ignores_member_listing() {
    let deps = vec![vec![1], vec![2], vec![1], vec![], vec![3]];
    let names: Vec<String> = ["e", "d", "c", "b", "a", "unused"].iter().map(|s| s.to_string()).collect();
    for opts in [
        OrderOpts { inside: Tie::Original, outside: Tie::Original },
        OrderOpts { inside: Tie::Alphabetical, outside: Tie::Alphabetical },
        OrderOpts { inside: Tie::Original, outside: Tie::Topological },
    ] {
        let first = order_scope(&[0, 1, 2, 3, 4], &deps, &names, opts);
        let again = order_scope(&[4, 2, 0, 3, 1], &deps, &names, opts);
        assert_eq!(first, again);
    }
    let (order, groups) =
        order_scope(&[4, 2, 0, 3, 1], &deps, &names, OrderOpts { inside: Tie::Original, outside: Tie::Original });
    assert_eq!(order, vec![1, 2, 0, 3, 4]);
    assert_eq!(groups, vec![vec![1, 2]]);
}

#[test]
fn esc_xml_round_trips() {
    for s in ["plain", "a<b & \"c\" > d", "&amp; already", "&&<<>>\"\"", ""] {
        let e = esc_xml(s);
        assert!(!e.contains('<') && !e.contains('>') && !e.contains('"'));
        assert_eq!(e.replace("&quot;", "\"").replace("&gt;", ">").replace("&lt;", "<").replace("&amp;", "&"), s);
    }
    assert_eq!(esc_xml("a<&\""), "a&lt;&amp;&quot;");
}

fn plan_of(nodes: &[&str], deps: Vec<Vec<usize>>, after: Vec<usize>, group_of: Vec<i64>) -> Plan {
    Plan {
        scoped: false,
        region_count: 0,
        nodes: nodes.iter().map(|d| Node { display: d.to_string(), name: None }).collect(),
        deps,
        before: (0..nodes.len()).collect(),
        after,
        group_of,
        mutual_groups: vec![],
        kind_counts: vec![],
        edges: 0,
        moved: 0,
    }
}

#[test]
fn mermaid_graphs_of_plan() {
    let plan = plan_of(&["fn \"a\"", "fn b", "fn c"], vec![vec![1], vec![2], vec![1]], vec![1, 2, 0], vec![-1, 0, 0]);
    assert_eq!(
        mermaid_before(&plan),
        "graph TD\n  N0[\"fn 'a'\"]\n  N1[\"fn b\"]\n  N2[\"fn c\"]\n  N0 --> N1\n  N1 --> N2\n  N2 --> N1\n"
    );
    assert_eq!(
        mermaid_after(&plan),
        "graph TD\n  subgraph mutual_1[\"mutual\"]\n    N1[\"fn b\"]\n    N2[\"fn c\"]\n  end\n  N0[\"fn 'a'\"]\n  N0 --> N1\n  N1 --> N2\n  N2 --> N1\n"
    );
}

#[test]
fn html_diff_draws_both_columns() {
    let mut plan = plan_of(&["fn a", "struct <B>", "fn c"], vec![vec![], vec![], vec![]], vec![1, 0, 2], vec![-1, -1, -1]);
    plan.moved = 2;
    let page = html_diff(&plan, "x&y.rs");
    let expected = "<!doctype html>\n<html><head><meta charset=\"utf-8\"><title>x&amp;y.rs \u{2014} before/after</title>\n<style>body{margin:0;background:#fff;color:#1a1a1a}.legend{font:13px ui-monospace,monospace;padding:10px 24px}.legend b{color:#d83933}</style></head>\n<body>\n<div class=\"legend\">red arrows = moved &nbsp;\u{b7}&nbsp; gray = unchanged position &nbsp;\u{b7}&nbsp; 2/3 items moved</div>\n<svg width=\"888\" height=\"190\" xmlns=\"http://www.w3.org/2000/svg\" font-family=\"ui-monospace,Menlo,Consolas,monospace\" font-size=\"13\">\n<text x=\"24\" y=\"26\" font-size=\"15\" font-weight=\"700\">x&amp;y.rs</text>\n<text x=\"24\" y=\"50\" font-weight=\"700\">BEFORE</text>\n<text x=\"544\" y=\"50\" font-weight=\"700\">AFTER</text>\n<path d=\"M344.0,85.0 C444.0,85.0 444.0,115.0 544.0,115.0\" fill=\"none\" stroke=\"#d83933\" stroke-width=\"1.8\" opacity=\"0.95\"/>\n<path d=\"M344.0,115.0 C444.0,115.0 444.0,85.0 544.0,85.0\" fill=\"none\" stroke=\"#d83933\" stroke-width=\"1.8\" opacity=\"0.95\"/>\n<path d=\"M344.0,145.0 C444.0,145.0 444.0,145.0 544.0,145.0\" fill=\"none\" stroke=\"#9aa0a6\" stroke-width=\"1\" opacity=\"0.5\"/>\n<rect x=\"24\" y=\"74.0\" width=\"320\" height=\"24\" rx=\"5\" fill=\"#fff3cd\" stroke=\"#d08c00\"/>\n<text x=\"34\" y=\"92.0\">fn a</text>\n<rect x=\"24\" y=\"104.0\" width=\"320\" height=\"24\" rx=\"5\" fill=\"#fff3cd\" stroke=\"#d08c00\"/>\n<text x=\"34\" y=\"122.0\">struct &lt;B&gt;</text>\n<rect x=\"24\" y=\"134.0\" width=\"320\" height=\"24\" rx=\"5\" fill=\"#f4f5f7\" stroke=\"#d0d3d7\"/>\n<text x=\"34\" y=\"152.0\">fn c</text>\n<rect x=\"544\" y=\"74.0\" width=\"320\" height=\"24\" rx=\"5\" fill=\"#fff3cd\" stroke=\"#d08c00\"/>\n<text x=\"554\" y=\"92.0\">struct &lt;B&gt;</text>\n<rect x=\"544\" y=\"104.0\" width=\"320\" height=\"24\" rx=\"5\" fill=\"#fff3cd\" stroke=\"#d08c00\"/>\n<text x=\"554\" y=\"122.0\">fn a</text>\n<rect x=\"544\" y=\"134.0\" width=\"320\" height=\"24\" rx=\"5\" fill=\"#f4f5f7\" stroke=\"#d0d3d7\"/>\n<text x=\"554\" y=\"152.0\">fn c</text>\n</svg>\n\n</body></html>\n";
    assert_eq!(page, expected);
}

#[test]
fn html_diff_of_empty_plan() {
    let plan = plan_of(&[], vec![], vec![], vec![]);
    let page = html_diff(&plan, "t");
    assert!(page.contains("0/0 items moved"));
    assert!(page.contains("<svg width=\"888\" height=\"100\""));
    assert!(!page.contains("<rect"));
}

#[test]
fn emit_puts_pinned_items_and_comments_first() {
    let src = "// head\nuse std::fmt;\n\n// floating\n\n// attached\nfn a() { b() }\nfn b() {}\n// tail\n";
    let raws = vec![
        raw(src, Shape::Use, "use std::fmt;", &["std", "fmt"]),
        raw(src, fn_shape("a"), "fn a() { b() }", &["b"]),
        raw(src, fn_shape("b"), "fn b() {}", &[]),
    ];
    let fm = parse(src, &raws).unwrap();
    let swapped = ItemOrder { order: vec![0, 2, 1], in_mutual: vec![false; 3], comp_of: vec![0, 1, 2], mutual_groups: vec![] };
    assert_eq!(
        emit(&fm, &swapped),
        "// head\n\nuse std::fmt;\n\n// floating\n\nfn b() {}\n\n// attached\nfn a() { b() }\n\n// tail\n"
    );
    let grouped =
        ItemOrder { order: vec![0, 1, 2], in_mutual: vec![false, true, true], comp_of: vec![0, 1, 1], mutual_groups: vec![vec![1, 2]] };
    assert_eq!(
        emit(&fm, &grouped),
        "// head\n\nuse std::fmt;\n\n// floating\n\n// mutual start\n// attached\nfn a() { b() }\n\nfn b() {}\n// mutual end\n\n// tail\n"
    );
}

#[test]
fn esc_xml_escapes_entities() {
    assert_eq!(esc_xml("a<b> & \"c\""), "a&lt;b&gt; &amp; &quot;c&quot;");
}

#[test]
fn mermaid_model_views() {
    let fm = small_model();
    assert_eq!(before(&fm), "graph TD\n  N0[\"fn run\"]\n  N1[\"fn help\"]\n  N0 --> N1\n");
    let ord = ItemOrder { order: vec![1, 0], in_mutual: vec![false, false], comp_of: vec![0, 1], mutual_groups: vec![] };
    assert_eq!(after(&fm, &ord), "graph TD\n  N1[\"fn help\"]\n  N0[\"fn run\"]\n  N0 --> N1\n");
    assert_eq!(
        diff_table(&fm, &ord),
        "  BEFORE      AFTER  \n  -------------------\n  fn run   => fn help\n  fn help  => fn run \n"
    );
    assert_eq!(
        diff(&fm, &ord),
        "flowchart LR\n  subgraph BEFORE\n    direction TB\n    B0[\"fn run\"]\n    B1[\"fn help\"]\n    B0 ~~~ B1\n  end\n  subgraph AFTER\n    direction TB\n    A0[\"fn help\"]\n    A1[\"fn run\"]\n    A0 ~~~ A1\n  end\n  B0 -.-> A1\n  B1 -.-> A0\n  classDef moved fill:#ffe7a3,stroke:#d08c00,color:#000;\n  class B0,A1,B1,A0 moved;\n"
    );
}

#[test]
fn diff_table_truncates_long_labels() {
    let name = "a_function_with_a_rather_long_name_indeed_yes";
    let text = format!("fn {name}() {{}}");
    let src = format!("{text}\n");
    let raws = vec![raw(&src, fn_shape(name), &text, &[])];
    let fm = parse(&src, &raws).unwrap();
    let ord = ItemOrder { order: vec![0], in_mutual: vec![false], comp_of: vec![0], mutual_groups: vec![] };
    let label = format!("fn {}…", &name[..40]);
    let expected = format!(
        "  {:<44}     {:<44}\n  {}\n  {:<44}     {:<44}\n",
        "BEFORE",
        "AFTER",
        "-".repeat(93),
        label,
        label
    );
    assert_eq!(diff_table(&fm, &ord), expected);
}

#[test]
fn demo_runs() {
    assert_eq!(ping(0), 0);
    assert_eq!(ping(3), 1);
    assert_eq!(pong(0), 1);
    assert_eq!(pong(3), 0);
    assert_eq!(Helper::new().apply(7), 70);
    assert_eq!(run(Config { value: 4 }), 41);
}

#[test]
fn check_report_is_ok() {
    assert!(CheckReport { violations: vec![] }.is_ok());
    let v = CheckViolation { user: "a".to_string(), user_index: 0, dependency: "b".to_string(), dependency_index: 1 };
    assert!(!CheckReport { violations: vec![v] }.is_ok());
}

#[test]
fn reorder_model_counts_kinds() {
    let src = "struct S;\nfn f() {}\nconst C: u8 = 0;\n";
    let raws = vec![
        raw(src, Shape::Named(ItemKind::Struct, "S".to_string()), "struct S;", &[]),
        raw(src, fn_shape("f"), "fn f() {}", &[]),
        raw(src, Shape::Named(ItemKind::Const, "C".to_string()), "const C: u8 = 0;", &[]),
    ];
    let out = reorder(src, &raws, OrderOpts { inside: Tie::Original, outside: Tie::Original }).unwrap();
    let counts: Vec<(&str, usize)> = out.plan.kind_counts.iter().map(|(k, v)| (k.as_str(), *v)).collect();
    assert_eq!(counts, vec![("const", 1), ("fn", 1), ("struct", 1)]);
    assert_eq!(out.new_src, "struct S;\n\nfn f() {}\n\nconst C: u8 = 0;\n");
    assert_eq!(out.plan.moved, 0);
}
