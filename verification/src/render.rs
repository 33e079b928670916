//! Renderings derived from a `Plan`: Mermaid dependency graphs before and
//! after reordering, and the escaping that labels need.

use vstd::prelude::*;

use crate::text::{
    char_map, chars_of, decimal, lemma_char_map_id, lemma_replace_blocks, lemma_replace_char_absent, lemma_replace_char_concat,
    lemma_replace_char_single, push_all, push_decimal, push_decimal_wide, push_str, replace_all, replace_vec, string_of,
};
use crate::{gview, law_runs_cover, lemma_runs_last, lemma_runs_step, runs, Node, Plan};

verus! {

/// A label with its double quotes made single and its newlines made spaces.
pub open spec fn esc_label_spec(s: Seq<char>) -> Seq<char> {
    replace_all(replace_all(s, "\""@, "'"@), "\n"@, " "@)
}

/// Text with the characters special to XML replaced by entities.
pub open spec fn esc_xml_spec(s: Seq<char>) -> Seq<char> {
    replace_all(replace_all(replace_all(replace_all(s, "&"@, "&amp;"@), "<"@, "&lt;"@), ">"@, "&gt;"@), "\""@, "&quot;"@)
}

fn replace_lit(s: &Vec<char>, pat: &str, rep: &str) -> (r: Vec<char>)
    ensures
        r@ == replace_all(s@, pat@, rep@),
{
    let p = chars_of(pat);
    let q = chars_of(rep);
    replace_vec(s.as_slice(), p.as_slice(), q.as_slice())
}

/// `s` escaped for a Mermaid label.
pub(crate) fn esc_label(s: &str) -> (r: Vec<char>)
    ensures
        r@ == esc_label_spec(s@),
{
    let v = chars_of(s);
    let v1 = replace_lit(&v, "\"", "'");
    replace_lit(&v1, "\n", " ")
}

/// `s` escaped for XML text and attribute values.
pub fn esc_xml(s: &str) -> (r: String)
    ensures
        r@ == esc_xml_spec(s@),
{
    let v = chars_of(s);
    let v1 = replace_lit(&v, "&", "&amp;");
    let v2 = replace_lit(&v1, "<", "&lt;");
    let v3 = replace_lit(&v2, ">", "&gt;");
    let v4 = replace_lit(&v3, "\"", "&quot;");
    string_of(v4.as_slice())
}

/// Entities turned back into characters, in the order `&quot;`, `&gt;`,
/// `&lt;`, `&amp;` (each as `str::replace` would).
pub open spec fn xml_unescape_spec(s: Seq<char>) -> Seq<char> {
    replace_all(replace_all(replace_all(replace_all(s, "&quot;"@, "\""@), "&gt;"@, ">"@), "&lt;"@, "<"@), "&amp;"@, "&"@)
}

/// The escaped form of one character.
pub open spec fn xml_entity(x: char) -> Seq<char> {
    if x == '&' {
        seq!['&', 'a', 'm', 'p', ';']
    } else if x == '<' {
        seq!['&', 'l', 't', ';']
    } else if x == '>' {
        seq!['&', 'g', 't', ';']
    } else if x == '"' {
        seq!['&', 'q', 'u', 'o', 't', ';']
    } else {
        seq![x]
    }
}

spec fn ent_quot(x: char) -> Seq<char> {
    if x == '"' { seq!['"'] } else { xml_entity(x) }
}

spec fn ent_gt(x: char) -> Seq<char> {
    if x == '>' { seq!['>'] } else { ent_quot(x) }
}

spec fn ent_lt(x: char) -> Seq<char> {
    if x == '<' { seq!['<'] } else { ent_gt(x) }
}

spec fn ent_amp(x: char) -> Seq<char> {
    if x == '&' { seq!['&'] } else { ent_lt(x) }
}

proof fn lemma_xml_literals()
    ensures
        "&"@ == seq!['&'],
        "<"@ == seq!['<'],
        ">"@ == seq!['>'],
        "\""@ == seq!['"'],
        "&amp;"@ == seq!['&', 'a', 'm', 'p', ';'],
        "&lt;"@ == seq!['&', 'l', 't', ';'],
        "&gt;"@ == seq!['&', 'g', 't', ';'],
        "&quot;"@ == seq!['&', 'q', 'u', 'o', 't', ';'],
{
    reveal_strlit("&");
    reveal_strlit("<");
    reveal_strlit(">");
    reveal_strlit("\"");
    reveal_strlit("&amp;");
    reveal_strlit("&lt;");
    reveal_strlit("&gt;");
    reveal_strlit("&quot;");
    assert("&"@ =~= seq!['&']);
    assert("<"@ =~= seq!['<']);
    assert(">"@ =~= seq!['>']);
    assert("\""@ =~= seq!['"']);
    assert("&amp;"@ =~= seq!['&', 'a', 'm', 'p', ';']);
    assert("&lt;"@ =~= seq!['&', 'l', 't', ';']);
    assert("&gt;"@ =~= seq!['&', 'g', 't', ';']);
    assert("&quot;"@ =~= seq!['&', 'q', 'u', 'o', 't', ';']);
}

/// Escaping goes character by character.
proof fn lemma_esc_concat(a: Seq<char>, b: Seq<char>)
    ensures
        esc_xml_spec(a + b) == esc_xml_spec(a) + esc_xml_spec(b),
{
    lemma_xml_literals();
    let r1a = replace_all(a, "&"@, "&amp;"@);
    let r1b = replace_all(b, "&"@, "&amp;"@);
    lemma_replace_char_concat(a, b, '&', "&amp;"@);
    let r2a = replace_all(r1a, "<"@, "&lt;"@);
    let r2b = replace_all(r1b, "<"@, "&lt;"@);
    lemma_replace_char_concat(r1a, r1b, '<', "&lt;"@);
    let r3a = replace_all(r2a, ">"@, "&gt;"@);
    let r3b = replace_all(r2b, ">"@, "&gt;"@);
    lemma_replace_char_concat(r2a, r2b, '>', "&gt;"@);
    lemma_replace_char_concat(r3a, r3b, '"', "&quot;"@);
}

/// The escape of one character is its entity.
proof fn lemma_esc_char(x: char)
    ensures
        esc_xml_spec(seq![x]) == xml_entity(x),
{
    lemma_xml_literals();
    let amp = seq!['&', 'a', 'm', 'p', ';'];
    let lt = seq!['&', 'l', 't', ';'];
    let gt = seq!['&', 'g', 't', ';'];
    let quot = seq!['&', 'q', 'u', 'o', 't', ';'];
    lemma_replace_char_single(x, '&', amp);
    let r1 = replace_all(seq![x], seq!['&'], amp);
    if x == '&' {
        assert(!amp.contains('<') && !amp.contains('>') && !amp.contains('"')) by {
            if amp.contains('<') || amp.contains('>') || amp.contains('"') {
                let k = choose|k: int| 0 <= k < amp.len() && (amp[k] == '<' || amp[k] == '>' || amp[k] == '"');
            }
        }
        lemma_replace_char_absent(amp, '<', lt);
        lemma_replace_char_absent(amp, '>', gt);
        lemma_replace_char_absent(amp, '"', quot);
    } else {
        assert(r1 == seq![x]);
        lemma_replace_char_single(x, '<', lt);
        if x == '<' {
            assert(!lt.contains('>') && !lt.contains('"')) by {
                if lt.contains('>') || lt.contains('"') {
                    let k = choose|k: int| 0 <= k < lt.len() && (lt[k] == '>' || lt[k] == '"');
                }
            }
            lemma_replace_char_absent(lt, '>', gt);
            lemma_replace_char_absent(lt, '"', quot);
        } else {
            lemma_replace_char_single(x, '>', gt);
            if x == '>' {
                assert(!gt.contains('"')) by {
                    if gt.contains('"') {
                        let k = choose|k: int| 0 <= k < gt.len() && gt[k] == '"';
                    }
                }
                lemma_replace_char_absent(gt, '"', quot);
            } else {
                lemma_replace_char_single(x, '"', quot);
            }
        }
    }
}

/// Escaping writes each character as its entity.
proof fn lemma_esc_char_map(s: Seq<char>)
    ensures
        esc_xml_spec(s) == char_map(s, |x: char| xml_entity(x)),
    decreases s.len(),
{
    if s.len() == 0 {
        lemma_xml_literals();
        assert(replace_all(s, seq!['&'], seq!['&', 'a', 'm', 'p', ';']) =~= s);
        assert(replace_all(s, seq!['<'], seq!['&', 'l', 't', ';']) =~= s);
        assert(replace_all(s, seq!['>'], seq!['&', 'g', 't', ';']) =~= s);
        assert(replace_all(s, seq!['"'], seq!['&', 'q', 'u', 'o', 't', ';']) =~= s);
    } else {
        lemma_esc_char_map(s.skip(1));
        assert(s =~= seq![s[0]] + s.skip(1));
        lemma_esc_concat(seq![s[0]], s.skip(1));
        lemma_esc_char(s[0]);
    }
}

/// Escaping for XML can be undone: replacing `&quot;`, `&gt;`, `&lt;` and
/// then `&amp;` by the characters they stand for gives the text back.
pub proof fn law_esc_xml_round_trip(s: Seq<char>)
    ensures
        xml_unescape_spec(esc_xml_spec(s)) == s,
{
    lemma_xml_literals();
    lemma_esc_char_map(s);
    let amp = seq!['&', 'a', 'm', 'p', ';'];
    let lt = seq!['&', 'l', 't', ';'];
    let gt = seq!['&', 'g', 't', ';'];
    let quot = seq!['&', 'q', 'u', 'o', 't', ';'];
    let f0 = |x: char| xml_entity(x);
    let f1 = |x: char| ent_quot(x);
    let f2 = |x: char| ent_gt(x);
    let f3 = |x: char| ent_lt(x);
    let f4 = |x: char| ent_amp(x);
    assert(amp != quot && amp != gt && amp != lt) by {
        assert(amp.len() != quot.len() && amp.len() != gt.len() && amp.len() != lt.len());
    }
    assert(lt != quot && lt != gt) by {
        assert(lt.len() != quot.len());
        assert(lt[1] != gt[1]);
    }
    assert(gt != quot) by {
        assert(gt.len() != quot.len());
    }
    assert forall|x: char| #[trigger] f0(x) != quot ==> f1(x) == f0(x) && f0(x).len() >= 1 && !f0(x).skip(1).contains('&')
        && (f0(x)[0] == '&' ==> f0(x).len() >= 2 && f0(x)[1] != quot[1]) by {
        if f0(x) != quot {
            let t1 = f0(x).skip(1);
            if t1.contains('&') {
                let k = choose|k: int| 0 <= k < t1.len() && t1[k] == '&';
            }
        }
    }
    assert forall|x: char| #[trigger] f0(x) == quot ==> f1(x) == "\""@ by {
        if f0(x) == quot && x != '"' {
            if x == '&' || x == '<' || x == '>' {
            } else {
                assert(f0(x).len() == 1);
            }
        }
    }
    lemma_replace_blocks(s, f0, f1, quot, seq!['"']);
    assert forall|x: char| #[trigger] f1(x) != gt ==> f2(x) == f1(x) && f1(x).len() >= 1 && !f1(x).skip(1).contains('&')
        && (f1(x)[0] == '&' ==> f1(x).len() >= 2 && f1(x)[1] != gt[1]) by {
        if f1(x) != gt {
            let t1 = f1(x).skip(1);
            if t1.contains('&') {
                let k = choose|k: int| 0 <= k < t1.len() && t1[k] == '&';
            }
        }
    }
    assert forall|x: char| #[trigger] f1(x) == gt ==> f2(x) == seq!['>'] by {
        if f1(x) == gt && x != '>' {
            if x == '&' || x == '<' {
            } else {
                assert(f1(x).len() == 1);
            }
        }
    }
    lemma_replace_blocks(s, f1, f2, gt, seq!['>']);
    assert forall|x: char| #[trigger] f2(x) != lt ==> f3(x) == f2(x) && f2(x).len() >= 1 && !f2(x).skip(1).contains('&')
        && (f2(x)[0] == '&' ==> f2(x).len() >= 2 && f2(x)[1] != lt[1]) by {
        if f2(x) != lt {
            let t1 = f2(x).skip(1);
            if t1.contains('&') {
                let k = choose|k: int| 0 <= k < t1.len() && t1[k] == '&';
            }
        }
    }
    assert forall|x: char| #[trigger] f2(x) == lt ==> f3(x) == seq!['<'] by {
        if f2(x) == lt && x != '<' {
            if x == '&' {
            } else {
                assert(f2(x).len() == 1);
            }
        }
    }
    lemma_replace_blocks(s, f2, f3, lt, seq!['<']);
    assert forall|x: char| #[trigger] f3(x) != amp ==> f4(x) == f3(x) && f3(x).len() >= 1 && !f3(x).skip(1).contains('&')
        && (f3(x)[0] == '&' ==> f3(x).len() >= 2 && f3(x)[1] != amp[1]) by {
        if f3(x) != amp {
            let t1 = f3(x).skip(1);
            if t1.contains('&') {
                let k = choose|k: int| 0 <= k < t1.len() && t1[k] == '&';
            }
        }
    }
    assert forall|x: char| #[trigger] f3(x) == amp ==> f4(x) == seq!['&'] by {
        if f3(x) == amp && x != '&' {
            assert(f3(x).len() == 1);
        }
    }
    lemma_replace_blocks(s, f3, f4, amp, seq!['&']);
    assert forall|x: char| #[trigger] f4(x) == seq![x] by {}
    lemma_char_map_id(s, f4);
}

/// The declaration of node `c` with label `label`, after `indent`.
pub open spec fn node_text(indent: Seq<char>, c: nat, label: Seq<char>) -> Seq<char> {
    indent + "N"@ + decimal(c) + "[\""@ + esc_label_spec(label) + "\"]\n"@
}

/// The labels of the nodes.
pub open spec fn node_labels(nodes: Seq<Node>) -> Seq<Seq<char>> {
    nodes.map_values(|n: Node| n.display@)
}

/// The declarations of the first `k` nodes, in index order.
pub open spec fn nodes_text(labels: Seq<Seq<char>>, k: int) -> Seq<char>
    decreases k,
{
    if k <= 0 {
        Seq::empty()
    } else {
        nodes_text(labels, k - 1) + node_text("  "@, (k - 1) as nat, labels[k - 1])
    }
}

/// The edges from node `c` to the first `j` of `ds`.
pub open spec fn edges_of(c: nat, ds: Seq<usize>, j: int) -> Seq<char>
    decreases j,
{
    if j <= 0 {
        Seq::empty()
    } else {
        edges_of(c, ds, j - 1) + "  N"@ + decimal(c) + " --> N"@ + decimal(ds[j - 1] as nat) + "\n"@
    }
}

/// The edges of the first `k` nodes.
pub open spec fn edges_text(deps: Seq<Vec<usize>>, k: int) -> Seq<char>
    decreases k,
{
    if k <= 0 {
        Seq::empty()
    } else {
        edges_text(deps, k - 1) + edges_of((k - 1) as nat, deps[k - 1]@, deps[k - 1].len() as int)
    }
}

/// The Mermaid graph of a plan before reordering.
pub open spec fn mermaid_before_spec(p: Plan) -> Seq<char> {
    "graph TD\n"@ + nodes_text(node_labels(p.nodes@), p.nodes.len() as int) + edges_text(p.deps@, p.deps.len() as int)
}

/// The declarations of the nodes of `run`, one level in.
pub open spec fn run_nodes(labels: Seq<Seq<char>>, run: Seq<usize>, j: int) -> Seq<char>
    decreases j,
{
    if j <= 0 {
        Seq::empty()
    } else {
        run_nodes(labels, run, j - 1) + node_text("    "@, run[j - 1] as nat, labels[run[j - 1] as int])
    }
}

/// The number of runs among the first `q` that are mutual groups.
pub open spec fn group_runs(rs: Seq<Seq<usize>>, gid: Seq<int>, q: int) -> nat
    decreases q,
{
    if q <= 0 {
        0
    } else {
        group_runs(rs, gid, q - 1) + if gid[rs[q - 1][0] as int] >= 0 {
            1nat
        } else {
            0nat
        }
    }
}

/// The text of the first `q` runs: a mutual group as a numbered subgraph,
/// any other node on its own.
pub open spec fn runs_text(labels: Seq<Seq<char>>, rs: Seq<Seq<usize>>, gid: Seq<int>, q: int) -> Seq<char>
    decreases q,
{
    if q <= 0 {
        Seq::empty()
    } else {
        let r = rs[q - 1];
        runs_text(labels, rs, gid, q - 1) + if gid[r[0] as int] >= 0 {
            "  subgraph mutual_"@ + decimal(group_runs(rs, gid, q)) + "[\"mutual\"]\n"@ + run_nodes(labels, r, r.len() as int)
                + "  end\n"@
        } else {
            node_text("  "@, r[0] as nat, labels[r[0] as int])
        }
    }
}

/// The Mermaid graph of a plan after reordering.
pub open spec fn mermaid_after_spec(p: Plan) -> Seq<char> {
    let rs = runs(p.after@, gview(p.group_of@));
    "graph TD\n"@ + runs_text(node_labels(p.nodes@), rs, gview(p.group_of@), rs.len() as int) + edges_text(p.deps@, p.deps.len() as int)
}

/// The graphs of a plan before and after reordering share one block of
/// edges, a line `N{c} --> N{d}` for each dependency `d` of each node `c`;
/// they differ only in the declarations: in index order before, and after
/// in the runs of `after`, which joined up give `after` back, each node
/// declared once in that order.
pub proof fn law_plan_graphs_share_edges(p: Plan)
    ensures
        mermaid_before_spec(p) == "graph TD\n"@ + nodes_text(node_labels(p.nodes@), p.nodes.len() as int) + edges_text(
            p.deps@,
            p.deps.len() as int,
        ),
        mermaid_after_spec(p) == "graph TD\n"@ + runs_text(
            node_labels(p.nodes@),
            runs(p.after@, gview(p.group_of@)),
            gview(p.group_of@),
            runs(p.after@, gview(p.group_of@)).len() as int,
        ) + edges_text(p.deps@, p.deps.len() as int),
        runs(p.after@, gview(p.group_of@)).flatten() == p.after@,
{
    law_runs_cover(p.after@, gview(p.group_of@));
}

/// Append the declaration of node `c`.
pub(crate) fn push_node(out: &mut Vec<char>, indent: &str, c: usize, label: &str)
    ensures
        final(out)@ == old(out)@ + node_text(indent@, c as nat, label@),
{
    push_str(out, indent);
    push_str(out, "N");
    push_decimal(out, c);
    push_str(out, "[\"");
    let e = esc_label(label);
    push_all(out, e.as_slice());
    push_str(out, "\"]\n");
    proof {
        assert(final(out)@ =~= old(out)@ + node_text(indent@, c as nat, label@));
    }
}

/// Append the edges from node `c` to each of `ds`.
pub(crate) fn push_edges_of(out: &mut Vec<char>, c: usize, ds: &Vec<usize>)
    ensures
        final(out)@ == old(out)@ + edges_of(c as nat, ds@, ds.len() as int),
{
    let ghost base = out@;
    let mut j: usize = 0;
    while j < ds.len()
        invariant
            j <= ds.len(),
            out@ == base + edges_of(c as nat, ds@, j as int),
        decreases ds.len() - j,
    {
        push_str(out, "  N");
        push_decimal(out, c);
        push_str(out, " --> N");
        push_decimal(out, ds[j]);
        push_str(out, "\n");
        proof {
            assert(out@ =~= base + edges_of(c as nat, ds@, j + 1));
        }
        j += 1;
    }
}

/// Append every dependency edge of the plan.
fn edges(plan: &Plan, out: &mut Vec<char>)
    ensures
        final(out)@ == old(out)@ + edges_text(plan.deps@, plan.deps.len() as int),
{
    let ghost start = out@;
    let mut c: usize = 0;
    while c < plan.deps.len()
        invariant
            c <= plan.deps.len(),
            out@ == start + edges_text(plan.deps@, c as int),
        decreases plan.deps.len() - c,
    {
        push_edges_of(out, c, &plan.deps[c]);
        proof {
            assert(out@ =~= start + edges_text(plan.deps@, c + 1));
        }
        c += 1;
    }
}

/// Mermaid dependency graph with nodes declared in original source order.
pub fn mermaid_before(plan: &Plan) -> (r: String)
    ensures
        r@ == mermaid_before_spec(*plan),
{
    let mut out = chars_of("graph TD\n");
    let mut c: usize = 0;
    while c < plan.nodes.len()
        invariant
            c <= plan.nodes.len(),
            out@ == "graph TD\n"@ + nodes_text(node_labels(plan.nodes@), c as int),
        decreases plan.nodes.len() - c,
    {
        push_node(&mut out, "  ", c, plan.nodes[c].display.as_str());
        proof {
            assert(node_labels(plan.nodes@)[c as int] == plan.nodes@[c as int].display@);
        }
        c += 1;
    }
    edges(plan, &mut out);
    string_of(out.as_slice())
}

pub proof fn lemma_runs_text_push(nodes: Seq<Seq<char>>, rs: Seq<Seq<usize>>, x: Seq<usize>, gid: Seq<int>, q: int)
    requires
        0 <= q <= rs.len(),
    ensures
        runs_text(nodes, rs.push(x), gid, q) == runs_text(nodes, rs, gid, q),
        group_runs(rs.push(x), gid, q) == group_runs(rs, gid, q),
    decreases q,
{
    if q > 0 {
        lemma_runs_text_push(nodes, rs, x, gid, q - 1);
        assert(rs.push(x)[q - 1] == rs[q - 1]);
    }
}

/// Mermaid dependency graph in reordered layout; mutual groups become subgraphs.
pub fn mermaid_after(plan: &Plan) -> (r: String)
    requires
        forall|k: int|
            0 <= k < plan.after.len() ==> #[trigger] plan.after@[k] < plan.nodes.len() && plan.after@[k]
                < plan.group_of.len(),
    ensures
        r@ == mermaid_after_spec(*plan),
{
    let ghost gv = gview(plan.group_of@);
    let ghost o = plan.after@;
    let ghost nodes = node_labels(plan.nodes@);
    let mut out = chars_of("graph TD\n");
    let mut i: usize = 0;
    let mut gnum: usize = 0;
    proof {
        assert(o.take(0) =~= Seq::<usize>::empty());
    }
    while i < plan.after.len()
        invariant
            forall|k: int|
                0 <= k < plan.after.len() ==> #[trigger] plan.after@[k] < plan.nodes.len() && plan.after@[k]
                    < plan.group_of.len(),
            gv == gview(plan.group_of@),
            o == plan.after@,
            nodes == node_labels(plan.nodes@),
            i <= o.len(),
            gnum <= i,
            out@ == "graph TD\n"@ + runs_text(nodes, runs(o.take(i as int), gv), gv, runs(o.take(i as int), gv).len() as int),
            gnum == group_runs(runs(o.take(i as int), gv), gv, runs(o.take(i as int), gv).len() as int),
            0 < i < o.len() ==> !(gv[o[i as int] as int] >= 0 && gv[o[i - 1] as int] == gv[o[i as int] as int]),
        decreases o.len() - i,
    {
        let c = plan.after[i];
        let g = plan.group_of[c];
        proof {
            assert(gv[c as int] == g as int);
        }
        let start = i;
        let ghost rs0 = runs(o.take(start as int), gv);
        let ghost out0 = out@;
        proof {
            lemma_runs_last(o.take(start as int), gv);
        }
        if g >= 0 {
            gnum += 1;
            push_str(&mut out, "  subgraph mutual_");
            push_decimal(&mut out, gnum);
            push_str(&mut out, "[\"mutual\"]\n");
            let ghost head = out@;
            while i < plan.after.len() && plan.group_of[plan.after[i]] == g
                invariant
                    forall|k: int|
                        0 <= k < plan.after.len() ==> #[trigger] plan.after@[k] < plan.nodes.len() && plan.after@[k]
                            < plan.group_of.len(),
                    gv == gview(plan.group_of@),
                    o == plan.after@,
                    nodes == node_labels(plan.nodes@),
                    start < o.len(),
                    start <= i <= o.len(),
                    gv[o[start as int] as int] == g as int,
                    g >= 0,
                    rs0 == runs(o.take(start as int), gv),
                    0 < start ==> !(gv[o[start as int] as int] >= 0 && gv[o[start - 1] as int] == gv[o[start as int] as int]),
                    i > start ==> runs(o.take(i as int), gv) == rs0.push(o.subrange(start as int, i as int)),
                    i > start ==> gv[o[i - 1] as int] == g as int,
                    out@ == head + run_nodes(nodes, o.subrange(start as int, i as int), i - start),
                decreases o.len() - i,
            {
                proof {
                    assert(gv[o[i as int] as int] == plan.group_of@[plan.after@[i as int] as int] as int);
                    lemma_runs_step(o, gv, i as int);
                    assert(o.subrange(start as int, i as int).push(o[i as int]) =~= o.subrange(start as int, i + 1));
                    assert forall|j: int| 0 <= j <= i - start implies #[trigger] run_nodes(nodes, o.subrange(start as int, i + 1), j) == run_nodes(nodes, o.subrange(start as int, i as int), j) by {
                        lemma_run_nodes_prefix(nodes, o.subrange(start as int, i as int), o[i as int], j);
                    }
                    if i == start {
                        assert(o.subrange(start as int, i + 1) =~= seq![o[i as int]]);
                    }
                }
                let m = plan.after[i];
                push_node(&mut out, "    ", m, plan.nodes[m].display.as_str());
                proof {
                    assert(o.take(i + 1) =~= o.take(i as int).push(o[i as int]));
                    let r2 = o.subrange(start as int, i + 1);
                    let jj = i - start;
                    assert(r2[jj] == o[i as int]);
                    assert(run_nodes(nodes, r2, jj + 1) == run_nodes(nodes, r2, jj) + node_text("    "@, r2[jj] as nat, nodes[r2[jj] as int]));
                    assert(nodes[m as int] == plan.nodes@[m as int].display@);
                    assert(run_nodes(nodes, r2, jj) == run_nodes(nodes, o.subrange(start as int, i as int), jj));
                    assert(out@ =~= head + run_nodes(nodes, r2, jj + 1));
                }
                i += 1;
            }
            push_str(&mut out, "  end\n");
            proof {
                let r = o.subrange(start as int, i as int);
                assert(r[0] == o[start as int]);
                let rs1 = runs(o.take(i as int), gv);
                assert(rs1 == rs0.push(r));
                lemma_runs_text_push(nodes, rs0, r, gv, rs0.len() as int);
                assert(rs1[rs0.len() as int] == r);
                assert(group_runs(rs1, gv, rs1.len() as int) == group_runs(rs0, gv, rs0.len() as int) + 1);
                assert(out@ =~= "graph TD\n"@ + runs_text(nodes, rs1, gv, rs1.len() as int));
                if i < o.len() {
                    assert(gv[o[i as int] as int] == plan.group_of@[plan.after@[i as int] as int] as int);
                }
            }
        } else {
            push_node(&mut out, "  ", c, plan.nodes[c].display.as_str());
            proof {
                assert(nodes[c as int] == plan.nodes@[c as int].display@);
                lemma_runs_step(o, gv, i as int);
                assert(o.take(i + 1) =~= o.take(i as int).push(o[i as int]));
                let rs1 = runs(o.take(i + 1), gv);
                assert(rs1 == rs0.push(seq![c]));
                lemma_runs_text_push(nodes, rs0, seq![c], gv, rs0.len() as int);
                assert(rs1[rs0.len() as int] == seq![c]);
                assert(out@ =~= "graph TD\n"@ + runs_text(nodes, rs1, gv, rs1.len() as int));
            }
            i += 1;
        }
    }
    proof {
        assert(o.take(o.len() as int) =~= o);
    }
    edges(plan, &mut out);
    string_of(out.as_slice())
}

pub proof fn lemma_run_nodes_prefix(nodes: Seq<Seq<char>>, r: Seq<usize>, x: usize, j: int)
    requires
        0 <= j <= r.len(),
    ensures
        run_nodes(nodes, r.push(x), j) == run_nodes(nodes, r, j),
    decreases j,
{
    if j > 0 {
        lemma_run_nodes_prefix(nodes, r, x, j - 1);
        assert(r.push(x)[j - 1] == r[j - 1]);
    }
}

/// A whole number as printed with one decimal place.
pub open spec fn dec1(v: nat) -> Seq<char> {
    decimal(v) + ".0"@
}

/// The vertical middle of row `row` of the movement diagram.
pub open spec fn row_mid(row: nat) -> nat {
    85 + 30 * row
}

/// The last position of `c` among the first `k` entries of `o`; 0 when it
/// is not among them.
pub open spec fn last_pos(o: Seq<usize>, c: int, k: int) -> int
    decreases k,
{
    if k <= 0 {
        0
    } else if o[k - 1] as int == c {
        k - 1
    } else {
        last_pos(o, c, k - 1)
    }
}

/// The curve from row `from` of the BEFORE column to row `to` of the AFTER
/// column: red when the item moved, gray otherwise.
pub open spec fn link_svg(from: nat, to: nat) -> Seq<char> {
    "<path d=\"M344.0,"@ + dec1(row_mid(from)) + " C444.0,"@ + dec1(row_mid(from)) + " 444.0,"@ + dec1(row_mid(to))
        + " 544.0,"@ + dec1(row_mid(to)) + "\" fill=\"none\" stroke=\""@ + if from != to {
        "#d83933\" stroke-width=\"1.8\" opacity=\"0.95"@
    } else {
        "#9aa0a6\" stroke-width=\"1\" opacity=\"0.5"@
    } + "\"/>\n"@
}

/// The curves of the first `k` items.
pub open spec fn links_svg(o: Seq<usize>, k: int) -> Seq<char>
    decreases k,
{
    if k <= 0 {
        Seq::empty()
    } else {
        links_svg(o, k - 1) + link_svg((k - 1) as nat, last_pos(o, k - 1, o.len() as int) as nat)
    }
}

/// The frame of a box at row `row` of the column that starts at `x`;
/// highlighted when the item moved.
pub open spec fn rect_svg(x: nat, row: nat, moved: bool) -> Seq<char> {
    "<rect x=\""@ + decimal(x) + "\" y=\""@ + dec1(74 + 30 * row) + "\" width=\"320\" height=\"24\" rx=\"5\" fill=\""@
        + if moved {
        "#fff3cd\" stroke=\"#d08c00"@
    } else {
        "#f4f5f7\" stroke=\"#d0d3d7"@
    } + "\"/>\n"@
}

/// The text of a box at row `row` of the column that starts at `x`.
pub open spec fn label_svg(x: nat, row: nat, label: Seq<char>) -> Seq<char> {
    "<text x=\""@ + decimal(x + 10) + "\" y=\""@ + dec1(92 + 30 * row) + "\">"@ + esc_xml_spec(label) + "</text>\n"@
}

/// The box of `label` at row `row` of the column that starts at `x`.
pub open spec fn box_svg(x: nat, row: nat, label: Seq<char>, moved: bool) -> Seq<char> {
    rect_svg(x, row, moved) + label_svg(x, row, label)
}

/// The BEFORE column: the first `k` items in source order.
pub open spec fn left_boxes(labels: Seq<Seq<char>>, o: Seq<usize>, k: int) -> Seq<char>
    decreases k,
{
    if k <= 0 {
        Seq::empty()
    } else {
        left_boxes(labels, o, k - 1) + box_svg(24, (k - 1) as nat, labels[k - 1], last_pos(o, k - 1, o.len() as int) != k - 1)
    }
}

/// The AFTER column: the first `k` rows of `o`.
pub open spec fn right_boxes(labels: Seq<Seq<char>>, o: Seq<usize>, k: int) -> Seq<char>
    decreases k,
{
    if k <= 0 {
        Seq::empty()
    } else {
        right_boxes(labels, o, k - 1) + box_svg(544, (k - 1) as nat, labels[o[k - 1] as int], o[k - 1] as int != k - 1)
    }
}

/// The page head of the movement diagram, up to the drawing.
pub open spec fn html_head(p: Plan, title: Seq<char>) -> Seq<char> {
    "<!doctype html>\n<html><head><meta charset=\"utf-8\"><title>"@ + esc_xml_spec(title)
        + " \u{2014} before/after</title>\n<style>body{margin:0;background:#fff;color:#1a1a1a}.legend{font:13px ui-monospace,monospace;padding:10px 24px}.legend b{color:#d83933}</style></head>\n<body>\n<div class=\"legend\">red arrows = moved &nbsp;\u{b7}&nbsp; gray = unchanged position &nbsp;\u{b7}&nbsp; "@
        + decimal(p.moved as nat) + "/"@ + decimal(p.nodes.len() as nat) + " items moved</div>\n"@
}

/// The drawing: titles, curves under the boxes, then both columns.
pub open spec fn svg_spec(p: Plan, title: Seq<char>) -> Seq<char> {
    let n = p.nodes.len() as int;
    let labels = node_labels(p.nodes@);
    let o = p.after@;
    "<svg width=\"888\" height=\""@ + decimal((100 + 30 * n) as nat)
        + "\" xmlns=\"http://www.w3.org/2000/svg\" font-family=\"ui-monospace,Menlo,Consolas,monospace\" font-size=\"13\">\n<text x=\"24\" y=\"26\" font-size=\"15\" font-weight=\"700\">"@
        + esc_xml_spec(title)
        + "</text>\n<text x=\"24\" y=\"50\" font-weight=\"700\">BEFORE</text>\n<text x=\"544\" y=\"50\" font-weight=\"700\">AFTER</text>\n"@
        + links_svg(o, n) + left_boxes(labels, o, n) + right_boxes(labels, o, o.len() as int) + "</svg>\n"@
}

/// The self-contained HTML page of the movement diagram.
pub open spec fn html_spec(p: Plan, title: Seq<char>) -> Seq<char> {
    html_head(p, title) + svg_spec(p, title) + "\n</body></html>\n"@
}

/// Append a whole number with one decimal place.
fn push_dec1(out: &mut Vec<char>, v: u128)
    ensures
        final(out)@ == old(out)@ + dec1(v as nat),
{
    push_decimal_wide(out, v);
    push_str(out, ".0");
    proof {
        assert(final(out)@ =~= old(out)@ + dec1(v as nat));
    }
}

/// Append the curve from row `from` to row `to`.
fn push_link(out: &mut Vec<char>, from: usize, to: usize)
    ensures
        final(out)@ == old(out)@ + link_svg(from as nat, to as nat),
{
    let y1: u128 = 85 + 30 * (from as u128);
    let y2: u128 = 85 + 30 * (to as u128);
    push_str(out, "<path d=\"M344.0,");
    push_dec1(out, y1);
    push_str(out, " C444.0,");
    push_dec1(out, y1);
    push_str(out, " 444.0,");
    push_dec1(out, y2);
    push_str(out, " 544.0,");
    push_dec1(out, y2);
    push_str(out, "\" fill=\"none\" stroke=\"");
    if from != to {
        push_str(out, "#d83933\" stroke-width=\"1.8\" opacity=\"0.95");
    } else {
        push_str(out, "#9aa0a6\" stroke-width=\"1\" opacity=\"0.5");
    }
    push_str(out, "\"/>\n");
    proof {
        assert(final(out)@ =~= old(out)@ + link_svg(from as nat, to as nat));
    }
}

/// Append the frame of a box.
fn push_rect(out: &mut Vec<char>, x: u128, row: usize, moved: bool)
    ensures
        final(out)@ == old(out)@ + rect_svg(x as nat, row as nat, moved),
{
    push_str(out, "<rect x=\"");
    push_decimal_wide(out, x);
    push_str(out, "\" y=\"");
    push_dec1(out, 74 + 30 * (row as u128));
    push_str(out, "\" width=\"320\" height=\"24\" rx=\"5\" fill=\"");
    if moved {
        push_str(out, "#fff3cd\" stroke=\"#d08c00");
    } else {
        push_str(out, "#f4f5f7\" stroke=\"#d0d3d7");
    }
    push_str(out, "\"/>\n");
    proof {
        assert(final(out)@ =~= old(out)@ + rect_svg(x as nat, row as nat, moved));
    }
}

/// Append the text of a box.
fn push_label(out: &mut Vec<char>, x: u128, row: usize, label: &str)
    requires
        x < 1000,
    ensures
        final(out)@ == old(out)@ + label_svg(x as nat, row as nat, label@),
{
    push_str(out, "<text x=\"");
    push_decimal_wide(out, x + 10);
    push_str(out, "\" y=\"");
    push_dec1(out, 92 + 30 * (row as u128));
    push_str(out, "\">");
    let e = esc_xml(label);
    push_str(out, e.as_str());
    push_str(out, "</text>\n");
    proof {
        assert(final(out)@ =~= old(out)@ + label_svg(x as nat, row as nat, label@));
    }
}

/// Append the box of `label` at row `row` of the column at `x`.
fn push_box(out: &mut Vec<char>, x: u128, row: usize, label: &str, moved: bool)
    requires
        x < 1000,
    ensures
        final(out)@ == old(out)@ + box_svg(x as nat, row as nat, label@, moved),
{
    push_rect(out, x, row, moved);
    push_label(out, x, row, label);
    proof {
        assert(final(out)@ =~= old(out)@ + box_svg(x as nat, row as nat, label@, moved));
    }
}

/// For each of the `n` items, its last position in `o` (0 when absent).
pub(crate) fn last_positions(o: &Vec<usize>, n: usize) -> (pos: Vec<usize>)
    requires
        forall|k: int| 0 <= k < o.len() ==> #[trigger] o@[k] < n,
    ensures
        pos.len() == n,
        forall|c: int| 0 <= c < n ==> #[trigger] pos@[c] as int == last_pos(o@, c, o.len() as int),
{
    let mut pos: Vec<usize> = Vec::new();
    while pos.len() < n
        invariant
            pos.len() <= n,
            forall|c: int| 0 <= c < pos.len() ==> #[trigger] pos@[c] == 0,
        decreases n - pos.len(),
    {
        pos.push(0);
    }
    let mut p: usize = 0;
    while p < o.len()
        invariant
            forall|k: int| 0 <= k < o.len() ==> #[trigger] o@[k] < n,
            pos.len() == n,
            p <= o.len(),
            forall|c: int| 0 <= c < n ==> #[trigger] pos@[c] as int == last_pos(o@, c, p as int),
        decreases o.len() - p,
    {
        let c = o[p];
        pos.set(c, p);
        p += 1;
    }
    pos
}

/// Append the page head of the movement diagram.
fn push_html_head(out: &mut Vec<char>, plan: &Plan, title: &str)
    ensures
        final(out)@ == old(out)@ + html_head(*plan, title@),
{
    let t = esc_xml(title);
    push_str(out, "<!doctype html>\n<html><head><meta charset=\"utf-8\"><title>");
    push_str(out, t.as_str());
    push_str(out, " \u{2014} before/after</title>\n<style>body{margin:0;background:#fff;color:#1a1a1a}.legend{font:13px ui-monospace,monospace;padding:10px 24px}.legend b{color:#d83933}</style></head>\n<body>\n<div class=\"legend\">red arrows = moved &nbsp;\u{b7}&nbsp; gray = unchanged position &nbsp;\u{b7}&nbsp; ");
    push_decimal(out, plan.moved);
    push_str(out, "/");
    push_decimal(out, plan.nodes.len());
    push_str(out, " items moved</div>\n");
    proof {
        assert(final(out)@ =~= old(out)@ + html_head(*plan, title@));
    }
}

/// Append the opening of the drawing with its titles, for `n` rows.
fn push_svg_top(out: &mut Vec<char>, n: usize, title: &str)
    ensures
        final(out)@ == old(out)@ + "<svg width=\"888\" height=\""@ + decimal((100 + 30 * n) as nat)
            + "\" xmlns=\"http://www.w3.org/2000/svg\" font-family=\"ui-monospace,Menlo,Consolas,monospace\" font-size=\"13\">\n<text x=\"24\" y=\"26\" font-size=\"15\" font-weight=\"700\">"@
            + esc_xml_spec(title@)
            + "</text>\n<text x=\"24\" y=\"50\" font-weight=\"700\">BEFORE</text>\n<text x=\"544\" y=\"50\" font-weight=\"700\">AFTER</text>\n"@,
{
    let t = esc_xml(title);
    push_str(out, "<svg width=\"888\" height=\"");
    push_decimal_wide(out, 100 + 30 * (n as u128));
    push_str(out, "\" xmlns=\"http://www.w3.org/2000/svg\" font-family=\"ui-monospace,Menlo,Consolas,monospace\" font-size=\"13\">\n<text x=\"24\" y=\"26\" font-size=\"15\" font-weight=\"700\">");
    push_str(out, t.as_str());
    push_str(out, "</text>\n<text x=\"24\" y=\"50\" font-weight=\"700\">BEFORE</text>\n<text x=\"544\" y=\"50\" font-weight=\"700\">AFTER</text>\n");
    proof {
        let top = "<svg width=\"888\" height=\""@ + decimal((100 + 30 * n) as nat)
            + "\" xmlns=\"http://www.w3.org/2000/svg\" font-family=\"ui-monospace,Menlo,Consolas,monospace\" font-size=\"13\">\n<text x=\"24\" y=\"26\" font-size=\"15\" font-weight=\"700\">"@
            + esc_xml_spec(title@)
            + "</text>\n<text x=\"24\" y=\"50\" font-weight=\"700\">BEFORE</text>\n<text x=\"544\" y=\"50\" font-weight=\"700\">AFTER</text>\n"@;
        assert(final(out)@ =~= old(out)@ + top);
    }
}

/// Append the curves of all items, `pos` giving where each one lands.
fn push_links(out: &mut Vec<char>, o: &Vec<usize>, pos: &Vec<usize>)
    requires
        forall|k: int| 0 <= k < pos.len() ==> #[trigger] pos@[k] as int == last_pos(o@, k, o.len() as int),
    ensures
        final(out)@ == old(out)@ + links_svg(o@, pos.len() as int),
{
    let ghost top = out@;
    let mut c: usize = 0;
    while c < pos.len()
        invariant
            forall|k: int| 0 <= k < pos.len() ==> #[trigger] pos@[k] as int == last_pos(o@, k, o.len() as int),
            c <= pos.len(),
            out@ == top + links_svg(o@, c as int),
        decreases pos.len() - c,
    {
        push_link(out, c, pos[c]);
        proof {
            assert(out@ =~= top + links_svg(o@, c + 1));
        }
        c += 1;
    }
}

/// Append the BEFORE column.
fn push_left(out: &mut Vec<char>, nodes: &Vec<Node>, o: &Vec<usize>, pos: &Vec<usize>)
    requires
        pos.len() == nodes.len(),
        forall|k: int| 0 <= k < pos.len() ==> #[trigger] pos@[k] as int == last_pos(o@, k, o.len() as int),
    ensures
        final(out)@ == old(out)@ + left_boxes(node_labels(nodes@), o@, nodes.len() as int),
{
    let ghost labels = node_labels(nodes@);
    let ghost mid = out@;
    let mut c: usize = 0;
    while c < nodes.len()
        invariant
            labels == node_labels(nodes@),
            pos.len() == nodes.len(),
            forall|k: int| 0 <= k < pos.len() ==> #[trigger] pos@[k] as int == last_pos(o@, k, o.len() as int),
            c <= nodes.len(),
            out@ == mid + left_boxes(labels, o@, c as int),
        decreases nodes.len() - c,
    {
        push_box(out, 24, c, nodes[c].display.as_str(), pos[c] != c);
        proof {
            assert(labels[c as int] == nodes@[c as int].display@);
            assert(out@ =~= mid + left_boxes(labels, o@, c + 1));
        }
        c += 1;
    }
}

/// Append the AFTER column.
fn push_right(out: &mut Vec<char>, nodes: &Vec<Node>, o: &Vec<usize>)
    requires
        forall|k: int| 0 <= k < o.len() ==> #[trigger] o@[k] < nodes.len(),
    ensures
        final(out)@ == old(out)@ + right_boxes(node_labels(nodes@), o@, o.len() as int),
{
    let ghost labels = node_labels(nodes@);
    let ghost mid = out@;
    let mut row: usize = 0;
    while row < o.len()
        invariant
            labels == node_labels(nodes@),
            forall|k: int| 0 <= k < o.len() ==> #[trigger] o@[k] < nodes.len(),
            row <= o.len(),
            out@ == mid + right_boxes(labels, o@, row as int),
        decreases o.len() - row,
    {
        let c = o[row];
        push_box(out, 544, row, nodes[c].display.as_str(), row != c);
        proof {
            assert(labels[c as int] == nodes@[c as int].display@);
            assert(out@ =~= mid + right_boxes(labels, o@, row + 1));
        }
        row += 1;
    }
}

/// Self-contained HTML showing BEFORE and AFTER columns with arrows linking
/// each item's old row to its new row; moved items are highlighted.
///
/// Every coordinate of the drawing is a whole number, so it is computed
/// and printed exactly in integers.
#[verifier::spinoff_prover]
#[verifier::rlimit(30)]
pub fn html_diff(plan: &Plan, title: &str) -> (r: String)
    requires
        forall|k: int| 0 <= k < plan.after.len() ==> #[trigger] plan.after@[k] < plan.nodes.len(),
    ensures
        r@ == html_spec(*plan, title@),
{
    let n = plan.nodes.len();
    let pos = last_positions(&plan.after, n);
    let mut out: Vec<char> = Vec::new();
    push_html_head(&mut out, plan, title);
    let ghost head = out@;
    push_svg_top(&mut out, n, title);
    push_links(&mut out, &plan.after, &pos);
    push_left(&mut out, &plan.nodes, &plan.after, &pos);
    push_right(&mut out, &plan.nodes, &plan.after);
    push_str(&mut out, "</svg>\n");
    proof {
        assert(out@ =~= head + svg_spec(*plan, title@));
    }
    push_str(&mut out, "\n</body></html>\n");
    proof {
        assert(out@ =~= html_spec(*plan, title@));
    }
    string_of(out.as_slice())
}

} // verus!
