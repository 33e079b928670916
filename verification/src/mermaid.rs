//! Mermaid renderings of a file model under a given order: the dependency
//! graph before and after, a before/after movement diff (two linked
//! columns), and a plain-text diff table.

use vstd::prelude::*;

use crate::analyze::{byte_pos, char_idx, is_boundary, lemma_byte_pos_mono, lemma_char_idx, utf8_len, utf8_width, FileModel};
use crate::lemma_runs_last;
use crate::lemma_runs_step;
use crate::model::Item;
use crate::render::{
    edges_of, esc_label, esc_label_spec, group_runs, lemma_run_nodes_prefix, lemma_runs_text_push, node_text, nodes_text,
    push_edges_of, push_node, run_nodes, runs_text, last_pos, last_positions,
};
use crate::runs;
use crate::text::{chars_of, decimal, join_with, push_all, push_decimal, push_joined, push_str, string_of};

verus! {

/// An order of the items of a model: the new order, which items lie in a
/// mutual group, each item's component, and the mutual groups.
#[derive(Debug, Clone)]
pub struct ItemOrder {
    pub order: Vec<usize>,
    pub in_mutual: Vec<bool>,
    pub comp_of: Vec<usize>,
    pub mutual_groups: Vec<Vec<usize>>,
}

/// Every entry of `ord`'s order names one of the `n` items, and is marked
/// in `in_mutual` and `comp_of`.
pub open spec fn order_fits(ord: ItemOrder, n: nat) -> bool {
    forall|k: int|
        0 <= k < ord.order.len() ==> #[trigger] ord.order@[k] < n && ord.order@[k] < ord.in_mutual.len()
            && ord.order@[k] < ord.comp_of.len()
}

/// The group id of each item: its component when it lies in a mutual
/// group, else -1.
pub open spec fn mgid(ord: ItemOrder) -> Seq<int> {
    Seq::new(ord.in_mutual.len() as nat, |x: int| if ord.in_mutual@[x] { ord.comp_of@[x] as int } else { -1 })
}

/// The labels of the items.
pub open spec fn item_labels(items: Seq<Item>) -> Seq<Seq<char>> {
    items.map_values(|it: Item| it.display@)
}

/// The dependency lists of the items.
pub open spec fn item_deps(items: Seq<Item>) -> Seq<Vec<usize>> {
    items.map_values(|it: Item| it.deps)
}

/// The edges of the first `k` items.
pub open spec fn item_edges(items: Seq<Item>, k: int) -> Seq<char>
    decreases k,
{
    if k <= 0 {
        Seq::empty()
    } else {
        item_edges(items, k - 1) + edges_of((k - 1) as nat, items[k - 1].deps@, items[k - 1].deps.len() as int)
    }
}

/// Append the edges of all items.
fn push_item_edges(out: &mut Vec<char>, items: &Vec<Item>)
    ensures
        final(out)@ == old(out)@ + item_edges(items@, items.len() as int),
{
    let ghost start = out@;
    let mut i: usize = 0;
    while i < items.len()
        invariant
            i <= items.len(),
            out@ == start + item_edges(items@, i as int),
        decreases items.len() - i,
    {
        push_edges_of(out, i, &items[i].deps);
        proof {
            assert(out@ =~= start + item_edges(items@, i + 1));
        }
        i += 1;
    }
}

/// The dependency graph of the model before reordering.
pub open spec fn before_spec(model: FileModel) -> Seq<char> {
    "graph TD\n"@ + nodes_text(item_labels(model.items@), model.items.len() as int) + item_edges(
        model.items@,
        model.items.len() as int,
    )
}

/// Dependency graph (edges = "uses"), nodes declared in original source order.
pub fn before(model: &FileModel) -> (r: String)
    ensures
        r@ == before_spec(*model),
{
    let items = &model.items;
    let mut out = chars_of("graph TD\n");
    let mut i: usize = 0;
    while i < items.len()
        invariant
            i <= items.len(),
            out@ == "graph TD\n"@ + nodes_text(item_labels(items@), i as int),
        decreases items.len() - i,
    {
        push_node(&mut out, "  ", i, items[i].display.as_str());
        proof {
            assert(item_labels(items@)[i as int] == items@[i as int].display@);
        }
        i += 1;
    }
    push_item_edges(&mut out, items);
    string_of(out.as_slice())
}

/// The dependency graph of the model after reordering by `ord`.
pub open spec fn after_spec(model: FileModel, ord: ItemOrder) -> Seq<char> {
    let rs = runs(ord.order@, mgid(ord));
    "graph TD\n"@ + runs_text(item_labels(model.items@), rs, mgid(ord), rs.len() as int) + item_edges(
        model.items@,
        model.items.len() as int,
    )
}

/// The graphs of a model before and after reordering by `ord` share one
/// block of edges; they differ only in the declarations: in index order
/// before, and after in the runs of `ord`'s order, which joined up give
/// that order back, each item declared once in it.
pub proof fn law_model_graphs_share_edges(model: FileModel, ord: ItemOrder)
    ensures
        before_spec(model) == "graph TD\n"@ + nodes_text(item_labels(model.items@), model.items.len() as int)
            + item_edges(model.items@, model.items.len() as int),
        after_spec(model, ord) == "graph TD\n"@ + runs_text(
            item_labels(model.items@),
            runs(ord.order@, mgid(ord)),
            mgid(ord),
            runs(ord.order@, mgid(ord)).len() as int,
        ) + item_edges(model.items@, model.items.len() as int),
        runs(ord.order@, mgid(ord)).flatten() == ord.order@,
{
    crate::law_runs_cover(ord.order@, mgid(ord));
}

/// Dependency graph after reordering: same edges, nodes declared in the new
/// order, and mutual groups wrapped in labelled subgraphs.
pub fn after(model: &FileModel, ord: &ItemOrder) -> (r: String)
    requires
        order_fits(*ord, model.items.len() as nat),
    ensures
        r@ == after_spec(*model, *ord),
{
    let items = &model.items;
    let ghost gv = mgid(*ord);
    let ghost o = ord.order@;
    let ghost labels = item_labels(items@);
    let mut out = chars_of("graph TD\n");
    let mut i: usize = 0;
    let mut grp: usize = 0;
    proof {
        assert(o.take(0) =~= Seq::<usize>::empty());
    }
    while i < ord.order.len()
        invariant
            order_fits(*ord, items.len() as nat),
            items == &model.items,
            gv == mgid(*ord),
            o == ord.order@,
            labels == item_labels(items@),
            i <= o.len(),
            grp <= i,
            out@ == "graph TD\n"@ + runs_text(labels, runs(o.take(i as int), gv), gv, runs(o.take(i as int), gv).len() as int),
            grp == group_runs(runs(o.take(i as int), gv), gv, runs(o.take(i as int), gv).len() as int),
            0 < i < o.len() ==> !(gv[o[i as int] as int] >= 0 && gv[o[i - 1] as int] == gv[o[i as int] as int]),
        decreases o.len() - i,
    {
        let idx = ord.order[i];
        let start = i;
        let ghost rs0 = runs(o.take(start as int), gv);
        proof {
            lemma_runs_last(o.take(start as int), gv);
            assert(gv[idx as int] == if ord.in_mutual@[idx as int] { ord.comp_of@[idx as int] as int } else { -1 });
        }
        if ord.in_mutual[idx] {
            let comp = ord.comp_of[idx];
            grp += 1;
            push_str(&mut out, "  subgraph mutual_");
            push_decimal(&mut out, grp);
            push_str(&mut out, "[\"mutual\"]\n");
            let ghost head = out@;
            while i < ord.order.len() && ord.in_mutual[ord.order[i]] && ord.comp_of[ord.order[i]] == comp
                invariant
                    order_fits(*ord, items.len() as nat),
                    items == &model.items,
                    gv == mgid(*ord),
                    o == ord.order@,
                    labels == item_labels(items@),
                    start < o.len(),
                    start <= i <= o.len(),
                    gv[o[start as int] as int] == comp as int,
                    rs0 == runs(o.take(start as int), gv),
                    0 < start ==> !(gv[o[start as int] as int] >= 0 && gv[o[start - 1] as int] == gv[o[start as int] as int]),
                    i > start ==> runs(o.take(i as int), gv) == rs0.push(o.subrange(start as int, i as int)),
                    i > start ==> gv[o[i - 1] as int] == comp as int,
                    out@ == head + run_nodes(labels, o.subrange(start as int, i as int), i - start),
                decreases o.len() - i,
            {
                let m = ord.order[i];
                proof {
                    assert(gv[m as int] == comp as int);
                    lemma_runs_step(o, gv, i as int);
                    assert(o.subrange(start as int, i as int).push(o[i as int]) =~= o.subrange(start as int, i + 1));
                    lemma_run_nodes_prefix(labels, o.subrange(start as int, i as int), o[i as int], i - start);
                    if i == start {
                        assert(o.subrange(start as int, i + 1) =~= seq![o[i as int]]);
                    }
                }
                push_node(&mut out, "    ", m, items[m].display.as_str());
                proof {
                    assert(o.take(i + 1) =~= o.take(i as int).push(o[i as int]));
                    let r2 = o.subrange(start as int, i + 1);
                    let jj = i - start;
                    assert(r2[jj] == o[i as int]);
                    assert(labels[m as int] == items@[m as int].display@);
                    assert(run_nodes(labels, r2, jj + 1) == run_nodes(labels, r2, jj) + node_text("    "@, r2[jj] as nat, labels[r2[jj] as int]));
                    assert(out@ =~= head + run_nodes(labels, r2, jj + 1));
                }
                i += 1;
            }
            push_str(&mut out, "  end\n");
            proof {
                let r = o.subrange(start as int, i as int);
                assert(r[0] == o[start as int]);
                let rs1 = runs(o.take(i as int), gv);
                assert(rs1 == rs0.push(r));
                lemma_runs_text_push(labels, rs0, r, gv, rs0.len() as int);
                assert(rs1[rs0.len() as int] == r);
                assert(out@ =~= "graph TD\n"@ + runs_text(labels, rs1, gv, rs1.len() as int));
                if i < o.len() {
                    let x = o[i as int];
                    assert(gv[x as int] == if ord.in_mutual@[x as int] { ord.comp_of@[x as int] as int } else { -1 });
                }
            }
        } else {
            push_node(&mut out, "  ", idx, items[idx].display.as_str());
            proof {
                assert(labels[idx as int] == items@[idx as int].display@);
                lemma_runs_step(o, gv, i as int);
                assert(o.take(i + 1) =~= o.take(i as int).push(o[i as int]));
                let rs1 = runs(o.take(i + 1), gv);
                assert(rs1 == rs0.push(seq![idx]));
                lemma_runs_text_push(labels, rs0, seq![idx], gv, rs0.len() as int);
                assert(rs1[rs0.len() as int] == seq![idx]);
                assert(out@ =~= "graph TD\n"@ + runs_text(labels, rs1, gv, rs1.len() as int));
            }
            i += 1;
        }
    }
    proof {
        assert(o.take(o.len() as int) =~= o);
    }
    push_item_edges(&mut out, items);
    string_of(out.as_slice())
}

/// The length of `s` in bytes of UTF-8.
pub open spec fn byte_len(s: Seq<char>) -> nat {
    byte_pos(s, s.len() as int)
}

/// `s` cut to at most `w` bytes: when longer, its first `w - 1` bytes and
/// an ellipsis.
pub open spec fn trunc_spec(s: Seq<char>, w: nat) -> Seq<char> {
    if byte_len(s) <= w {
        s
    } else {
        s.take(char_idx(s, if w == 0 { 0 } else { w - 1 })) + "…"@
    }
}

/// Cutting `s` to `w` bytes cuts at a character boundary.
pub open spec fn trunc_ok(s: Seq<char>, w: nat) -> bool {
    byte_len(s) > w ==> is_boundary(s, if w == 0 { 0 } else { w - 1 })
}

/// The number of characters before byte `b` of `s`, walking from the start,
/// along with the byte offset reached (the last boundary not past `b`).
fn chars_within(v: &Vec<char>, b: usize) -> (r: (usize, usize))
    ensures
        r.0 <= v.len(),
        r.1 == byte_pos(v@, r.0 as int),
        r.1 <= b,
        r.0 < v.len() ==> byte_pos(v@, r.0 + 1) > b,
{
    let mut k: usize = 0;
    let mut acc: usize = 0;
    while k < v.len() && utf8_width(v[k]) <= b - acc
        invariant
            k <= v.len(),
            acc == byte_pos(v@, k as int),
            acc <= b,
        decreases v.len() - k,
    {
        acc += utf8_width(v[k]);
        k += 1;
    }
    (k, acc)
}

/// `s` cut to at most `w` bytes: when longer, its first `w - 1` bytes and
/// an ellipsis.
fn trunc(s: &str, w: usize) -> (r: String)
    requires
        trunc_ok(s@, w as nat),
    ensures
        r@ == trunc_spec(s@, w as nat),
{
    let v = chars_of(s);
    let (k, _) = chars_within(&v, w);
    if k == v.len() {
        string_of(v.as_slice())
    } else {
        let t = if w == 0 { 0 } else { w - 1 };
        proof {
            if k + 1 < v.len() {
                lemma_byte_pos_mono(v@, k + 1, v.len() as int);
            }
        }
        let (j, _) = chars_within(&v, t);
        proof {
            let kk = char_idx(v@, t as int);
            lemma_char_idx(v@, kk);
            assert(byte_pos(v@, kk) == t);
            if kk < j {
                lemma_byte_pos_mono(v@, kk, j as int);
            }
            if j < kk {
                if j + 1 < kk {
                    lemma_byte_pos_mono(v@, j + 1, kk);
                }
            }
            assert(j == kk);
        }
        let mut out: Vec<char> = Vec::new();
        let mut i: usize = 0;
        while i < j
            invariant
                i <= j <= v.len(),
                out@ == v@.take(i as int),
            decreases j - i,
        {
            out.push(v[i]);
            proof {
                assert(v@.take(i + 1) =~= v@.take(i as int).push(v@[i as int]));
            }
            i += 1;
        }
        push_str(&mut out, "…");
        string_of(out.as_slice())
    }
}

/// The byte length of `s`, at most 44.
pub open spec fn capped_len(s: Seq<char>) -> nat {
    if byte_len(s) < 44 {
        byte_len(s)
    } else {
        44
    }
}

/// The widest of the first `k` labels (in bytes, at most 44).
pub open spec fn widest(items: Seq<Item>, k: int) -> nat
    decreases k,
{
    if k <= 0 {
        0
    } else if widest(items, k - 1) < capped_len(items[k - 1].display@) {
        capped_len(items[k - 1].display@)
    } else {
        widest(items, k - 1)
    }
}

/// The width of a column of the table: the widest label, at most 44; 10
/// when there are no items.
pub open spec fn table_width(items: Seq<Item>) -> nat {
    if items.len() == 0 {
        10
    } else {
        widest(items, items.len() as int)
    }
}

/// `s` padded with spaces to `w` characters.
pub open spec fn pad_spec(s: Seq<char>, w: nat) -> Seq<char> {
    if s.len() < w {
        s + Seq::new((w - s.len()) as nat, |i: int| ' ')
    } else {
        s
    }
}

/// The row of the table for position `row`: the item there before, an
/// arrow when another item is there after, and that item.
pub open spec fn row_spec(items: Seq<Item>, o: Seq<usize>, w: nat, row: int) -> Seq<char> {
    "  "@ + pad_spec(trunc_spec(items[row].display@, w), w) + "  "@ + (if o[row] != row as usize {
        "=>"@
    } else {
        "  "@
    }) + " "@ + pad_spec(trunc_spec(items[o[row] as int].display@, w), w) + "\n"@
}

/// The first `k` rows of the table.
pub open spec fn rows_spec(items: Seq<Item>, o: Seq<usize>, w: nat, k: int) -> Seq<char>
    decreases k,
{
    if k <= 0 {
        Seq::empty()
    } else {
        rows_spec(items, o, w, k - 1) + row_spec(items, o, w, k - 1)
    }
}

/// The plain-text before/after table of the model under `ord`.
pub open spec fn diff_table_spec(model: FileModel, ord: ItemOrder) -> Seq<char> {
    let items = model.items@;
    let w = table_width(items);
    "  "@ + pad_spec("BEFORE"@, w) + "     "@ + pad_spec("AFTER"@, w) + "\n"@ + "  "@ + Seq::new(
        (2 * w + 5) as nat,
        |i: int| '-',
    ) + "\n"@ + rows_spec(items, ord.order@, w, items.len() as int)
}

/// Append `s` padded with spaces to `w` characters.
fn push_padded(out: &mut Vec<char>, s: &Vec<char>, w: usize)
    ensures
        final(out)@ == old(out)@ + pad_spec(s@, w as nat),
{
    push_all(out, s.as_slice());
    let mut k = s.len();
    let ghost base = old(out)@ + s@;
    while k < w
        invariant
            s.len() <= k <= w || (k == s.len() && s.len() >= w),
            out@ == base + Seq::new((k - s.len()) as nat, |i: int| ' '),
        decreases w - k,
    {
        out.push(' ');
        proof {
            assert(out@ =~= base + Seq::new((k + 1 - s.len()) as nat, |i: int| ' '));
        }
        k += 1;
    }
    proof {
        if s.len() >= w {
            assert(out@ =~= old(out)@ + s@);
        } else {
            assert(out@ =~= old(out)@ + pad_spec(s@, w as nat));
        }
    }
}

/// The byte length of `s`, at most 44.
fn capped_byte_len(s: &str) -> (r: usize)
    ensures
        r == capped_len(s@),
{
    let v = chars_of(s);
    let (k, acc) = chars_within(&v, 44);
    if k == v.len() {
        proof {
            if acc == 44 {
            }
        }
        if acc < 44 {
            acc
        } else {
            44
        }
    } else {
        proof {
            if k + 1 < v.len() {
                lemma_byte_pos_mono(v@, k + 1, v.len() as int);
            }
        }
        44
    }
}

/// Append row `row` of the table.
fn push_row(out: &mut Vec<char>, items: &Vec<Item>, order: &Vec<usize>, width: usize, row: usize)
    requires
        row < items.len(),
        row < order.len(),
        order@[row as int] < items.len(),
        trunc_ok(items@[row as int].display@, width as nat),
        trunc_ok(items@[order@[row as int] as int].display@, width as nat),
    ensures
        final(out)@ == old(out)@ + row_spec(items@, order@, width as nat, row as int),
{
    let left = trunc(items[row].display.as_str(), width);
    let other = order[row];
    let right = trunc(items[other].display.as_str(), width);
    push_str(out, "  ");
    push_padded(out, &chars_of(left.as_str()), width);
    push_str(out, "  ");
    if other != row {
        push_str(out, "=>");
    } else {
        push_str(out, "  ");
    }
    push_str(out, " ");
    push_padded(out, &chars_of(right.as_str()), width);
    push_str(out, "\n");
    proof {
        assert(final(out)@ =~= old(out)@ + row_spec(items@, order@, width as nat, row as int));
    }
}

/// Plain-text two-column before/after table (the `a | b` view).
pub fn diff_table(model: &FileModel, ord: &ItemOrder) -> (r: String)
    requires
        ord.order.len() >= model.items.len(),
        forall|k: int| 0 <= k < model.items.len() ==> #[trigger] ord.order@[k] < model.items.len(),
        forall|i: int| 0 <= i < model.items.len() ==> trunc_ok(#[trigger] model.items@[i].display@, table_width(model.items@)),
    ensures
        r@ == diff_table_spec(*model, *ord),
{
    let items = &model.items;
    let n = items.len();
    let mut width: usize = 0;
    let mut i: usize = 0;
    while i < n
        invariant
            n == items.len(),
            i <= n,
            width == widest(items@, i as int),
            width <= 44,
        decreases n - i,
    {
        let c = capped_byte_len(items[i].display.as_str());
        if width < c {
            width = c;
        }
        i += 1;
    }
    if n == 0 {
        width = 10;
    }
    let mut out: Vec<char> = Vec::new();
    push_str(&mut out, "  ");
    push_padded(&mut out, &chars_of("BEFORE"), width);
    push_str(&mut out, "     ");
    push_padded(&mut out, &chars_of("AFTER"), width);
    push_str(&mut out, "\n  ");
    let mut k: usize = 0;
    let ghost head = out@;
    while k < width * 2 + 5
        invariant
            width <= 44,
            k <= width * 2 + 5,
            out@ == head + Seq::new(k as nat, |i: int| '-'),
        decreases width * 2 + 5 - k,
    {
        out.push('-');
        proof {
            assert(out@ =~= head + Seq::new((k + 1) as nat, |i: int| '-'));
        }
        k += 1;
    }
    push_str(&mut out, "\n");
    proof {
        reveal_strlit("\n  ");
        reveal_strlit("  ");
        reveal_strlit("\n");
        assert(out@ =~= diff_table_spec(*model, *ord).take(out@.len() as int));
        assert(out@ =~= diff_table_spec(*model, *ord).subrange(0, out@.len() as int));
    }
    let ghost top = out@;
    let mut row: usize = 0;
    while row < n
        invariant
            ord.order.len() >= items.len(),
            forall|k: int| 0 <= k < items.len() ==> #[trigger] ord.order@[k] < items.len(),
            items == &model.items,
            n == items.len(),
            forall|i: int| 0 <= i < n ==> trunc_ok(#[trigger] items@[i].display@, table_width(items@)),
            width == table_width(items@),
            row <= n,
            out@ == top + rows_spec(items@, ord.order@, width as nat, row as int),
        decreases n - row,
    {
        push_row(&mut out, items, &ord.order, width, row);
        proof {
            assert(out@ =~= top + rows_spec(items@, ord.order@, width as nat, row + 1));
        }
        row += 1;
    }
    string_of(out.as_slice())
}

/// The declaration of a node of the diff, `id` its name.
pub open spec fn diff_node(id: Seq<char>, label: Seq<char>) -> Seq<char> {
    "    "@ + id + "[\""@ + esc_label_spec(label) + "\"]\n"@
}

/// The nodes of the BEFORE column for the first `k` items.
pub open spec fn b_nodes(items: Seq<Item>, k: int) -> Seq<char>
    decreases k,
{
    if k <= 0 {
        Seq::empty()
    } else {
        b_nodes(items, k - 1) + diff_node("B"@ + decimal((k - 1) as nat), items[k - 1].display@)
    }
}

/// The nodes of the AFTER column for the first `k` positions.
pub open spec fn a_nodes(items: Seq<Item>, o: Seq<usize>, k: int) -> Seq<char>
    decreases k,
{
    if k <= 0 {
        Seq::empty()
    } else {
        a_nodes(items, o, k - 1) + diff_node("A"@ + decimal((k - 1) as nat), items[o[k - 1] as int].display@)
    }
}

/// The invisible links that keep the first `k + 1` nodes of a column in
/// line.
pub open spec fn chain(prefix: Seq<char>, k: int) -> Seq<char>
    decreases k,
{
    if k <= 0 {
        Seq::empty()
    } else {
        chain(prefix, k - 1) + "    "@ + prefix + decimal((k - 1) as nat) + " ~~~ "@ + prefix + decimal(k as nat) + "\n"@
    }
}

/// The links from each of the first `k` items to its new slot (its last
/// position in `o`).
pub open spec fn arrows(o: Seq<usize>, k: int) -> Seq<char>
    decreases k,
{
    if k <= 0 {
        Seq::empty()
    } else {
        arrows(o, k - 1) + "  B"@ + decimal((k - 1) as nat) + " -.-> A"@ + decimal(last_pos(o, k - 1, o.len() as int) as nat) + "\n"@
    }
}

/// The nodes of the moved items among the first `k`, in both columns.
pub open spec fn moved_ids(o: Seq<usize>, k: int) -> Seq<Seq<char>>
    decreases k,
{
    if k <= 0 {
        Seq::empty()
    } else {
        moved_ids(o, k - 1) + if last_pos(o, k - 1, o.len() as int) != k - 1 {
            seq!["B"@ + decimal((k - 1) as nat), "A"@ + decimal(last_pos(o, k - 1, o.len() as int) as nat)]
        } else {
            Seq::empty()
        }
    }
}

/// The Mermaid movement diff of the model under `ord`.
pub open spec fn diff_spec(model: FileModel, ord: ItemOrder) -> Seq<char> {
    let items = model.items@;
    let n = items.len() as int;
    let o = ord.order@;
    let m = moved_ids(o, n);
    "flowchart LR\n"@ + "  subgraph BEFORE\n    direction TB\n"@ + b_nodes(items, n) + chain("B"@, n - 1) + "  end\n"@
        + "  subgraph AFTER\n    direction TB\n"@ + a_nodes(items, o, o.len() as int) + chain("A"@, n - 1) + "  end\n"@ + arrows(o, n)
        + if m.len() > 0 {
        "  classDef moved fill:#ffe7a3,stroke:#d08c00,color:#000;\n"@ + "  class "@ + join_with(m, ","@) + " moved;\n"@
    } else {
        Seq::empty()
    }
}

/// Append the diff node `prefix{i}` with label `label`.
fn push_diff_node(out: &mut Vec<char>, prefix: &str, i: usize, label: &str)
    ensures
        final(out)@ == old(out)@ + diff_node(prefix@ + decimal(i as nat), label@),
{
    push_str(out, "    ");
    push_str(out, prefix);
    push_decimal(out, i);
    push_str(out, "[\"");
    let e = esc_label(label);
    push_all(out, e.as_slice());
    push_str(out, "\"]\n");
    proof {
        assert(final(out)@ =~= old(out)@ + diff_node(prefix@ + decimal(i as nat), label@));
    }
}

/// Append the links of a column of `n` nodes.
fn push_chain(out: &mut Vec<char>, prefix: &str, n: usize)
    ensures
        final(out)@ == old(out)@ + chain(prefix@, n - 1),
{
    let ghost start = out@;
    let mut i: usize = 0;
    let last = if n == 0 { 0 } else { n - 1 };
    while i < last
        invariant
            last == if n == 0 { 0 } else { n - 1 },
            i <= last,
            out@ == start + chain(prefix@, i as int),
        decreases last - i,
    {
        push_str(out, "    ");
        push_str(out, prefix);
        push_decimal(out, i);
        push_str(out, " ~~~ ");
        push_str(out, prefix);
        push_decimal(out, i + 1);
        push_str(out, "\n");
        proof {
            assert(out@ =~= start + chain(prefix@, i + 1));
        }
        i += 1;
    }
    proof {
        if n == 0 {
            assert(chain(prefix@, -1) =~= Seq::<char>::empty());
        }
    }
}

/// Mermaid two-column movement diff: left column = before order, right = after,
/// dashed links connect each item to its new slot. Moved items are highlighted.
pub fn diff(model: &FileModel, ord: &ItemOrder) -> (r: String)
    requires
        forall|k: int| 0 <= k < ord.order.len() ==> #[trigger] ord.order@[k] < model.items.len(),
    ensures
        r@ == diff_spec(*model, *ord),
{
    let items = &model.items;
    let n = items.len();
    let pos = last_positions(&ord.order, n);
    let mut out = chars_of("flowchart LR\n");
    push_str(&mut out, "  subgraph BEFORE\n    direction TB\n");
    let ghost s1 = out@;
    let mut i: usize = 0;
    while i < n
        invariant
            n == items.len(),
            i <= n,
            out@ == s1 + b_nodes(items@, i as int),
        decreases n - i,
    {
        push_diff_node(&mut out, "B", i, items[i].display.as_str());
        proof {
            reveal_strlit("B");
            assert(out@ =~= s1 + b_nodes(items@, i + 1));
        }
        i += 1;
    }
    push_chain(&mut out, "B", n);
    push_str(&mut out, "  end\n");
    push_str(&mut out, "  subgraph AFTER\n    direction TB\n");
    let ghost s2 = out@;
    let mut row: usize = 0;
    while row < ord.order.len()
        invariant
            forall|k: int| 0 <= k < ord.order.len() ==> #[trigger] ord.order@[k] < model.items.len(),
            items == &model.items,
            n == items.len(),
            row <= ord.order.len(),
            out@ == s2 + a_nodes(items@, ord.order@, row as int),
        decreases ord.order.len() - row,
    {
        let idx = ord.order[row];
        push_diff_node(&mut out, "A", row, items[idx].display.as_str());
        proof {
            assert(out@ =~= s2 + a_nodes(items@, ord.order@, row + 1));
        }
        row += 1;
    }
    push_chain(&mut out, "A", n);
    push_str(&mut out, "  end\n");
    let ghost s3 = out@;
    let mut moved_nodes: Vec<Vec<char>> = Vec::new();
    let mut i: usize = 0;
    while i < n
        invariant
            pos.len() == n,
            forall|i: int| 0 <= i < n ==> #[trigger] pos@[i] as int == last_pos(ord.order@, i, ord.order.len() as int),
            i <= n,
            out@ == s3 + arrows(ord.order@, i as int),
            moved_nodes@.map_values(|v: Vec<char>| v@) == moved_ids(ord.order@, i as int),
        decreases n - i,
    {
        let row = pos[i];
        push_str(&mut out, "  B");
        push_decimal(&mut out, i);
        push_str(&mut out, " -.-> A");
        push_decimal(&mut out, row);
        push_str(&mut out, "\n");
        proof {
            assert(out@ =~= s3 + arrows(ord.order@, i + 1));
        }
        let ghost pre = moved_nodes@;
        if row != i {
            let mut b = chars_of("B");
            push_decimal(&mut b, i);
            let mut a = chars_of("A");
            push_decimal(&mut a, row);
            moved_nodes.push(b);
            moved_nodes.push(a);
            proof {
                assert(moved_nodes@.map_values(|v: Vec<char>| v@) =~= pre.map_values(|v: Vec<char>| v@) + seq![b@, a@]);
            }
        }
        proof {
            assert(moved_nodes@.map_values(|v: Vec<char>| v@) =~= moved_ids(ord.order@, i + 1));
        }
        i += 1;
    }
    if moved_nodes.len() > 0 {
        push_str(&mut out, "  classDef moved fill:#ffe7a3,stroke:#d08c00,color:#000;\n");
        push_str(&mut out, "  class ");
        let sep = chars_of(",");
        push_joined(&mut out, &moved_nodes, sep.as_slice());
        push_str(&mut out, " moved;\n");
    }
    proof {
        assert(out@ =~= diff_spec(*model, *ord));
    }
    string_of(out.as_slice())
}

} // verus!
