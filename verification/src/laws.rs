//! What holds of every outcome of `reorder`, across its parts.

use vstd::prelude::*;

use crate::settle::{iota, iota_at, lemma_mutual_moved, lemma_groups_unique, lemma_order_settles, lemma_order_unique, renumbered_deps, setting};
use crate::analyze::{
    opt_view, all_marks, floating_of, gap_lines, gap_text, is_mutual_marker, kept, lead_of, line_out, model_spec, model_wf,
    nonblank, num_gaps, regions_clear, run_start, spans, FileModel, RawItem,
};
use crate::graph::{edge, scope_mask};
use crate::model::{kind_label, Item, ItemKind};
use crate::render::esc_xml_spec;
use crate::text::{
    replace_all, is_blank, is_ws, join_with, lemma_lex_trans, lemma_split_join, lemma_split_on_len, lemma_split_pieces,
    lemma_trim_ws_suffix, lex_lt, split_on, strip_cr, trim, trim_end, trim_start, lemma_trim_end_prefix,
    lemma_trim_start_suffix,
};
use crate::order::{
    group_pos, lemma_group_pos, lemma_backward_stays, lemma_group_iff_mutual, lemma_groups_are_cycles, lemma_groups_disjoint, lemma_same_elements_same_len, order_spec, padded_names, OrderOpts, Tie,
};
use crate::graph::mutual;
use crate::{
    count_kind, kind_counts_spec, kind_counts_upto, kinds_by_label, compact, count_moved, gid_spec, is_region_start, lemma_movable_facts, lemma_movable_member, lemma_regions_apart,
    lemma_same_gid, movable, movable_upto, names_view, outcome_parts, outcome_spec, plan_spec, region_at,
    region_members, region_opts, scoped_after, vviews, Node, Outcome, block_spec, pinned_blocks, floats, whole_text,
    emit_spec, runs, segment, run_blocks, join_spec, opt_seg, lemma_runs_last, Plan, declared_first, late_dep, deps_match,
    nonempty, lemma_join_push,
};

verus! {

/// Distinct movable items have distinct positions among the movable items,
/// in the same order.
pub(crate) proof fn lemma_compact_order(items: Seq<Item>, x: int, y: int)
    requires
        items.len() <= usize::MAX,
        0 <= x < y <= items.len(),
    ensures
        compact(items, x) <= compact(items, y),
        !items[x].pinned ==> compact(items, x) < compact(items, y),
    decreases y - x,
{
    if x + 1 < y {
        lemma_compact_order(items, x, y - 1);
        lemma_compact_order(items, y - 1, y);
    } else {
        assert(movable_upto(items, y).len() == movable_upto(items, x).len() + if items[x].pinned { 0int } else { 1int });
    }
}

/// A movable item sits at its own position in the list of movable items.
pub(crate) proof fn lemma_compact_inverse(items: Seq<Item>, x: int)
    requires
        items.len() <= usize::MAX,
        0 <= x < items.len(),
        !items[x].pinned,
    ensures
        0 <= compact(items, x) < movable(items).len(),
        movable(items)[compact(items, x)] == x as usize,
{
    lemma_movable_facts(items, items.len() as int);
    lemma_movable_member(items, x);
    let c = choose|c: int| 0 <= c < movable(items).len() && movable(items)[c] == x as usize;
    assert(compact(items, movable(items)[c] as int) == c);
}

/// Whole-file mode: no movable item is emitted before one of its
/// dependencies, except inside a mutual group, which then holds both.
pub proof fn law_deps_first(fm: FileModel, global: OrderOpts, out: Outcome)
    requires
        model_wf(fm),
        fm.items.len() <= usize::MAX,
        fm.regions.len() == 0,
        outcome_spec(fm, global, out),
    ensures
        forall|p: int, q: int|
            0 <= p < q < out.plan.after.len() && #[trigger] out.plan.deps@[out.plan.after@[p] as int]@.contains(
                #[trigger] out.plan.after@[q],
            ) ==> out.plan.group_of@[out.plan.after@[p] as int] == out.plan.group_of@[out.plan.after@[q] as int]
                && out.plan.group_of@[out.plan.after@[p] as int] >= 0,
{
    let (orders, gs, gid, dg) = choose|orders: Seq<Seq<usize>>, gs: Seq<Seq<Vec<usize>>>, gid: Seq<int>, dg: Seq<Vec<usize>>|
        #[trigger] outcome_parts(fm, global, out, orders, gs, gid, dg);
    let items = fm.items@;
    let n = items.len();
    let mv = movable(items);
    let o = orders[0];
    let plan = out.plan;
    lemma_movable_facts(items, n as int);
    assert forall|i: int| 0 <= i < mv.len() implies #[trigger] mv[i] < dg.len() by {}
    assert forall|p: int, q: int|
        0 <= p < q < plan.after.len() && #[trigger] plan.deps@[plan.after@[p] as int]@.contains(#[trigger] plan.after@[q]) implies plan.group_of@[
        plan.after@[p] as int] == plan.group_of@[plan.after@[q] as int] && plan.group_of@[plan.after@[p] as int] >= 0 by {
        let x = o[p];
        let y = o[q];
        assert(o.contains(x) && o.contains(y));
        assert(mv.contains(x) && mv.contains(y));
        let cx = choose|c: int| 0 <= c < mv.len() && mv[c] == x;
        let cy = choose|c: int| 0 <= c < mv.len() && mv[c] == y;
        assert(plan.after@[p] as int == compact(items, x as int));
        assert(plan.after@[q] as int == compact(items, y as int));
        assert(compact(items, x as int) == cx);
        assert(compact(items, y as int) == cy);
        let ds = items[x as int].deps@;
        assert(plan.deps@[cx]@ == ds.map_values(|d: usize| compact(items, d as int) as usize));
        let a = choose|a: int| 0 <= a < plan.deps@[cx]@.len() && plan.deps@[cx]@[a] == cy as usize;
        let t = ds[a];
        assert(t < n && t != x && !items[t as int].pinned);
        assert(plan.deps@[cx]@[a] == compact(items, t as int) as usize);
        lemma_movable_facts(items, t as int);
        assert(compact(items, t as int) == cy);
        if t < y {
            lemma_compact_order(items, t as int, y as int);
        } else if y < t {
            lemma_compact_order(items, y as int, t as int);
        }
        assert(t == y);
        let m = scope_mask(mv, dg.len());
        assert(dg[x as int]@ == ds);
        assert(ds.contains(y));
        assert(m[x as int] && m[y as int]);
        assert(edge(m, dg, o[p] as int, o[q] as int));
        assert(x != y);
        lemma_same_gid(mv, dg, names_view(items), global, o, gs[0], gid, x, y);
        assert(plan.group_of@[cx] as int == gid[x as int]);
        assert(plan.group_of@[cy] as int == gid[y as int]);
    }
}

/// Whole-file mode: the new order holds every movable item exactly once.
pub proof fn law_after_permutes(fm: FileModel, global: OrderOpts, out: Outcome)
    requires
        model_wf(fm),
        fm.items.len() <= usize::MAX,
        fm.regions.len() == 0,
        outcome_spec(fm, global, out),
    ensures
        out.plan.after.len() == out.plan.before.len(),
        out.plan.after@.no_duplicates(),
        forall|c: usize| #[trigger] out.plan.after@.contains(c) <==> c < out.plan.before.len(),
{
    let (orders, gs, gid, dg) = choose|orders: Seq<Seq<usize>>, gs: Seq<Seq<Vec<usize>>>, gid: Seq<int>, dg: Seq<Vec<usize>>|
        #[trigger] outcome_parts(fm, global, out, orders, gs, gid, dg);
    let items = fm.items@;
    let n = items.len();
    let mv = movable(items);
    let o = orders[0];
    let plan = out.plan;
    lemma_movable_facts(items, n as int);
    assert(plan.before.len() == mv.len());
    assert forall|p: int, q: int| 0 <= p < q < plan.after.len() implies plan.after@[p] != plan.after@[q] by {
        let x = o[p];
        let y = o[q];
        assert(o.contains(x) && o.contains(y));
        assert(mv.contains(x) && mv.contains(y));
        assert(x != y);
        let cx = choose|c: int| 0 <= c < mv.len() && mv[c] == x;
        let cy = choose|c: int| 0 <= c < mv.len() && mv[c] == y;
        assert(compact(items, x as int) == cx);
        assert(compact(items, y as int) == cy);
    }
    assert forall|c: usize| #[trigger] plan.after@.contains(c) <==> c < plan.before.len() by {
        if c < plan.before.len() {
            let x = mv[c as int];
            assert(mv.contains(x));
            assert(o.contains(x));
            let p = choose|p: int| 0 <= p < o.len() && o[p] == x;
            assert(compact(items, x as int) == c);
            assert(plan.after@[p] == c);
        }
        if plan.after@.contains(c) {
            let p = choose|p: int| 0 <= p < plan.after.len() && plan.after@[p] == c;
            let x = o[p];
            assert(o.contains(x));
            assert(mv.contains(x));
            let cx = choose|k: int| 0 <= k < mv.len() && mv[k] == x;
            assert(compact(items, x as int) == cx);
        }
    }
}

proof fn lemma_identity_unmoved(a: Seq<usize>)
    requires
        forall|p: int| 0 <= p < a.len() ==> #[trigger] a[p] == p as usize,
    ensures
        count_moved(a) == 0,
    decreases a.len(),
{
    if a.len() > 0 {
        lemma_identity_unmoved(a.drop_last());
    }
}

/// Whole-file mode, independent items in original order: when every
/// dependency of a movable item is declared before it, nothing moves.
pub proof fn law_ordered_file_unchanged(fm: FileModel, inside: Tie, out: Outcome)
    requires
        model_wf(fm),
        fm.items.len() <= usize::MAX,
        fm.regions.len() == 0,
        outcome_spec(fm, OrderOpts { inside, outside: Tie::Original }, out),
        forall|u: int, a: int|
            0 <= u < fm.items.len() && !fm.items@[u].pinned && 0 <= a < fm.items@[u].deps.len() ==> #[trigger] fm.items@[u].deps@[a]
                < u,
    ensures
        out.plan.after@ == out.plan.before@,
        out.plan.moved == 0,
        out.plan.mutual_groups.len() == 0,
{
    let global = OrderOpts { inside, outside: Tie::Original };
    let (orders, gs, gid, dg) = choose|orders: Seq<Seq<usize>>, gs: Seq<Seq<Vec<usize>>>, gid: Seq<int>, dg: Seq<Vec<usize>>|
        #[trigger] outcome_parts(fm, global, out, orders, gs, gid, dg);
    let items = fm.items@;
    let n = items.len();
    let mv = movable(items);
    let plan = out.plan;
    lemma_movable_facts(items, n as int);
    let m = scope_mask(mv, dg.len());
    assert forall|x: int, y: int| #[trigger] edge(m, dg, x, y) implies y < x by {
        assert(mv.contains(x as usize));
        let c = choose|c: int| 0 <= c < mv.len() && mv[c] == x as usize;
        assert(!items[x].pinned);
        assert(dg[x]@ == items[x].deps@);
        let a = choose|a: int| 0 <= a < dg[x]@.len() && dg[x]@[a] == y as usize;
        assert(items[x].deps@[a] < x);
    }
    assert forall|i: int| 0 <= i < mv.len() implies #[trigger] mv[i] < dg.len() by {}
    lemma_backward_stays(mv, dg, names_view(items), global, orders[0], gs[0]);
    assert forall|p: int| 0 <= p < plan.after.len() implies #[trigger] plan.after@[p] == p as usize by {
        assert(compact(items, mv[p] as int) == p);
    }
    assert(plan.after@ =~= plan.before@);
    lemma_identity_unmoved(plan.after@);
}

/// Item `g` lies inside a `// TO REORDER` region.
pub open spec fn in_region(fm: FileModel, g: int) -> bool {
    exists|k: int| 0 <= k < fm.regions.len() && fm.regions@[k].first <= g < #[trigger] fm.regions@[k].last_excl
}

/// The items scoped mode emits from item `i` on lie at or after `i`; those
/// outside the regions come in source order and are movable.
proof fn lemma_scoped_after(fm: FileModel, orders: Seq<Seq<usize>>, i: int)
    requires
        model_wf(fm),
        regions_clear(fm),
        orders.len() == fm.regions.len(),
        forall|k: int, j: int|
            0 <= k < orders.len() && 0 <= j < orders[k].len() ==> fm.regions@[k].first <= #[trigger] orders[k][j]
                < fm.regions@[k].last_excl,
        forall|k: int| 0 <= k < orders.len() ==> (#[trigger] orders[k]).no_duplicates(),
        forall|k: int, x: usize|
            0 <= k < orders.len() && fm.regions@[k].first <= x < fm.regions@[k].last_excl ==> #[trigger] orders[k].contains(x),
        0 <= i <= fm.items.len(),
        forall|k: int| 0 <= k < fm.regions.len() ==> !(fm.regions@[k].first < i < #[trigger] fm.regions@[k].last_excl),
    ensures
        scoped_after(fm, orders, i).no_duplicates(),
        forall|g: usize| i <= g < fm.items.len() && !fm.items@[g as int].pinned ==> #[trigger] scoped_after(fm, orders, i).contains(g),
        forall|p: int|
            0 <= p < scoped_after(fm, orders, i).len() ==> i <= #[trigger] scoped_after(fm, orders, i)[p] < fm.items.len()
                && !fm.items@[scoped_after(fm, orders, i)[p] as int].pinned,
        forall|p: int, q: int|
            0 <= p < q < scoped_after(fm, orders, i).len() && !in_region(fm, #[trigger] scoped_after(fm, orders, i)[p] as int)
                && !in_region(fm, #[trigger] scoped_after(fm, orders, i)[q] as int) ==> scoped_after(fm, orders, i)[p]
                < scoped_after(fm, orders, i)[q],
    decreases fm.items.len() - i,
{
    reveal(scoped_after);
    let n = fm.items.len() as int;
    let sa = scoped_after(fm, orders, i);
    if i >= n {
    } else if is_region_start(fm, i) && i < fm.regions@[region_at(fm, i)].last_excl <= fm.items.len() {
        let k = region_at(fm, i);
        let r = fm.regions@[k];
        assert forall|k2: int| 0 <= k2 < fm.regions.len() implies !(fm.regions@[k2].first < r.last_excl < #[trigger] fm.regions@[k2].last_excl) by {
            if k2 < k {
                lemma_regions_apart(fm, k2, k);
            } else if k2 > k {
                lemma_regions_apart(fm, k, k2);
            }
        }
        lemma_scoped_after(fm, orders, r.last_excl as int);
        let head = orders[k];
        let tail = scoped_after(fm, orders, r.last_excl as int);
        assert(sa == head + tail);
        assert forall|p: int| 0 <= p < sa.len() implies i <= #[trigger] sa[p] < n && !fm.items@[sa[p] as int].pinned by {
            if p < head.len() {
                assert(sa[p] == head[p]);
                assert(r.first <= head[p] < r.last_excl);
                assert(fm.regions@[k] == r);
            } else {
                assert(sa[p] == tail[p - head.len()]);
            }
        }
        assert forall|p: int, q: int|
            0 <= p < q < sa.len() && !in_region(fm, #[trigger] sa[p] as int) && !in_region(fm, #[trigger] sa[q] as int) implies sa[p] < sa[q] by {
            if p < head.len() {
                assert(sa[p] == head[p]);
                assert(r.first <= head[p] < r.last_excl);
                assert(in_region(fm, sa[p] as int));
            } else {
                assert(sa[p] == tail[p - head.len()]);
                assert(sa[q] == tail[q - head.len()]);
            }
        }
        assert(fm.regions@[k] == r);
        assert(sa.no_duplicates()) by {
            assert forall|p: int, q: int| 0 <= p < q < sa.len() implies sa[p] != sa[q] by {
                if q < head.len() {
                    assert(sa[p] == head[p] && sa[q] == head[q]);
                } else if p < head.len() {
                    assert(sa[p] == head[p]);
                    assert(head[p] < r.last_excl);
                    assert(sa[q] == tail[q - head.len()]);
                } else {
                    assert(sa[p] == tail[p - head.len()] && sa[q] == tail[q - head.len()]);
                }
            }
        }
        assert forall|g: usize| i <= g < n && !fm.items@[g as int].pinned implies #[trigger] sa.contains(g) by {
            if g < r.last_excl {
                assert(head.contains(g));
                let a = choose|a: int| 0 <= a < head.len() && head[a] == g;
                assert(sa[a] == g);
            } else {
                assert(tail.contains(g));
                let a = choose|a: int| 0 <= a < tail.len() && tail[a] == g;
                assert(sa[a + head.len()] == g);
            }
        }
    } else {
        assert(!is_region_start(fm, i)) by {
            if is_region_start(fm, i) {
                let k = region_at(fm, i);
                assert(fm.regions@[k].first < fm.regions@[k].last_excl <= n);
            }
        }
        assert forall|k2: int| 0 <= k2 < fm.regions.len() implies !(fm.regions@[k2].first < i + 1 < #[trigger] fm.regions@[k2].last_excl) by {
            if fm.regions@[k2].first == i {
                assert(is_region_start(fm, i));
            }
        }
        lemma_scoped_after(fm, orders, i + 1);
        let tail = scoped_after(fm, orders, i + 1);
        if fm.items@[i].pinned {
            assert(sa == tail);
            assert forall|g: usize| i <= g < n && !fm.items@[g as int].pinned implies #[trigger] sa.contains(g) by {
                assert(g != i);
            }
        } else {
            assert(sa == seq![i as usize] + tail);
            assert forall|p: int| 0 <= p < sa.len() implies i <= #[trigger] sa[p] < n && !fm.items@[sa[p] as int].pinned by {
                if p > 0 {
                    assert(sa[p] == tail[p - 1]);
                }
            }
            assert forall|p: int, q: int|
                0 <= p < q < sa.len() && !in_region(fm, #[trigger] sa[p] as int) && !in_region(fm, #[trigger] sa[q] as int) implies sa[p] < sa[q] by {
                assert(sa[q] == tail[q - 1]);
                if p > 0 {
                    assert(sa[p] == tail[p - 1]);
                }
            }
            assert(sa.no_duplicates()) by {
                assert forall|p: int, q: int| 0 <= p < q < sa.len() implies sa[p] != sa[q] by {
                    assert(sa[q] == tail[q - 1]);
                    if p > 0 {
                        assert(sa[p] == tail[p - 1]);
                    }
                }
            }
            assert forall|g: usize| i <= g < n && !fm.items@[g as int].pinned implies #[trigger] sa.contains(g) by {
                if g == i {
                    assert(sa[0] == g);
                } else {
                    assert(tail.contains(g));
                    let a = choose|a: int| 0 <= a < tail.len() && tail[a] == g;
                    assert(sa[a + 1] == g);
                }
            }
        }
    }
}

/// Scoped mode: the movable items outside the regions keep their order.
pub proof fn law_scoped_outside_fixed(fm: FileModel, global: OrderOpts, out: Outcome)
    requires
        model_wf(fm),
        regions_clear(fm),
        fm.items.len() <= usize::MAX,
        fm.regions.len() > 0,
        outcome_spec(fm, global, out),
    ensures
        forall|p: int, q: int|
            0 <= p < q < out.plan.after.len() && !in_region(fm, movable(fm.items@)[#[trigger] out.plan.after@[p] as int] as int)
                && !in_region(fm, movable(fm.items@)[#[trigger] out.plan.after@[q] as int] as int) ==> out.plan.after@[p]
                < out.plan.after@[q],
{
    let (orders, gs, gid, dg) = choose|orders: Seq<Seq<usize>>, gs: Seq<Seq<Vec<usize>>>, gid: Seq<int>, dg: Seq<Vec<usize>>|
        #[trigger] outcome_parts(fm, global, out, orders, gs, gid, dg);
    let items = fm.items@;
    let n = items.len();
    let plan = out.plan;
    assert forall|k: int, j: int|
        0 <= k < orders.len() && 0 <= j < orders[k].len() implies fm.regions@[k].first <= #[trigger] orders[k][j] < fm.regions@[k].last_excl by {
        let r = fm.regions@[k];
        assert(order_spec(region_members(r), dg, names_view(items), region_opts(r, global), orders[k], gs[k]));
        assert(orders[k].contains(orders[k][j]));
        assert(region_members(r).contains(orders[k][j]));
        let a = choose|a: int| 0 <= a < region_members(r).len() && region_members(r)[a] == orders[k][j];
        assert(fm.regions@[k].first < fm.regions@[k].last_excl);
    }
    lemma_orders_permute_regions(fm, global, orders, gs, dg);
    lemma_scoped_after(fm, orders, 0);
    let sa = scoped_after(fm, orders, 0);
    assert forall|p: int, q: int|
        0 <= p < q < plan.after.len() && !in_region(fm, movable(items)[#[trigger] plan.after@[p] as int] as int) && !in_region(
            fm,
            movable(items)[#[trigger] plan.after@[q] as int] as int,
        ) implies plan.after@[p] < plan.after@[q] by {
        assert(plan.after@ == sa.map_values(|g: usize| compact(items, g as int) as usize));
        let x = sa[p];
        let y = sa[q];
        lemma_movable_facts(items, x as int);
        lemma_movable_facts(items, y as int);
        assert(plan.after@[p] == compact(items, x as int) as usize);
        assert(plan.after@[q] == compact(items, y as int) as usize);
        lemma_compact_inverse(items, x as int);
        lemma_compact_inverse(items, y as int);
        assert(x < y);
        lemma_compact_order(items, x as int, y as int);
    }
}

/// The sum of the counts.
pub open spec fn sum_counts(e: Seq<(Seq<char>, nat)>) -> nat
    decreases e.len(),
{
    if e.len() == 0 {
        0
    } else {
        sum_counts(e.drop_last()) + e.last().1
    }
}

/// The number of items of the first `k` kinds by label.
pub open spec fn kind_sum(items: Seq<Item>, k: int) -> nat
    decreases k,
{
    if k <= 0 {
        0
    } else {
        kind_sum(items, k - 1) + count_kind(items, kinds_by_label()[k - 1])
    }
}

/// How many of the first `k` kinds by label are `x`.
pub open spec fn kind_hits(x: ItemKind, k: int) -> nat
    decreases k,
{
    if k <= 0 {
        0
    } else {
        kind_hits(x, k - 1) + if kinds_by_label()[k - 1] == x {
            1nat
        } else {
            0nat
        }
    }
}

proof fn lemma_kind_hits(x: ItemKind)
    ensures
        kind_hits(x, 15) == 1,
{
    reveal_with_fuel(kind_hits, 16);
}

proof fn lemma_kind_sum_step(items: Seq<Item>, k: int)
    requires
        items.len() > 0,
        0 <= k <= 15,
    ensures
        kind_sum(items, k) == kind_sum(items.drop_last(), k) + kind_hits(items.last().kind, k),
    decreases k,
{
    if k > 0 {
        lemma_kind_sum_step(items, k - 1);
    }
}

proof fn lemma_kind_sum_total(items: Seq<Item>)
    ensures
        kind_sum(items, 15) == items.len(),
    decreases items.len(),
{
    if items.len() == 0 {
        lemma_kind_sum_zero(items, 15);
    } else {
        lemma_kind_sum_total(items.drop_last());
        lemma_kind_sum_step(items, 15);
        lemma_kind_hits(items.last().kind);
    }
}

proof fn lemma_kind_sum_zero(items: Seq<Item>, k: int)
    requires
        items.len() == 0,
        0 <= k,
    ensures
        kind_sum(items, k) == 0,
    decreases k,
{
    if k > 0 {
        lemma_kind_sum_zero(items, k - 1);
    }
}

proof fn lemma_counts_sum(items: Seq<Item>, k: int)
    requires
        0 <= k <= 15,
    ensures
        sum_counts(kind_counts_upto(items, k)) == kind_sum(items, k),
    decreases k,
{
    if k > 0 {
        lemma_counts_sum(items, k - 1);
        let a = kind_counts_upto(items, k - 1);
        let kk = kinds_by_label()[k - 1];
        if count_kind(items, kk) > 0 {
            assert((a + seq![(kind_label(kk), count_kind(items, kk))]).drop_last() =~= a);
        } else {
            assert(a + Seq::<(Seq<char>, nat)>::empty() =~= a);
        }
    }
}

/// The kind counts add up to the number of items.
pub proof fn law_kind_counts_total(items: Seq<Item>)
    ensures
        sum_counts(kind_counts_spec(items)) == items.len(),
{
    lemma_counts_sum(items, 15);
    lemma_kind_sum_total(items);
}

/// The kind counts are listed in increasing order of their labels, each
/// label once.
pub proof fn law_kind_counts_sorted(items: Seq<Item>)
    ensures
        forall|a: int, b: int|
            0 <= a < b < kind_counts_spec(items).len() ==> lex_lt(
                #[trigger] kind_counts_spec(items)[a].0,
                #[trigger] kind_counts_spec(items)[b].0,
            ),
{
    lemma_counts_sorted(items, 15);
}

/// Consecutive labels of `kinds_by_label` increase.
proof fn lemma_labels_step(i: int)
    requires
        0 <= i < 14,
    ensures
        lex_lt(kind_label(kinds_by_label()[i]), kind_label(kinds_by_label()[i + 1])),
{
    reveal_strlit("const");
    reveal_strlit("enum");
    reveal_strlit("extern crate");
    reveal_strlit("fn");
    reveal_strlit("impl");
    reveal_strlit("macro");
    reveal_strlit("macro-call");
    reveal_strlit("mod");
    reveal_strlit("other");
    reveal_strlit("static");
    reveal_strlit("struct");
    reveal_strlit("trait");
    reveal_strlit("type");
    reveal_strlit("union");
    reveal_strlit("use");
    reveal_with_fuel(lex_lt, 7);
}

/// The labels of `kinds_by_label` increase.
proof fn lemma_labels_sorted(i: int, j: int)
    requires
        0 <= i < j < 15,
    ensures
        lex_lt(kind_label(kinds_by_label()[i]), kind_label(kinds_by_label()[j])),
    decreases j - i,
{
    lemma_labels_step(j - 1);
    if i < j - 1 {
        lemma_labels_sorted(i, j - 1);
        lemma_lex_trans(
            kind_label(kinds_by_label()[i]),
            kind_label(kinds_by_label()[j - 1]),
            kind_label(kinds_by_label()[j]),
        );
    }
}

proof fn lemma_counts_sorted(items: Seq<Item>, k: int)
    requires
        0 <= k <= 15,
    ensures
        forall|a: int|
            0 <= a < kind_counts_upto(items, k).len() ==> exists|j: int|
                0 <= j < k && (#[trigger] kind_counts_upto(items, k)[a]).0 == kind_label(kinds_by_label()[j]),
        forall|a: int, b: int|
            0 <= a < b < kind_counts_upto(items, k).len() ==> lex_lt(
                #[trigger] kind_counts_upto(items, k)[a].0,
                #[trigger] kind_counts_upto(items, k)[b].0,
            ),
    decreases k,
{
    if k > 0 {
        lemma_counts_sorted(items, k - 1);
        let pre = kind_counts_upto(items, k - 1);
        let e = kind_counts_upto(items, k);
        let kk = kinds_by_label()[k - 1];
        if count_kind(items, kk) > 0 {
            assert(e == pre.push((kind_label(kk), count_kind(items, kk))));
            assert forall|a: int| 0 <= a < e.len() implies exists|j: int|
                0 <= j < k && (#[trigger] e[a]).0 == kind_label(kinds_by_label()[j]) by {
                if a < pre.len() {
                    assert(e[a] == pre[a]);
                    let j = choose|j: int| 0 <= j < k - 1 && pre[a].0 == kind_label(kinds_by_label()[j]);
                } else {
                    assert(e[a].0 == kind_label(kinds_by_label()[k - 1]));
                }
            }
            assert forall|a: int, b: int| 0 <= a < b < e.len() implies lex_lt(#[trigger] e[a].0, #[trigger] e[b].0) by {
                assert(e[a] == pre[a]);
                if b < pre.len() {
                    assert(e[b] == pre[b]);
                } else {
                    let j = choose|j: int| 0 <= j < k - 1 && pre[a].0 == kind_label(kinds_by_label()[j]);
                    lemma_labels_sorted(j, k - 1);
                }
            }
        } else {
            assert(e =~= pre);
            assert forall|a: int| 0 <= a < e.len() implies exists|j: int|
                0 <= j < k && (#[trigger] e[a]).0 == kind_label(kinds_by_label()[j]) by {
                let j = choose|j: int| 0 <= j < k - 1 && pre[a].0 == kind_label(kinds_by_label()[j]);
            }
        }
    }
}

/// Each region's order holds its items, each once.
proof fn lemma_orders_permute_regions(
    fm: FileModel,
    global: OrderOpts,
    orders: Seq<Seq<usize>>,
    gs: Seq<Seq<Vec<usize>>>,
    dg: Seq<Vec<usize>>,
)
    requires
        model_wf(fm),
        orders.len() == fm.regions.len(),
        forall|k: int|
            0 <= k < fm.regions.len() ==> order_spec(
                region_members(fm.regions@[k]),
                dg,
                names_view(fm.items@),
                region_opts(fm.regions@[k], global),
                #[trigger] orders[k],
                gs[k],
            ),
    ensures
        forall|k: int, j: int|
            0 <= k < orders.len() && 0 <= j < orders[k].len() ==> fm.regions@[k].first <= #[trigger] orders[k][j]
                < fm.regions@[k].last_excl,
        forall|k: int| 0 <= k < orders.len() ==> (#[trigger] orders[k]).no_duplicates(),
        forall|k: int, x: usize|
            0 <= k < orders.len() && fm.regions@[k].first <= x < fm.regions@[k].last_excl ==> #[trigger] orders[k].contains(x),
{
    assert forall|k: int, j: int|
        0 <= k < orders.len() && 0 <= j < orders[k].len() implies fm.regions@[k].first <= #[trigger] orders[k][j] < fm.regions@[k].last_excl by {
        let r = fm.regions@[k];
        assert(order_spec(region_members(r), dg, names_view(fm.items@), region_opts(r, global), orders[k], gs[k]));
        assert(orders[k].contains(orders[k][j]));
        assert(region_members(r).contains(orders[k][j]));
        let a = choose|a: int| 0 <= a < region_members(r).len() && region_members(r)[a] == orders[k][j];
        assert(fm.regions@[k].first < fm.regions@[k].last_excl);
    }
    assert forall|k: int| 0 <= k < orders.len() implies (#[trigger] orders[k]).no_duplicates() by {
        let r = fm.regions@[k];
        assert(order_spec(region_members(r), dg, names_view(fm.items@), region_opts(r, global), orders[k], gs[k]));
    }
    assert forall|k: int, x: usize|
        0 <= k < orders.len() && fm.regions@[k].first <= x < fm.regions@[k].last_excl implies #[trigger] orders[k].contains(x) by {
        let r = fm.regions@[k];
        assert(order_spec(region_members(r), dg, names_view(fm.items@), region_opts(r, global), orders[k], gs[k]));
        assert(fm.regions@[k].first < fm.regions@[k].last_excl);
        assert(region_members(r)[x - r.first] == x);
        assert(region_members(r).contains(x));
    }
}

/// Scoped mode: the new order holds every movable item exactly once.
pub proof fn law_scoped_after_permutes(fm: FileModel, global: OrderOpts, out: Outcome)
    requires
        model_wf(fm),
        regions_clear(fm),
        fm.items.len() <= usize::MAX,
        fm.regions.len() > 0,
        outcome_spec(fm, global, out),
    ensures
        out.plan.after.len() == out.plan.before.len(),
        out.plan.after@.no_duplicates(),
        forall|c: usize| #[trigger] out.plan.after@.contains(c) <==> c < out.plan.before.len(),
{
    let (orders, gs, gid, dg) = choose|orders: Seq<Seq<usize>>, gs: Seq<Seq<Vec<usize>>>, gid: Seq<int>, dg: Seq<Vec<usize>>|
        #[trigger] outcome_parts(fm, global, out, orders, gs, gid, dg);
    let items = fm.items@;
    let n = items.len();
    let mv = movable(items);
    let plan = out.plan;
    lemma_movable_facts(items, n as int);
    lemma_orders_permute_regions(fm, global, orders, gs, dg);
    lemma_scoped_after(fm, orders, 0);
    let sa = scoped_after(fm, orders, 0);
    assert(plan.after@ == sa.map_values(|g: usize| compact(items, g as int) as usize));
    assert forall|p: int| 0 <= p < sa.len() implies #[trigger] plan.after@[p] as int == compact(items, sa[p] as int) by {
        lemma_movable_facts(items, sa[p] as int);
    }
    assert forall|p: int, q: int| 0 <= p < q < plan.after.len() implies plan.after@[p] != plan.after@[q] by {
        let x = sa[p];
        let y = sa[q];
        assert(x != y);
        if x < y {
            lemma_compact_order(items, x as int, y as int);
        } else {
            lemma_compact_order(items, y as int, x as int);
        }
    }
    assert forall|c: usize| #[trigger] plan.after@.contains(c) <==> c < mv.len() by {
        if c < mv.len() {
            let x = mv[c as int];
            assert(mv.contains(x));
            assert(x < n && !items[x as int].pinned);
            assert(sa.contains(x));
            let p = choose|p: int| 0 <= p < sa.len() && sa[p] == x;
            assert(compact(items, x as int) == c);
            assert(plan.after@[p] == c);
        }
        if plan.after@.contains(c) {
            let p = choose|p: int| 0 <= p < plan.after.len() && plan.after@[p] == c;
            let x = sa[p];
            lemma_compact_inverse(items, x as int);
        }
    }
    assert(plan.after.len() == mv.len()) by {
        let all = Seq::new(mv.len(), |c: int| c as usize);
        assert forall|c: usize| #[trigger] plan.after@.contains(c) <==> all.contains(c) by {
            if c < mv.len() {
                assert(all[c as int] == c);
            }
        }
        assert(all.no_duplicates());
        lemma_same_elements_same_len(plan.after@, all);
    }
}

/// No line of `t` reads `// mutual start` or `// mutual end`.
pub open spec fn no_marker_lines(t: Seq<char>) -> bool {
    forall|j: int| 0 <= j < split_on(t, '\n').len() ==> !is_mutual_marker(#[trigger] split_on(t, '\n')[j])
}

/// Lines that hold no newline and are no mutual marker.
spec fn clean_lines(ls: Seq<Seq<char>>) -> bool {
    forall|j: int| 0 <= j < ls.len() ==> !(#[trigger] ls[j]).contains('\n') && !is_mutual_marker(ls[j])
}

proof fn lemma_join_clean(ls: Seq<Seq<char>>)
    requires
        clean_lines(ls),
    ensures
        no_marker_lines(join_with(ls, "\n"@)),
{
    reveal_strlit("\n");
    assert("\n"@ =~= seq!['\n']);
    if ls.len() == 0 {
        reveal_strlit("// mutual start");
        reveal_strlit("// mutual end");
        assert(split_on(join_with(ls, "\n"@), '\n') == seq![Seq::<char>::empty()]);
        assert(trim(Seq::<char>::empty()) =~= Seq::<char>::empty());
        assert(!is_mutual_marker(Seq::<char>::empty()));
    } else {
        lemma_split_join(ls, '\n');
    }
}

proof fn lemma_trim_end_clean(x: Seq<char>)
    requires
        no_marker_lines(x),
    ensures
        no_marker_lines(trim_end(x)),
    decreases x.len(),
{
    if x.len() > 0 && is_ws(x.last()) {
        let x1 = x.drop_last();
        lemma_split_on_len(x1, '\n');
        let t = split_on(x1, '\n');
        if x.last() == '\n' {
            assert(split_on(x, '\n') == t.push(Seq::<char>::empty()));
            assert forall|j: int| 0 <= j < t.len() implies !is_mutual_marker(#[trigger] t[j]) by {
                assert(split_on(x, '\n')[j] == t[j]);
            }
        } else {
            let lastx = t.last().push(x.last());
            assert(split_on(x, '\n') == t.update(t.len() - 1, lastx));
            assert forall|j: int| 0 <= j < t.len() implies !is_mutual_marker(#[trigger] t[j]) by {
                if j == t.len() - 1 {
                    assert(split_on(x, '\n')[j] == lastx);
                    assert(t.last() + seq![x.last()] =~= lastx);
                    lemma_trim_ws_suffix(t.last(), seq![x.last()]);
                } else {
                    assert(split_on(x, '\n')[j] == t[j]);
                }
            }
        }
        lemma_trim_end_clean(x1);
    }
}

/// The lines of a gap that stay hold no newline and no mutual marker.
proof fn lemma_kept_clean(lines: Seq<Seq<Seq<char>>>, mk: Seq<(int, int)>, n: int, g: int, l: int)
    requires
        0 <= g < lines.len(),
        l <= lines[g].len(),
        forall|k: int| 0 <= k < lines[g].len() ==> !(#[trigger] lines[g][k]).contains('\n'),
    ensures
        clean_lines(kept(lines, mk, n, g, l)),
    decreases l,
{
    if l > 0 {
        lemma_kept_clean(lines, mk, n, g, l - 1);
        let line = lines[g][l - 1];
        let out = line_out(lines, g, l - 1);
        if !is_mutual_marker(line) {
            if out != line {
                assert(out == strip_cr(line));
                assert(line =~= out + seq!['\r']);
                lemma_trim_ws_suffix(out, seq!['\r']);
                assert(!out.contains('\n')) by {
                    if out.contains('\n') {
                        let k = choose|k: int| 0 <= k < out.len() && out[k] == '\n';
                        assert(line[k] == '\n');
                    }
                }
            }
        }
        let prev = kept(lines, mk, n, g, l - 1);
        assert forall|j: int| 0 <= j < kept(lines, mk, n, g, l).len() implies !(#[trigger] kept(
            lines,
            mk,
            n,
            g,
            l,
        )[j]).contains('\n') && !is_mutual_marker(kept(lines, mk, n, g, l)[j]) by {
            if j < prev.len() {
                assert(kept(lines, mk, n, g, l)[j] == prev[j]);
            }
        }
    }
}

proof fn lemma_nonblank_clean(b: Seq<Seq<char>>)
    requires
        clean_lines(b),
    ensures
        clean_lines(nonblank(b)),
    decreases b.len(),
{
    if b.len() > 0 {
        lemma_nonblank_clean(b.drop_last());
        let prev = nonblank(b.drop_last());
        assert forall|j: int| 0 <= j < nonblank(b).len() implies !(#[trigger] nonblank(b)[j]).contains('\n')
            && !is_mutual_marker(nonblank(b)[j]) by {
            if j < prev.len() {
                assert(nonblank(b)[j] == prev[j]);
            } else {
                assert(nonblank(b)[j] == b[b.len() - 1]);
            }
        }
    }
}

proof fn lemma_run_start_bounds(b: Seq<Seq<char>>)
    ensures
        0 <= run_start(b) <= b.len(),
    decreases b.len(),
{
    if b.len() > 0 && !is_blank(b.last()) {
        lemma_run_start_bounds(b.drop_last());
    }
}

/// The tool's own `// mutual start` and `// mutual end` lines do not
/// survive parsing: no line of the preamble, of the postamble, or of any
/// item's attached or floating comments is one. The markers of the new
/// text all come from the mutual groups found anew.
pub proof fn law_markers_stripped(s: Seq<char>, raws: Seq<RawItem>, fm: FileModel)
    requires
        model_spec(s, raws, fm),
    ensures
        no_marker_lines(fm.preamble@),
        no_marker_lines(fm.postamble@),
        forall|i: int|
            0 <= i < fm.items.len() ==> no_marker_lines(#[trigger] fm.items@[i].lead@) && no_marker_lines(
                fm.items@[i].pre_floating@,
            ),
{
    let sp = spans(s, raws);
    let n = raws.len() as int;
    let lines = gap_lines(s, sp);
    let mk = all_marks(lines, num_gaps(sp));
    assert forall|g: int, k: int| 0 <= g < lines.len() && 0 <= k < lines[g].len() implies !(#[trigger] lines[g][k]).contains(
        '\n',
    ) by {
        lemma_split_pieces(gap_text(s, sp, g), '\n');
    }
    assert forall|g: int| 0 <= g < lines.len() implies #[trigger] lines[g].len() >= 1 by {
        lemma_split_on_len(gap_text(s, sp, g), '\n');
    }
    lemma_kept_clean(lines, mk, n, 0, lines[0].len() as int);
    lemma_join_clean(kept(lines, mk, n, 0, lines[0].len() as int));
    if n == 0 {
        lemma_join_clean(Seq::<Seq<char>>::empty());
        assert(join_with(Seq::<Seq<char>>::empty(), "\n"@) =~= Seq::<char>::empty());
    } else {
        lemma_kept_clean(lines, mk, n, n, lines[n].len() as int);
        lemma_join_clean(kept(lines, mk, n, n, lines[n].len() as int));
    }
    assert forall|i: int| 0 <= i < fm.items.len() implies no_marker_lines(#[trigger] fm.items@[i].lead@) && no_marker_lines(
        fm.items@[i].pre_floating@,
    ) by {
        if i == 0 {
            lemma_join_clean(Seq::<Seq<char>>::empty());
            assert(join_with(Seq::<Seq<char>>::empty(), "\n"@) =~= Seq::<char>::empty());
        } else {
            let b = kept(lines, mk, n, i, lines[i].len() - 1);
            lemma_kept_clean(lines, mk, n, i, lines[i].len() - 1);
            let rs = run_start(b);
            lemma_run_start_bounds(b);
            assert(clean_lines(b.skip(rs))) by {
                assert forall|j: int| 0 <= j < b.skip(rs).len() implies !(#[trigger] b.skip(rs)[j]).contains('\n')
                    && !is_mutual_marker(b.skip(rs)[j]) by {
                    assert(b.skip(rs)[j] == b[j + rs]);
                }
            }
            lemma_join_clean(b.skip(rs));
            lemma_trim_end_clean(join_with(b.skip(rs), "\n"@));
            assert(fm.items@[i].lead@ == lead_of(b));
            assert(clean_lines(b.take(rs))) by {
                assert forall|j: int| 0 <= j < b.take(rs).len() implies !(#[trigger] b.take(rs)[j]).contains('\n')
                    && !is_mutual_marker(b.take(rs)[j]) by {
                    assert(b.take(rs)[j] == b[j]);
                }
            }
            lemma_nonblank_clean(b.take(rs));
            lemma_join_clean(nonblank(b.take(rs)));
            assert(fm.items@[i].pre_floating@ == floating_of(b));
        }
    }
}


/// Every dependency in the plan names another movable item: each entry of
/// `deps[c]` is below the number of movable items and differs from `c`.
pub proof fn law_plan_deps_in_range(fm: FileModel, global: OrderOpts, out: Outcome)
    requires
        model_wf(fm),
        fm.items.len() <= usize::MAX,
        outcome_spec(fm, global, out),
    ensures
        out.plan.deps.len() == out.plan.nodes.len(),
        forall|c: int, a: int|
            0 <= c < out.plan.deps.len() && 0 <= a < out.plan.deps@[c].len() ==> #[trigger] out.plan.deps@[c]@[a]
                < out.plan.deps.len() && out.plan.deps@[c]@[a] != c,
{
    let (orders, gs, gid, dg) = choose|orders: Seq<Seq<usize>>, gs: Seq<Seq<Vec<usize>>>, gid: Seq<int>, dg: Seq<Vec<usize>>|
        #[trigger] outcome_parts(fm, global, out, orders, gs, gid, dg);
    let items = fm.items@;
    let n = items.len();
    let mv = movable(items);
    let plan = out.plan;
    lemma_movable_facts(items, n as int);
    assert forall|c: int, a: int| 0 <= c < plan.deps.len() && 0 <= a < plan.deps@[c].len() implies #[trigger] plan.deps@[c]@[a]
        < plan.deps.len() && plan.deps@[c]@[a] != c by {
        let x = mv[c];
        let ds = items[x as int].deps@;
        assert(plan.deps@[c]@ == ds.map_values(|d: usize| compact(items, d as int) as usize));
        let t = ds[a];
        assert(t < n && t != x && !items[t as int].pinned);
        assert(plan.deps@[c]@[a] == compact(items, t as int) as usize);
        lemma_compact_inverse(items, t as int);
        assert(compact(items, x as int) == c);
        if compact(items, t as int) == c {
            assert(mv[c] == t);
        }
    }
}

/// Two different members of a scope carry the same group number, not -1,
/// exactly when they lie on a common cycle.
proof fn lemma_gid_iff_mutual(
    members: Seq<usize>,
    deps: Seq<Vec<usize>>,
    names: Seq<Seq<char>>,
    opts: OrderOpts,
    o: Seq<usize>,
    g: Seq<Vec<usize>>,
    gid: Seq<int>,
    x: usize,
    y: usize,
)
    requires
        order_spec(members, deps, names, opts, o, g),
        forall|i: int| 0 <= i < members.len() ==> #[trigger] members[i] < deps.len(),
        gid_spec(vviews(g), gid, deps.len() as int),
        members.contains(x),
        members.contains(y),
        x != y,
    ensures
        (gid[x as int] >= 0 && gid[x as int] == gid[y as int]) <==> mutual(scope_mask(members, deps.len()), deps, x as int, y as int),
{
    lemma_group_iff_mutual(members, deps, names, opts, o, g, x, y);
    let ix = choose|i: int| 0 <= i < members.len() && members[i] == x;
    let iy = choose|i: int| 0 <= i < members.len() && members[i] == y;
    assert(x < deps.len() && y < deps.len());
    assert(gid[x as int] >= -1 && gid[y as int] >= -1);
    if gid[x as int] >= 0 && gid[x as int] == gid[y as int] {
        let k = gid[x as int];
        assert(vviews(g)[k] == g[k]@);
        assert(g[k]@.contains(x) && g[k]@.contains(y));
    }
    if mutual(scope_mask(members, deps.len()), deps, x as int, y as int) {
        let k = choose|k: int| 0 <= k < g.len() && #[trigger] g[k]@.contains(x) && g[k]@.contains(y);
        assert(vviews(g)[k] == g[k]@);
        assert(gid[x as int] >= 0);
        assert(gid[y as int] >= 0);
        let kx = gid[x as int];
        let ky = gid[y as int];
        assert(vviews(g)[kx] == g[kx]@);
        assert(vviews(g)[ky] == g[ky]@);
        if kx < k {
            lemma_groups_disjoint(members, deps, names, opts, o, g, kx, k, x);
        } else if k < kx {
            lemma_groups_disjoint(members, deps, names, opts, o, g, k, kx, x);
        }
        if ky < k {
            lemma_groups_disjoint(members, deps, names, opts, o, g, ky, k, y);
        } else if k < ky {
            lemma_groups_disjoint(members, deps, names, opts, o, g, k, ky, y);
        }
    }
}

/// Plan items `c1` and `c2` carry the same group number, not -1.
pub open spec fn same_group(p: Plan, c1: int, c2: int) -> bool {
    p.group_of@[c1] >= 0 && p.group_of@[c1] == p.group_of@[c2]
}

/// Every item of the plan, as the members of its dependency graph.
pub open spec fn plan_mask(p: Plan) -> Seq<bool> {
    scope_mask(iota(p.deps.len() as nat), p.deps.len() as nat)
}

/// The plan's group numbers follow its cycles (whole-file mode).
proof fn lemma_plan_gid_mutual(fm: FileModel, global: OrderOpts, out: Outcome)
    requires
        model_wf(fm),
        fm.items.len() <= usize::MAX,
        fm.regions.len() == 0,
        outcome_spec(fm, global, out),
    ensures
        forall|c1: int, c2: int|
            0 <= c1 < out.plan.deps.len() && 0 <= c2 < out.plan.deps.len() && c1 != c2 ==> (#[trigger] same_group(
                out.plan,
                c1,
                c2,
            ) <==> mutual(plan_mask(out.plan), out.plan.deps@, c1, c2)),
{
    let (orders, gs, gid, dg) = choose|orders: Seq<Seq<usize>>, gs: Seq<Seq<Vec<usize>>>, gid: Seq<int>, dg: Seq<Vec<usize>>|
        #[trigger] outcome_parts(fm, global, out, orders, gs, gid, dg);
    let items = fm.items@;
    let n = items.len();
    let mv = movable(items);
    let plan = out.plan;
    let r = mv.len();
    let o = orders[0];
    let nv = names_view(items);
    lemma_movable_facts(items, n as int);
    assert(order_spec(mv, dg, nv, global, o, gs[0]));
    assert forall|i: int| 0 <= i < r implies #[trigger] mv[i] < dg.len() by {}
    assert(mv.no_duplicates()) by {
        assert forall|a: int, b: int| 0 <= a < b < r implies mv[a] != mv[b] by {
            assert(mv[a] < mv[b]);
        }
    }
    assert forall|i: int| 0 <= i < r implies #[trigger] mv[i] < dg.len() by {}
    assert(renumbered_deps(mv, dg, plan.deps@, 0)) by {
        assert forall|c: int, q: usize| 0 <= c < 0 + r implies (#[trigger] plan.deps@[c]@.contains(q) <==> 0 <= q < 0 + r
            && dg[mv[c - 0] as int]@.contains(mv[q - 0])) by {
            let x = mv[c];
            let ds = items[x as int].deps@;
            assert(dg[x as int]@ == ds);
            assert(plan.deps@[c]@ == ds.map_values(|d: usize| compact(items, d as int) as usize));
            if plan.deps@[c]@.contains(q) {
                let a = choose|a: int| 0 <= a < plan.deps@[c]@.len() && plan.deps@[c]@[a] == q;
                let t = ds[a];
                assert(t < n && !items[t as int].pinned);
                lemma_compact_inverse(items, t as int);
                assert(q as int == compact(items, t as int));
                assert(ds.contains(mv[q as int]));
            }
            if q < r && ds.contains(mv[q as int]) {
                let a = choose|a: int| 0 <= a < ds.len() && ds[a] == mv[q as int];
                assert(plan.deps@[c]@[a] == compact(items, mv[q as int] as int) as usize);
            }
        }
    }
    assert(setting(mv, dg, mv, plan.deps@, 0));
    assert forall|c1: int, c2: int|
        0 <= c1 < out.plan.deps.len() && 0 <= c2 < out.plan.deps.len() && c1 != c2 implies (#[trigger] same_group(
            out.plan,
            c1,
            c2,
        ) <==> mutual(plan_mask(out.plan), out.plan.deps@, c1, c2)) by {
        lemma_mutual_moved(mv, dg, mv, plan.deps@, 0, c1, c2);
        assert(mv.contains(mv[c1]) && mv.contains(mv[c2]));
        lemma_gid_iff_mutual(mv, dg, nv, global, o, gs[0], gid, mv[c1], mv[c2]);
        assert(plan.group_of@[c1] as int == gid[mv[c1] as int]);
        assert(plan.group_of@[c2] as int == gid[mv[c2] as int]);
    }
}

/// The members of a plan group stand together in the new order.
proof fn lemma_plan_groups_together(fm: FileModel, global: OrderOpts, out: Outcome)
    requires
        model_wf(fm),
        fm.items.len() <= usize::MAX,
        fm.regions.len() == 0,
        outcome_spec(fm, global, out),
    ensures
        forall|i: int, j: int, k: int|
            0 <= i < j < k < out.plan.after.len() && out.plan.group_of@[out.plan.after@[i] as int] >= 0
                && #[trigger] out.plan.group_of@[out.plan.after@[i] as int] == #[trigger] out.plan.group_of@[out.plan.after@[k] as int]
                ==> #[trigger] out.plan.group_of@[out.plan.after@[j] as int] == out.plan.group_of@[out.plan.after@[i] as int],
{
    let (orders, gs, gid, dg) = choose|orders: Seq<Seq<usize>>, gs: Seq<Seq<Vec<usize>>>, gid: Seq<int>, dg: Seq<Vec<usize>>|
        #[trigger] outcome_parts(fm, global, out, orders, gs, gid, dg);
    let items = fm.items@;
    let n = items.len();
    let mv = movable(items);
    let plan = out.plan;
    let r = mv.len();
    let o = orders[0];
    let nv = names_view(items);
    lemma_movable_facts(items, n as int);
    assert(order_spec(mv, dg, nv, global, o, gs[0]));
    assert forall|i: int| 0 <= i < r implies #[trigger] mv[i] < dg.len() by {}
    // position `p` of the new order holds plan item `compact(o[p])`, whose group is that of `o[p]`
    assert forall|p: int| 0 <= p < o.len() implies #[trigger] plan.group_of@[plan.after@[p] as int] as int == gid[o[p] as int]
        && o[p] < n by {
        assert(o.contains(o[p]));
        assert(mv.contains(o[p]));
        let c = choose|c: int| 0 <= c < r && mv[c] == o[p];
        assert(compact(items, mv[c] as int) == c);
        assert(plan.after@[p] as int == compact(items, o[p] as int));
    }
    assert forall|i: int, j: int, k: int|
        0 <= i < j < k < plan.after.len() && plan.group_of@[plan.after@[i] as int] >= 0
            && #[trigger] plan.group_of@[plan.after@[i] as int] == #[trigger] plan.group_of@[plan.after@[k] as int]
            implies #[trigger] plan.group_of@[plan.after@[j] as int] == plan.group_of@[plan.after@[i] as int] by {
        assert(plan.group_of@[plan.after@[i] as int] as int == gid[o[i] as int]);
        assert(plan.group_of@[plan.after@[j] as int] as int == gid[o[j] as int]);
        assert(plan.group_of@[plan.after@[k] as int] as int == gid[o[k] as int]);
        assert(o.contains(o[i]) && o.contains(o[j]) && o.contains(o[k]));
        lemma_gid_iff_mutual(mv, dg, nv, global, o, gs[0], gid, o[i], o[k]);
        lemma_gid_iff_mutual(mv, dg, nv, global, o, gs[0], gid, o[i], o[j]);
        assert(mutual(scope_mask(mv, dg.len()), dg, o[i] as int, o[j] as int));
    }
}

/// A plan item with a group number shares it with another item.
proof fn lemma_plan_group_partner(fm: FileModel, global: OrderOpts, out: Outcome, c: int)
    requires
        model_wf(fm),
        fm.items.len() <= usize::MAX,
        fm.regions.len() == 0,
        outcome_spec(fm, global, out),
        0 <= c < out.plan.deps.len(),
    ensures
        out.plan.group_of@[c] >= -1,
        out.plan.group_of@[c] >= 0 ==> exists|c2: int| 0 <= c2 < out.plan.deps.len() && c2 != c && #[trigger] same_group(out.plan, c, c2),
{
    let (orders, gs, gid, dg) = choose|orders: Seq<Seq<usize>>, gs: Seq<Seq<Vec<usize>>>, gid: Seq<int>, dg: Seq<Vec<usize>>|
        #[trigger] outcome_parts(fm, global, out, orders, gs, gid, dg);
    let items = fm.items@;
    let n = items.len();
    let mv = movable(items);
    let plan = out.plan;
    let r = mv.len();
    let o = orders[0];
    let nv = names_view(items);
    let g = gs[0];
    lemma_movable_facts(items, n as int);
    assert(order_spec(mv, dg, nv, global, o, g));
    assert forall|i: int| 0 <= i < r implies #[trigger] mv[i] < dg.len() by {}
    let x = mv[c];
    assert(plan.group_of@[c] as int == gid[x as int]);
    assert(x < n);
    assert(gid[x as int] >= -1);
    if gid[x as int] >= 0 {
        let k = gid[x as int];
        assert(vviews(g)[k] == g[k]@);
        assert(g[k]@.contains(x));
        lemma_group_pos(mv, dg, nv, global, o, g, k);
        let s0 = group_pos(o, g, k);
        assert(g[k].len() >= 2);
        assert(o.subrange(s0, s0 + g[k].len()) == g[k]@);
        let y = if g[k]@[0] == x { g[k]@[1] } else { g[k]@[0] };
        assert(o.subrange(s0, s0 + g[k].len())[0] == o[s0]);
        assert(o.subrange(s0, s0 + g[k].len())[1] == o[s0 + 1]);
        assert(y != x);
        assert(g[k]@.contains(y));
        assert(o.contains(y)) by {
            if y == g[k]@[0] {
                assert(o[s0] == y);
            } else {
                assert(o[s0 + 1] == y);
            }
        }
        assert(mv.contains(x));
        assert(mv.contains(y));
        lemma_group_iff_mutual(mv, dg, nv, global, o, g, x, y);
        lemma_gid_iff_mutual(mv, dg, nv, global, o, g, gid, x, y);
        let c2 = choose|c2: int| 0 <= c2 < r && mv[c2] == y;
        assert(plan.group_of@[c2] as int == gid[y as int]);
        assert(same_group(out.plan, c, c2));
    }
}

/// The plan's mutual groups are exactly its cycles (whole-file mode): two
/// different items of the plan carry the same group number, not -1,
/// exactly when they lie on a common cycle of the plan's dependency graph;
/// an item carries -1 exactly when it shares a cycle with no other item;
/// and the members of a group stand together in the new order.
pub proof fn law_plan_groups_are_cycles(fm: FileModel, global: OrderOpts, out: Outcome)
    requires
        model_wf(fm),
        fm.items.len() <= usize::MAX,
        fm.regions.len() == 0,
        outcome_spec(fm, global, out),
    ensures
        forall|c1: int, c2: int|
            0 <= c1 < out.plan.deps.len() && 0 <= c2 < out.plan.deps.len() && c1 != c2 ==> (#[trigger] same_group(
                out.plan,
                c1,
                c2,
            ) <==> mutual(plan_mask(out.plan), out.plan.deps@, c1, c2)),
        forall|i: int, j: int, k: int|
            0 <= i < j < k < out.plan.after.len() && out.plan.group_of@[out.plan.after@[i] as int] >= 0
                && #[trigger] out.plan.group_of@[out.plan.after@[i] as int] == #[trigger] out.plan.group_of@[out.plan.after@[k] as int]
                ==> #[trigger] out.plan.group_of@[out.plan.after@[j] as int] == out.plan.group_of@[out.plan.after@[i] as int],
        forall|c: int|
            0 <= c < out.plan.deps.len() ==> (#[trigger] out.plan.group_of@[c] == -1 <==> forall|c2: int|
                0 <= c2 < out.plan.deps.len() && c2 != c ==> !mutual(plan_mask(out.plan), out.plan.deps@, c, c2)),
{
    lemma_plan_gid_mutual(fm, global, out);
    lemma_plan_groups_together(fm, global, out);
    assert forall|c: int| 0 <= c < out.plan.deps.len() implies (#[trigger] out.plan.group_of@[c] == -1 <==> forall|c2: int|
        0 <= c2 < out.plan.deps.len() && c2 != c ==> !mutual(plan_mask(out.plan), out.plan.deps@, c, c2)) by {
        lemma_plan_group_partner(fm, global, out, c);
        if out.plan.group_of@[c] == -1 {
            assert forall|c2: int| 0 <= c2 < out.plan.deps.len() && c2 != c implies !mutual(
                plan_mask(out.plan),
                out.plan.deps@,
                c,
                c2,
            ) by {
                assert(!same_group(out.plan, c, c2));
            }
        } else {
            let c2 = choose|c2: int| 0 <= c2 < out.plan.deps.len() && c2 != c && #[trigger] same_group(out.plan, c, c2);
            assert(mutual(plan_mask(out.plan), out.plan.deps@, c, c2));
        }
    }
}

/// The name a plan node is known by: the name it defines, else its label.
pub open spec fn node_name(n: Node) -> Seq<char> {
    match n.name {
        Some(s) => s@,
        None => n.display@,
    }
}

/// The facts behind `law_reorder_settles`: the renumbering of the plan's
/// items is a renumbering of the movable items in the chosen order.
proof fn lemma_plan_renumbered(
    fm: FileModel,
    global: OrderOpts,
    out: Outcome,
    deps2: Seq<Vec<usize>>,
    names2: Seq<Seq<char>>,
    b: nat,
)
    requires
        model_wf(fm),
        fm.items.len() <= usize::MAX,
        fm.regions.len() == 0,
        outcome_spec(fm, global, out),
        b + out.plan.after.len() <= deps2.len() <= usize::MAX,
        forall|x: int, q: usize|
            b <= x < b + out.plan.after.len() ==> (#[trigger] deps2[x]@.contains(q) <==> b <= q < b + out.plan.after.len()
                && out.plan.deps@[out.plan.after@[x - b] as int]@.contains(out.plan.after@[q - b])),
        names2.len() >= b + out.plan.after.len(),
        forall|x: int| b <= x < b + out.plan.after.len() ==> #[trigger] names2[x] == node_name(out.plan.nodes@[out.plan.after@[x - b] as int]),
    ensures
        ({
            let (orders, gs, gid, dg) = choose|orders: Seq<Seq<usize>>, gs: Seq<Seq<Vec<usize>>>, gid: Seq<int>, dg: Seq<Vec<usize>>|
                #[trigger] outcome_parts(fm, global, out, orders, gs, gid, dg);
            let items = fm.items@;
            let mv = movable(items);
            &&& outcome_parts(fm, global, out, orders, gs, gid, dg)
            &&& orders[0].len() == out.plan.after.len()
            &&& forall|p: int| 0 <= p < orders[0].len() ==> #[trigger] mv[out.plan.after@[p] as int] == orders[0][p]
                && orders[0][p] < items.len()
            &&& renumbered_deps(orders[0], dg, deps2, b)
            &&& forall|x: int| b <= x < b + orders[0].len() ==> #[trigger] names2[x] == names_view(items)[orders[0][x - b] as int]
            &&& forall|i: int| 0 <= i < mv.len() ==> #[trigger] mv[i] < dg.len() && mv[i] < names_view(items).len()
            &&& mv.len() <= usize::MAX
            &&& dg.len() <= usize::MAX
        }),
{
    let (orders, gs, gid, dg) = choose|orders: Seq<Seq<usize>>, gs: Seq<Seq<Vec<usize>>>, gid: Seq<int>, dg: Seq<Vec<usize>>|
        #[trigger] outcome_parts(fm, global, out, orders, gs, gid, dg);
    let items = fm.items@;
    let n = items.len();
    let mv = movable(items);
    let o = orders[0];
    let plan = out.plan;
    lemma_movable_facts(items, n as int);
    assert forall|i: int| 0 <= i < mv.len() implies #[trigger] mv[i] < dg.len() by {}
    assert(o.len() == plan.after.len());
    // position `p` of the new order holds the movable item `o[p]`
    assert forall|p: int| 0 <= p < o.len() implies #[trigger] plan.after@[p] as int == compact(items, o[p] as int)
        && !items[o[p] as int].pinned && o[p] < n && mv[compact(items, o[p] as int)] == o[p] by {
        assert(o.contains(o[p]));
        assert(mv.contains(o[p]));
        let c = choose|c: int| 0 <= c < mv.len() && mv[c] == o[p];
        assert(compact(items, mv[c] as int) == c);
    }
    assert forall|p: int| 0 <= p < o.len() implies 0 <= #[trigger] plan.after@[p] < mv.len() by {
        assert(plan.after@[p] as int == compact(items, o[p] as int) && o[p] < n && !items[o[p] as int].pinned);
        lemma_compact_inverse(items, o[p] as int);
    }
    assert(renumbered_deps(o, dg, deps2, b)) by {
        assert forall|xx: int, q: usize| b <= xx < b + o.len() implies (#[trigger] deps2[xx]@.contains(q) <==> b <= q < b + o.len()
            && dg[o[xx - b] as int]@.contains(o[q - b])) by {
            let p = xx - b;
            let x = o[p];
            let c = plan.after@[p] as int;
            let ds = items[x as int].deps@;
            assert(dg[x as int]@ == ds);
            assert(plan.deps@[c]@ == ds.map_values(|d: usize| compact(items, d as int) as usize));
            if b <= q < b + o.len() {
                let y = o[q - b];
                assert(plan.after@[q - b] as int == compact(items, y as int));
                if plan.deps@[c]@.contains(plan.after@[q - b]) {
                    let a = choose|a: int| 0 <= a < plan.deps@[c]@.len() && plan.deps@[c]@[a] == plan.after@[q - b];
                    let t = ds[a];
                    assert(t < n && !items[t as int].pinned);
                    lemma_compact_inverse(items, t as int);
                    assert(compact(items, t as int) == compact(items, y as int));
                    assert(t == y);
                    assert(ds.contains(y));
                }
                if ds.contains(y) {
                    let a = choose|a: int| 0 <= a < ds.len() && ds[a] == y;
                    assert(plan.deps@[c]@[a] == compact(items, y as int) as usize);
                }
            }
        }
    }
    assert forall|xx: int| b <= xx < b + o.len() implies #[trigger] names2[xx] == names_view(items)[o[xx - b] as int] by {
        let p = xx - b;
        let c = plan.after@[p] as int;
        assert(mv[c] == o[p]);
        assert(opt_view(plan.nodes@[c].name) == opt_view(items[o[p] as int].name));
        assert(plan.nodes@[c].display@ == items[o[p] as int].display@);
    }
    assert forall|i: int| 0 <= i < mv.len() implies #[trigger] mv[i] < names_view(items).len() by {}
}

/// The result of ordering a scope is determined by its members as a set:
/// for the same dependencies, names and options, `order_scope` gives one
/// and the same order and the same mutual groups for `members` and for any
/// other listing of the same members (and so on every call).
pub proof fn law_scope_order_unique(
    members1: Seq<usize>,
    members2: Seq<usize>,
    deps: Seq<Vec<usize>>,
    names: Seq<String>,
    opts: OrderOpts,
    o1: Seq<usize>,
    g1: Seq<Vec<usize>>,
    o2: Seq<usize>,
    g2: Seq<Vec<usize>>,
)
    requires
        forall|i: int| 0 <= i < members1.len() ==> #[trigger] members1[i] < deps.len(),
        deps.len() <= usize::MAX,
        forall|x: usize| #[trigger] members1.contains(x) <==> members2.contains(x),
        order_spec(members1, deps, padded_names(names, deps.len() as nat), opts, o1, g1),
        order_spec(members2, deps, padded_names(names, deps.len() as nat), opts, o2, g2),
    ensures
        o1 == o2,
        g1.len() == g2.len(),
        forall|k: int| 0 <= k < g1.len() ==> #[trigger] g1[k]@ == g2[k]@,
{
    let nm = padded_names(names, deps.len() as nat);
    lemma_order_unique(members1, members2, deps, nm, opts, o1, g1, o2, g2);
    assert(scope_mask(members2, deps.len()) =~= scope_mask(members1, deps.len()));
    assert(order_spec(members1, deps, nm, opts, o1, g2));
    lemma_groups_unique(members1, deps, nm, opts, o1, g1, g2);
}

/// Reordering settles: in whole-file mode, whatever the ties, ordering the
/// plan's items again in their new order (item `after[p]` renumbered `p`,
/// its dependencies and name carried along) keeps every one of them in
/// place: any order that `order_scope` may return there is `0..n` itself.
/// Mutual groups stay where they are.
pub proof fn law_reorder_settles(
    fm: FileModel,
    global: OrderOpts,
    out: Outcome,
    deps2: Seq<Vec<usize>>,
    names2: Seq<Seq<char>>,
    o2: Seq<usize>,
    g2: Seq<Vec<usize>>,
)
    requires
        model_wf(fm),
        fm.items.len() <= usize::MAX,
        fm.regions.len() == 0,
        outcome_spec(fm, global, out),
        out.plan.after.len() <= deps2.len() <= usize::MAX,
        forall|p: int, q: usize|
            0 <= p < out.plan.after.len() ==> (#[trigger] deps2[p]@.contains(q) <==> q < out.plan.after.len()
                && out.plan.deps@[out.plan.after@[p] as int]@.contains(out.plan.after@[q as int])),
        names2.len() >= out.plan.after.len(),
        forall|p: int| 0 <= p < out.plan.after.len() ==> #[trigger] names2[p] == node_name(out.plan.nodes@[out.plan.after@[p] as int]),
        order_spec(iota(out.plan.after.len() as nat), deps2, names2, global, o2, g2),
    ensures
        o2 == iota(out.plan.after.len() as nat),
{
    lemma_plan_renumbered(fm, global, out, deps2, names2, 0);
    let (orders, gs, gid, dg) = choose|orders: Seq<Seq<usize>>, gs: Seq<Seq<Vec<usize>>>, gid: Seq<int>, dg: Seq<Vec<usize>>|
        #[trigger] outcome_parts(fm, global, out, orders, gs, gid, dg);
    let items = fm.items@;
    lemma_order_settles(movable(items), dg, names_view(items), global, orders[0], gs[0], deps2, names2, 0, o2, g2);
}

proof fn lemma_replace_removes(s: Seq<char>, c: char, rep: Seq<char>)
    requires
        !rep.contains(c),
    ensures
        !replace_all(s, seq![c], rep).contains(c),
    decreases s.len(),
{
    if s.len() >= 1 {
        lemma_replace_removes(s.skip(1), c, rep);
        let rest = replace_all(s.skip(1), seq![c], rep);
        if s.take(1) == seq![c] {
            assert(!(rep + rest).contains(c)) by {
                if (rep + rest).contains(c) {
                    let k = choose|k: int| 0 <= k < (rep + rest).len() && (rep + rest)[k] == c;
                    if k < rep.len() {
                        assert(rep[k] == c);
                    } else {
                        assert(rest[k - rep.len()] == c);
                    }
                }
            }
        } else {
            assert(s[0] != c) by {
                if s[0] == c {
                    assert(s.take(1) =~= seq![c]);
                }
            }
            assert(!(seq![s[0]] + rest).contains(c)) by {
                if (seq![s[0]] + rest).contains(c) {
                    let k = choose|k: int| 0 <= k < (seq![s[0]] + rest).len() && (seq![s[0]] + rest)[k] == c;
                    if k > 0 {
                        assert(rest[k - 1] == c);
                    }
                }
            }
        }
    }
}

proof fn lemma_replace_keeps_out(s: Seq<char>, pat: Seq<char>, rep: Seq<char>, d: char)
    requires
        !s.contains(d),
        !rep.contains(d),
    ensures
        !replace_all(s, pat, rep).contains(d),
    decreases s.len(),
{
    if pat.len() > 0 && s.len() >= pat.len() {
        let sk = if s.take(pat.len() as int) == pat { s.skip(pat.len() as int) } else { s.skip(1) };
        assert(!sk.contains(d)) by {
            if sk.contains(d) {
                let k = choose|k: int| 0 <= k < sk.len() && sk[k] == d;
                assert(s[k + (s.len() - sk.len())] == d);
            }
        }
        lemma_replace_keeps_out(sk, pat, rep, d);
        let rest = replace_all(sk, pat, rep);
        let head = if s.take(pat.len() as int) == pat { rep } else { seq![s[0]] };
        assert(!head.contains(d)) by {
            if head.contains(d) && s.take(pat.len() as int) != pat {
                assert(head[0] == s[0]);
            }
        }
        assert(replace_all(s, pat, rep) == head + rest);
        assert(!(head + rest).contains(d)) by {
            if (head + rest).contains(d) {
                let k = choose|k: int| 0 <= k < (head + rest).len() && (head + rest)[k] == d;
                if k < head.len() {
                    assert(head[k] == d);
                } else {
                    assert(rest[k - head.len()] == d);
                }
            }
        }
    }
}

/// Text escaped for XML holds no `<`, `>` or `"`.
pub proof fn law_esc_xml_clean(s: Seq<char>)
    ensures
        !esc_xml_spec(s).contains('<'),
        !esc_xml_spec(s).contains('>'),
        !esc_xml_spec(s).contains('"'),
{
    reveal_strlit("&");
    reveal_strlit("&amp;");
    reveal_strlit("<");
    reveal_strlit("&lt;");
    reveal_strlit(">");
    reveal_strlit("&gt;");
    reveal_strlit("\"");
    reveal_strlit("&quot;");
    assert("<"@ =~= seq!['<']);
    assert(">"@ =~= seq!['>']);
    assert("\""@ =~= seq!['"']);
    let r1 = replace_all(s, "&"@, "&amp;"@);
    let r2 = replace_all(r1, "<"@, "&lt;"@);
    let r3 = replace_all(r2, ">"@, "&gt;"@);
    assert(!"&lt;"@.contains('<')) by {
        if "&lt;"@.contains('<') {
            let k = choose|k: int| 0 <= k < "&lt;"@.len() && "&lt;"@[k] == '<';
        }
    }
    assert(!"&gt;"@.contains('>') && !"&gt;"@.contains('<')) by {
        if "&gt;"@.contains('>') {
            let k = choose|k: int| 0 <= k < "&gt;"@.len() && "&gt;"@[k] == '>';
        }
        if "&gt;"@.contains('<') {
            let k = choose|k: int| 0 <= k < "&gt;"@.len() && "&gt;"@[k] == '<';
        }
    }
    assert(!"&quot;"@.contains('"') && !"&quot;"@.contains('<') && !"&quot;"@.contains('>')) by {
        if "&quot;"@.contains('"') {
            let k = choose|k: int| 0 <= k < "&quot;"@.len() && "&quot;"@[k] == '"';
        }
        if "&quot;"@.contains('<') {
            let k = choose|k: int| 0 <= k < "&quot;"@.len() && "&quot;"@[k] == '<';
        }
        if "&quot;"@.contains('>') {
            let k = choose|k: int| 0 <= k < "&quot;"@.len() && "&quot;"@[k] == '>';
        }
    }
    lemma_replace_removes(r1, '<', "&lt;"@);
    lemma_replace_removes(r2, '>', "&gt;"@);
    lemma_replace_keeps_out(r2, ">"@, "&gt;"@, '<');
    lemma_replace_removes(r3, '"', "&quot;"@);
    lemma_replace_keeps_out(r3, "\""@, "&quot;"@, '<');
    lemma_replace_keeps_out(r3, "\""@, "&quot;"@, '>');
}


/// The indices of the pinned items among the first `k`, in order.
pub open spec fn pinned_upto(items: Seq<Item>, k: int) -> Seq<usize>
    decreases k,
{
    if k <= 0 {
        Seq::empty()
    } else {
        pinned_upto(items, k - 1) + if items[k - 1].pinned {
            seq![(k - 1) as usize]
        } else {
            Seq::empty()
        }
    }
}

proof fn lemma_pinned_blocks_map(items: Seq<Item>, k: int)
    requires
        k <= items.len() <= usize::MAX,
    ensures
        pinned_blocks(items, k) == pinned_upto(items, k).map_values(|g: usize| block_spec(items[g as int], true)),
    decreases k,
{
    if k > 0 {
        lemma_pinned_blocks_map(items, k - 1);
        assert(pinned_blocks(items, k) =~= pinned_upto(items, k).map_values(|g: usize| block_spec(items[g as int], true)));
    } else {
        assert(pinned_blocks(items, k) =~= pinned_upto(items, k).map_values(|g: usize| block_spec(items[g as int], true)));
    }
}

/// Items `0..b` pinned and the rest movable: the pinned ones are `0..b`,
/// the movable ones `b..`.
proof fn lemma_back_layout(items: Seq<Item>, b: int, k: int)
    requires
        0 <= b <= items.len() <= usize::MAX,
        0 <= k <= items.len(),
        forall|p: int| 0 <= p < b ==> (#[trigger] items[p]).pinned,
        forall|p: int| b <= p < items.len() ==> !(#[trigger] items[p]).pinned,
    ensures
        movable_upto(items, k) == iota_at(b as nat, (if k < b { 0 } else { k - b }) as nat),
        pinned_upto(items, k) == iota((if k < b { k } else { b }) as nat),
    decreases k,
{
    if k > 0 {
        lemma_back_layout(items, b, k - 1);
        assert(movable_upto(items, k) =~= iota_at(b as nat, (if k < b { 0 } else { k - b }) as nat));
        assert(pinned_upto(items, k) =~= iota((if k < b { k } else { b }) as nat));
    } else {
        assert(movable_upto(items, k) =~= iota_at(b as nat, 0));
        assert(pinned_upto(items, k) =~= iota(0));
    }
}

/// The floating comments are trimmed and not empty.
proof fn lemma_floats_trimmed(items: Seq<Item>, k: int)
    ensures
        forall|e: int| 0 <= e < floats(items, k).len() ==> (#[trigger] floats(items, k)[e]).len() > 0 && !is_ws(
            floats(items, k)[e][0],
        ) && !is_ws(floats(items, k)[e].last()),
    decreases k,
{
    if k > 0 {
        lemma_floats_trimmed(items, k - 1);
        let x = items[k - 1].pre_floating@;
        let y = trim_start(x);
        lemma_trim_start_suffix(x);
        lemma_trim_end_prefix(y);
        let prev = floats(items, k - 1);
        assert forall|e: int| 0 <= e < floats(items, k).len() implies (#[trigger] floats(items, k)[e]).len() > 0 && !is_ws(
            floats(items, k)[e][0],
        ) && !is_ws(floats(items, k)[e].last()) by {
            if e < prev.len() {
                assert(floats(items, k)[e] == prev[e]);
            } else {
                let t = trim(x);
                assert(floats(items, k)[e] == t);
                assert(t == trim_end(y));
                assert(t[0] == y[0]);
            }
        }
    }
}

proof fn lemma_join_ends(fs: Seq<Seq<char>>, sep: Seq<char>)
    requires
        fs.len() >= 1,
        forall|e: int| 0 <= e < fs.len() ==> (#[trigger] fs[e]).len() > 0,
    ensures
        join_with(fs, sep).len() > 0,
        join_with(fs, sep)[0] == fs[0][0],
        join_with(fs, sep).last() == fs.last().last(),
    decreases fs.len(),
{
    if fs.len() > 1 {
        let f1 = fs.drop_last();
        assert forall|e: int| 0 <= e < f1.len() implies (#[trigger] f1[e]).len() > 0 by {
            assert(f1[e] == fs[e]);
        }
        lemma_join_ends(f1, sep);
        assert(fs.last() == fs[fs.len() - 1]);
    }
}

/// The floating comments gathered: trimming changes nothing.
proof fn lemma_floats_join(items: Seq<Item>, k: int)
    ensures
        trim(join_with(floats(items, k), "\n\n"@)) == join_with(floats(items, k), "\n\n"@),
        floats(items, k).len() > 0 <==> trim(join_with(floats(items, k), "\n\n"@)).len() > 0,
{
    let fs = floats(items, k);
    let j = join_with(fs, "\n\n"@);
    lemma_floats_trimmed(items, k);
    if fs.len() > 0 {
        lemma_join_ends(fs, "\n\n"@);
        assert(fs.last() == fs[fs.len() - 1]);
        assert(trim_start(j) == j);
        assert(trim_end(j) == j);
    } else {
        assert(trim_start(j) == j);
        assert(trim_end(j) == j);
    }
}


/// Two cuts into runs of the same shape, `o` mapping the items `b + p` of
/// the first to the items of the second.
pub open spec fn runs_moved(rs2: Seq<Seq<usize>>, rs: Seq<Seq<usize>>, o: Seq<usize>, b: nat) -> bool {
    &&& rs2.len() == rs.len()
    &&& forall|r: int| 0 <= r < rs.len() ==> run_moved(#[trigger] rs2[r], rs[r], o, b)
}

/// One run of renumbered items and the run of items it stands for.
pub open spec fn run_moved(a2: Seq<usize>, a: Seq<usize>, o: Seq<usize>, b: nat) -> bool {
    &&& a2.len() == a.len()
    &&& a.len() > 0
    &&& forall|e: int| 0 <= e < a.len() ==> b <= (#[trigger] a2[e] as int) < b + o.len()
    &&& forall|e: int| 0 <= e < a.len() ==> #[trigger] a[e] == o[a2[e] - b]
}

/// Two neighbouring items `b + p - 1`, `b + p` fall in one mutual group
/// under `gid2` exactly when the items `o[p - 1]`, `o[p]` do under `gid`.
pub open spec fn moved_gids(o: Seq<usize>, gid: Seq<int>, gid2: Seq<int>, b: nat) -> bool {
    forall|x: int|
        b < x < b + o.len() ==> ((#[trigger] gid2[x] >= 0 && gid2[x - 1] == gid2[x]) <==> (gid[o[x - b] as int] >= 0
            && gid[o[x - b - 1] as int] == gid[o[x - b] as int]))
}

proof fn lemma_run_push(a2: Seq<usize>, a: Seq<usize>, o: Seq<usize>, b: nat, x2: usize, x1: usize)
    requires
        run_moved(a2, a, o, b),
        b <= x2 < b + o.len(),
        x1 == o[x2 - b],
    ensures
        run_moved(a2.push(x2), a.push(x1), o, b),
{
    assert forall|e: int| 0 <= e < a.push(x1).len() implies b <= a2.push(x2)[e] < b + o.len() && #[trigger] a.push(x1)[e]
        == o[a2.push(x2)[e] - b] by {
        if e < a.len() {
            assert(a.push(x1)[e] == a[e]);
            assert(a2.push(x2)[e] == a2[e]);
        }
    }
}

proof fn lemma_run_same(a2: Seq<usize>, a: Seq<usize>, n2: Seq<usize>, n1: Seq<usize>, o: Seq<usize>, b: nat)
    requires
        run_moved(a2, a, o, b),
        n2 == a2,
        n1 == a,
    ensures
        run_moved(n2, n1, o, b),
{
}

proof fn lemma_runs_moved(o: Seq<usize>, gid: Seq<int>, gid2: Seq<int>, b: nat, k: int)
    requires
        0 <= k <= o.len(),
        b + o.len() <= usize::MAX,
        moved_gids(o, gid, gid2, b),
    ensures
        runs_moved(runs(iota_at(b, k as nat), gid2), runs(o.take(k), gid), o, b),
    decreases k,
{
    if k == 0 {
        assert(iota_at(b, 0) =~= Seq::<usize>::empty());
        assert(o.take(0) =~= Seq::<usize>::empty());
    } else {
        lemma_runs_moved(o, gid, gid2, b, k - 1);
        let i2 = iota_at(b, k as nat);
        let i1 = iota_at(b, (k - 1) as nat);
        let t2 = o.take(k);
        let t1 = o.take(k - 1);
        assert(i2.drop_last() =~= i1);
        assert(t2.drop_last() =~= t1);
        assert(i2.last() == (b + k - 1) as usize);
        assert(t2.last() == o[k - 1]);
        let r2 = runs(i1, gid2);
        let r1 = runs(t1, gid);
        lemma_runs_last(i1, gid2);
        lemma_runs_last(t1, gid);
        let x2 = (b + k - 1) as usize;
        let x1 = o[k - 1];
        assert(x2 as int == b + k - 1);
        let merge2 = r2.len() > 0 && gid2[x2 as int] >= 0 && gid2[r2.last().last() as int] == gid2[x2 as int];
        let merge1 = r1.len() > 0 && gid[x1 as int] >= 0 && gid[r1.last().last() as int] == gid[x1 as int];
        if k > 1 {
            assert(i1.last() == (b + k - 2) as usize);
            assert(t1.last() == o[k - 2]);
            assert(r2.last().last() == (b + k - 2) as usize);
            assert(r1.last().last() == o[k - 2]);
            assert(gid2[b + k - 1] >= 0 && gid2[b + k - 2] == gid2[b + k - 1] <==> (gid[o[k - 1] as int] >= 0 && gid[o[k
                - 2] as int] == gid[o[k - 1] as int]));
        }
        assert(merge1 == merge2);
        let n2 = runs(i2, gid2);
        let n1 = runs(t2, gid);
        assert(runs_moved(r2, r1, o, b));
        assert(r2.len() == r1.len());
        if merge1 {
            let l = r1.len() - 1;
            assert(n2 == r2.update(l, r2.last().push(x2)));
            assert(n1 == r1.update(l, r1.last().push(x1)));
            assert forall|r: int| 0 <= r < n1.len() implies run_moved(#[trigger] n2[r], n1[r], o, b) by {
                if r == l {
                    assert(r2.last() == r2[l] && r1.last() == r1[l]);
                    assert(run_moved(r2[l], r1[l], o, b));
                    assert(n2[r] == r2[l].push(x2));
                    assert(n1[r] == r1[l].push(x1));
                    lemma_run_push(r2[l], r1[l], o, b, x2, x1);
                } else {
                    assert(run_moved(r2[r], r1[r], o, b));
                    lemma_run_same(r2[r], r1[r], n2[r], n1[r], o, b);
                }
            }
        } else {
            assert(n2 == r2.push(seq![x2]));
            assert(n1 == r1.push(seq![x1]));
            assert forall|r: int| 0 <= r < n1.len() implies run_moved(#[trigger] n2[r], n1[r], o, b) by {
                if r == r1.len() {
                    assert(n2[r] == seq![x2]);
                    assert(n1[r] == seq![x1]);
                    assert forall|e: int| 0 <= e < n1[r].len() implies b <= n2[r][e] < b + o.len() && #[trigger] n1[r][e]
                        == o[n2[r][e] - b] by {
                        assert(e == 0);
                    }
                } else {
                    assert(run_moved(r2[r], r1[r], o, b));
                    lemma_run_same(r2[r], r1[r], n2[r], n1[r], o, b);
                }
            }
        }
    }
}

proof fn lemma_emit_moved(items: Seq<Item>, gid: Seq<int>, o: Seq<usize>, items2: Seq<Item>, gid2: Seq<int>, b: nat)
    requires
        b + o.len() <= usize::MAX,
        moved_gids(o, gid, gid2, b),
        forall|x: int| b <= x < b + o.len() ==> (#[trigger] gid2[x] >= 0) == (gid[o[x - b] as int] >= 0),
        forall|x: int| b <= x < b + o.len() ==> #[trigger] block_spec(items2[x], false) == block_spec(items[o[x - b] as int], false),
    ensures
        emit_spec(items2, gid2, false, iota_at(b, o.len())) == emit_spec(items, gid, false, o),
{
    lemma_runs_moved(o, gid, gid2, b, o.len() as int);
    assert(o.take(o.len() as int) =~= o);
    let rs2 = runs(iota_at(b, o.len()), gid2);
    let rs = runs(o, gid);
    assert forall|r: int| 0 <= r < rs.len() implies segment(items2, gid2, false, #[trigger] rs2[r]) == segment(items, gid, false, rs[r]) by {
        assert(run_moved(rs2[r], rs[r], o, b));
        assert(rs[r][0] == o[rs2[r][0] - b]);
        assert(b <= rs2[r][0] < b + o.len());
        let m2 = rs2[r].map_values(|g: usize| block_spec(items2[g as int], false));
        let m1 = rs[r].map_values(|g: usize| block_spec(items[g as int], false));
        assert(m2 =~= m1) by {
            assert forall|e: int| 0 <= e < rs[r].len() implies #[trigger] m2[e] == m1[e] by {
                assert(rs[r][e] == o[rs2[r][e] - b]);
                assert(b <= rs2[r][e] < b + o.len());
            }
        }
    }
    assert(emit_spec(items2, gid2, false, iota_at(b, o.len())) =~= emit_spec(items, gid, false, o));
}


proof fn lemma_pinned_upto_facts(items: Seq<Item>, k: int)
    requires
        0 <= k <= items.len() <= usize::MAX,
    ensures
        forall|t: int| 0 <= t < pinned_upto(items, k).len() ==> #[trigger] pinned_upto(items, k)[t] < k && items[pinned_upto(
            items,
            k,
        )[t] as int].pinned,
    decreases k,
{
    if k > 0 {
        lemma_pinned_upto_facts(items, k - 1);
        let prev = pinned_upto(items, k - 1);
        assert forall|t: int| 0 <= t < pinned_upto(items, k).len() implies #[trigger] pinned_upto(items, k)[t] < k && items[pinned_upto(
            items,
            k,
        )[t] as int].pinned by {
            if t < prev.len() {
                assert(pinned_upto(items, k)[t] == prev[t]);
            }
        }
    }
}

/// No movable item among the first `k`: no floating comment either.
proof fn lemma_floats_none(items: Seq<Item>, k: int)
    requires
        0 <= k <= items.len() <= usize::MAX,
        movable_upto(items, k).len() == 0,
    ensures
        floats(items, k).len() == 0,
    decreases k,
{
    if k > 0 {
        assert(movable_upto(items, k - 1).len() <= movable_upto(items, k).len());
        lemma_floats_none(items, k - 1);
    }
}

/// The floating comments of the re-cut file: those of its first movable
/// item, `b`.
proof fn lemma_floats_front(items2: Seq<Item>, b: int, k: int)
    requires
        0 <= b < items2.len(),
        0 <= k <= items2.len(),
        forall|p: int| 0 <= p < b ==> (#[trigger] items2[p]).pinned,
        forall|p: int| b < p < items2.len() ==> (#[trigger] items2[p]).pre_floating@ == Seq::<char>::empty(),
        !items2[b].pinned,
    ensures
        k <= b ==> floats(items2, k) == Seq::<Seq<char>>::empty(),
        k > b ==> floats(items2, k) == if trim(items2[b].pre_floating@).len() > 0 {
            seq![trim(items2[b].pre_floating@)]
        } else {
            Seq::<Seq<char>>::empty()
        },
    decreases k,
{
    if k > 0 {
        lemma_floats_front(items2, b, k - 1);
        if k - 1 < b {
            assert(items2[k - 1].pinned);
            assert(floats(items2, k) =~= floats(items2, k - 1));
        } else if k - 1 > b {
            assert(items2[k - 1].pre_floating@ == Seq::<char>::empty());
            assert(trim_start(Seq::<char>::empty()) == Seq::<char>::empty());
            assert(trim(Seq::<char>::empty()).len() == 0);
            assert(floats(items2, k) =~= floats(items2, k - 1));
        } else {
            assert(floats(items2, k - 1) =~= Seq::<Seq<char>>::empty());
            assert(floats(items2, k) =~= if trim(items2[b].pre_floating@).len() > 0 {
                seq![trim(items2[b].pre_floating@)]
            } else {
                Seq::<Seq<char>>::empty()
            });
        }
    } else {
        assert(floats(items2, 0) =~= Seq::<Seq<char>>::empty());
    }
}

/// `fm2` is the file that `reorder` wrote, cut again (whole-file mode):
/// the pinned items first, as they were; then the movable items in the new
/// order, each with its kind, names, attached comments and body, and its
/// dependencies renumbered alike. The floating comments, gathered, stand
/// above the first movable item, or, when no pinned item comes first,
/// close the preamble. The file's first item has no comment above it but
/// the preamble (what the cut makes of any text there); the preamble and
/// postamble read the same once trimmed; no region.
pub open spec fn settled_model(fm: FileModel, out: Outcome, fm2: FileModel) -> bool {
    let items = fm.items@;
    let mv = movable(items);
    let a = out.plan.after@;
    let r = a.len() as int;
    let pins = pinned_upto(items, items.len() as int);
    let b = pins.len() as int;
    let items2 = fm2.items@;
    &&& trim_end(fm2.preamble@) == if b == 0 && floats(items, items.len() as int).len() > 0 {
        (if is_blank(trim_end(fm.preamble@)) {
            Seq::<char>::empty()
        } else {
            trim_end(fm.preamble@) + "\n\n"@
        }) + join_with(floats(items, items.len() as int), "\n\n"@)
    } else {
        trim_end(fm.preamble@)
    }
    &&& trim(fm2.postamble@) == trim(fm.postamble@)
    &&& fm2.regions.len() == 0
    &&& items2.len() == b + r
    &&& items2.len() > 0 ==> items2[0].lead@ == Seq::<char>::empty() && items2[0].pre_floating@ == Seq::<char>::empty()
    &&& forall|t: int| 0 <= t < b ==> #[trigger] items2[t] == items[pins[t] as int]
    &&& forall|x: int|
        b <= x < b + r ==> {
            let it = #[trigger] items2[x];
            let src = items[mv[a[x - b] as int] as int];
            &&& !it.pinned
            &&& opt_view(it.name) == opt_view(src.name)
            &&& it.display@ == src.display@
            &&& it.lead@ == src.lead@
            &&& it.body@ == src.body@
            &&& it.pre_floating@ == if x == b && b > 0 {
                join_with(floats(items, items.len() as int), "\n\n"@)
            } else {
                Seq::<char>::empty()
            }
            &&& forall|q: usize|
                #[trigger] it.deps@.contains(q) <==> (b <= q < b + r && out.plan.deps@[a[x - b] as int]@.contains(
                    a[q - b],
                ))
        }
}


/// A member lies in a group exactly when its group id is set.
proof fn lemma_gid_in_group(groups: Seq<Seq<usize>>, gid: Seq<int>, n: int, x: int)
    requires
        gid_spec(groups, gid, n),
        0 <= x < n,
    ensures
        gid[x] >= 0 <==> exists|k: int| 0 <= k < groups.len() && #[trigger] groups[k].contains(x as usize),
{
    assert(gid[x] >= -1);
    if gid[x] >= 0 {
        assert(groups[gid[x]].contains(x as usize));
    }
}

/// The group ids of the re-cut file follow those of the first cut.
#[verifier::rlimit(50)]
#[verifier::spinoff_prover]
proof fn lemma_gids_moved(
    mv: Seq<usize>,
    dg: Seq<Vec<usize>>,
    names: Seq<Seq<char>>,
    global: OrderOpts,
    o: Seq<usize>,
    g: Seq<Vec<usize>>,
    gid: Seq<int>,
    dg2: Seq<Vec<usize>>,
    names2: Seq<Seq<char>>,
    g2: Seq<Vec<usize>>,
    gid2: Seq<int>,
    b: nat,
)
    requires
        order_spec(mv, dg, names, global, o, g),
        order_spec(iota_at(b, o.len()), dg2, names2, global, iota_at(b, o.len()), g2),
        forall|i: int| 0 <= i < mv.len() ==> #[trigger] mv[i] < dg.len(),
        setting(mv, dg, o, dg2, b),
        gid_spec(vviews(g), gid, dg.len() as int),
        gid_spec(vviews(g2), gid2, dg2.len() as int),
    ensures
        moved_gids(o, gid, gid2, b),
        forall|x: int| b <= x < b + o.len() ==> (#[trigger] gid2[x] >= 0) == (gid[o[x - b] as int] >= 0),
{
    let r = o.len();
    let io = iota_at(b, r);
    let m = scope_mask(mv, dg.len());
    let m2 = scope_mask(io, dg2.len());
    assert forall|p: int| 0 <= p < r implies #[trigger] io.contains((b + p) as usize) && mv.contains(o[p]) by {
        assert(io[p] == (b + p) as usize);
        assert(o.contains(o[p]));
    }
    assert forall|i: int| 0 <= i < io.len() implies #[trigger] io[i] < dg2.len() by {}
    assert forall|x: int| b < x < b + o.len() implies ((#[trigger] gid2[x] >= 0 && gid2[x - 1] == gid2[x]) <==> (
    gid[o[x - b] as int] >= 0 && gid[o[x - b - 1] as int] == gid[o[x - b] as int])) by {
        let p = x - b;
        let q = p - 1;
        assert(io.contains((b + p) as usize) && io.contains((b + q) as usize));
        assert(mv.contains(o[p]) && mv.contains(o[q]));
        assert(o[p] != o[q]);
        lemma_same_gid(io, dg2, names2, global, io, g2, gid2, (b + p) as usize, (b + q) as usize);
        lemma_same_gid(mv, dg, names, global, o, g, gid, o[p], o[q]);
        lemma_mutual_moved(mv, dg, o, dg2, b, p, q);
        assert(((b + p) as usize) as int == b + p && ((b + q) as usize) as int == b + q);
    }
    assert(moved_gids(o, gid, gid2, b));
    lemma_groups_are_cycles(mv, dg, names, global, o, g);
    lemma_groups_are_cycles(io, dg2, names2, global, io, g2);
    assert forall|xx: int| b <= xx < b + r implies (#[trigger] gid2[xx] >= 0) == (gid[o[xx - b] as int] >= 0) by {
        let p = xx - b;
        assert(io[p] == (b + p) as usize);
        assert(io.contains((b + p) as usize));
        assert(o.contains(o[p]));
        assert(mv.contains(o[p]));
        lemma_gid_in_group(vviews(g2), gid2, dg2.len() as int, xx);
        let x = o[p];
        assert(x < dg.len()) by {
            let k = choose|k: int| 0 <= k < mv.len() && mv[k] == x;
        }
        lemma_gid_in_group(vviews(g), gid, dg.len() as int, x as int);
        assert((exists|k: int| 0 <= k < g2.len() && #[trigger] g2[k]@.contains(xx as usize)) == (exists|k: int|
            0 <= k < vviews(g2).len() && #[trigger] vviews(g2)[k].contains(xx as usize))) by {
            if exists|k: int| 0 <= k < g2.len() && #[trigger] g2[k]@.contains(xx as usize) {
                let k = choose|k: int| 0 <= k < g2.len() && #[trigger] g2[k]@.contains(xx as usize);
                assert(vviews(g2)[k] == g2[k]@);
            }
            if exists|k: int| 0 <= k < vviews(g2).len() && #[trigger] vviews(g2)[k].contains(xx as usize) {
                let k = choose|k: int| 0 <= k < vviews(g2).len() && #[trigger] vviews(g2)[k].contains(xx as usize);
                assert(vviews(g2)[k] == g2[k]@);
            }
        }
        assert((exists|k: int| 0 <= k < g.len() && #[trigger] g[k]@.contains(x)) == (exists|k: int|
            0 <= k < vviews(g).len() && #[trigger] vviews(g)[k].contains(x))) by {
            if exists|k: int| 0 <= k < g.len() && #[trigger] g[k]@.contains(x) {
                let k = choose|k: int| 0 <= k < g.len() && #[trigger] g[k]@.contains(x);
                assert(vviews(g)[k] == g[k]@);
            }
            if exists|k: int| 0 <= k < vviews(g).len() && #[trigger] vviews(g)[k].contains(x) {
                let k = choose|k: int| 0 <= k < vviews(g).len() && #[trigger] vviews(g)[k].contains(x);
                assert(vviews(g)[k] == g[k]@);
            }
        }
        // sharing a cycle with another member, in either numbering
        if exists|y: int| y != xx && #[trigger] mutual(m2, dg2, xx, y) {
            let y = choose|y: int| y != xx && #[trigger] mutual(m2, dg2, xx, y);
            crate::graph::lemma_reaches_members(m2, dg2, xx, y);
            assert(io.contains(y as usize));
            let yi = choose|i: int| 0 <= i < io.len() && io[i] == y as usize;
            assert(io[yi] == (b + yi) as usize);
            assert(y == b + yi);
            lemma_mutual_moved(mv, dg, o, dg2, b, p, yi);
            assert(o[yi] != x);
            assert(mutual(m, dg, x as int, o[yi] as int));
        }
        if exists|y: int| y != x as int && #[trigger] mutual(m, dg, x as int, y) {
            let y = choose|y: int| y != x as int && #[trigger] mutual(m, dg, x as int, y);
            crate::graph::lemma_reaches_members(m, dg, x as int, y);
            assert(mv.contains(y as usize));
            assert(o.contains(y as usize));
            let q = choose|q: int| 0 <= q < o.len() && o[q] == y as usize;
            lemma_mutual_moved(mv, dg, o, dg2, b, p, q);
            assert(mutual(m2, dg2, xx, b + q));
        }
    }
}


/// Dropping the empty segments of a concatenation drops them from each part.
proof fn lemma_nonempty_concat(a: Seq<Seq<char>>, b: Seq<Seq<char>>)
    ensures
        nonempty(a + b) == nonempty(a) + nonempty(b),
    decreases b.len(),
{
    if b.len() == 0 {
        assert(a + b =~= a);
        assert(nonempty(a) + nonempty(b) =~= nonempty(a));
    } else {
        lemma_nonempty_concat(a, b.drop_last());
        assert((a + b).drop_last() =~= a + b.drop_last());
        assert((a + b).last() == b.last());
    }
}

/// Two leading parts joined by `sep` read the same as the one part they
/// make joined.
proof fn lemma_join_merge(p: Seq<char>, f: Seq<char>, y: Seq<Seq<char>>, sep: Seq<char>)
    ensures
        join_with(seq![p, f] + y, sep) == join_with(seq![p + sep + f] + y, sep),
    decreases y.len(),
{
    if y.len() == 0 {
        assert(seq![p, f] + y =~= seq![p, f]);
        assert(seq![p + sep + f] + y =~= seq![p + sep + f]);
        assert(seq![p, f].drop_last() =~= seq![p]);
        assert(join_with(seq![p], sep) == p);
        assert(join_with(seq![p, f], sep) == join_with(seq![p], sep) + sep + f);
        assert(join_with(seq![p + sep + f], sep) == p + sep + f);
    } else {
        lemma_join_merge(p, f, y.drop_last(), sep);
        assert(seq![p, f] + y =~= (seq![p, f] + y.drop_last()).push(y.last()));
        assert(seq![p + sep + f] + y =~= (seq![p + sep + f] + y.drop_last()).push(y.last()));
        lemma_join_push(seq![p, f] + y.drop_last(), y.last(), sep);
        lemma_join_push(seq![p + sep + f] + y.drop_last(), y.last(), sep);
    }
}

/// The re-cut file's layout and its renumbering: the pinned items are
/// `0..b`, the movable ones `b..b + r`, and these are the plan's items
/// renumbered in the new order from `b` on.
proof fn lemma_settled_layout(fm: FileModel, global: OrderOpts, out: Outcome, fm2: FileModel, dg2: Seq<Vec<usize>>)
    requires
        model_wf(fm),
        fm.items.len() <= usize::MAX,
        fm.regions.len() == 0,
        outcome_spec(fm, global, out),
        settled_model(fm, out, fm2),
        fm2.items.len() <= usize::MAX,
        deps_match(dg2, fm2.items@),
    ensures
        ({
            let items = fm.items@;
            let pins = pinned_upto(items, items.len() as int);
            let b = pins.len();
            let r = out.plan.after.len() as nat;
            let items2 = fm2.items@;
            let (orders, gs, gid, dg) = choose|orders: Seq<Seq<usize>>, gs: Seq<Seq<Vec<usize>>>, gid: Seq<int>, dg: Seq<Vec<usize>>|
                #[trigger] outcome_parts(fm, global, out, orders, gs, gid, dg);
            let o = orders[0];
            &&& movable(items2) == iota_at(b, r)
            &&& pinned_upto(items2, items2.len() as int) == iota(b)
            &&& forall|t: int| 0 <= t < b ==> (#[trigger] items2[t]).pinned
            &&& outcome_parts(fm, global, out, orders, gs, gid, dg)
            &&& o.len() == r
            &&& setting(movable(items), dg, o, dg2, b)
            &&& forall|x: int| b <= x < b + r ==> #[trigger] names_view(items2)[x] == names_view(items)[o[x - b] as int]
            &&& forall|x: int| b <= x < b + r ==> #[trigger] block_spec(items2[x], false) == block_spec(items[o[x - b] as int], false)
            &&& forall|i: int| 0 <= i < movable(items).len() ==> #[trigger] movable(items)[i] < dg.len() && movable(items)[i] < names_view(items).len()
            &&& dg.len() <= usize::MAX
            &&& movable(items).len() <= usize::MAX
        }),
{
    let items = fm.items@;
    let n = items.len();
    let mv = movable(items);
    let plan = out.plan;
    let a = plan.after@;
    let r = a.len() as int;
    let items2 = fm2.items@;
    let n2 = items2.len();
    let pins = pinned_upto(items, n as int);
    let b = pins.len() as int;
    let names2 = names_view(items2);
    lemma_pinned_upto_facts(items, n as int);
    assert forall|t: int| 0 <= t < b implies (#[trigger] items2[t]).pinned by {
        assert(items2[t] == items[pins[t] as int]);
    }
    assert forall|p: int| b <= p < n2 implies !(#[trigger] items2[p]).pinned by {}
    lemma_back_layout(items2, b, n2 as int);
    let (orders, gs, gid, dg) = choose|orders: Seq<Seq<usize>>, gs: Seq<Seq<Vec<usize>>>, gid: Seq<int>, dg: Seq<Vec<usize>>|
        #[trigger] outcome_parts(fm, global, out, orders, gs, gid, dg);
    let o = orders[0];
    law_after_permutes(fm, global, out);
    assert forall|p: int| 0 <= p < r implies #[trigger] a[p] < mv.len() by {
        assert(a.contains(a[p]));
    }
    assert forall|x: int, q: usize| b <= x < b + r implies (#[trigger] dg2[x]@.contains(q) <==> b <= q < b + r
        && plan.deps@[a[x - b] as int]@.contains(a[q - b])) by {
        assert(dg2[x]@ == items2[x].deps@);
    }
    assert forall|x: int| b <= x < b + r implies #[trigger] names2[x] == node_name(plan.nodes@[a[x - b] as int]) by {
        let c = a[x - b] as int;
        assert(plan.nodes@[c].display@ == items[mv[c] as int].display@);
        assert(opt_view(plan.nodes@[c].name) == opt_view(items[mv[c] as int].name));
        assert(opt_view(items2[x].name) == opt_view(items[mv[c] as int].name));
        assert(items2[x].display@ == items[mv[c] as int].display@);
    }
    lemma_plan_renumbered(fm, global, out, dg2, names2, b as nat);
    assert(setting(mv, dg, o, dg2, b as nat));
    assert forall|x: int| b <= x < b + r implies #[trigger] block_spec(items2[x], false) == block_spec(items[o[x - b] as int], false) by {
        assert(mv[a[x - b] as int] == o[x - b]);
    }
}

/// The text in front of the ordered items, and the postamble, read the
/// same in the re-cut file.
#[verifier::rlimit(40)]
#[verifier::spinoff_prover]
proof fn lemma_recut_front(fm: FileModel, global: OrderOpts, out: Outcome, fm2: FileModel, e: Seq<Seq<char>>)
    requires
        model_wf(fm),
        fm.items.len() <= usize::MAX,
        fm.regions.len() == 0,
        outcome_spec(fm, global, out),
        settled_model(fm, out, fm2),
        fm2.items.len() <= usize::MAX,
    ensures
        join_spec(opt_seg(trim_end(fm2.preamble@)) + pinned_blocks(fm2.items@, fm2.items.len() as int) + opt_seg(
            join_with(floats(fm2.items@, fm2.items.len() as int), "\n\n"@),
        ) + e + opt_seg(trim(fm2.postamble@))) == join_spec(opt_seg(trim_end(fm.preamble@)) + pinned_blocks(
            fm.items@,
            fm.items.len() as int,
        ) + opt_seg(join_with(floats(fm.items@, fm.items.len() as int), "\n\n"@)) + e + opt_seg(trim(fm.postamble@))),
{
    let items = fm.items@;
    let n = items.len();
    let mv = movable(items);
    let a = out.plan.after@;
    let r = a.len() as int;
    let items2 = fm2.items@;
    let n2 = items2.len();
    let pins = pinned_upto(items, n as int);
    let b = pins.len() as int;
    lemma_pinned_upto_facts(items, n as int);
    assert forall|t: int| 0 <= t < b implies (#[trigger] items2[t]).pinned by {
        assert(items2[t] == items[pins[t] as int]);
    }
    assert forall|p: int| b <= p < n2 implies !(#[trigger] items2[p]).pinned by {}
    lemma_back_layout(items2, b, n2 as int);
    law_after_permutes(fm, global, out);
    let (orders, gs, gid, dg) = choose|orders: Seq<Seq<usize>>, gs: Seq<Seq<Vec<usize>>>, gid: Seq<int>, dg: Seq<Vec<usize>>|
        #[trigger] outcome_parts(fm, global, out, orders, gs, gid, dg);
    assert(out.plan.before.len() == mv.len());
    // the pinned items read the same
    lemma_pinned_upto_facts(items, n as int);
    lemma_pinned_blocks_map(items, n as int);
    lemma_pinned_blocks_map(items2, n2 as int);
    assert(pinned_blocks(items2, n2 as int) =~= pinned_blocks(items, n as int)) by {
        assert forall|t: int| 0 <= t < b implies #[trigger] pinned_upto(items2, n2 as int)[t] as int == t by {}
    }
    // the preamble and the floating comments read the same
    let fl = floats(items, n as int);
    let j = join_with(fl, "\n\n"@);
    let pre = trim_end(fm.preamble@);
    let pb = pinned_blocks(items, n as int);
    let post = opt_seg(trim(fm.postamble@));
    let rest = e + post;
    lemma_floats_join(items, n as int);
    lemma_movable_facts(items, n as int);
    if b == 0 && fl.len() > 0 {
        assert(r > 0) by {
            if r == 0 {
                lemma_floats_none(items, n as int);
            }
        }
        lemma_floats_front(items2, 0, n2 as int);
        assert(items2[0].pre_floating@ == Seq::<char>::empty());
        assert(trim_start(Seq::<char>::empty()) == Seq::<char>::empty());
        assert(floats(items2, n2 as int) =~= Seq::<Seq<char>>::empty());
        assert(join_with(floats(items2, n2 as int), "\n\n"@) =~= Seq::<char>::empty());
        assert(opt_seg(Seq::<char>::empty()) =~= Seq::<Seq<char>>::empty());
        lemma_floats_trimmed(items, n as int);
        lemma_join_ends(fl, "\n\n"@);
        assert(!is_blank(j)) by {
            assert(!is_ws(j[0]));
        }
        assert(pins.len() == 0);
        assert(pb =~= Seq::<Seq<char>>::empty());
        assert(pinned_blocks(items2, n2 as int) =~= Seq::<Seq<char>>::empty());
        let q = (if is_blank(pre) { Seq::<char>::empty() } else { pre + "\n\n"@ }) + j;
        assert(trim_end(fm2.preamble@) == q);
        assert(!is_blank(q)) by {
            assert(q[q.len() - j.len()] == j[0]);
        }
        assert(opt_seg(j) == seq![j]);
        assert(opt_seg(q) == seq![q]);
        if is_blank(pre) {
            assert(q =~= j);
            assert(opt_seg(pre) =~= Seq::<Seq<char>>::empty());
            assert(opt_seg(pre) + pb + opt_seg(j) + e + post =~= seq![j] + rest);
            assert(opt_seg(q) + pinned_blocks(items2, n2 as int) + opt_seg(join_with(floats(items2, n2 as int), "\n\n"@)) + e
                + post =~= seq![q] + rest);
        } else {
            assert(pre.len() > 0);
            assert(opt_seg(pre) == seq![pre]);
            assert(opt_seg(pre) + pb + opt_seg(j) + e + post =~= seq![pre, j] + rest);
            assert(opt_seg(q) + pinned_blocks(items2, n2 as int) + opt_seg(join_with(floats(items2, n2 as int), "\n\n"@)) + e
                + post =~= seq![q] + rest);
            lemma_nonempty_concat(seq![pre, j], rest);
            lemma_nonempty_concat(seq![q], rest);
            assert(j.len() > 0 && q.len() > 0);
            assert(nonempty(Seq::<Seq<char>>::empty()) == Seq::<Seq<char>>::empty());
            assert(seq![pre].drop_last() =~= Seq::<Seq<char>>::empty());
            assert(nonempty(seq![pre]) == nonempty(seq![pre].drop_last()) + seq![pre]);
            assert(nonempty(seq![pre]) =~= seq![pre]);
            assert(seq![pre, j].drop_last() =~= seq![pre]);
            assert(nonempty(seq![pre, j]) == nonempty(seq![pre, j].drop_last()) + seq![j]);
            assert(nonempty(seq![pre, j]) =~= seq![pre, j]);
            assert(seq![q].drop_last() =~= Seq::<Seq<char>>::empty());
            assert(nonempty(seq![q]) == nonempty(seq![q].drop_last()) + seq![q]);
            assert(nonempty(seq![q]) =~= seq![q]);
            lemma_join_merge(pre, j, nonempty(rest), "\n\n"@);
            assert(seq![pre + "\n\n"@ + j] == seq![q]);
        }
    } else {
        assert(trim_end(fm2.preamble@) == pre);
        if r == 0 {
            lemma_floats_none(items, n as int);
            lemma_floats_none(items2, n2 as int);
        } else {
            lemma_floats_front(items2, b, n2 as int);
            if b > 0 {
                assert(items2[b].pre_floating@ == j);
            } else {
                assert(items2[b].pre_floating@ == Seq::<char>::empty());
                assert(j == Seq::<char>::empty());
            }
            if fl.len() == 0 {
                assert(j == Seq::<char>::empty());
            }
        }
        assert(opt_seg(join_with(floats(items2, n2 as int), "\n\n"@)) == opt_seg(j));
    }
}

/// Reordering is idempotent (whole-file mode): when the text that
/// `reorder` wrote, cut again, is a model `fm2` as `settled_model`
/// describes it, reordering `fm2` gives back the same text.
#[verifier::rlimit(40)]
#[verifier::spinoff_prover]
pub proof fn law_reorder_idempotent(fm: FileModel, global: OrderOpts, out: Outcome, fm2: FileModel, out2: Outcome)
    requires
        model_wf(fm),
        fm.items.len() <= usize::MAX,
        fm.regions.len() == 0,
        outcome_spec(fm, global, out),
        settled_model(fm, out, fm2),
        model_wf(fm2),
        fm2.items.len() <= usize::MAX,
        outcome_spec(fm2, global, out2),
    ensures
        out2.new_src@ == out.new_src@,
{
    let items = fm.items@;
    let n = items.len();
    let mv = movable(items);
    let a = out.plan.after@;
    let r = a.len() as int;
    let items2 = fm2.items@;
    let n2 = items2.len();
    let pins = pinned_upto(items, n as int);
    let b = pins.len() as int;
    let (orders2, gs2, gid2, dg2) = choose|orders: Seq<Seq<usize>>, gs: Seq<Seq<Vec<usize>>>, gid: Seq<int>, dg: Seq<Vec<usize>>|
        #[trigger] outcome_parts(fm2, global, out2, orders, gs, gid, dg);
    let names2 = names_view(items2);
    lemma_settled_layout(fm, global, out, fm2, dg2);
    let (orders, gs, gid, dg) = choose|orders: Seq<Seq<usize>>, gs: Seq<Seq<Vec<usize>>>, gid: Seq<int>, dg: Seq<Vec<usize>>|
        #[trigger] outcome_parts(fm, global, out, orders, gs, gid, dg);
    let o = orders[0];
    // the order of the re-cut file is `b..b + r`
    lemma_order_settles(mv, dg, names_view(items), global, o, gs[0], dg2, names2, b as nat, orders2[0], gs2[0]);
    assert(orders2[0] == iota_at(b as nat, r as nat));
    // the mutual groups correspond
    lemma_gids_moved(mv, dg, names_view(items), global, o, gs[0], gid, dg2, names2, gs2[0], gid2, b as nat);
    // the ordered items read the same
    lemma_emit_moved(items, gid, o, items2, gid2, b as nat);
    lemma_recut_front(fm, global, out, fm2, emit_spec(items, gid, false, o));
    assert(whole_text(fm2, orders2[0], gid2) == whole_text(fm, o, gid));
}

/// Reordering leaves nothing for `check` to report (whole-file mode): in a
/// model `fm2` of the text that `reorder` wrote, cut again, as
/// `settled_model` describes it, every dependency of an item is declared
/// before it unless the two lie on a common cycle; so `check_model` on it
/// lists no violation.
#[verifier::rlimit(80)]
#[verifier::spinoff_prover]
pub proof fn law_reorder_passes_check(fm: FileModel, global: OrderOpts, out: Outcome, fm2: FileModel, dg2: Seq<Vec<usize>>)
    requires
        model_wf(fm),
        fm.items.len() <= usize::MAX,
        fm.regions.len() == 0,
        outcome_spec(fm, global, out),
        settled_model(fm, out, fm2),
        fm2.items.len() <= usize::MAX,
        deps_match(dg2, fm2.items@),
    ensures
        declared_first(fm2.items@, dg2),
{
    let items = fm.items@;
    let n = items.len();
    let mv = movable(items);
    let plan = out.plan;
    let a = plan.after@;
    let r = a.len() as int;
    let items2 = fm2.items@;
    let n2 = items2.len();
    let pins = pinned_upto(items, n as int);
    let b = pins.len() as int;
    lemma_settled_layout(fm, global, out, fm2, dg2);
    let (orders, gs, gid, dg) = choose|orders: Seq<Seq<usize>>, gs: Seq<Seq<Vec<usize>>>, gid: Seq<int>, dg: Seq<Vec<usize>>|
        #[trigger] outcome_parts(fm, global, out, orders, gs, gid, dg);
    let o = orders[0];
    law_plan_deps_in_range(fm, global, out);
    law_after_permutes(fm, global, out);
    assert(order_spec(mv, dg, names_view(items), global, o, gs[0]));
    assert forall|u: int, k: int|
        0 <= u < n2 && !items2[u].pinned && 0 <= k < items2[u].deps.len() implies !late_dep(
        items2,
        dg2,
        u,
        #[trigger] items2[u].deps@[k] as int,
    ) by {
        let t = items2[u].deps@[k];
        assert(u >= b);
        assert(dg2[u]@ == items2[u].deps@);
        assert(dg2[u]@.contains(t));
        assert(items2[u].deps@.contains(t));
        assert(b <= t < b + r);
        if t as int >= u {
            assert(a.contains(a[u - b]));
            let c = a[u - b] as int;
            assert(t as int != u) by {
                if t as int == u {
                    assert(plan.deps@[c]@.contains(a[u - b]));
                    let e = choose|e: int| 0 <= e < plan.deps@[c]@.len() && plan.deps@[c]@[e] == a[u - b];
                    assert(plan.deps@[c]@[e] != c);
                }
            }
            lemma_forward_dep_mutual(mv, dg, names_view(items), global, o, gs[0], dg2, b as nat, u, t as int);
        }
    }
}

/// A dependency of a renumbered item that comes after it shares a cycle
/// with it.
proof fn lemma_forward_dep_mutual(
    mv: Seq<usize>,
    dg: Seq<Vec<usize>>,
    names: Seq<Seq<char>>,
    global: OrderOpts,
    o: Seq<usize>,
    g: Seq<Vec<usize>>,
    dg2: Seq<Vec<usize>>,
    b: nat,
    u: int,
    t: int,
)
    requires
        order_spec(mv, dg, names, global, o, g),
        setting(mv, dg, o, dg2, b),
        b <= u < t <= usize::MAX,
        t < b + o.len(),
        dg2[u]@.contains(t as usize),
    ensures
        mutual(scope_mask(iota_at(b, o.len()), dg2.len()), dg2, u, t),
{
    let m = scope_mask(mv, dg.len());
    assert(((t as usize) as int) == t);
    assert(dg[o[u - b] as int]@.contains(o[(t as usize) - b]));
    assert(dg[o[u - b] as int]@.contains(o[t - b]));
    assert(o.contains(o[u - b]) && o.contains(o[t - b]));
    assert(mv.contains(o[u - b]) && mv.contains(o[t - b]));
    let iu = choose|i: int| 0 <= i < mv.len() && mv[i] == o[u - b];
    let it = choose|i: int| 0 <= i < mv.len() && mv[i] == o[t - b];
    assert(o[u - b] < dg.len() && o[t - b] < dg.len());
    assert(edge(m, dg, o[u - b] as int, o[t - b] as int));
    assert(mutual(m, dg, o[u - b] as int, o[t - b] as int));
    lemma_mutual_moved(mv, dg, o, dg2, b, u - b, t - b);
}

} // verus!
