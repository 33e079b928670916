//! The mutual groups in scoped mode: within each `// TO REORDER` region,
//! two items share a group exactly when they lie on a common cycle of the
//! region's part of the plan's dependency graph.

use vstd::prelude::*;

use crate::analyze::{model_wf, regions_clear, FileModel, Region};
use crate::graph::{mutual, scope_mask};
use crate::laws::{lemma_compact_inverse, lemma_compact_order, same_group};
use crate::order::{lemma_group_iff_mutual, lemma_groups_disjoint, order_spec, OrderOpts};
use crate::settle::{iota_at, lemma_mutual_moved, renumbered_deps, setting};
use crate::{
    compact, concat_groups, gid_spec, lemma_groups_facts, lemma_movable_facts, lemma_regions_apart, movable,
    movable_upto, names_view, outcome_parts, outcome_spec, region_members, region_opts, vviews, Outcome, Plan,
};

verus! {

/// The first plan item of region `k`.
pub open spec fn region_lo(fm: FileModel, k: int) -> int {
    compact(fm.items@, fm.regions@[k].first as int)
}

/// One past the last plan item of region `k`.
pub open spec fn region_hi(fm: FileModel, k: int) -> int {
    compact(fm.items@, fm.regions@[k].last_excl as int)
}

/// The plan items of region `k`, as the members of its part of the graph.
pub open spec fn region_mask(fm: FileModel, p: Plan, k: int) -> Seq<bool> {
    scope_mask(iota_at(region_lo(fm, k) as nat, (region_hi(fm, k) - region_lo(fm, k)) as nat), p.deps.len() as nat)
}

proof fn lemma_region_members(r: Region, z: usize)
    requires
        r.first <= r.last_excl,
    ensures
        region_members(r).contains(z) <==> r.first <= z < r.last_excl,
{
    let s = region_members(r);
    if s.contains(z) {
        let k = choose|k: int| 0 <= k < s.len() && s[k] == z;
        assert(s[k] == (r.first + k) as usize);
    }
    if r.first <= z < r.last_excl {
        assert(s[z - r.first] == z);
    }
}

/// Unpinned items in a row have consecutive positions among the movable
/// items.
proof fn lemma_compact_run(items: Seq<crate::model::Item>, first: int, x: int)
    requires
        0 <= first,
        0 <= x,
        first + x <= items.len(),
        forall|i: int| first <= i < first + x ==> !(#[trigger] items[i]).pinned,
    ensures
        compact(items, first + x) == compact(items, first) + x,
    decreases x,
{
    if x > 0 {
        lemma_compact_run(items, first, x - 1);
        assert(!items[first + x - 1].pinned);
        assert(movable_upto(items, first + x) == movable_upto(items, first + x - 1) + seq![(first + x - 1) as usize]);
    }
}

/// Every group in the first `k` regions' list is a group of one region.
proof fn lemma_concat_index(gs: Seq<Seq<Vec<usize>>>, k: int, g: int)
    requires
        0 <= k <= gs.len(),
        0 <= g < concat_groups(gs, k).len(),
    ensures
        exists|kk: int, j: int| 0 <= kk < k && 0 <= j < gs[kk].len() && concat_groups(gs, k)[g] == #[trigger] gs[kk][j]@,
    decreases k,
{
    let pre = concat_groups(gs, k - 1);
    if g < pre.len() {
        lemma_concat_index(gs, k - 1, g);
        let (kk, j) = choose|kk: int, j: int| 0 <= kk < k - 1 && 0 <= j < gs[kk].len() && pre[g] == #[trigger] gs[kk][j]@;
        assert(concat_groups(gs, k)[g] == gs[kk][j]@);
    } else {
        let j = g - pre.len();
        assert(concat_groups(gs, k)[g] == vviews(gs[k - 1])[j]);
        assert(vviews(gs[k - 1])[j] == gs[k - 1][j]@);
    }
}

/// Every group of the first `k` regions stands in their list.
proof fn lemma_concat_has(gs: Seq<Seq<Vec<usize>>>, k: int, kk: int, j: int)
    requires
        0 <= kk < k <= gs.len(),
        0 <= j < gs[kk].len(),
    ensures
        exists|g: int| 0 <= g < concat_groups(gs, k).len() && #[trigger] concat_groups(gs, k)[g] == gs[kk][j]@,
    decreases k,
{
    let pre = concat_groups(gs, k - 1);
    if kk == k - 1 {
        let g = pre.len() + j;
        assert(concat_groups(gs, k)[g] == vviews(gs[k - 1])[j]);
    } else {
        lemma_concat_has(gs, k - 1, kk, j);
        let g = choose|g: int| 0 <= g < pre.len() && #[trigger] pre[g] == gs[kk][j]@;
        assert(concat_groups(gs, k)[g] == pre[g]);
    }
}

/// The facts of a scoped outcome that the group law reads.
pub open spec fn scoped_parts(fm: FileModel, global: OrderOpts, orders: Seq<Seq<usize>>, gs: Seq<Seq<Vec<usize>>>, dg: Seq<Vec<usize>>) -> bool {
    &&& model_wf(fm)
    &&& dg.len() == fm.items.len()
    &&& orders.len() == fm.regions.len()
    &&& gs.len() == fm.regions.len()
    &&& forall|k: int|
        0 <= k < fm.regions.len() ==> order_spec(
            region_members(fm.regions@[k]),
            dg,
            names_view(fm.items@),
            region_opts(fm.regions@[k], global),
            #[trigger] orders[k],
            gs[k],
        )
}

/// A group of region `k` holds members of region `k` only.
proof fn lemma_group_in_region(fm: FileModel, global: OrderOpts, orders: Seq<Seq<usize>>, gs: Seq<Seq<Vec<usize>>>, dg: Seq<Vec<usize>>, k: int, j: int, z: usize)
    requires
        scoped_parts(fm, global, orders, gs, dg),
        0 <= k < fm.regions.len(),
        0 <= j < gs[k].len(),
        gs[k][j]@.contains(z),
    ensures
        fm.regions@[k].first <= z < fm.regions@[k].last_excl,
{
    let r = fm.regions@[k];
    assert(order_spec(region_members(r), dg, names_view(fm.items@), region_opts(r, global), orders[k], gs[k]));
    lemma_groups_facts(region_members(r), dg, names_view(fm.items@), region_opts(r, global), orders[k], gs[k]);
    let e = choose|e: int| 0 <= e < gs[k][j].len() && gs[k][j]@[e] == z;
    assert(region_members(r).contains(gs[k][j]@[e]));
    lemma_region_members(r, z);
}

/// Different groups in the list of the first `k` regions share no item.
proof fn lemma_concat_disjoint(
    fm: FileModel,
    global: OrderOpts,
    orders: Seq<Seq<usize>>,
    gs: Seq<Seq<Vec<usize>>>,
    dg: Seq<Vec<usize>>,
    k: int,
    g1: int,
    g2: int,
    z: usize,
)
    requires
        scoped_parts(fm, global, orders, gs, dg),
        0 <= k <= fm.regions.len(),
        0 <= g1 < g2 < concat_groups(gs, k).len(),
        concat_groups(gs, k)[g1].contains(z),
    ensures
        !concat_groups(gs, k)[g2].contains(z),
    decreases k,
{
    let pre = concat_groups(gs, k - 1);
    let cg = concat_groups(gs, k);
    if g2 < pre.len() {
        assert(cg[g1] == pre[g1] && cg[g2] == pre[g2]);
        lemma_concat_disjoint(fm, global, orders, gs, dg, k - 1, g1, g2, z);
    } else if g1 >= pre.len() {
        let r = fm.regions@[k - 1];
        let j1 = g1 - pre.len();
        let j2 = g2 - pre.len();
        assert(cg[g1] == gs[k - 1][j1]@);
        assert(cg[g2] == gs[k - 1][j2]@);
        assert(order_spec(region_members(r), dg, names_view(fm.items@), region_opts(r, global), orders[k - 1], gs[k - 1]));
        assert forall|i: int| 0 <= i < region_members(r).len() implies #[trigger] region_members(r)[i] < dg.len() by {
            assert(region_members(r)[i] == (r.first + i) as usize);
        }
        lemma_groups_disjoint(region_members(r), dg, names_view(fm.items@), region_opts(r, global), orders[k - 1], gs[k - 1], j1, j2, z);
    } else {
        assert(cg[g1] == pre[g1]);
        lemma_concat_index(gs, k - 1, g1);
        let (kk, j) = choose|kk: int, j: int| 0 <= kk < k - 1 && 0 <= j < gs[kk].len() && pre[g1] == #[trigger] gs[kk][j]@;
        lemma_group_in_region(fm, global, orders, gs, dg, kk, j, z);
        let j2 = g2 - pre.len();
        assert(cg[g2] == gs[k - 1][j2]@);
        if cg[g2].contains(z) {
            lemma_group_in_region(fm, global, orders, gs, dg, k - 1, j2, z);
            lemma_regions_apart(fm, kk, k - 1);
        }
    }
}

/// Two different items carry the same group number, not -1, exactly when
/// they lie in one region and on a common cycle of its members.
proof fn lemma_scoped_gid(
    fm: FileModel,
    global: OrderOpts,
    orders: Seq<Seq<usize>>,
    gs: Seq<Seq<Vec<usize>>>,
    gid: Seq<int>,
    dg: Seq<Vec<usize>>,
    x: usize,
    y: usize,
)
    requires
        scoped_parts(fm, global, orders, gs, dg),
        gid_spec(concat_groups(gs, gs.len() as int), gid, fm.items.len() as int),
        x != y,
        x < fm.items.len(),
        y < fm.items.len(),
    ensures
        (gid[x as int] >= 0 && gid[x as int] == gid[y as int]) <==> exists|k: int|
            0 <= k < fm.regions.len() && fm.regions@[k].first <= x < fm.regions@[k].last_excl && fm.regions@[k].first <= y
                < fm.regions@[k].last_excl && #[trigger] mutual(
                scope_mask(region_members(fm.regions@[k]), dg.len()),
                dg,
                x as int,
                y as int,
            ),
{
    let kn = gs.len() as int;
    let cg = concat_groups(gs, kn);
    let nv = names_view(fm.items@);
    assert(gid[x as int] >= -1 && gid[y as int] >= -1);
    if gid[x as int] >= 0 && gid[x as int] == gid[y as int] {
        let g = gid[x as int];
        assert(cg[g].contains(x) && cg[g].contains(y));
        lemma_concat_index(gs, kn, g);
        let (kk, j) = choose|kk: int, j: int| 0 <= kk < kn && 0 <= j < gs[kk].len() && cg[g] == #[trigger] gs[kk][j]@;
        lemma_group_in_region(fm, global, orders, gs, dg, kk, j, x);
        lemma_group_in_region(fm, global, orders, gs, dg, kk, j, y);
        let r = fm.regions@[kk];
        assert(order_spec(region_members(r), dg, nv, region_opts(r, global), orders[kk], gs[kk]));
        assert forall|i: int| 0 <= i < region_members(r).len() implies #[trigger] region_members(r)[i] < dg.len() by {
            assert(region_members(r)[i] == (r.first + i) as usize);
        }
        lemma_region_members(r, x);
        lemma_region_members(r, y);
        lemma_group_iff_mutual(region_members(r), dg, nv, region_opts(r, global), orders[kk], gs[kk], x, y);
        assert(mutual(scope_mask(region_members(fm.regions@[kk]), dg.len()), dg, x as int, y as int));
    }
    if exists|k: int|
        0 <= k < fm.regions.len() && fm.regions@[k].first <= x < fm.regions@[k].last_excl && fm.regions@[k].first <= y
            < fm.regions@[k].last_excl && #[trigger] mutual(
            scope_mask(region_members(fm.regions@[k]), dg.len()),
            dg,
            x as int,
            y as int,
        ) {
        let k = choose|k: int|
            0 <= k < fm.regions.len() && fm.regions@[k].first <= x < fm.regions@[k].last_excl && fm.regions@[k].first <= y
                < fm.regions@[k].last_excl && #[trigger] mutual(
                scope_mask(region_members(fm.regions@[k]), dg.len()),
                dg,
                x as int,
                y as int,
            );
        let r = fm.regions@[k];
        assert(order_spec(region_members(r), dg, nv, region_opts(r, global), orders[k], gs[k]));
        assert forall|i: int| 0 <= i < region_members(r).len() implies #[trigger] region_members(r)[i] < dg.len() by {
            assert(region_members(r)[i] == (r.first + i) as usize);
        }
        lemma_region_members(r, x);
        lemma_region_members(r, y);
        lemma_group_iff_mutual(region_members(r), dg, nv, region_opts(r, global), orders[k], gs[k], x, y);
        let j = choose|j: int| 0 <= j < gs[k].len() && #[trigger] gs[k][j]@.contains(x) && gs[k][j]@.contains(y);
        lemma_concat_has(gs, kn, k, j);
        let g0 = choose|g: int| 0 <= g < cg.len() && #[trigger] cg[g] == gs[k][j]@;
        assert(gid[x as int] >= 0) by {
            if gid[x as int] == -1 {
                assert(!cg[g0].contains(x));
            }
        }
        assert(gid[y as int] >= 0) by {
            if gid[y as int] == -1 {
                assert(!cg[g0].contains(y));
            }
        }
        let g1 = gid[x as int];
        let g2 = gid[y as int];
        if g1 < g0 {
            lemma_concat_disjoint(fm, global, orders, gs, dg, kn, g1, g0, x);
        } else if g0 < g1 {
            lemma_concat_disjoint(fm, global, orders, gs, dg, kn, g0, g1, x);
        }
        if g2 < g0 {
            lemma_concat_disjoint(fm, global, orders, gs, dg, kn, g2, g0, y);
        } else if g0 < g2 {
            lemma_concat_disjoint(fm, global, orders, gs, dg, kn, g0, g2, y);
        }
    }
}

/// The plan items of region `k` are `lo..hi`.
proof fn lemma_region_plan(fm: FileModel, k: int)
    requires
        model_wf(fm),
        regions_clear(fm),
        fm.items.len() <= usize::MAX,
        0 <= k < fm.regions.len(),
    ensures
        region_hi(fm, k) - region_lo(fm, k) == fm.regions@[k].last_excl - fm.regions@[k].first,
        0 <= region_lo(fm, k) <= region_hi(fm, k) <= movable(fm.items@).len(),
{
    let items = fm.items@;
    let n = items.len() as int;
    let r = fm.regions@[k];
    let first = r.first as int;
    let last = r.last_excl as int;
    assert forall|i: int| first <= i < first + (last - first) implies !(#[trigger] items[i]).pinned by {
        assert(fm.regions@[k] == r);
        assert(!fm.items@[i].pinned);
    }
    lemma_compact_run(items, first, last - first);
    lemma_movable_facts(items, n);
    if last < n {
        lemma_compact_order(items, last, n);
    }
    assert(compact(items, n) == movable(items).len());
}

/// Item `x` of region `k` is plan item `lo + (x - first)`.
proof fn lemma_region_point(fm: FileModel, k: int, x: int)
    requires
        model_wf(fm),
        regions_clear(fm),
        fm.items.len() <= usize::MAX,
        0 <= k < fm.regions.len(),
        fm.regions@[k].first <= x < fm.regions@[k].last_excl,
    ensures
        compact(fm.items@, x) == region_lo(fm, k) + (x - fm.regions@[k].first),
        movable(fm.items@)[compact(fm.items@, x)] == x as usize,
{
    let items = fm.items@;
    let first = fm.regions@[k].first as int;
    assert forall|i: int| first <= i < first + (x - first) implies !(#[trigger] items[i]).pinned by {
        assert(!fm.items@[i].pinned);
    }
    lemma_compact_run(items, first, x - first);
    assert(!fm.items@[x].pinned);
    lemma_compact_inverse(items, x);
}

/// Region `k`'s part of the plan's graph is its part of the items' graph,
/// renumbered from `lo` on.
proof fn lemma_region_transport(
    fm: FileModel,
    p: Plan,
    gid: Seq<int>,
    dg: Seq<Vec<usize>>,
    after: Seq<usize>,
    groups: Seq<Seq<usize>>,
    k: int,
    c1: int,
    c2: int,
)
    requires
        model_wf(fm),
        regions_clear(fm),
        fm.items.len() <= usize::MAX,
        0 <= k < fm.regions.len(),
        crate::deps_match(dg, fm.items@),
        crate::plan_spec(fm, p, after, groups, gid),
        region_lo(fm, k) <= c1 < region_hi(fm, k),
        region_lo(fm, k) <= c2 < region_hi(fm, k),
    ensures
        mutual(region_mask(fm, p, k), p.deps@, c1, c2) <==> mutual(
            scope_mask(region_members(fm.regions@[k]), dg.len()),
            dg,
            movable(fm.items@)[c1] as int,
            movable(fm.items@)[c2] as int,
        ),
{
    let items = fm.items@;
    let n = items.len() as int;
    let mv = movable(items);
    let r = fm.regions@[k];
    let first = r.first as int;
    let lo = region_lo(fm, k);
    let hi = region_hi(fm, k);
    let o = region_members(r);
    lemma_region_plan(fm, k);
    lemma_movable_facts(items, n);
    assert(o.len() == hi - lo);
    assert forall|i: int| 0 <= i < o.len() implies #[trigger] o[i] < dg.len() by {
        assert(o[i] == (r.first + i) as usize);
    }
    assert(o.no_duplicates()) by {
        assert forall|i: int, j: int| 0 <= i < o.len() && 0 <= j < o.len() && i != j implies o[i] != o[j] by {
            assert(o[i] == (r.first + i) as usize);
            assert(o[j] == (r.first + j) as usize);
        }
    }
    assert forall|x: int, q: usize| lo <= x < lo + o.len() && lo <= q < lo + o.len() implies (#[trigger] p.deps@[x]@.contains(q)
        <==> dg[o[x - lo] as int]@.contains(o[q - lo])) by {
        let ix = first + (x - lo);
        let iq = first + (q - lo);
        assert(o[x - lo] as int == ix);
        assert(o[q - lo] as int == iq);
        lemma_region_point(fm, k, ix);
        lemma_region_point(fm, k, iq);
        assert(compact(items, ix) == x && mv[x] as int == ix);
        assert(compact(items, iq) == q && mv[q as int] as int == iq);
        let ds = items[ix].deps@;
        assert(dg[ix]@ == ds);
        assert(p.deps@[x]@ == ds.map_values(|d: usize| compact(items, d as int) as usize));
        if p.deps@[x]@.contains(q) {
            let a = choose|a: int| 0 <= a < p.deps@[x]@.len() && p.deps@[x]@[a] == q;
            let t = ds[a];
            assert(t < n && !items[t as int].pinned);
            lemma_compact_inverse(items, t as int);
            assert(compact(items, t as int) == q);
            assert(t as int == iq);
            assert(ds.contains(o[q - lo]));
        }
        if ds.contains(o[q - lo]) {
            let a = choose|a: int| 0 <= a < ds.len() && ds[a] == o[q - lo];
            assert(p.deps@[x]@[a] == compact(items, iq) as usize);
        }
    }
    assert(renumbered_deps(o, dg, p.deps@, lo as nat));
    assert(setting(o, dg, o, p.deps@, lo as nat));
    lemma_mutual_moved(o, dg, o, p.deps@, lo as nat, c1 - lo, c2 - lo);
    lemma_region_point(fm, k, first + (c1 - lo));
    lemma_region_point(fm, k, first + (c2 - lo));
    assert(mv[c1] as int == first + (c1 - lo));
    assert(mv[c2] as int == first + (c2 - lo));
}

/// The plan's mutual groups in scoped mode are exactly the cycles within
/// each region: two different items of the plan carry the same group
/// number, not -1, exactly when both lie in one region and on a common
/// cycle of that region's part of the plan's dependency graph.
#[verifier::spinoff_prover]
#[verifier::rlimit(50)]
pub proof fn law_scoped_groups_are_cycles(fm: FileModel, global: OrderOpts, out: Outcome)
    requires
        model_wf(fm),
        regions_clear(fm),
        fm.items.len() <= usize::MAX,
        fm.regions.len() > 0,
        outcome_spec(fm, global, out),
    ensures
        forall|c1: int, c2: int|
            0 <= c1 < out.plan.deps.len() && 0 <= c2 < out.plan.deps.len() && c1 != c2 ==> (#[trigger] same_group(
                out.plan,
                c1,
                c2,
            ) <==> exists|k: int|
                0 <= k < fm.regions.len() && region_lo(fm, k) <= c1 < region_hi(fm, k) && region_lo(fm, k) <= c2
                    < region_hi(fm, k) && #[trigger] mutual(region_mask(fm, out.plan, k), out.plan.deps@, c1, c2)),
{
    let (orders, gs, gid, dg) = choose|orders: Seq<Seq<usize>>, gs: Seq<Seq<Vec<usize>>>, gid: Seq<int>, dg: Seq<Vec<usize>>|
        #[trigger] outcome_parts(fm, global, out, orders, gs, gid, dg);
    let items = fm.items@;
    let n = items.len() as int;
    let mv = movable(items);
    let p = out.plan;
    let after = crate::scoped_after(fm, orders, 0);
    let groups = concat_groups(gs, gs.len() as int);
    assert(scoped_parts(fm, global, orders, gs, dg));
    assert(crate::plan_spec(fm, p, after, groups, gid));
    lemma_movable_facts(items, n);
    assert forall|c1: int, c2: int|
        0 <= c1 < p.deps.len() && 0 <= c2 < p.deps.len() && c1 != c2 implies (#[trigger] same_group(p, c1, c2) <==> exists|
            k: int,
        |
            0 <= k < fm.regions.len() && region_lo(fm, k) <= c1 < region_hi(fm, k) && region_lo(fm, k) <= c2 < region_hi(
                fm,
                k,
            ) && #[trigger] mutual(region_mask(fm, p, k), p.deps@, c1, c2)) by {
        let x = mv[c1];
        let y = mv[c2];
        assert(x != y) by {
            if c1 < c2 {
                assert(mv[c1] < mv[c2]);
            } else {
                assert(mv[c2] < mv[c1]);
            }
        }
        assert(p.group_of@[c1] as int == gid[x as int]);
        assert(p.group_of@[c2] as int == gid[y as int]);
        lemma_scoped_gid(fm, global, orders, gs, gid, dg, x, y);
        assert(compact(items, x as int) == c1 && compact(items, y as int) == c2);
        if same_group(p, c1, c2) {
            let k = choose|k: int|
                0 <= k < fm.regions.len() && fm.regions@[k].first <= x < fm.regions@[k].last_excl && fm.regions@[k].first
                    <= y < fm.regions@[k].last_excl && #[trigger] mutual(
                    scope_mask(region_members(fm.regions@[k]), dg.len()),
                    dg,
                    x as int,
                    y as int,
                );
            lemma_region_plan(fm, k);
            lemma_region_point(fm, k, x as int);
            lemma_region_point(fm, k, y as int);
            lemma_region_transport(fm, p, gid, dg, after, groups, k, c1, c2);
            assert(mutual(region_mask(fm, p, k), p.deps@, c1, c2));
        }
        if exists|k: int|
            0 <= k < fm.regions.len() && region_lo(fm, k) <= c1 < region_hi(fm, k) && region_lo(fm, k) <= c2 < region_hi(
                fm,
                k,
            ) && #[trigger] mutual(region_mask(fm, p, k), p.deps@, c1, c2) {
            let k = choose|k: int|
                0 <= k < fm.regions.len() && region_lo(fm, k) <= c1 < region_hi(fm, k) && region_lo(fm, k) <= c2
                    < region_hi(fm, k) && #[trigger] mutual(region_mask(fm, p, k), p.deps@, c1, c2);
            lemma_region_plan(fm, k);
            lemma_region_transport(fm, p, gid, dg, after, groups, k, c1, c2);
            let first = fm.regions@[k].first as int;
            let lo = region_lo(fm, k);
            lemma_region_point(fm, k, first + (c1 - lo));
            lemma_region_point(fm, k, first + (c2 - lo));
            assert(mutual(scope_mask(region_members(fm.regions@[k]), dg.len()), dg, x as int, y as int));
        }
    }
}

} // verus!
