//! Ordering a scope has one result, and it settles: the contract of
//! `order_scope` admits a single order and a single list of groups for a
//! set of members, however they are listed; and once items stand in that
//! order, ordering them again (renumbered in that order) keeps them in
//! place.

use vstd::prelude::*;

use crate::text::{lemma_lex_asym, lemma_lex_irrefl, lemma_lex_total, lemma_lex_trans, lex_lt};

use crate::graph::{
    comps_wf, edge, lemma_comps_mutual, is_scc_min, is_walk, lemma_mutual_refl, lemma_mutual_trans, lemma_reaches_members, lemma_scc_min_unique,
    mutual, reaches, scc_min, scope_mask,
};
use crate::order::{
    cdep, cdl_wf, comp_blocks, dfs_spec, topo_parts, topo_spec, visit_all_spec, visit_list_spec, visit_spec,
    is_min_name, scc_min_name, block_start, lemma_same_elements_same_len, group_pos, lemma_group_pos, lemma_groups_disjoint, inside_lt, key_lt, lemma_inside_lt_asym, lemma_inside_lt_trans, order_spec, ready_at, OrderOpts, Tie,
};

verus! {

/// The indices `b..b + r`, in order.
pub open spec fn iota_at(b: nat, r: nat) -> Seq<usize> {
    Seq::new(r, |i: int| (b + i) as usize)
}

/// The indices `0..r`, in order.
pub open spec fn iota(r: nat) -> Seq<usize> {
    iota_at(0, r)
}

/// `d2` lists the dependencies of the items renumbered by their position
/// in `o`, from `b` on: item `o[p]` becomes `b + p` (among the renumbered
/// items; what else `d2` lists is not read).
pub open spec fn renumbered_deps(o: Seq<usize>, deps: Seq<Vec<usize>>, d2: Seq<Vec<usize>>, b: nat) -> bool {
    &&& d2.len() >= b + o.len()
    &&& forall|x: int, q: usize|
        b <= x < b + o.len() && b <= q < b + o.len() ==> (#[trigger] d2[x]@.contains(q) <==> deps[o[x - b] as int]@.contains(
            o[q - b],
        ))
}

/// The position of `v` in `o`.
spec fn pos_of(o: Seq<usize>, v: int) -> int {
    choose|i: int| 0 <= i < o.len() && o[i] as int == v
}

/// The facts of the renumbering that the transport uses.
pub(crate) open spec fn setting(members: Seq<usize>, deps: Seq<Vec<usize>>, o: Seq<usize>, d2: Seq<Vec<usize>>, b: nat) -> bool {
    &&& o.no_duplicates()
    &&& o.len() <= usize::MAX
    &&& d2.len() <= usize::MAX
    &&& deps.len() <= usize::MAX
    &&& forall|x: usize| #[trigger] o.contains(x) <==> members.contains(x)
    &&& forall|i: int| 0 <= i < members.len() ==> #[trigger] members[i] < deps.len()
    &&& renumbered_deps(o, deps, d2, b)
}

/// The renumbered items are `b..b + r`.
proof fn lemma_mask_at(b: nat, r: nat, n: nat, x: int)
    requires
        b + r <= n <= usize::MAX,
        0 <= x < n,
    ensures
        scope_mask(iota_at(b, r), n)[x] <==> b <= x < b + r,
{
    if scope_mask(iota_at(b, r), n)[x] {
        let i = choose|i: int| 0 <= i < r && iota_at(b, r)[i] == x as usize;
        assert(iota_at(b, r)[i] == (b + i) as usize);
    }
    if b <= x < b + r {
        assert(iota_at(b, r)[x - b] == x as usize);
    }
}

proof fn lemma_o_member(members: Seq<usize>, deps: Seq<Vec<usize>>, o: Seq<usize>, d2: Seq<Vec<usize>>, b: nat, p: int)
    requires
        setting(members, deps, o, d2, b),
        0 <= p < o.len(),
    ensures
        o[p] < deps.len(),
        scope_mask(members, deps.len())[o[p] as int],
{
    assert(o.contains(o[p]));
    assert(members.contains(o[p]));
    let k = choose|k: int| 0 <= k < members.len() && members[k] == o[p];
    assert(members[k] < deps.len());
}

proof fn lemma_pos_of(members: Seq<usize>, deps: Seq<Vec<usize>>, o: Seq<usize>, d2: Seq<Vec<usize>>, b: nat, v: int)
    requires
        setting(members, deps, o, d2, b),
        0 <= v < deps.len(),
        scope_mask(members, deps.len())[v],
    ensures
        0 <= pos_of(o, v) < o.len(),
        o[pos_of(o, v)] as int == v,
{
    assert(members.contains(v as usize));
    assert(o.contains(v as usize));
    let i = choose|i: int| 0 <= i < o.len() && o[i] == v as usize;
    assert((v as usize) as int == v);
    assert(o[i] as int == v);
}

proof fn lemma_edge_down(members: Seq<usize>, deps: Seq<Vec<usize>>, o: Seq<usize>, d2: Seq<Vec<usize>>, b: nat, x: int, y: int)
    requires
        setting(members, deps, o, d2, b),
        edge(scope_mask(iota_at(b, o.len()), d2.len()), d2, x, y),
    ensures
        b <= x < b + o.len(),
        b <= y < b + o.len(),
        edge(scope_mask(members, deps.len()), deps, o[x - b] as int, o[y - b] as int),
{
    lemma_mask_at(b, o.len(), d2.len(), x);
    lemma_mask_at(b, o.len(), d2.len(), y);
    lemma_o_member(members, deps, o, d2, b, x - b);
    lemma_o_member(members, deps, o, d2, b, y - b);
    assert(d2[x]@.contains(y as usize));
    assert((y as usize) as int == y);
}

proof fn lemma_edge_up(members: Seq<usize>, deps: Seq<Vec<usize>>, o: Seq<usize>, d2: Seq<Vec<usize>>, b: nat, x: int, y: int)
    requires
        setting(members, deps, o, d2, b),
        0 <= x < o.len(),
        0 <= y < o.len(),
        edge(scope_mask(members, deps.len()), deps, o[x] as int, o[y] as int),
    ensures
        edge(scope_mask(iota_at(b, o.len()), d2.len()), d2, b + x, b + y),
{
    let m2 = scope_mask(iota_at(b, o.len()), d2.len());
    lemma_mask_at(b, o.len(), d2.len(), b + x);
    lemma_mask_at(b, o.len(), d2.len(), b + y);
    assert(m2[b + x] && m2[b + y]);
    assert(((b + y) as usize) as int == b + y);
    assert(o[((b + y) as usize) - b] == o[y]);
    assert(d2[b + x]@.contains((b + y) as usize));
}

proof fn lemma_reaches_down(
    members: Seq<usize>,
    deps: Seq<Vec<usize>>,
    o: Seq<usize>,
    d2: Seq<Vec<usize>>,
    b: nat,
    x: int,
    y: int,
)
    requires
        setting(members, deps, o, d2, b),
        reaches(scope_mask(iota_at(b, o.len()), d2.len()), d2, x, y),
    ensures
        b <= x < b + o.len(),
        b <= y < b + o.len(),
        reaches(scope_mask(members, deps.len()), deps, o[x - b] as int, o[y - b] as int),
{
    let m2 = scope_mask(iota_at(b, o.len()), d2.len());
    let m = scope_mask(members, deps.len());
    lemma_reaches_members(m2, d2, x, y);
    lemma_mask_at(b, o.len(), d2.len(), x);
    lemma_mask_at(b, o.len(), d2.len(), y);
    let p = choose|p: Seq<int>| #[trigger] is_walk(m2, d2, p) && p[0] == x && p.last() == y;
    assert forall|k: int| 0 <= k < p.len() implies b <= #[trigger] p[k] < b + o.len() by {
        if k > 0 {
            assert(edge(m2, d2, p[k - 1], p[k - 1 + 1]));
            lemma_edge_down(members, deps, o, d2, b, p[k - 1], p[k]);
        }
    }
    let q = p.map_values(|v: int| o[v - b] as int);
    assert forall|k: int| 0 <= k < q.len() - 1 implies #[trigger] edge(m, deps, q[k], q[k + 1]) by {
        assert(edge(m2, d2, p[k], p[k + 1]));
        lemma_edge_down(members, deps, o, d2, b, p[k], p[k + 1]);
    }
    lemma_o_member(members, deps, o, d2, b, x - b);
    assert(is_walk(m, deps, q));
    assert(q.last() == o[y - b] as int);
}

proof fn lemma_reaches_up(
    members: Seq<usize>,
    deps: Seq<Vec<usize>>,
    o: Seq<usize>,
    d2: Seq<Vec<usize>>,
    b: nat,
    x: int,
    y: int,
)
    requires
        setting(members, deps, o, d2, b),
        0 <= x < o.len(),
        0 <= y < o.len(),
        reaches(scope_mask(members, deps.len()), deps, o[x] as int, o[y] as int),
    ensures
        reaches(scope_mask(iota_at(b, o.len()), d2.len()), d2, b + x, b + y),
{
    let m2 = scope_mask(iota_at(b, o.len()), d2.len());
    let m = scope_mask(members, deps.len());
    let p = choose|p: Seq<int>| #[trigger] is_walk(m, deps, p) && p[0] == o[x] as int && p.last() == o[y] as int;
    assert forall|k: int| 0 <= k < p.len() implies 0 <= #[trigger] p[k] < deps.len() && m[p[k]] by {
        if k > 0 {
            assert(edge(m, deps, p[k - 1], p[k - 1 + 1]));
        }
    }
    let q = p.map_values(|v: int| b + pos_of(o, v));
    assert forall|k: int| 0 <= k < q.len() implies b <= #[trigger] q[k] < b + o.len() && o[q[k] - b] as int == p[k] by {
        lemma_pos_of(members, deps, o, d2, b, p[k]);
    }
    assert forall|k: int| 0 <= k < q.len() - 1 implies #[trigger] edge(m2, d2, q[k], q[k + 1]) by {
        assert(edge(m, deps, p[k], p[k + 1]));
        assert(b <= q[k] < b + o.len() && o[q[k] - b] as int == p[k]);
        assert(b <= q[k + 1] < b + o.len() && o[q[k + 1] - b] as int == p[k + 1]);
        lemma_edge_up(members, deps, o, d2, b, q[k] - b, q[k + 1] - b);
    }
    assert(b <= q[0] < b + o.len() && o[q[0] - b] as int == p[0]);
    assert(q[0] == b + x) by {
        if q[0] != b + x {
            assert(o[q[0] - b] == o[x]);
        }
    }
    assert(b <= q[q.len() - 1] < b + o.len() && o[q[q.len() - 1] - b] as int == p[p.len() - 1]);
    assert(q.last() == b + y) by {
        if q.last() != b + y {
            assert(o[q.last() - b] == o[y]);
        }
    }
    lemma_mask_at(b, o.len(), d2.len(), b + x);
    assert(m2[b + x]);
    assert(is_walk(m2, d2, q));
}

/// Renumbering keeps the cycles: the items at positions `x` and `y`,
/// renumbered `b + x` and `b + y`, share one exactly when the items they
/// stand for do.
pub(crate) proof fn lemma_mutual_moved(
    members: Seq<usize>,
    deps: Seq<Vec<usize>>,
    o: Seq<usize>,
    d2: Seq<Vec<usize>>,
    b: nat,
    x: int,
    y: int,
)
    requires
        setting(members, deps, o, d2, b),
        0 <= x < o.len(),
        0 <= y < o.len(),
    ensures
        mutual(scope_mask(iota_at(b, o.len()), d2.len()), d2, b + x, b + y) <==> mutual(
            scope_mask(members, deps.len()),
            deps,
            o[x] as int,
            o[y] as int,
        ),
{
    let m2 = scope_mask(iota_at(b, o.len()), d2.len());
    let m = scope_mask(members, deps.len());
    if mutual(m2, d2, b + x, b + y) {
        lemma_reaches_down(members, deps, o, d2, b, b + x, b + y);
        lemma_reaches_down(members, deps, o, d2, b, b + y, b + x);
    }
    if mutual(m, deps, o[x] as int, o[y] as int) {
        lemma_reaches_up(members, deps, o, d2, b, x, y);
        lemma_reaches_up(members, deps, o, d2, b, y, x);
    }
}


proof fn lemma_scc_min_exists(m: Seq<bool>, d: Seq<Vec<usize>>, x: int, b: int)
    requires
        mutual(m, d, x, b),
    ensures
        is_scc_min(m, d, x, scc_min(m, d, x)),
    decreases b,
{
    lemma_reaches_members(m, d, x, b);
    if forall|y: int| 0 <= y < b ==> !#[trigger] mutual(m, d, x, y) {
        assert(is_scc_min(m, d, x, b));
    } else {
        let y = choose|y: int| 0 <= y < b && #[trigger] mutual(m, d, x, y);
        lemma_scc_min_exists(m, d, x, y);
    }
}

proof fn lemma_first_diff(o2: Seq<usize>, b: nat, k: int) -> (i: int)
    requires
        0 <= k <= o2.len(),
        forall|j: int| 0 <= j < k ==> o2[j] as int == b + j,
        exists|j: int| k <= j < o2.len() && o2[j] as int != b + j,
    ensures
        k <= i < o2.len(),
        o2[i] as int != b + i,
        forall|j: int| 0 <= j < i ==> o2[j] as int == b + j,
    decreases o2.len() - k,
{
    if o2[k] as int != b + k {
        k
    } else {
        lemma_first_diff(o2, b, k + 1)
    }
}

/// Along a run of `o` whose consecutive entries share a cycle, the inside
/// order goes from the first to the last.
proof fn lemma_inside_chain(
    m: Seq<bool>,
    d: Seq<Vec<usize>>,
    names: Seq<Seq<char>>,
    tie: Tie,
    o: Seq<usize>,
    s: int,
    t: int,
)
    requires
        0 <= s < t < o.len(),
        forall|i: int|
            0 <= i < o.len() - 1 && mutual(m, d, #[trigger] o[i] as int, o[i + 1] as int) ==> inside_lt(
                tie,
                names,
                o[i] as int,
                o[i + 1] as int,
            ),
        forall|k: int| s <= k < t ==> mutual(m, d, #[trigger] o[k] as int, o[k + 1] as int),
    ensures
        inside_lt(tie, names, o[s] as int, o[t] as int),
    decreases t - s,
{
    assert(mutual(m, d, o[t - 1] as int, o[t - 1 + 1] as int));
    if t - 1 > s {
        lemma_inside_chain(m, d, names, tie, o, s, t - 1);
        lemma_inside_lt_trans(tie, names, o[s] as int, o[t - 1] as int, o[t] as int);
    }
}

/// In an order that keeps components contiguous, the entries between two
/// that share a cycle share it, and so do consecutive ones.
proof fn lemma_run_mutual(m: Seq<bool>, d: Seq<Vec<usize>>, o: Seq<usize>, s: int, t: int)
    requires
        0 <= s < t < o.len(),
        mutual(m, d, o[s] as int, o[t] as int),
        forall|i: int, j: int, k: int|
            0 <= i < j < k < o.len() && mutual(m, d, #[trigger] o[i] as int, #[trigger] o[k] as int) ==> mutual(
                m,
                d,
                o[i] as int,
                #[trigger] o[j] as int,
            ),
    ensures
        forall|k: int| s <= k < t ==> mutual(m, d, #[trigger] o[k] as int, o[k + 1] as int),
{
    lemma_reaches_members(m, d, o[s] as int, o[t] as int);
    assert forall|k: int| s <= k <= t implies mutual(m, d, o[s] as int, #[trigger] o[k] as int) by {
        if k == s {
            lemma_mutual_refl(m, d, o[s] as int);
        } else if k < t {
            assert(mutual(m, d, o[s] as int, o[k] as int));
        }
    }
    assert forall|k: int| s <= k < t implies mutual(m, d, #[trigger] o[k] as int, o[k + 1] as int) by {
        assert(mutual(m, d, o[s] as int, o[k] as int));
        assert(mutual(m, d, o[s] as int, o[k + 1] as int));
        lemma_mutual_trans(m, d, o[k] as int, o[s] as int, o[k + 1] as int);
    }
}

proof fn lemma_visit_list_seen(cd: Seq<Seq<usize>>, fuel: nat, ds: Seq<usize>, i: int, seen: Seq<bool>, out: Seq<usize>)
    requires
        0 <= i,
        forall|a: int| i <= a < ds.len() ==> 0 <= #[trigger] ds[a] < seen.len() && seen[ds[a] as int],
    ensures
        visit_list_spec(cd, fuel, ds, i, seen, out) == (seen, out),
    decreases ds.len() - i,
{
    if i < ds.len() {
        assert(visit_spec(cd, fuel, ds[i] as int, seen, out) == (seen, out));
        lemma_visit_list_seen(cd, fuel, ds, i + 1, seen, out);
    }
}

proof fn lemma_visit_all_backward(cd: Seq<Seq<usize>>, k: int)
    requires
        0 <= k <= cd.len(),
        forall|c: int, a: int| 0 <= c < cd.len() && 0 <= a < cd[c].len() ==> #[trigger] cd[c][a] < c,
    ensures
        visit_all_spec(cd, k, Seq::new(cd.len(), |x: int| x < k), iota(k as nat)).1 == iota(cd.len()),
    decreases cd.len() - k,
{
    let seen = Seq::new(cd.len(), |x: int| x < k);
    if k == cd.len() {
        assert(iota(k as nat) =~= iota(cd.len()));
    } else {
        let s1 = Seq::new(cd.len(), |x: int| x < k + 1);
        assert(seen.update(k, true) =~= s1);
        lemma_visit_list_seen(cd, (cd.len() - 1) as nat, cd[k], 0, s1, iota(k as nat));
        assert(iota(k as nat).push(k as usize) =~= iota((k + 1) as nat));
        assert(visit_spec(cd, cd.len(), k, seen, iota(k as nat)) == (s1, iota((k + 1) as nat)));
        lemma_visit_all_backward(cd, k + 1);
    }
}

/// A depth-first walk over components that only use smaller ones emits
/// them in increasing order.
proof fn lemma_dfs_backward(cd: Seq<Seq<usize>>)
    requires
        forall|c: int, a: int| 0 <= c < cd.len() && 0 <= a < cd[c].len() ==> #[trigger] cd[c][a] < c,
    ensures
        dfs_spec(cd) == iota(cd.len()),
{
    assert(Seq::new(cd.len(), |i: int| false) =~= Seq::new(cd.len(), |x: int| x < 0));
    assert(iota(0) =~= Seq::<usize>::empty());
    lemma_visit_all_backward(cd, 0);
}

proof fn lemma_comp_blocks_grow(m: Seq<bool>, d: Seq<Vec<usize>>, o: Seq<usize>, ci: Seq<usize>, k: int, k2: int)
    requires
        0 <= k <= k2,
    ensures
        comp_blocks(m, d, o, ci, k2).take(comp_blocks(m, d, o, ci, k).len() as int) == comp_blocks(m, d, o, ci, k),
        comp_blocks(m, d, o, ci, k).len() <= comp_blocks(m, d, o, ci, k2).len(),
    decreases k2 - k,
{
    if k < k2 {
        lemma_comp_blocks_grow(m, d, o, ci, k, k2 - 1);
        let a = comp_blocks(m, d, o, ci, k2 - 1);
        let b = comp_blocks(m, d, o, ci, k);
        assert(comp_blocks(m, d, o, ci, k2).take(a.len() as int) =~= a);
        assert(comp_blocks(m, d, o, ci, k2).take(b.len() as int) =~= a.take(b.len() as int));
    } else {
        assert(comp_blocks(m, d, o, ci, k).take(comp_blocks(m, d, o, ci, k).len() as int) =~= comp_blocks(m, d, o, ci, k));
    }
}

proof fn lemma_comp_blocks_len(m: Seq<bool>, d: Seq<Vec<usize>>, o: Seq<usize>, ci: Seq<usize>, k: int)
    requires
        0 <= k,
    ensures
        comp_blocks(m, d, o, ci, k).len() <= k,
    decreases k,
{
    if k > 0 {
        lemma_comp_blocks_len(m, d, o, ci, k - 1);
    }
}

proof fn lemma_comp_blocks_elems(m: Seq<bool>, d: Seq<Vec<usize>>, o: Seq<usize>, ci: Seq<usize>, k: int, e: int)
    requires
        0 <= e < comp_blocks(m, d, o, ci, k).len(),
    ensures
        exists|q: int| 0 <= q < k && #[trigger] ci[o[q] as int] == comp_blocks(m, d, o, ci, k)[e],
    decreases k,
{
    if k > 0 {
        let a = comp_blocks(m, d, o, ci, k - 1);
        if e < a.len() {
            lemma_comp_blocks_elems(m, d, o, ci, k - 1, e);
            let q = choose|q: int| 0 <= q < k - 1 && #[trigger] ci[o[q] as int] == a[e];
            assert(ci[o[q] as int] == comp_blocks(m, d, o, ci, k)[e]);
        } else {
            assert(ci[o[k - 1] as int] == comp_blocks(m, d, o, ci, k)[e]);
        }
    }
}

/// The smallest name among the members `y < k` on a common cycle with `x`,
/// when there is one.
proof fn lemma_best_name(m: Seq<bool>, d: Seq<Vec<usize>>, names: Seq<Seq<char>>, x: int, k: int) -> (r: (bool, Seq<char>))
    requires
        0 <= k <= names.len(),
    ensures
        r.0 <==> exists|y: int| 0 <= y < k && #[trigger] mutual(m, d, x, y),
        r.0 ==> exists|y: int| 0 <= y < k && #[trigger] mutual(m, d, x, y) && names[y] == r.1,
        r.0 ==> forall|y: int| 0 <= y < k && #[trigger] mutual(m, d, x, y) ==> !lex_lt(names[y], r.1),
    decreases k,
{
    if k == 0 {
        (false, Seq::empty())
    } else {
        let p = lemma_best_name(m, d, names, x, k - 1);
        if mutual(m, d, x, k - 1) {
            if !p.0 || lex_lt(names[k - 1], p.1) {
                let s = names[k - 1];
                assert forall|y: int| 0 <= y < k && #[trigger] mutual(m, d, x, y) implies !lex_lt(names[y], s) by {
                    if y == k - 1 {
                        lemma_lex_irrefl(s);
                    } else if lex_lt(names[y], s) {
                        lemma_lex_trans(names[y], s, p.1);
                    }
                }
                (true, s)
            } else {
                p
            }
        } else {
            assert forall|y: int| 0 <= y < k && #[trigger] mutual(m, d, x, y) implies 0 <= y < k - 1 by {}
            p
        }
    }
}

proof fn lemma_min_name(m: Seq<bool>, d: Seq<Vec<usize>>, names: Seq<Seq<char>>, x: int)
    requires
        0 <= x < names.len(),
        mutual(m, d, x, x),
    ensures
        is_min_name(m, d, names, x, scc_min_name(m, d, names, x)),
{
    let r = lemma_best_name(m, d, names, x, names.len() as int);
    assert(is_min_name(m, d, names, x, r.1));
}

proof fn lemma_min_name_unique(m: Seq<bool>, d: Seq<Vec<usize>>, names: Seq<Seq<char>>, x: int, s1: Seq<char>, s2: Seq<char>)
    requires
        is_min_name(m, d, names, x, s1),
        is_min_name(m, d, names, x, s2),
    ensures
        s1 == s2,
{
    let y1 = choose|y: int| 0 <= y < names.len() && #[trigger] mutual(m, d, x, y) && names[y] == s1;
    let y2 = choose|y: int| 0 <= y < names.len() && #[trigger] mutual(m, d, x, y) && names[y] == s2;
    lemma_lex_total(s1, s2);
}

/// Renumbering keeps the smallest name of a component.
proof fn lemma_min_name_moved(
    members: Seq<usize>,
    deps: Seq<Vec<usize>>,
    names: Seq<Seq<char>>,
    o: Seq<usize>,
    d2: Seq<Vec<usize>>,
    b: nat,
    n2: Seq<Seq<char>>,
    a: int,
)
    requires
        setting(members, deps, o, d2, b),
        forall|i: int| 0 <= i < members.len() ==> #[trigger] members[i] < names.len(),
        n2.len() >= b + o.len(),
        forall|x: int| b <= x < b + o.len() ==> #[trigger] n2[x] == names[o[x - b] as int],
        0 <= a < o.len(),
    ensures
        scc_min_name(scope_mask(iota_at(b, o.len()), d2.len()), d2, n2, b + a) == scc_min_name(
            scope_mask(members, deps.len()),
            deps,
            names,
            o[a] as int,
        ),
{
    let m = scope_mask(members, deps.len());
    let m2 = scope_mask(iota_at(b, o.len()), d2.len());
    let x = o[a] as int;
    assert(o.contains(o[a]));
    let k = choose|k: int| 0 <= k < members.len() && members[k] == o[a];
    assert(members[k] < names.len());
    lemma_mask_at(b, o.len(), d2.len(), b + a);
    lemma_mutual_refl(m2, d2, b + a);
    lemma_mutual_moved(members, deps, o, d2, b, a, a);
    lemma_min_name(m2, d2, n2, b + a);
    lemma_min_name(m, deps, names, x);
    let s = scc_min_name(m2, d2, n2, b + a);
    let y2 = choose|y: int| 0 <= y < n2.len() && #[trigger] mutual(m2, d2, b + a, y) && n2[y] == s;
    lemma_reaches_members(m2, d2, b + a, y2);
    lemma_mask_at(b, o.len(), d2.len(), y2);
    lemma_mutual_moved(members, deps, o, d2, b, a, y2 - b);
    assert(o.contains(o[y2 - b]));
    let k2 = choose|k: int| 0 <= k < members.len() && members[k] == o[y2 - b];
    assert(members[k2] < names.len());
    assert(n2[y2] == names[o[y2 - b] as int]);
    assert forall|y: int| 0 <= y < names.len() && #[trigger] mutual(m, deps, x, y) implies !lex_lt(names[y], s) by {
        lemma_reaches_members(m, deps, x, y);
        lemma_pos_of(members, deps, o, d2, b, y);
        let q = pos_of(o, y);
        lemma_mutual_moved(members, deps, o, d2, b, a, q);
        assert(mutual(m2, d2, b + a, b + q));
        assert(n2[b + q] == names[y]);
    }
    assert(is_min_name(m, deps, names, x, s));
    lemma_min_name_unique(m, deps, names, x, s, scc_min_name(m, deps, names, x));
}

/// The step of `lemma_order_settles` under the `Topological` tie: at the
/// first position `i` where `o2` leaves `b..b + n`, a depth-first order
/// cannot start the component of another item, the one at position `pa`.
proof fn lemma_topo_settles(
    members: Seq<usize>,
    deps: Seq<Vec<usize>>,
    names: Seq<Seq<char>>,
    opts: OrderOpts,
    o: Seq<usize>,
    g: Seq<Vec<usize>>,
    d2: Seq<Vec<usize>>,
    b: nat,
    o2: Seq<usize>,
    i: int,
    pa: int,
)
    requires
        order_spec(members, deps, names, opts, o, g),
        setting(members, deps, o, d2, b),
        topo_spec(scope_mask(iota_at(b, o.len()), d2.len()), d2, o2),
        o2.len() == o.len(),
        0 <= i < pa < o.len(),
        forall|k: int| 0 <= k < i ==> o2[k] as int == b + k,
        block_start(scope_mask(iota_at(b, o.len()), d2.len()), d2, o2, i),
        forall|y: int| #[trigger] mutual(scope_mask(iota_at(b, o.len()), d2.len()), d2, y, b + i) ==> y >= b + i,
        forall|y: int| #[trigger] mutual(scope_mask(iota_at(b, o.len()), d2.len()), d2, b + pa, y) ==> y > b + i,
    ensures
        o2[i] as int != b + pa,
{
    let r = o.len();
    let m = scope_mask(members, deps.len());
    let m2 = scope_mask(iota_at(b, r), d2.len());
    let na = b + pa;
    let ni = b + i;
    if o2[i] as int == na {
        let (ci, cs, cm, cdl) = choose|ci: Seq<usize>, cs: Seq<usize>, cm: Seq<Vec<usize>>, cdl: Seq<Seq<usize>>|
            #[trigger] topo_parts(m2, d2, o2, ci, cs, cm, cdl);
        assert(comps_wf(m2, d2, ci, cs, cm));
        assert(cdl_wf(m2, d2, ci, cs.len() as int, cdl));
        assert forall|c: int, e: int| 0 <= c < cdl.len() && 0 <= e < cdl[c].len() implies #[trigger] cdl[c][e] < c by {
            let jj = cdl[c][e] as int;
            assert(cdl[c].contains(jj as usize));
            assert(0 <= jj < cs.len());
            assert(cdep(m2, d2, ci, c, jj));
            let (w, z) = choose|w: int, z: int|
                0 <= w < m2.len() && m2[w] && ci[w] == c && #[trigger] edge(m2, d2, w, z) && ci[z] == jj;
            lemma_comps_mutual(m2, d2, ci, cs, cm, w, z);
            lemma_comps_mutual(m2, d2, ci, cs, cm, z, z);
            let sc = cs[c] as int;
            let sj = cs[jj] as int;
            assert(ci[sc] == c);
            lemma_comps_mutual(m2, d2, ci, cs, cm, sc, w);
            assert(mutual(m2, d2, w, sc));
            assert(is_scc_min(m2, d2, sc, sc));
            assert(w >= sc) by {
                if w < sc {
                    assert(mutual(m2, d2, sc, w));
                }
            }
            assert(mutual(m2, d2, z, sj));
            assert(is_scc_min(m2, d2, sj, sj));
            assert(z >= sj) by {
                if z < sj {
                    assert(mutual(m2, d2, sj, z));
                }
            }
            lemma_edge_down(members, deps, o, d2, b, w, z);
            lemma_reaches_members(m2, d2, sc, sc);
            lemma_mask_at(b, r, d2.len(), sc);
            lemma_mutual_moved(members, deps, o, d2, b, w - b, z - b);
            assert(!mutual(m2, d2, w, z));
            assert(z < w) by {
                if w < z {
                    assert(edge(m, deps, o[w - b] as int, o[z - b] as int));
                    assert(mutual(m, deps, o[w - b] as int, o[z - b] as int));
                }
            }
            assert(z < sc) by {
                if z >= sc {
                    if z == sc {
                        assert(mutual(m2, d2, w, z));
                    } else {
                        lemma_mutual_moved(members, deps, o, d2, b, sc - b, w - b);
                        lemma_mutual_moved(members, deps, o, d2, b, sc - b, z - b);
                        assert(mutual(m, deps, o[sc - b] as int, o[w - b] as int));
                        assert(mutual(m, deps, o[sc - b] as int, o[z - b] as int));
                        lemma_mutual_trans(m2, d2, w, sc, z);
                    }
                }
            }
            assert(jj < c) by {
                if jj > c {
                    assert(cs[c] < cs[jj]);
                }
            }
        }
        lemma_dfs_backward(cdl);
        let bi = comp_blocks(m2, d2, o2, ci, i);
        let t = bi.len() as int;
        lemma_comp_blocks_grow(m2, d2, o2, ci, i + 1, r as int);
        assert(comp_blocks(m2, d2, o2, ci, i + 1) == bi.push(ci[na]));
        assert(comp_blocks(m2, d2, o2, ci, r as int) == iota(cdl.len()));
        let cb = comp_blocks(m2, d2, o2, ci, r as int);
        assert(cb.take(t + 1) == bi.push(ci[na]));
        assert(cb.take(t + 1)[t] == cb[t]);
        assert(cb[t] == ci[na]);
        assert(cb == iota(cdl.len()));
        assert(t < cdl.len());
        lemma_comp_blocks_len(m2, d2, o2, ci, i);
        assert(iota(cdl.len())[t] == t as usize);
        assert(ci[na] as int == t);
        lemma_mask_at(b, r, d2.len(), ni);
        lemma_mask_at(b, r, d2.len(), na);
        lemma_comps_mutual(m2, d2, ci, cs, cm, ni, ni);
        lemma_comps_mutual(m2, d2, ci, cs, cm, na, na);
        let c0 = cs[ci[ni] as int] as int;
        assert(is_scc_min(m2, d2, ni, c0));
        lemma_reaches_members(m2, d2, ni, c0);
        assert(mutual(m2, d2, c0, ni));
        lemma_mutual_refl(m2, d2, ni);
        assert(c0 == ni) by {
            if c0 > ni {
                assert(!mutual(m2, d2, ni, ni));
            }
        }
        assert(cs[ci[na] as int] as int > ni);
        assert(ci[ni] < t) by {
            if ci[ni] >= t {
                if ci[ni] > t {
                    assert(cs[t] < cs[ci[ni] as int]);
                }
            }
        }
        lemma_comp_blocks_grow(m2, d2, o2, ci, i, r as int);
        assert(bi == iota(cdl.len()).take(t));
        assert(bi[ci[ni] as int] == ci[ni]);
        lemma_comp_blocks_elems(m2, d2, o2, ci, i, ci[ni] as int);
        let q = choose|q: int| 0 <= q < i && #[trigger] ci[o2[q] as int] == bi[ci[ni] as int];
        assert(o2[q] as int == b + q);
        lemma_mask_at(b, r, d2.len(), b + q);
        lemma_comps_mutual(m2, d2, ci, cs, cm, b + q, ni);
        assert(mutual(m2, d2, b + q, ni));
    }
}

/// Ordering settles, whatever the ties: when `o` is an order of `members`
/// that `order_scope` may return, and the items are renumbered by their
/// position in `o` from `b` on (dependencies `d2`, names `n2`), the only
/// order of the renumbered items that `order_scope` may return is
/// `b..b + n` itself.
#[verifier::rlimit(100)]
#[verifier::spinoff_prover]
pub proof fn lemma_order_settles(
    members: Seq<usize>,
    deps: Seq<Vec<usize>>,
    names: Seq<Seq<char>>,
    opts: OrderOpts,
    o: Seq<usize>,
    g: Seq<Vec<usize>>,
    d2: Seq<Vec<usize>>,
    n2: Seq<Seq<char>>,
    b: nat,
    o2: Seq<usize>,
    g2: Seq<Vec<usize>>,
)
    requires
        order_spec(members, deps, names, opts, o, g),
        forall|i: int| 0 <= i < members.len() ==> #[trigger] members[i] < deps.len(),
        opts.outside == Tie::Alphabetical ==> forall|i: int| 0 <= i < members.len() ==> #[trigger] members[i] < names.len(),
        members.len() <= usize::MAX,
        deps.len() <= usize::MAX,
        d2.len() <= usize::MAX,
        renumbered_deps(o, deps, d2, b),
        n2.len() >= b + o.len(),
        forall|x: int| b <= x < b + o.len() ==> #[trigger] n2[x] == names[o[x - b] as int],
        order_spec(iota_at(b, o.len()), d2, n2, opts, o2, g2),
    ensures
        o2 == iota_at(b, o.len()),
{
    let r = o.len();
    let m = scope_mask(members, deps.len());
    let m2 = scope_mask(iota_at(b, r), d2.len());
    let tie = opts.inside;
    assert(setting(members, deps, o, d2, b));
    assert forall|x: usize| #[trigger] o2.contains(x) <==> b <= x < b + r by {
        if b <= x < b + r {
            assert(iota_at(b, r)[x - b] == x);
        }
        if iota_at(b, r).contains(x) {
            let k = choose|k: int| 0 <= k < iota_at(b, r).len() && iota_at(b, r)[k] == x;
            assert(iota_at(b, r)[k] == (b + k) as usize);
        }
    }
    if !(forall|k: int| 0 <= k < r ==> o2[k] as int == b + k) {
        let i = lemma_first_diff(o2, b, 0);
        let a = o2[i] as int;
        assert(o2.contains(o2[i]));
        let pa = a - b;
        assert(pa > i) by {
            if pa < i {
                assert(o2[pa] as int == b + pa);
            }
        }
        assert(o2.contains((b + i) as usize));
        let j = choose|j: int| 0 <= j < o2.len() && o2[j] == (b + i) as usize;
        assert(j > i) by {
            if j < i {
                assert(o2[j] as int == b + j);
            }
        }
        assert(o2[j] as int == b + i);
        lemma_mutual_moved(members, deps, o, d2, b, pa, i);
        if mutual(m2, d2, a, b + i) {
            // the same component: the inside order runs both ways
            lemma_run_mutual(m2, d2, o2, i, j);
            lemma_inside_chain(m2, d2, n2, tie, o2, i, j);
            assert(mutual(m, deps, o[i] as int, o[pa] as int));
            lemma_run_mutual(m, deps, o, i, pa);
            lemma_inside_chain(m, deps, names, tie, o, i, pa);
            lemma_inside_lt_asym(tie, names, o[i] as int, o[pa] as int);
            assert(n2[a] == names[o[pa] as int] && n2[b + i] == names[o[i] as int]);
            assert(false);
        } else {
            // item `o[i]` starts its component in `o`
            assert(block_start(m, deps, o, i)) by {
                if i > 0 && mutual(m, deps, o[i - 1] as int, o[i] as int) {
                    lemma_mutual_moved(members, deps, o, d2, b, i - 1, i);
                    assert(o2[i - 1] as int == b + i - 1);
                    assert(mutual(m2, d2, o2[i - 1] as int, o2[j] as int));
                    assert(mutual(m2, d2, o2[i - 1] as int, o2[i] as int));
                    lemma_mutual_trans(m2, d2, a, b + i - 1, b + i);
                }
            }
            // its component lies from position `i` on
            assert forall|y: int| #[trigger] mutual(m2, d2, y, b + i) implies y >= b + i by {
                lemma_reaches_members(m2, d2, y, b + i);
                lemma_mask_at(b, r, d2.len(), y);
                if y < b + i {
                    let py = y - b;
                    lemma_mutual_moved(members, deps, o, d2, b, py, i);
                    if py < i - 1 {
                        assert(mutual(m, deps, o[py] as int, o[i] as int));
                        assert(mutual(m, deps, o[py] as int, o[i - 1] as int));
                        lemma_mutual_trans(m, deps, o[i - 1] as int, o[py] as int, o[i] as int);
                    }
                }
            }
            // item `a` starts its component in `o2`
            assert(i == 0 || !mutual(m2, d2, b + i - 1, a)) by {
                if i > 0 && mutual(m2, d2, b + i - 1, a) {
                    lemma_mutual_moved(members, deps, o, d2, b, i - 1, pa);
                    assert(mutual(m, deps, o[i - 1] as int, o[pa] as int));
                    assert(mutual(m, deps, o[i - 1] as int, o[i] as int));
                }
            }
            assert(block_start(m2, d2, o2, i)) by {
                if i > 0 {
                    assert(o2[i - 1] as int == b + i - 1);
                }
            }
            // and its component lies after position `i`
            assert forall|y: int| #[trigger] mutual(m2, d2, a, y) implies y > b + i by {
                lemma_reaches_members(m2, d2, a, y);
                lemma_mask_at(b, r, d2.len(), y);
                if y <= b + i {
                    if y == b + i {
                        assert(mutual(m2, d2, a, b + i));
                    } else if y == b + i - 1 {
                        assert(mutual(m2, d2, b + i - 1, a));
                    } else {
                        assert(o2[y - b] as int == y);
                        assert(o2[i - 1] as int == b + i - 1);
                        assert(mutual(m2, d2, o2[y - b] as int, o2[i] as int));
                        assert(mutual(m2, d2, o2[y - b] as int, o2[i - 1] as int));
                        lemma_mutual_trans(m2, d2, b + i - 1, y, a);
                    }
                }
            }
            // everything item `b + i`'s component uses lies before position `i`
            assert(ready_at(m2, d2, o2, i, o2[j] as int)) by {
                assert forall|w: int, z: int|
                    mutual(m2, d2, w, b + i) && #[trigger] edge(m2, d2, w, z) && !mutual(m2, d2, z, b + i) implies o2.take(
                    i,
                ).contains(z as usize) by {
                    lemma_edge_down(members, deps, o, d2, b, w, z);
                    assert(w >= b + i);
                    lemma_mutual_moved(members, deps, o, d2, b, w - b, z - b);
                    lemma_mutual_moved(members, deps, o, d2, b, w - b, i);
                    lemma_mutual_moved(members, deps, o, d2, b, z - b, i);
                    if w < z {
                        assert(mutual(m, deps, o[w - b] as int, o[z - b] as int));
                        lemma_mutual_trans(m2, d2, z, w, b + i);
                    } else if z == w {
                    } else if z >= b + i {
                        if z == b + i {
                            lemma_mutual_refl(m2, d2, b + i);
                        } else {
                            assert(mutual(m, deps, o[i] as int, o[w - b] as int));
                            assert(mutual(m, deps, o[i] as int, o[z - b] as int));
                        }
                    } else {
                        assert(o2.take(i)[z - b] == o2[z - b]);
                        assert(o2[z - b] as int == z);
                    }
                }
            }
            assert(!mutual(m2, d2, o2[i] as int, o2[j] as int));
            lemma_mask_at(b, r, d2.len(), b + i);
            lemma_mask_at(b, r, d2.len(), a);
            lemma_mutual_refl(m2, d2, b + i);
            assert forall|y: int| 0 <= y < b + i implies !#[trigger] mutual(m2, d2, b + i, y) by {
                if mutual(m2, d2, b + i, y) {
                    assert(mutual(m2, d2, y, b + i));
                }
            }
            assert(is_scc_min(m2, d2, b + i, b + i));
            lemma_scc_min_unique(m2, d2, b + i, b + i);
            lemma_mutual_refl(m2, d2, a);
            lemma_scc_min_exists(m2, d2, a, a);
            assert(mutual(m2, d2, a, scc_min(m2, d2, a)));
            assert(scc_min(m2, d2, a) > scc_min(m2, d2, b + i));
            if opts.outside == Tie::Topological {
                // the depth-first order would put item `b + i`'s component first
                assert(topo_spec(m2, d2, o2));
                lemma_topo_settles(members, deps, names, opts, o, g, d2, b, o2, i, pa);
                assert(false);
            } else {
                assert(key_lt(opts.outside, m2, d2, n2, a, b + i));
            }
            if opts.outside == Tie::Alphabetical {
                // `o` chose `o[i]` over `o[pa]`, both free to go at position `i`
                assert(!mutual(m, deps, o[i] as int, o[pa] as int));
                assert(ready_at(m, deps, o, i, o[pa] as int)) by {
                    assert forall|w: int, z: int|
                        mutual(m, deps, w, o[pa] as int) && #[trigger] edge(m, deps, w, z) && !mutual(m, deps, z, o[pa] as int)
                        implies o.take(i).contains(z as usize) by {
                        lemma_reaches_members(m, deps, w, o[pa] as int);
                        lemma_pos_of(members, deps, o, d2, b, w);
                        lemma_pos_of(members, deps, o, d2, b, z);
                        let w2 = pos_of(o, w);
                        let z2 = pos_of(o, z);
                        lemma_edge_up(members, deps, o, d2, b, w2, z2);
                        lemma_mutual_moved(members, deps, o, d2, b, w2, pa);
                        lemma_mutual_moved(members, deps, o, d2, b, z2, pa);
                        lemma_mutual_moved(members, deps, o, d2, b, w2, z2);
                        assert(mutual(m2, d2, a, b + w2));
                        assert(b + w2 > b + i);
                        assert(o2.contains((b + w2) as usize));
                        assert(o2.contains((b + z2) as usize));
                        let pw = choose|t: int| 0 <= t < o2.len() && o2[t] == (b + w2) as usize;
                        let pz = choose|t: int| 0 <= t < o2.len() && o2[t] == (b + z2) as usize;
                        assert(pw >= i) by {
                            if pw < i {
                                assert(o2[pw] as int == b + pw);
                            }
                        }
                        if pw < pz {
                            assert(edge(m2, d2, o2[pw] as int, o2[pz] as int));
                            assert(mutual(m2, d2, b + w2, b + z2));
                            lemma_mutual_trans(m2, d2, b + z2, b + w2, a);
                        } else if pw == pz {
                        } else if pz >= i {
                            if pz == i {
                                assert(b + z2 == a);
                            } else {
                                assert(mutual(m2, d2, o2[i] as int, o2[pw] as int));
                                assert(mutual(m2, d2, o2[i] as int, o2[pz] as int));
                            }
                        } else {
                            assert(o2[pz] as int == b + pz);
                            assert(z2 < i);
                            assert(o.take(i)[z2] == o[z2]);
                        }
                    }
                }
                assert(key_lt(opts.outside, m, deps, names, o[i] as int, o[pa] as int));
                lemma_min_name_moved(members, deps, names, o, d2, b, n2, pa);
                lemma_min_name_moved(members, deps, names, o, d2, b, n2, i);
                let sa = scc_min_name(m, deps, names, o[pa] as int);
                let si = scc_min_name(m, deps, names, o[i] as int);
                assert(lex_lt(sa, si));
                if lex_lt(si, sa) {
                    lemma_lex_asym(si, sa);
                } else {
                    lemma_lex_irrefl(sa);
                }
            }
            assert(false);
        }
    }
    assert(o2 =~= iota_at(b, r));
}

/// Two strictly increasing sequences with the same elements are equal.
proof fn lemma_sorted_unique(a: Seq<usize>, b: Seq<usize>)
    requires
        forall|i: int, j: int| 0 <= i < j < a.len() ==> #[trigger] a[i] < #[trigger] a[j],
        forall|i: int, j: int| 0 <= i < j < b.len() ==> #[trigger] b[i] < #[trigger] b[j],
        forall|x: usize| #[trigger] a.contains(x) <==> b.contains(x),
    ensures
        a == b,
    decreases a.len(),
{
    if a.len() == 0 {
        if b.len() > 0 {
            assert(b.contains(b[0]));
            assert(a.contains(b[0]));
        }
        assert(a =~= b);
    } else if b.len() == 0 {
        assert(a.contains(a[0]));
    } else {
        let x = a.last();
        let y = b.last();
        assert(a.contains(x));
        assert(b.contains(x));
        assert(b.contains(y));
        assert(a.contains(y));
        let p = choose|p: int| 0 <= p < b.len() && b[p] == x;
        let q = choose|q: int| 0 <= q < a.len() && a[q] == y;
        assert(x <= y) by {
            if p < b.len() - 1 {
                assert(b[p] < b[b.len() - 1]);
            }
        }
        assert(y <= x) by {
            if q < a.len() - 1 {
                assert(a[q] < a[a.len() - 1]);
            }
        }
        let a2 = a.drop_last();
        let b2 = b.drop_last();
        assert forall|z: usize| #[trigger] a2.contains(z) <==> b2.contains(z) by {
            if a2.contains(z) {
                let u = choose|u: int| 0 <= u < a2.len() && a2[u] == z;
                assert(a[u] < a[a.len() - 1]);
                assert(a.contains(z));
                let v = choose|v: int| 0 <= v < b.len() && b[v] == z;
                assert(v < b.len() - 1);
                assert(b2[v] == z);
            }
            if b2.contains(z) {
                let u = choose|u: int| 0 <= u < b2.len() && b2[u] == z;
                assert(b[u] < b[b.len() - 1]);
                assert(b.contains(z));
                assert(a.contains(z));
                let v = choose|v: int| 0 <= v < a.len() && a[v] == z;
                assert(v < a.len() - 1);
                assert(a2[v] == z);
            }
        }
        lemma_sorted_unique(a2, b2);
        assert(a =~= a2.push(x));
        assert(b =~= b2.push(y));
    }
}

/// The representatives of a decomposition are exactly the members that are
/// the smallest on their cycles.
proof fn lemma_reps_are_mins(m: Seq<bool>, d: Seq<Vec<usize>>, ci: Seq<usize>, cs: Seq<usize>, cm: Seq<Vec<usize>>, x: usize)
    requires
        comps_wf(m, d, ci, cs, cm),
    ensures
        cs.contains(x) <==> (x < m.len() && m[x as int] && is_scc_min(m, d, x as int, x as int)),
{
    if cs.contains(x) {
        let k = choose|k: int| 0 <= k < cs.len() && cs[k] == x;
        assert(is_scc_min(m, d, cs[k] as int, cs[k] as int));
        lemma_reaches_members(m, d, x as int, x as int);
    }
    if x < m.len() && m[x as int] && is_scc_min(m, d, x as int, x as int) {
        let k = ci[x as int] as int;
        let c = cs[k] as int;
        assert(mutual(m, d, x as int, c));
        assert(is_scc_min(m, d, c, c));
        assert(c == x) by {
            if c < x {
                assert(!mutual(m, d, x as int, c));
            } else if x < c {
                assert(mutual(m, d, c, x as int));
            }
        }
        assert(cs[k] == x);
    }
}

/// Two decompositions into components number them alike.
proof fn lemma_comps_agree(
    m: Seq<bool>,
    d: Seq<Vec<usize>>,
    ci1: Seq<usize>,
    cs1: Seq<usize>,
    cm1: Seq<Vec<usize>>,
    ci2: Seq<usize>,
    cs2: Seq<usize>,
    cm2: Seq<Vec<usize>>,
)
    requires
        comps_wf(m, d, ci1, cs1, cm1),
        comps_wf(m, d, ci2, cs2, cm2),
    ensures
        cs1 == cs2,
        forall|y: int| 0 <= y < m.len() && m[y] ==> #[trigger] ci1[y] == ci2[y],
{
    assert forall|x: usize| #[trigger] cs1.contains(x) <==> cs2.contains(x) by {
        lemma_reps_are_mins(m, d, ci1, cs1, cm1, x);
        lemma_reps_are_mins(m, d, ci2, cs2, cm2, x);
    }
    lemma_sorted_unique(cs1, cs2);
    assert forall|y: int| 0 <= y < m.len() && m[y] implies #[trigger] ci1[y] == ci2[y] by {
        let u = cs1[ci1[y] as int] as int;
        let v = cs1[ci2[y] as int] as int;
        assert(mutual(m, d, y, u));
        assert(mutual(m, d, y, v));
        assert(mutual(m, d, u, y));
        lemma_mutual_trans(m, d, u, y, v);
        assert(is_scc_min(m, d, u, u));
        assert(is_scc_min(m, d, v, v));
        assert(u == v) by {
            if u < v {
                assert(mutual(m, d, v, u));
            } else if v < u {
                assert(!mutual(m, d, u, v));
            }
        }
        if ci1[y] < ci2[y] {
            assert(cs1[ci1[y] as int] < cs1[ci2[y] as int]);
        } else if ci2[y] < ci1[y] {
            assert(cs1[ci2[y] as int] < cs1[ci1[y] as int]);
        }
    }
}

/// Component dependency lists over numberings that agree on the members
/// are the same.
proof fn lemma_cdl_agree(
    m: Seq<bool>,
    d: Seq<Vec<usize>>,
    ci1: Seq<usize>,
    ci2: Seq<usize>,
    nc: int,
    cdl1: Seq<Seq<usize>>,
    cdl2: Seq<Seq<usize>>,
)
    requires
        cdl_wf(m, d, ci1, nc, cdl1),
        cdl_wf(m, d, ci2, nc, cdl2),
        forall|y: int| 0 <= y < m.len() && m[y] ==> #[trigger] ci1[y] == ci2[y],
    ensures
        cdl1 == cdl2,
{
    assert forall|k: int, j: int| 0 <= k < nc && 0 <= j < nc implies (cdep(m, d, ci1, k, j) <==> cdep(m, d, ci2, k, j)) by {
        if cdep(m, d, ci1, k, j) {
            let (w, z) = choose|w: int, z: int|
                0 <= w < m.len() && m[w] && ci1[w] == k && #[trigger] edge(m, d, w, z) && ci1[z] == j;
            assert(ci2[w] == ci1[w] && ci2[z] == ci1[z]);
            assert(cdep(m, d, ci2, k, j));
        }
        if cdep(m, d, ci2, k, j) {
            let (w, z) = choose|w: int, z: int|
                0 <= w < m.len() && m[w] && ci2[w] == k && #[trigger] edge(m, d, w, z) && ci2[z] == j;
            assert(ci2[w] == ci1[w] && ci2[z] == ci1[z]);
            assert(cdep(m, d, ci1, k, j));
        }
    }
    assert forall|k: int| 0 <= k < nc implies #[trigger] cdl1[k] == cdl2[k] by {
        assert forall|x: usize| #[trigger] cdl1[k].contains(x) <==> cdl2[k].contains(x) by {
            if cdl1[k].contains(x) {
                let a = choose|a: int| 0 <= a < cdl1[k].len() && cdl1[k][a] == x;
                assert(cdl1[k][a] < nc);
                assert(cdl1[k].contains(x as int as usize));
                assert(cdep(m, d, ci1, k, x as int));
            }
            if cdl2[k].contains(x) {
                let a = choose|a: int| 0 <= a < cdl2[k].len() && cdl2[k][a] == x;
                assert(cdl2[k][a] < nc);
                assert(cdl2[k].contains(x as int as usize));
                assert(cdep(m, d, ci2, k, x as int));
            }
        }
        lemma_sorted_unique(cdl1[k], cdl2[k]);
    }
    assert(cdl1 =~= cdl2);
}

/// The components met along the members, over numberings that agree on
/// the members, are the same.
proof fn lemma_comp_blocks_agree(m: Seq<bool>, d: Seq<Vec<usize>>, o: Seq<usize>, ci1: Seq<usize>, ci2: Seq<usize>, k: int)
    requires
        0 <= k <= o.len(),
        forall|q: int| 0 <= q < k ==> #[trigger] o[q] < m.len() && m[o[q] as int],
        forall|y: int| 0 <= y < m.len() && m[y] ==> #[trigger] ci1[y] == ci2[y],
    ensures
        comp_blocks(m, d, o, ci1, k) == comp_blocks(m, d, o, ci2, k),
    decreases k,
{
    if k > 0 {
        lemma_comp_blocks_agree(m, d, o, ci1, ci2, k - 1);
        assert(o[k - 1] < m.len() && m[o[k - 1] as int]);
        assert(ci1[o[k - 1] as int] == ci2[o[k - 1] as int]);
    }
}

/// The components met along the first `k` entries depend on those only.
proof fn lemma_comp_blocks_same_prefix(m: Seq<bool>, d: Seq<Vec<usize>>, o1: Seq<usize>, o2: Seq<usize>, ci: Seq<usize>, k: int)
    requires
        0 <= k <= o1.len(),
        k <= o2.len(),
        forall|q: int| 0 <= q < k ==> #[trigger] o1[q] == o2[q],
    ensures
        comp_blocks(m, d, o1, ci, k) == comp_blocks(m, d, o2, ci, k),
    decreases k,
{
    if k > 0 {
        lemma_comp_blocks_same_prefix(m, d, o1, o2, ci, k - 1);
        assert(o1[k - 1] == o2[k - 1]);
        if k > 1 {
            assert(o1[k - 2] == o2[k - 2]);
        }
    }
}

/// The first position where two sequences of one length differ.
proof fn lemma_first_mismatch(o1: Seq<usize>, o2: Seq<usize>, k: int) -> (i: int)
    requires
        o1.len() == o2.len(),
        0 <= k <= o1.len(),
        forall|j: int| 0 <= j < k ==> o1[j] == o2[j],
        exists|j: int| k <= j < o1.len() && o1[j] != o2[j],
    ensures
        k <= i < o1.len(),
        o1[i] != o2[i],
        forall|j: int| 0 <= j < i ==> o1[j] == o2[j],
    decreases o1.len() - k,
{
    if o1[k] != o2[k] {
        k
    } else {
        lemma_first_mismatch(o1, o2, k + 1)
    }
}

/// In an order that keeps components contiguous and puts dependencies
/// first, the member that starts a component at position `i` is free to go
/// there: everything its component uses lies before `i`.
proof fn lemma_ready_at_start(m: Seq<bool>, d: Seq<Vec<usize>>, o: Seq<usize>, i: int)
    requires
        0 <= i < o.len(),
        o.no_duplicates(),
        m.len() <= usize::MAX,
        forall|x: int| 0 <= x < m.len() && m[x] ==> #[trigger] o.contains(x as usize),
        forall|p: int, q: int|
            0 <= p < q < o.len() && #[trigger] edge(m, d, o[p] as int, o[q] as int) ==> mutual(m, d, o[p] as int, o[q] as int),
        forall|p: int, j: int, q: int|
            0 <= p < j < q < o.len() && mutual(m, d, #[trigger] o[p] as int, #[trigger] o[q] as int) ==> mutual(
                m,
                d,
                o[p] as int,
                #[trigger] o[j] as int,
            ),
        block_start(m, d, o, i),
    ensures
        ready_at(m, d, o, i, o[i] as int),
        forall|p: int| 0 <= p < i ==> !mutual(m, d, #[trigger] o[p] as int, o[i] as int),
{
    let b = o[i] as int;
    assert forall|p: int| 0 <= p < i implies !mutual(m, d, #[trigger] o[p] as int, b) by {
        if mutual(m, d, o[p] as int, b) {
            if p < i - 1 {
                assert(mutual(m, d, o[p] as int, o[i - 1] as int));
                assert(mutual(m, d, o[i - 1] as int, o[p] as int));
                lemma_mutual_trans(m, d, o[i - 1] as int, o[p] as int, b);
            }
        }
    }
    assert forall|w: int, z: int|
        mutual(m, d, w, b) && #[trigger] edge(m, d, w, z) && !mutual(m, d, z, b) implies o.take(i).contains(z as usize) by {
        assert(o.contains(w as usize));
        assert(o.contains(z as usize));
        let pw = choose|t: int| 0 <= t < o.len() && o[t] == w as usize;
        let pz = choose|t: int| 0 <= t < o.len() && o[t] == z as usize;
        assert(pw >= i) by {
            if pw < i {
                assert(!mutual(m, d, o[pw] as int, b));
                assert(mutual(m, d, b, w));
            }
        }
        if pw < pz {
            assert(edge(m, d, o[pw] as int, o[pz] as int));
            assert(mutual(m, d, w, z));
            assert(mutual(m, d, z, w));
            lemma_mutual_trans(m, d, z, w, b);
        } else if pw == pz {
        } else if pz >= i {
            if pz == i {
                lemma_mutual_refl(m, d, b);
            } else {
                assert(mutual(m, d, b, w));
                assert(mutual(m, d, o[i] as int, o[pw] as int));
                assert(mutual(m, d, o[i] as int, o[pz] as int));
                assert(mutual(m, d, z, b));
            }
        } else {
            assert(o.take(i)[pz] == o[pz]);
        }
    }
}

/// There is one order that `order_scope` may return: two orders that meet
/// its contract for the same members (given in any order), dependencies,
/// names and options are equal.
#[verifier::rlimit(60)]
#[verifier::spinoff_prover]
pub proof fn lemma_order_unique(
    members1: Seq<usize>,
    members2: Seq<usize>,
    deps: Seq<Vec<usize>>,
    names: Seq<Seq<char>>,
    opts: OrderOpts,
    o1: Seq<usize>,
    g1: Seq<Vec<usize>>,
    o2: Seq<usize>,
    g2: Seq<Vec<usize>>,
)
    requires
        order_spec(members1, deps, names, opts, o1, g1),
        order_spec(members2, deps, names, opts, o2, g2),
        forall|x: usize| #[trigger] members1.contains(x) <==> members2.contains(x),
        forall|i: int| 0 <= i < members1.len() ==> #[trigger] members1[i] < deps.len(),
        deps.len() <= usize::MAX,
    ensures
        o1 == o2,
{
    let m = scope_mask(members1, deps.len());
    let d = deps;
    let tie = opts.inside;
    assert(scope_mask(members2, deps.len()) =~= m);
    assert forall|x: usize| #[trigger] o1.contains(x) <==> o2.contains(x) by {
        assert(o1.contains(x) <==> members1.contains(x));
        assert(o2.contains(x) <==> members2.contains(x));
    }
    lemma_same_elements_same_len(o1, o2);
    let r = o1.len();
    assert forall|p: int| 0 <= p < r implies #[trigger] o1[p] < m.len() && m[o1[p] as int] && o2[p] < m.len() && m[o2[p] as int] by {
        assert(o1.contains(o1[p]));
        let q = choose|q: int| 0 <= q < members1.len() && members1[q] == o1[p];
        assert(members1[q] < deps.len());
        assert(o2.contains(o2[p]));
        assert(members1.contains(o2[p]));
        let q2 = choose|q2: int| 0 <= q2 < members1.len() && members1[q2] == o2[p];
        assert(members1[q2] < deps.len());
    }
    assert forall|x: int| 0 <= x < m.len() && m[x] implies #[trigger] o1.contains(x as usize) && o2.contains(x as usize) by {
        assert(members1.contains(x as usize));
    }
    if exists|j: int| 0 <= j < r && o1[j] != o2[j] {
        let i = lemma_first_mismatch(o1, o2, 0);
        let a = o1[i] as int;
        let b = o2[i] as int;
        assert(o1.contains(o2[i]));
        let j = choose|j: int| 0 <= j < r && o1[j] == o2[i];
        assert(j > i) by {
            if j < i {
                assert(o2[j] == o2[i]);
            }
        }
        assert(o2.contains(o1[i]));
        let k = choose|k: int| 0 <= k < r && o2[k] == o1[i];
        assert(k > i) by {
            if k < i {
                assert(o1[k] == o1[i]);
            }
        }
        if mutual(m, d, a, b) {
            // one component: the inside order runs both ways
            lemma_run_mutual(m, d, o1, i, j);
            lemma_inside_chain(m, d, names, tie, o1, i, j);
            assert(mutual(m, d, b, a));
            lemma_run_mutual(m, d, o2, i, k);
            lemma_inside_chain(m, d, names, tie, o2, i, k);
            lemma_inside_lt_asym(tie, names, a, b);
            assert(false);
        } else {
            // both start a component at position `i`
            assert(block_start(m, d, o1, i)) by {
                if i > 0 && mutual(m, d, o1[i - 1] as int, a) {
                    assert(o2[i - 1] == o1[i - 1]);
                    assert(mutual(m, d, o2[i - 1] as int, o2[k] as int));
                    assert(mutual(m, d, o2[i - 1] as int, o2[i] as int));
                    assert(mutual(m, d, a, o1[i - 1] as int));
                    lemma_mutual_trans(m, d, a, o1[i - 1] as int, b);
                }
            }
            assert(block_start(m, d, o2, i)) by {
                if i > 0 && mutual(m, d, o2[i - 1] as int, b) {
                    assert(o2[i - 1] == o1[i - 1]);
                    assert(mutual(m, d, o1[i - 1] as int, o1[j] as int));
                    assert(mutual(m, d, o1[i - 1] as int, o1[i] as int));
                    assert(mutual(m, d, a, o1[i - 1] as int));
                    lemma_mutual_trans(m, d, a, o1[i - 1] as int, b);
                }
            }
            lemma_ready_at_start(m, d, o1, i);
            lemma_ready_at_start(m, d, o2, i);
            assert(o1.take(i) =~= o2.take(i));
            if opts.outside == Tie::Topological {
                let (ci1, cs1, cm1, cdl1) = choose|ci: Seq<usize>, cs: Seq<usize>, cm: Seq<Vec<usize>>, cdl: Seq<Seq<usize>>|
                    #[trigger] topo_parts(m, d, o1, ci, cs, cm, cdl);
                let (ci2, cs2, cm2, cdl2) = choose|ci: Seq<usize>, cs: Seq<usize>, cm: Seq<Vec<usize>>, cdl: Seq<Seq<usize>>|
                    #[trigger] topo_parts(m, d, o2, ci, cs, cm, cdl);
                lemma_comps_agree(m, d, ci1, cs1, cm1, ci2, cs2, cm2);
                lemma_cdl_agree(m, d, ci1, ci2, cs1.len() as int, cdl1, cdl2);
                lemma_comp_blocks_agree(m, d, o2, ci1, ci2, r as int);
                let cb = comp_blocks(m, d, o1, ci1, r as int);
                assert(cb == comp_blocks(m, d, o2, ci1, r as int));
                lemma_comp_blocks_same_prefix(m, d, o1, o2, ci1, i);
                let bi = comp_blocks(m, d, o1, ci1, i);
                let t = bi.len() as int;
                assert(comp_blocks(m, d, o1, ci1, i + 1) == bi.push(ci1[a]));
                assert(comp_blocks(m, d, o2, ci1, i + 1) == bi.push(ci1[b]));
                lemma_comp_blocks_grow(m, d, o1, ci1, i + 1, r as int);
                lemma_comp_blocks_grow(m, d, o2, ci1, i + 1, r as int);
                assert(cb.take(t + 1)[t] == ci1[a]);
                assert(cb.take(t + 1)[t] == ci1[b]);
                lemma_comps_mutual(m, d, ci1, cs1, cm1, a, b);
                assert(false);
            } else {
                assert(ready_at(m, d, o1, i, b));
                assert(ready_at(m, d, o2, i, a));
                assert(!mutual(m, d, o1[i] as int, o1[j] as int));
                assert(key_lt(opts.outside, m, d, names, a, b));
                assert(!mutual(m, d, o2[i] as int, o2[k] as int)) by {
                    if mutual(m, d, b, a) {
                        assert(mutual(m, d, a, b));
                    }
                }
                assert(key_lt(opts.outside, m, d, names, b, a));
                if opts.outside == Tie::Alphabetical {
                    let sa = scc_min_name(m, d, names, a);
                    let sb = scc_min_name(m, d, names, b);
                    if lex_lt(sa, sb) {
                        if lex_lt(sb, sa) {
                            lemma_lex_asym(sa, sb);
                        } else {
                            lemma_lex_irrefl(sa);
                        }
                    } else if lex_lt(sb, sa) {
                        lemma_lex_irrefl(sb);
                    }
                }
                assert(false);
            }
        }
    }
    assert(o1 =~= o2);
}


/// The group of `g2` that holds what group `k` of `g1` holds.
spec fn twin(g1: Seq<Vec<usize>>, g2: Seq<Vec<usize>>, k: int) -> int {
    choose|k2: int| 0 <= k2 < g2.len() && g2[k2]@ == g1[k]@
}

/// Two lists of groups that meet the contract for the same order: each
/// group of the one is a group of the other.
#[verifier::rlimit(40)]
#[verifier::spinoff_prover]
proof fn lemma_twin(
    members: Seq<usize>,
    deps: Seq<Vec<usize>>,
    names: Seq<Seq<char>>,
    opts: OrderOpts,
    o: Seq<usize>,
    g1: Seq<Vec<usize>>,
    g2: Seq<Vec<usize>>,
    k: int,
)
    requires
        order_spec(members, deps, names, opts, o, g1),
        order_spec(members, deps, names, opts, o, g2),
        forall|i: int| 0 <= i < members.len() ==> #[trigger] members[i] < deps.len(),
        0 <= k < g1.len(),
    ensures
        0 <= twin(g1, g2, k) < g2.len(),
        g2[twin(g1, g2, k)]@ == g1[k]@,
{
    let m = scope_mask(members, deps.len());
    let d = deps;
    assert forall|p: int| 0 <= p < o.len() implies #[trigger] o[p] < m.len() && m[o[p] as int] by {
        assert(o.contains(o[p]));
        let q = choose|q: int| 0 <= q < members.len() && members[q] == o[p];
        assert(members[q] < deps.len());
    }
    lemma_group_pos(members, deps, names, opts, o, g1, k);
    let s1 = group_pos(o, g1, k);
    let l1 = g1[k].len() as int;
    assert(l1 >= 2);
    assert(o.subrange(s1, s1 + l1) == g1[k]@);
    let x = g1[k]@[0];
    let y = g1[k]@[1];
    assert(o.subrange(s1, s1 + l1)[1] == o[s1 + 1]);
    assert(x != y);
    assert(y < m.len());
    assert(g1[k]@.contains((y as int) as usize));
    assert(mutual(m, d, x as int, y as int));
    assert(m[x as int]);
    let k2 = choose|k2: int| 0 <= k2 < g2.len() && #[trigger] g2[k2]@.contains(x);
    lemma_group_pos(members, deps, names, opts, o, g2, k2);
    let s2 = group_pos(o, g2, k2);
    let l2 = g2[k2].len() as int;
    assert(l2 >= 2);
    assert(o.subrange(s2, s2 + l2) == g2[k2]@);
    let x2 = g2[k2]@[0];
    assert(g2[k2]@.contains((x as int) as usize));
    assert(mutual(m, d, x2 as int, x as int));
    assert forall|z: usize| #[trigger] g1[k]@.contains(z) <==> g2[k2]@.contains(z) by {
        if g1[k]@.contains(z) {
            let t = choose|t: int| 0 <= t < l1 && g1[k]@[t] == z;
            assert(o.subrange(s1, s1 + l1)[t] == o[s1 + t]);
            assert(z < m.len());
            assert(g1[k]@.contains((z as int) as usize));
            assert(mutual(m, d, x as int, z as int));
            lemma_mutual_trans(m, d, x2 as int, x as int, z as int);
            assert(g2[k2]@.contains((z as int) as usize));
        }
        if g2[k2]@.contains(z) {
            let t = choose|t: int| 0 <= t < l2 && g2[k2]@[t] == z;
            assert(o.subrange(s2, s2 + l2)[t] == o[s2 + t]);
            assert(z < m.len());
            assert(g2[k2]@.contains((z as int) as usize));
            assert(mutual(m, d, x2 as int, z as int));
            assert(mutual(m, d, x as int, x2 as int));
            lemma_mutual_trans(m, d, x as int, x2 as int, z as int);
            assert(g1[k]@.contains((z as int) as usize));
        }
    }
    assert(g1[k]@.no_duplicates()) by {
        assert forall|a: int, b: int| 0 <= a < b < l1 implies g1[k]@[a] != g1[k]@[b] by {
            assert(o.subrange(s1, s1 + l1)[a] == o[s1 + a]);
            assert(o.subrange(s1, s1 + l1)[b] == o[s1 + b]);
        }
    }
    assert(g2[k2]@.no_duplicates()) by {
        assert forall|a: int, b: int| 0 <= a < b < l2 implies g2[k2]@[a] != g2[k2]@[b] by {
            assert(o.subrange(s2, s2 + l2)[a] == o[s2 + a]);
            assert(o.subrange(s2, s2 + l2)[b] == o[s2 + b]);
        }
    }
    lemma_same_elements_same_len(g1[k]@, g2[k2]@);
    assert(s1 == s2) by {
        assert(g2[k2]@.contains(x));
        let t = choose|t: int| 0 <= t < l2 && g2[k2]@[t] == x;
        assert(o.subrange(s2, s2 + l2)[t] == o[s2 + t]);
        assert(s2 + t == s1);
        assert(g1[k]@.contains(x2));
        let u = choose|u: int| 0 <= u < l1 && g1[k]@[u] == x2;
        assert(o.subrange(s1, s1 + l1)[u] == o[s1 + u]);
        assert(s1 + u == s2);
    }
    assert(g2[k2]@ == g1[k]@);
}

/// Matching groups keep their order.
proof fn lemma_twin_mono(
    members: Seq<usize>,
    deps: Seq<Vec<usize>>,
    names: Seq<Seq<char>>,
    opts: OrderOpts,
    o: Seq<usize>,
    g1: Seq<Vec<usize>>,
    g2: Seq<Vec<usize>>,
    k: int,
    k2: int,
)
    requires
        order_spec(members, deps, names, opts, o, g1),
        order_spec(members, deps, names, opts, o, g2),
        forall|i: int| 0 <= i < members.len() ==> #[trigger] members[i] < deps.len(),
        0 <= k < k2 < g1.len(),
    ensures
        twin(g1, g2, k) < twin(g1, g2, k2),
{
    lemma_twin(members, deps, names, opts, o, g1, g2, k);
    lemma_twin(members, deps, names, opts, o, g1, g2, k2);
    let a = twin(g1, g2, k);
    let b = twin(g1, g2, k2);
    lemma_group_pos(members, deps, names, opts, o, g1, k);
    lemma_group_pos(members, deps, names, opts, o, g1, k2);
    let i1 = group_pos(o, g1, k);
    let i2 = group_pos(o, g1, k2);
    assert(o[i1] == g1[k]@[0] && o[i2] == g1[k2]@[0]);
    assert(i1 < i2);
    assert(g2[a]@[0] == g1[k]@[0]);
    assert(g2[b]@[0] == g1[k2]@[0]);
    if a == b {
        assert(g1[k]@.contains(g1[k]@[0]));
        assert(g1[k2]@.contains(g1[k]@[0]));
        lemma_groups_disjoint(members, deps, names, opts, o, g1, k, k2, g1[k]@[0]);
    } else if b < a {
        assert(o[i2] == g2[b]@[0] && o[i1] == g2[a]@[0]);
        assert(i2 < i1);
    }
}

proof fn lemma_twin_ge(
    members: Seq<usize>,
    deps: Seq<Vec<usize>>,
    names: Seq<Seq<char>>,
    opts: OrderOpts,
    o: Seq<usize>,
    g1: Seq<Vec<usize>>,
    g2: Seq<Vec<usize>>,
    k: int,
)
    requires
        order_spec(members, deps, names, opts, o, g1),
        order_spec(members, deps, names, opts, o, g2),
        forall|i: int| 0 <= i < members.len() ==> #[trigger] members[i] < deps.len(),
        0 <= k < g1.len(),
    ensures
        k <= twin(g1, g2, k) < g2.len(),
    decreases k,
{
    lemma_twin(members, deps, names, opts, o, g1, g2, k);
    if k > 0 {
        lemma_twin_ge(members, deps, names, opts, o, g1, g2, k - 1);
        lemma_twin_mono(members, deps, names, opts, o, g1, g2, k - 1, k);
    }
}

proof fn lemma_twin_le(
    members: Seq<usize>,
    deps: Seq<Vec<usize>>,
    names: Seq<Seq<char>>,
    opts: OrderOpts,
    o: Seq<usize>,
    g1: Seq<Vec<usize>>,
    g2: Seq<Vec<usize>>,
    k: int,
)
    requires
        order_spec(members, deps, names, opts, o, g1),
        order_spec(members, deps, names, opts, o, g2),
        forall|i: int| 0 <= i < members.len() ==> #[trigger] members[i] < deps.len(),
        g1.len() == g2.len(),
        0 <= k < g1.len(),
    ensures
        twin(g1, g2, k) <= k,
    decreases g1.len() - k,
{
    lemma_twin(members, deps, names, opts, o, g1, g2, k);
    if k + 1 < g1.len() {
        lemma_twin_le(members, deps, names, opts, o, g1, g2, k + 1);
        lemma_twin_mono(members, deps, names, opts, o, g1, g2, k, k + 1);
    }
}

/// For one order, the mutual groups that meet the contract are the same.
pub proof fn lemma_groups_unique(
    members: Seq<usize>,
    deps: Seq<Vec<usize>>,
    names: Seq<Seq<char>>,
    opts: OrderOpts,
    o: Seq<usize>,
    g1: Seq<Vec<usize>>,
    g2: Seq<Vec<usize>>,
)
    requires
        order_spec(members, deps, names, opts, o, g1),
        order_spec(members, deps, names, opts, o, g2),
        forall|i: int| 0 <= i < members.len() ==> #[trigger] members[i] < deps.len(),
    ensures
        g1.len() == g2.len(),
        forall|k: int| 0 <= k < g1.len() ==> #[trigger] g1[k]@ == g2[k]@,
{
    if g1.len() > 0 {
        lemma_twin_ge(members, deps, names, opts, o, g1, g2, g1.len() - 1);
    }
    if g2.len() > 0 {
        lemma_twin_ge(members, deps, names, opts, o, g2, g1, g2.len() - 1);
    }
    assert forall|k: int| 0 <= k < g1.len() implies #[trigger] g1[k]@ == g2[k]@ by {
        lemma_twin(members, deps, names, opts, o, g1, g2, k);
        lemma_twin_ge(members, deps, names, opts, o, g1, g2, k);
        lemma_twin_le(members, deps, names, opts, o, g1, g2, k);
    }
}

} // verus!
