//! Dependency graphs over item indices: walks, reachability, and the
//! strongly-connected components that become mutual blocks.
//!
//! A graph is given by a membership mask `m` (which indices take part) and
//! dependency lists `d` (`d[x]` lists what `x` uses). Only edges between two
//! members count.

use vstd::prelude::*;

verus! {

/// `x` uses `y`, and both take part in the graph.
pub open spec fn edge(m: Seq<bool>, d: Seq<Vec<usize>>, x: int, y: int) -> bool {
    &&& 0 <= x < m.len()
    &&& 0 <= y < m.len()
    &&& m[x]
    &&& m[y]
    &&& x < d.len()
    &&& d[x]@.contains(y as usize)
}

/// A non-empty walk along edges, starting at a member.
pub open spec fn is_walk(m: Seq<bool>, d: Seq<Vec<usize>>, p: Seq<int>) -> bool {
    &&& p.len() >= 1
    &&& 0 <= p[0] < m.len()
    &&& m[p[0]]
    &&& forall|i: int| 0 <= i < p.len() - 1 ==> #[trigger] edge(m, d, p[i], p[i + 1])
}

/// `y` can be reached from `x` in zero or more steps.
pub open spec fn reaches(m: Seq<bool>, d: Seq<Vec<usize>>, x: int, y: int) -> bool {
    exists|p: Seq<int>| #[trigger] is_walk(m, d, p) && p[0] == x && p.last() == y
}

/// `x` and `y` lie on a common cycle (or are the same member): they belong to
/// the same strongly-connected component.
pub open spec fn mutual(m: Seq<bool>, d: Seq<Vec<usize>>, x: int, y: int) -> bool {
    reaches(m, d, x, y) && reaches(m, d, y, x)
}

/// The membership mask of a set of indices, over `0..n`.
pub open spec fn scope_mask(members: Seq<usize>, n: nat) -> Seq<bool> {
    Seq::new(n, |i: int| members.contains(i as usize))
}

pub proof fn lemma_reaches_refl(m: Seq<bool>, d: Seq<Vec<usize>>, x: int)
    requires
        0 <= x < m.len(),
        m[x],
    ensures
        reaches(m, d, x, x),
{
    let p = seq![x];
    assert(is_walk(m, d, p));
}

pub proof fn lemma_reaches_members(m: Seq<bool>, d: Seq<Vec<usize>>, x: int, y: int)
    requires
        reaches(m, d, x, y),
    ensures
        0 <= x < m.len(),
        0 <= y < m.len(),
        m[x],
        m[y],
{
    let p = choose|p: Seq<int>| #[trigger] is_walk(m, d, p) && p[0] == x && p.last() == y;
    if p.len() > 1 {
        assert(edge(m, d, p[p.len() - 2], p[p.len() - 2 + 1]));
    }
}

pub proof fn lemma_reaches_step(m: Seq<bool>, d: Seq<Vec<usize>>, x: int, y: int, z: int)
    requires
        reaches(m, d, x, y),
        edge(m, d, y, z),
    ensures
        reaches(m, d, x, z),
{
    let p = choose|p: Seq<int>| #[trigger] is_walk(m, d, p) && p[0] == x && p.last() == y;
    let q = p.push(z);
    assert forall|i: int| 0 <= i < q.len() - 1 implies #[trigger] edge(m, d, q[i], q[i + 1]) by {
        if i < p.len() - 1 {
            assert(q[i] == p[i] && q[i + 1] == p[i + 1]);
        }
    }
    assert(is_walk(m, d, q));
}

pub proof fn lemma_edge_reaches(m: Seq<bool>, d: Seq<Vec<usize>>, x: int, y: int)
    requires
        edge(m, d, x, y),
    ensures
        reaches(m, d, x, y),
{
    lemma_reaches_refl(m, d, x);
    lemma_reaches_step(m, d, x, x, y);
}

pub proof fn lemma_reaches_trans(m: Seq<bool>, d: Seq<Vec<usize>>, x: int, y: int, z: int)
    requires
        reaches(m, d, x, y),
        reaches(m, d, y, z),
    ensures
        reaches(m, d, x, z),
{
    let p = choose|p: Seq<int>| #[trigger] is_walk(m, d, p) && p[0] == x && p.last() == y;
    let q = choose|q: Seq<int>| #[trigger] is_walk(m, d, q) && q[0] == y && q.last() == z;
    let r = p + q.drop_first();
    assert forall|i: int| 0 <= i < r.len() - 1 implies #[trigger] edge(m, d, r[i], r[i + 1]) by {
        if i < p.len() - 1 {
            assert(r[i] == p[i] && r[i + 1] == p[i + 1]);
        } else {
            let k = i - (p.len() - 1);
            assert(r[i] == q[k] && r[i + 1] == q[k + 1]);
        }
    }
    assert(is_walk(m, d, r));
}

pub proof fn lemma_mutual_refl(m: Seq<bool>, d: Seq<Vec<usize>>, x: int)
    requires
        0 <= x < m.len(),
        m[x],
    ensures
        mutual(m, d, x, x),
{
    lemma_reaches_refl(m, d, x);
}

pub proof fn lemma_mutual_trans(m: Seq<bool>, d: Seq<Vec<usize>>, x: int, y: int, z: int)
    requires
        mutual(m, d, x, y),
        mutual(m, d, y, z),
    ensures
        mutual(m, d, x, z),
{
    lemma_reaches_trans(m, d, x, y, z);
    lemma_reaches_trans(m, d, z, y, x);
}

/// Reachability depends only on the contents of the dependency lists.
pub proof fn lemma_mutual_views(m: Seq<bool>, d1: Seq<Vec<usize>>, d2: Seq<Vec<usize>>, x: int, y: int)
    requires
        d1.len() == d2.len(),
        forall|i: int| 0 <= i < d1.len() ==> (#[trigger] d1[i])@ == d2[i]@,
    ensures
        reaches(m, d1, x, y) == reaches(m, d2, x, y),
        mutual(m, d1, x, y) == mutual(m, d2, x, y),
{
    assert forall|a: int, b: int| edge(m, d1, a, b) == edge(m, d2, a, b) by {
        if 0 <= a < d1.len() {
            assert(d1[a]@ == d2[a]@);
        }
    }
    assert forall|p: Seq<int>| is_walk(m, d1, p) == is_walk(m, d2, p) by {
        if is_walk(m, d1, p) {
            assert forall|i: int| 0 <= i < p.len() - 1 implies #[trigger] edge(m, d2, p[i], p[i + 1]) by {
                assert(edge(m, d1, p[i], p[i + 1]));
            }
        }
        if is_walk(m, d2, p) {
            assert forall|i: int| 0 <= i < p.len() - 1 implies #[trigger] edge(m, d1, p[i], p[i + 1]) by {
                assert(edge(m, d2, p[i], p[i + 1]));
            }
        }
    }
    if reaches(m, d1, x, y) {
        let p = choose|p: Seq<int>| #[trigger] is_walk(m, d1, p) && p[0] == x && p.last() == y;
        assert(is_walk(m, d2, p));
    }
    if reaches(m, d2, x, y) {
        let p = choose|p: Seq<int>| #[trigger] is_walk(m, d2, p) && p[0] == x && p.last() == y;
        assert(is_walk(m, d1, p));
    }
    if reaches(m, d1, y, x) {
        let p = choose|p: Seq<int>| #[trigger] is_walk(m, d1, p) && p[0] == y && p.last() == x;
        assert(is_walk(m, d2, p));
    }
    if reaches(m, d2, y, x) {
        let p = choose|p: Seq<int>| #[trigger] is_walk(m, d2, p) && p[0] == y && p.last() == x;
        assert(is_walk(m, d1, p));
    }
}

/// A set that holds `s` and is closed under edges holds everything `s` reaches.
proof fn lemma_closed_holds_reach(m: Seq<bool>, d: Seq<Vec<usize>>, seen: Seq<bool>, s: int, y: int)
    requires
        seen.len() == m.len(),
        0 <= s < m.len(),
        seen[s],
        forall|a: int, b: int| 0 <= a < m.len() && seen[a] && #[trigger] edge(m, d, a, b) ==> seen[b],
        reaches(m, d, s, y),
    ensures
        0 <= y < m.len(),
        seen[y],
{
    let p = choose|p: Seq<int>| #[trigger] is_walk(m, d, p) && p[0] == s && p.last() == y;
    lemma_closed_walk_prefix(m, d, seen, p, p.len() - 1);
}

proof fn lemma_closed_walk_prefix(m: Seq<bool>, d: Seq<Vec<usize>>, seen: Seq<bool>, p: Seq<int>, i: int)
    requires
        seen.len() == m.len(),
        is_walk(m, d, p),
        seen[p[0]],
        forall|a: int, b: int| 0 <= a < m.len() && seen[a] && #[trigger] edge(m, d, a, b) ==> seen[b],
        0 <= i < p.len(),
    ensures
        0 <= p[i] < m.len(),
        seen[p[i]],
    decreases i,
{
    if i > 0 {
        lemma_closed_walk_prefix(m, d, seen, p, i - 1);
        assert(edge(m, d, p[i - 1], p[i - 1 + 1]));
    }
}

pub open spec fn count_false(s: Seq<bool>) -> nat
    decreases s.len(),
{
    if s.len() == 0 {
        0
    } else {
        count_false(s.drop_last()) + if s.last() { 0nat } else { 1nat }
    }
}

pub proof fn lemma_count_false_le(s: Seq<bool>)
    ensures
        count_false(s) <= s.len(),
    decreases s.len(),
{
    if s.len() > 0 {
        lemma_count_false_le(s.drop_last());
    }
}

pub proof fn lemma_count_false_set(s: Seq<bool>, i: int)
    requires
        0 <= i < s.len(),
        !s[i],
    ensures
        count_false(s.update(i, true)) + 1 == count_false(s),
    decreases s.len(),
{
    let t = s.update(i, true);
    if i == s.len() - 1 {
        assert(t.drop_last() =~= s.drop_last());
    } else {
        assert(t.drop_last() =~= s.drop_last().update(i, true));
        lemma_count_false_set(s.drop_last(), i);
    }
}

/// A vector of `n` copies of `v`.
pub fn filled_bools(n: usize, v: bool) -> (r: Vec<bool>)
    ensures
        r@ == Seq::new(n as nat, |i: int| v),
{
    let mut r: Vec<bool> = Vec::new();
    while r.len() < n
        invariant
            r.len() <= n,
            forall|i: int| 0 <= i < r.len() ==> r@[i] == v,
        decreases n - r.len(),
    {
        r.push(v);
    }
    assert(r@ =~= Seq::new(n as nat, |i: int| v));
    r
}

/// Everything reachable from `s`, as a mask over all indices.
pub(crate) fn reach_row(m: &Vec<bool>, d: &[Vec<usize>], s: usize) -> (row: Vec<bool>)
    requires
        m.len() == d.len(),
        s < m.len(),
        m[s as int],
    ensures
        row.len() == m.len(),
        forall|y: int| 0 <= y < m.len() ==> (row[y] <==> reaches(m@, d@, s as int, y)),
{
    let n = m.len();
    let mut seen = filled_bools(n, false);
    seen.set(s, true);
    let mut stack: Vec<usize> = Vec::new();
    stack.push(s);
    proof {
        lemma_reaches_refl(m@, d@, s as int);
        assert(stack@[0] == s);
        assert forall|a: int| 0 <= a < n && #[trigger] seen@[a] implies a == s as int by {}
    }
    while stack.len() > 0
        invariant
            n == m.len(),
            m.len() == d.len(),
            seen.len() == n,
            seen[s as int],
            forall|y: int| 0 <= y < n && #[trigger] seen[y] ==> reaches(m@, d@, s as int, y),
            forall|k: int| 0 <= k < stack.len() ==> #[trigger] stack@[k] < n && seen[stack@[k] as int],
            stack@.no_duplicates(),
            forall|a: int, b: int|
                0 <= a < n && seen[a] && !stack@.contains(a as usize) && #[trigger] edge(m@, d@, a, b)
                    ==> seen[b],
        decreases 2 * count_false(seen@) + stack.len(),
    {
        let ghost before_pop = stack@;
        let ghost seen_before = seen@;
        let u = stack.pop().unwrap();
        let ghost old_stack = stack@;
        proof {
            assert(old_stack.push(u) =~= before_pop);
            assert(!old_stack.contains(u)) by {
                if old_stack.contains(u) {
                    let k = choose|k: int| 0 <= k < old_stack.len() && old_stack[k] == u;
                    assert(before_pop[k] == before_pop[before_pop.len() - 1]);
                }
            }
            lemma_reaches_members(m@, d@, s as int, u as int);
        }
        let du = &d[u];
        let mut i: usize = 0;
        while i < du.len()
            invariant
                n == m.len(),
                m.len() == d.len(),
                u < n,
                m[u as int],
                du == &d@[u as int],
                i <= du.len(),
                seen.len() == n,
                seen[s as int],
                seen[u as int],
                stack@.len() >= old_stack.len(),
                stack@.subrange(0, old_stack.len() as int) == old_stack,
                !stack@.contains(u),
                forall|y: int| 0 <= y < n && #[trigger] seen[y] ==> reaches(m@, d@, s as int, y),
                forall|k: int| 0 <= k < stack.len() ==> #[trigger] stack@[k] < n && seen[stack@[k] as int],
                stack@.no_duplicates(),
                forall|a: int, b: int|
                    0 <= a < n && a != u && seen[a] && !stack@.contains(a as usize) && #[trigger] edge(
                        m@,
                        d@,
                        a,
                        b,
                    ) ==> seen[b],
                forall|k: int| 0 <= k < i ==> (#[trigger] du@[k] < n && m[du@[k] as int]) ==> seen[du@[k] as int],
                2 * count_false(seen@) + stack.len() <= 2 * count_false(seen_before) + old_stack.len(),
            decreases du.len() - i,
        {
            let w = du[i];
            if w < n && m[w] && !seen[w] {
                proof {
                    assert(edge(m@, d@, u as int, w as int));
                    lemma_reaches_step(m@, d@, s as int, u as int, w as int);
                    lemma_count_false_set(seen@, w as int);
                    assert(!stack@.contains(w)) by {
                        if stack@.contains(w) {
                            let k = choose|k: int| 0 <= k < stack.len() && stack@[k] == w;
                            assert(seen[stack@[k] as int]);
                        }
                    }
                }
                let ghost seen_pre = seen@;
                let ghost stack_pre = stack@;
                seen.set(w, true);
                stack.push(w);
                proof {
                    assert(stack@.subrange(0, old_stack.len() as int) =~= old_stack);
                    assert(stack@[stack@.len() - 1] == w);
                    assert forall|a: int, b: int|
                        0 <= a < n && a != u && seen[a] && !stack@.contains(a as usize)
                            && #[trigger] edge(m@, d@, a, b) implies seen[b] by {
                        assert(a != w as int);
                        assert(seen_pre[a]);
                        assert(!stack_pre.contains(a as usize)) by {
                            if stack_pre.contains(a as usize) {
                                let k = choose|k: int| 0 <= k < stack_pre.len() && stack_pre[k] == a as usize;
                                assert(stack@[k] == a as usize);
                            }
                        }
                    }
                }
            }
            i += 1;
        }
        proof {
            assert forall|a: int, b: int|
                0 <= a < n && seen[a] && !stack@.contains(a as usize) && #[trigger] edge(m@, d@, a, b)
                    implies seen[b] by {
                if a == u {
                    let k = choose|k: int| 0 <= k < du@.len() && du@[k] == b as usize;
                    assert(du@[k] < n && m[du@[k] as int]);
                }
            }
        }
    }
    proof {
        assert forall|y: int| 0 <= y < n implies (seen[y] <==> reaches(m@, d@, s as int, y)) by {
            if reaches(m@, d@, s as int, y) {
                lemma_closed_holds_reach(m@, d@, seen@, s as int, y);
            }
        }
    }
    seen
}

/// The reachability matrix: row `x` marks what member `x` reaches; the rows
/// of non-members are empty.
pub(crate) fn reach_matrix(m: &Vec<bool>, d: &[Vec<usize>]) -> (r: Vec<Vec<bool>>)
    requires
        m.len() == d.len(),
    ensures
        r.len() == m.len(),
        forall|x: int| 0 <= x < m.len() ==> #[trigger] r@[x].len() == m.len(),
        forall|x: int, y: int|
            0 <= x < m.len() && 0 <= y < m.len() ==> (#[trigger] r@[x]@[y] <==> reaches(m@, d@, x, y)),
{
    let n = m.len();
    let mut r: Vec<Vec<bool>> = Vec::new();
    while r.len() < n
        invariant
            n == m.len(),
            m.len() == d.len(),
            r.len() <= n,
            forall|x: int| 0 <= x < r.len() ==> #[trigger] r@[x].len() == n,
            forall|x: int, y: int|
                0 <= x < r.len() && 0 <= y < n ==> (#[trigger] r@[x]@[y] <==> reaches(m@, d@, x, y)),
        decreases n - r.len(),
    {
        let x = r.len();
        if m[x] {
            let row = reach_row(m, d, x);
            r.push(row);
        } else {
            let row = filled_bools(n, false);
            proof {
                assert forall|y: int| 0 <= y < n implies !reaches(m@, d@, x as int, y) by {
                    if reaches(m@, d@, x as int, y) {
                        lemma_reaches_members(m@, d@, x as int, y);
                    }
                }
            }
            r.push(row);
        }
        proof {
            assert forall|x2: int, y: int|
                0 <= x2 < r.len() && 0 <= y < n implies (#[trigger] r@[x2]@[y] <==> reaches(m@, d@, x2, y)) by {
            }
        }
    }
    r
}

/// `r` is the smallest member on a common cycle with `x`.
pub open spec fn is_scc_min(m: Seq<bool>, d: Seq<Vec<usize>>, x: int, r: int) -> bool {
    mutual(m, d, x, r) && forall|y: int| 0 <= y < r ==> !#[trigger] mutual(m, d, x, y)
}

/// The representative of `x`'s strongly-connected component: its smallest member.
pub open spec fn scc_min(m: Seq<bool>, d: Seq<Vec<usize>>, x: int) -> int {
    choose|r: int| is_scc_min(m, d, x, r)
}

pub proof fn lemma_scc_min_unique(m: Seq<bool>, d: Seq<Vec<usize>>, x: int, r: int)
    requires
        is_scc_min(m, d, x, r),
    ensures
        scc_min(m, d, x) == r,
{
    let r2 = scc_min(m, d, x);
    assert(is_scc_min(m, d, x, r2));
    if r2 < r {
        assert(!mutual(m, d, x, r2));
    } else if r < r2 {
        assert(!mutual(m, d, x, r));
    }
}

/// A decomposition of the members into strongly-connected components:
/// component `k` has representative `cs[k]` (its smallest member, in
/// increasing order of `k`), `ci[y]` is the component of member `y`, and
/// `cm[k]` lists the members of component `k` in increasing order.
pub open spec fn comps_wf(
    m: Seq<bool>,
    d: Seq<Vec<usize>>,
    ci: Seq<usize>,
    cs: Seq<usize>,
    cm: Seq<Vec<usize>>,
) -> bool {
    &&& ci.len() == m.len()
    &&& cm.len() == cs.len()
    &&& forall|y: int| 0 <= y < m.len() && m[y] ==> #[trigger] ci[y] < cs.len()
    &&& forall|y: int| 0 <= y < m.len() && m[y] ==> mutual(m, d, y, cs[#[trigger] ci[y] as int] as int)
    &&& forall|k: int| 0 <= k < cs.len() ==> #[trigger] cs[k] < m.len()
    &&& forall|k: int| 0 <= k < cs.len() ==> is_scc_min(m, d, #[trigger] cs[k] as int, cs[k] as int)
    &&& forall|k: int| 0 <= k < cs.len() ==> ci[#[trigger] cs[k] as int] == k
    &&& forall|k1: int, k2: int| 0 <= k1 < k2 < cs.len() ==> cs[k1] < cs[k2]
    &&& forall|k: int, a: int, b: int|
        0 <= k < cm.len() && 0 <= a < b < cm[k].len() ==> #[trigger] cm[k]@[a] < #[trigger] cm[k]@[b]
    &&& forall|k: int, y: int|
        0 <= k < cm.len() && 0 <= y < m.len() ==> (#[trigger] cm[k]@.contains(y as usize) <==> (m[y]
            && ci[y] == k))
    &&& forall|k: int, a: int| 0 <= k < cm.len() && 0 <= a < cm[k].len() ==> #[trigger] cm[k]@[a] < m.len()
}

/// Two members share a component exactly when they lie on a common cycle.
pub proof fn lemma_comps_mutual(
    m: Seq<bool>,
    d: Seq<Vec<usize>>,
    ci: Seq<usize>,
    cs: Seq<usize>,
    cm: Seq<Vec<usize>>,
    a: int,
    b: int,
)
    requires
        comps_wf(m, d, ci, cs, cm),
        0 <= a < m.len(),
        0 <= b < m.len(),
        m[a],
        m[b],
    ensures
        mutual(m, d, a, b) <==> ci[a] == ci[b],
        is_scc_min(m, d, a, cs[ci[a] as int] as int),
        scc_min(m, d, a) == cs[ci[a] as int],
{
    let ka = ci[a] as int;
    let kb = ci[b] as int;
    let ra = cs[ka] as int;
    let rb = cs[kb] as int;
    assert(mutual(m, d, a, ra));
    assert(mutual(m, d, b, rb));
    assert(is_scc_min(m, d, ra, ra));
    assert(is_scc_min(m, d, a, ra)) by {
        assert forall|y: int| 0 <= y < ra implies !#[trigger] mutual(m, d, a, y) by {
            if mutual(m, d, a, y) {
                lemma_mutual_trans(m, d, ra, a, y);
                assert(mutual(m, d, ra, y));
            }
        }
    }
    lemma_scc_min_unique(m, d, a, ra);
    if ka == kb {
        lemma_mutual_trans(m, d, a, ra, b);
    }
    if mutual(m, d, a, b) {
        lemma_mutual_trans(m, d, ra, a, b);
        lemma_mutual_trans(m, d, ra, b, rb);
        assert(is_scc_min(m, d, rb, rb));
        if ra < rb {
            assert(!mutual(m, d, rb, ra));
        } else if rb < ra {
            assert(!mutual(m, d, ra, rb));
        }
        if ka < kb {
            assert(cs[ka] < cs[kb]);
        } else if kb < ka {
            assert(cs[kb] < cs[ka]);
        }
    }
}

/// The members on a common cycle with `x`, in increasing order.
fn scc_of(m: &Vec<bool>, d: &[Vec<usize>], r: &Vec<Vec<bool>>, x: usize) -> (v: Vec<usize>)
    requires
        m.len() == d.len(),
        r.len() == m.len(),
        x < m.len(),
        forall|i: int| 0 <= i < m.len() ==> #[trigger] r@[i].len() == m.len(),
        forall|i: int, j: int|
            0 <= i < m.len() && 0 <= j < m.len() ==> (#[trigger] r@[i]@[j] <==> reaches(m@, d@, i, j)),
    ensures
        forall|a: int, b: int| 0 <= a < b < v.len() ==> #[trigger] v@[a] < #[trigger] v@[b],
        forall|a: int| 0 <= a < v.len() ==> #[trigger] v@[a] < m.len(),
        forall|y: int| 0 <= y < m.len() ==> (#[trigger] v@.contains(y as usize) <==> mutual(m@, d@, x as int, y)),
{
    let n = m.len();
    let mut v: Vec<usize> = Vec::new();
    let mut y: usize = 0;
    while y < n
        invariant
            n == m.len(),
            r.len() == n,
            x < n,
            y <= n,
            forall|i: int| 0 <= i < n ==> #[trigger] r@[i].len() == n,
            forall|i: int, j: int| 0 <= i < n && 0 <= j < n ==> (#[trigger] r@[i]@[j] <==> reaches(m@, d@, i, j)),
            forall|a: int, b: int| 0 <= a < b < v.len() ==> #[trigger] v@[a] < #[trigger] v@[b],
            forall|a: int| 0 <= a < v.len() ==> #[trigger] v@[a] < y,
            forall|z: int| 0 <= z < n ==> (#[trigger] v@.contains(z as usize) <==> (z < y && mutual(m@, d@, x as int, z))),
        decreases n - y,
    {
        proof {
            assert(r@[x as int].len() == n);
            assert(r@[y as int].len() == n);
        }
        let ghost pre = v@;
        if r[x][y] && r[y][x] {
            v.push(y);
            proof {
                assert forall|z: int| 0 <= z < n implies (#[trigger] v@.contains(z as usize) <==> (z < y + 1
                    && mutual(m@, d@, x as int, z))) by {
                    if z == y as int {
                        assert(v@[v@.len() - 1] == y);
                    } else {
                        if v@.contains(z as usize) {
                            let a = choose|a: int| 0 <= a < v@.len() && v@[a] == z as usize;
                            assert(pre[a] == z as usize);
                        }
                        if pre.contains(z as usize) {
                            let a = choose|a: int| 0 <= a < pre.len() && pre[a] == z as usize;
                            assert(v@[a] == z as usize);
                        }
                    }
                }
            }
        } else {
            proof {
                assert forall|z: int| 0 <= z < n implies (#[trigger] v@.contains(z as usize) <==> (z < y + 1
                    && mutual(m@, d@, x as int, z))) by {
                    if z == y as int && mutual(m@, d@, x as int, z) {
                        assert(r@[x as int]@[y as int]);
                        assert(r@[y as int]@[x as int]);
                    }
                }
            }
        }
        y += 1;
    }
    v
}

/// Decompose the members into strongly-connected components, numbered by
/// their smallest member, each listing its members in increasing order.
///
/// This numbering is internal to `order_scope`: its result depends only on
/// which items share a component, never on how the components are numbered
/// or how their members are listed, so the numbering is not exposed.
pub(crate) fn components(m: &Vec<bool>, d: &[Vec<usize>], r: &Vec<Vec<bool>>) -> (res: (
    Vec<usize>,
    Vec<usize>,
    Vec<Vec<usize>>,
))
    requires
        m.len() == d.len(),
        r.len() == m.len(),
        forall|x: int| 0 <= x < m.len() ==> #[trigger] r@[x].len() == m.len(),
        forall|x: int, y: int|
            0 <= x < m.len() && 0 <= y < m.len() ==> (#[trigger] r@[x]@[y] <==> reaches(m@, d@, x, y)),
    ensures
        comps_wf(m@, d@, res.0@, res.1@, res.2@),
{
    let n = m.len();
    let mut ci: Vec<usize> = Vec::new();
    while ci.len() < n
        invariant
            ci.len() <= n,
        decreases n - ci.len(),
    {
        ci.push(0);
    }
    let mut assigned = filled_bools(n, false);
    let mut cs: Vec<usize> = Vec::new();
    let mut cm: Vec<Vec<usize>> = Vec::new();
    let mut x: usize = 0;
    while x < n
        invariant
            n == m.len(),
            m.len() == d.len(),
            r.len() == n,
            forall|i: int| 0 <= i < n ==> #[trigger] r@[i].len() == n,
            forall|i: int, j: int| 0 <= i < n && 0 <= j < n ==> (#[trigger] r@[i]@[j] <==> reaches(m@, d@, i, j)),
            x <= n,
            ci.len() == n,
            assigned.len() == n,
            cm.len() == cs.len(),
            forall|y: int|
                0 <= y < n && #[trigger] assigned@[y] ==> m[y] && ci@[y] < cs.len() && mutual(
                    m@,
                    d@,
                    y,
                    cs@[ci@[y] as int] as int,
                ),
            forall|y: int| 0 <= y < x && m[y] ==> #[trigger] assigned@[y],
            forall|k: int, y: int|
                0 <= k < cs.len() && 0 <= y < n && mutual(m@, d@, y, #[trigger] cs@[k] as int)
                    ==> #[trigger] assigned@[y] && ci@[y] == k,
            forall|k: int| 0 <= k < cs.len() ==> #[trigger] cs@[k] < x,
            forall|k1: int, k2: int| 0 <= k1 < k2 < cs.len() ==> cs@[k1] < cs@[k2],
            forall|k: int| 0 <= k < cs.len() ==> is_scc_min(m@, d@, #[trigger] cs@[k] as int, cs@[k] as int),
            forall|k: int, a: int, b: int|
                0 <= k < cm.len() && 0 <= a < b < cm@[k].len() ==> #[trigger] cm@[k]@[a] < #[trigger] cm@[k]@[b],
            forall|k: int, y: int|
                0 <= k < cm.len() && 0 <= y < n ==> (#[trigger] cm@[k]@.contains(y as usize) <==> mutual(
                    m@,
                    d@,
                    cs@[k] as int,
                    y,
                )),
            forall|k: int, a: int| 0 <= k < cm.len() && 0 <= a < cm@[k].len() ==> #[trigger] cm@[k]@[a] < n,
        decreases n - x,
    {
        if m[x] && !assigned[x] {
            let k = cs.len();
            proof {
                lemma_mutual_refl(m@, d@, x as int);
                assert forall|j: int| 0 <= j < cs.len() implies !mutual(m@, d@, x as int, #[trigger] cs@[j] as int) by {
                    if mutual(m@, d@, x as int, cs@[j] as int) {
                        assert(assigned@[x as int]);
                    }
                }
                assert(is_scc_min(m@, d@, x as int, x as int)) by {
                    assert forall|z: int| 0 <= z < x implies !#[trigger] mutual(m@, d@, x as int, z) by {
                        if mutual(m@, d@, x as int, z) {
                            lemma_reaches_members(m@, d@, x as int, z);
                            assert(assigned@[z]);
                            let j = ci@[z] as int;
                            lemma_mutual_trans(m@, d@, x as int, z, cs@[j] as int);
                        }
                    }
                }
            }
            let members = scc_of(m, d, r, x);
            let ghost ci0 = ci@;
            let ghost as0 = assigned@;
            let mut i: usize = 0;
            while i < members.len()
                invariant
                    n == m.len(),
                    ci.len() == n,
                    assigned.len() == n,
                    i <= members.len(),
                    forall|a: int| 0 <= a < members.len() ==> #[trigger] members@[a] < n,
                    forall|z: int|
                        0 <= z < n ==> #[trigger] assigned@[z] == (as0[z] || exists|a: int|
                            0 <= a < i && members@[a] == z as usize),
                    forall|z: int|
                        0 <= z < n ==> #[trigger] ci@[z] == (if exists|a: int|
                            0 <= a < i && members@[a] == z as usize {
                            k
                        } else {
                            ci0[z]
                        }),
                decreases members.len() - i,
            {
                let y = members[i];
                let ghost ci1 = ci@;
                let ghost as1 = assigned@;
                ci.set(y, k);
                assigned.set(y, true);
                proof {
                    assert forall|z: int| 0 <= z < n implies #[trigger] assigned@[z] == (as0[z] || exists|a: int|
                        0 <= a < i + 1 && members@[a] == z as usize) by {
                        if z == y as int {
                            assert(members@[i as int] == z as usize);
                        } else {
                            assert(assigned@[z] == as1[z]);
                            if exists|a: int| 0 <= a < i + 1 && members@[a] == z as usize {
                                let a = choose|a: int| 0 <= a < i + 1 && members@[a] == z as usize;
                                assert(a != i as int);
                            }
                        }
                    }
                    assert forall|z: int| 0 <= z < n implies #[trigger] ci@[z] == (if exists|a: int|
                        0 <= a < i + 1 && members@[a] == z as usize {
                        k
                    } else {
                        ci0[z]
                    }) by {
                        if z == y as int {
                            assert(members@[i as int] == z as usize);
                        } else {
                            assert(ci@[z] == ci1[z]);
                            if exists|a: int| 0 <= a < i + 1 && members@[a] == z as usize {
                                let a = choose|a: int| 0 <= a < i + 1 && members@[a] == z as usize;
                                assert(a != i as int);
                            }
                        }
                    }
                }
                i += 1;
            }
            let ghost cs_pre = cs@;
            let ghost cm_pre = cm@;
            cs.push(x);
            cm.push(members);
            proof {
                assert(cs@[k as int] == x);
                assert forall|z: int| 0 <= z < n implies (#[trigger] assigned@[z] == (as0[z] || mutual(m@, d@, x as int, z))
                    && ci@[z] == (if mutual(m@, d@, x as int, z) { k } else { ci0[z] })) by {
                    let ex = exists|a: int| 0 <= a < members.len() && members@[a] == z as usize;
                    assert(ex == members@.contains(z as usize));
                }
                assert forall|y: int|
                    0 <= y < n && #[trigger] assigned@[y] implies m[y] && ci@[y] < cs.len() && mutual(
                        m@,
                        d@,
                        y,
                        cs@[ci@[y] as int] as int,
                    ) by {
                    if mutual(m@, d@, x as int, y) {
                        lemma_reaches_members(m@, d@, x as int, y);
                    } else {
                        assert(as0[y]);
                        assert(cs@[ci@[y] as int] == cs_pre[ci@[y] as int]);
                    }
                }
                assert forall|j: int, y: int|
                    0 <= j < cs.len() && 0 <= y < n && mutual(m@, d@, y, #[trigger] cs@[j] as int)
                        implies #[trigger] assigned@[y] && ci@[y] == j by {
                    if j < k as int {
                        assert(cs@[j] == cs_pre[j]);
                        if mutual(m@, d@, x as int, y) {
                            lemma_mutual_trans(m@, d@, x as int, y, cs@[j] as int);
                        }
                    }
                }
                assert forall|j: int, y: int|
                    0 <= j < cm.len() && 0 <= y < n implies (#[trigger] cm@[j]@.contains(y as usize) <==> mutual(
                        m@,
                        d@,
                        cs@[j] as int,
                        y,
                    )) by {
                    if j < k as int {
                        assert(cm@[j] == cm_pre[j]);
                        assert(cs@[j] == cs_pre[j]);
                    }
                }
                assert forall|j: int, a: int, b: int|
                    0 <= j < cm.len() && 0 <= a < b < cm@[j].len() implies #[trigger] cm@[j]@[a] < #[trigger] cm@[j]@[b] by {
                    if j < k as int {
                        assert(cm@[j] == cm_pre[j]);
                    }
                }
                assert forall|j: int, a: int| 0 <= j < cm.len() && 0 <= a < cm@[j].len() implies #[trigger] cm@[j]@[a] < n by {
                    if j < k as int {
                        assert(cm@[j] == cm_pre[j]);
                    }
                }
                assert forall|j: int| 0 <= j < cs.len() implies is_scc_min(m@, d@, #[trigger] cs@[j] as int, cs@[j] as int) by {
                    if j < k as int {
                        assert(cs@[j] == cs_pre[j]);
                    }
                }
            }
        }
        x += 1;
    }
    proof {
        assert forall|y: int| 0 <= y < n && m[y] implies #[trigger] ci@[y] < cs.len() by {
            assert(assigned@[y]);
        }
        assert forall|y: int| 0 <= y < n && m[y] implies mutual(m@, d@, y, cs@[#[trigger] ci@[y] as int] as int) by {
            assert(assigned@[y]);
        }
        assert forall|k: int| 0 <= k < cs.len() implies ci@[#[trigger] cs@[k] as int] == k by {
            assert(is_scc_min(m@, d@, cs@[k] as int, cs@[k] as int));
            assert(assigned@[cs@[k] as int]);
        }
        assert forall|k: int, y: int|
            0 <= k < cm.len() && 0 <= y < n implies (#[trigger] cm@[k]@.contains(y as usize) <==> (m[y] && ci@[y] == k)) by {
            if m[y] {
                assert(assigned@[y]);
                if ci@[y] == k {
                    lemma_mutual_trans(m@, d@, cs@[k] as int, y, cs@[k] as int);
                    assert(mutual(m@, d@, y, cs@[k] as int));
                }
                if mutual(m@, d@, cs@[k] as int, y) {
                    assert(mutual(m@, d@, y, cs@[k] as int));
                }
            } else if mutual(m@, d@, cs@[k] as int, y) {
                lemma_reaches_members(m@, d@, cs@[k] as int, y);
            }
        }
        assert forall|k: int| 0 <= k < cs.len() implies #[trigger] cs@[k] < n by {}
    }
    (ci, cs, cm)
}

/// How many of `0..k` are reachable from `x`.
pub open spec fn reach_count(m: Seq<bool>, d: Seq<Vec<usize>>, x: int, k: int) -> nat
    decreases k,
{
    if k <= 0 {
        0
    } else {
        reach_count(m, d, x, k - 1) + if reaches(m, d, x, k - 1) { 1nat } else { 0nat }
    }
}

proof fn lemma_reach_count_le(m: Seq<bool>, d: Seq<Vec<usize>>, a: int, b: int, k: int)
    requires
        forall|v: int| 0 <= v < k && reaches(m, d, a, v) ==> reaches(m, d, b, v),
    ensures
        reach_count(m, d, a, k) <= reach_count(m, d, b, k),
    decreases k,
{
    if k > 0 {
        lemma_reach_count_le(m, d, a, b, k - 1);
    }
}

proof fn lemma_reach_count_lt(m: Seq<bool>, d: Seq<Vec<usize>>, a: int, b: int, k: int, w: int)
    requires
        forall|v: int| 0 <= v < k && reaches(m, d, a, v) ==> reaches(m, d, b, v),
        0 <= w < k,
        reaches(m, d, b, w),
        !reaches(m, d, a, w),
    ensures
        reach_count(m, d, a, k) < reach_count(m, d, b, k),
    decreases k,
{
    if w == k - 1 {
        lemma_reach_count_le(m, d, a, b, k - 1);
    } else {
        lemma_reach_count_lt(m, d, a, b, k - 1, w);
    }
}

/// Whether every member outside `y`'s component that `y`'s component uses
/// satisfies `placed`.
pub open spec fn deps_placed(m: Seq<bool>, d: Seq<Vec<usize>>, placed: spec_fn(int) -> bool, y: int) -> bool {
    forall|w: int, z: int|
        mutual(m, d, w, y) && #[trigger] edge(m, d, w, z) && !mutual(m, d, z, y) ==> placed(z)
}

/// If some member is not placed, some component that is not placed has all
/// its outside dependencies placed: the components form no cycle.
pub proof fn lemma_ready_exists(m: Seq<bool>, d: Seq<Vec<usize>>, placed: spec_fn(int) -> bool, x: int)
    requires
        0 <= x < m.len(),
        m[x],
        !placed(x),
        forall|a: int, b: int| #[trigger] mutual(m, d, a, b) && placed(a) ==> placed(b),
    ensures
        exists|y: int| 0 <= y < m.len() && m[y] && !placed(y) && #[trigger] deps_placed(m, d, placed, y),
    decreases reach_count(m, d, x, m.len() as int),
{
    if !deps_placed(m, d, placed, x) {
        let (w, z) = choose|w: int, z: int|
            mutual(m, d, w, x) && #[trigger] edge(m, d, w, z) && !mutual(m, d, z, x) && !placed(z);
        lemma_edge_reaches(m, d, w, z);
        lemma_reaches_members(m, d, w, z);
        assert forall|v: int| 0 <= v < m.len() && reaches(m, d, z, v) implies reaches(m, d, x, v) by {
            lemma_reaches_trans(m, d, x, w, z);
            lemma_reaches_trans(m, d, x, z, v);
        }
        lemma_reaches_refl(m, d, x);
        if reaches(m, d, z, x) {
            lemma_reaches_trans(m, d, x, w, z);
        }
        lemma_reach_count_lt(m, d, z, x, m.len() as int, x);
        lemma_ready_exists(m, d, placed, z);
    } else {
        assert(deps_placed(m, d, placed, x));
    }
}

} // verus!
