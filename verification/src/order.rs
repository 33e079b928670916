//! Ordering of a set of items so that dependencies precede their uses;
//! cycles (mutual recursion) collapse into groups. Tie-breaks are configurable.

use vstd::prelude::*;

use crate::graph::{
    is_walk, comps_wf, components, deps_placed, edge, lemma_comps_mutual, lemma_mutual_refl, lemma_mutual_trans,
    lemma_reaches_members, lemma_ready_exists, lemma_scc_min_unique, mutual, reach_matrix, scc_min,
    is_scc_min, scope_mask, filled_bools, reaches,
};
use crate::text::{chars_of, lemma_lex_asym, lemma_lex_irrefl, lemma_lex_total, lemma_lex_trans, lex_less, lex_lt};

verus! {

/// How items at the same level are ordered.
#[derive(Debug, Clone, Copy, PartialEq, Eq, Structural)]
pub enum Tie {
    /// Preserve original source order among items at the same level.
    Original,
    /// Sort alphabetically by name among items at the same level.
    Alphabetical,
    /// Walk source items and emit each component's dependencies first.
    Topological,
}

impl Default for Tie {
    fn default() -> (t: Tie)
        ensures
            t == Tie::Original,
    {
        Tie::Original
    }
}

#[derive(Debug, Clone, Copy)]
pub struct OrderOpts {
    /// Tie-break for members within a mutual group.
    pub inside: Tie,
    /// Tie-break among independent items/components outside mutual groups.
    pub outside: Tie,
}

/// `s` is the smallest name (in lexicographic order) among the members of
/// `x`'s component.
pub open spec fn is_min_name(m: Seq<bool>, d: Seq<Vec<usize>>, names: Seq<Seq<char>>, x: int, s: Seq<char>) -> bool {
    &&& exists|y: int| 0 <= y < names.len() && #[trigger] mutual(m, d, x, y) && names[y] == s
    &&& forall|y: int| 0 <= y < names.len() && #[trigger] mutual(m, d, x, y) ==> !lex_lt(names[y], s)
}

/// The smallest name among the members of `x`'s component.
pub open spec fn scc_min_name(m: Seq<bool>, d: Seq<Vec<usize>>, names: Seq<Seq<char>>, x: int) -> Seq<char> {
    choose|s: Seq<char>| is_min_name(m, d, names, x, s)
}

/// The component of `x` comes before that of `y` when both are free to be
/// placed: by smallest index (`Original`), or by smallest name and then
/// smallest index (`Alphabetical`).
pub open spec fn key_lt(tie: Tie, m: Seq<bool>, d: Seq<Vec<usize>>, names: Seq<Seq<char>>, x: int, y: int) -> bool {
    match tie {
        Tie::Alphabetical => {
            ||| lex_lt(scc_min_name(m, d, names, x), scc_min_name(m, d, names, y))
            ||| (scc_min_name(m, d, names, x) == scc_min_name(m, d, names, y) && scc_min(m, d, x) < scc_min(
                m,
                d,
                y,
            ))
        },
        _ => scc_min(m, d, x) < scc_min(m, d, y),
    }
}

/// Order of two members of one component: by index, or by name and then index.
pub open spec fn inside_lt(tie: Tie, names: Seq<Seq<char>>, a: int, b: int) -> bool {
    match tie {
        Tie::Alphabetical => lex_lt(names[a], names[b]) || (names[a] == names[b] && a < b),
        _ => a < b,
    }
}

/// Everything that `y`'s component uses outside itself lies among the first
/// `i` entries of `o`.
pub open spec fn ready_at(m: Seq<bool>, d: Seq<Vec<usize>>, o: Seq<usize>, i: int, y: int) -> bool {
    forall|w: int, z: int|
        mutual(m, d, w, y) && #[trigger] edge(m, d, w, z) && !mutual(m, d, z, y) ==> o.take(i).contains(
            z as usize,
        )
}

/// Position `i` of `o` starts a new component.
pub open spec fn block_start(m: Seq<bool>, d: Seq<Vec<usize>>, o: Seq<usize>, i: int) -> bool {
    i == 0 || !mutual(m, d, o[i - 1] as int, o[i] as int)
}

pub proof fn lemma_inside_lt_trans(tie: Tie, names: Seq<Seq<char>>, a: int, b: int, c: int)
    requires
        inside_lt(tie, names, a, b),
        inside_lt(tie, names, b, c),
    ensures
        inside_lt(tie, names, a, c),
{
    if tie == Tie::Alphabetical {
        if lex_lt(names[a], names[b]) && lex_lt(names[b], names[c]) {
            lemma_lex_trans(names[a], names[b], names[c]);
        }
    }
}

pub proof fn lemma_inside_lt_total(tie: Tie, names: Seq<Seq<char>>, a: int, b: int)
    requires
        a != b,
    ensures
        inside_lt(tie, names, a, b) || inside_lt(tie, names, b, a),
{
    lemma_lex_total(names[a], names[b]);
}

pub proof fn lemma_inside_lt_asym(tie: Tie, names: Seq<Seq<char>>, a: int, b: int)
    requires
        inside_lt(tie, names, a, b),
    ensures
        !inside_lt(tie, names, b, a),
{
    if tie == Tie::Alphabetical {
        if lex_lt(names[a], names[b]) {
            lemma_lex_asym(names[a], names[b]);
        } else {
            lemma_lex_irrefl(names[a]);
        }
    }
}

/// Whether `a` comes before `b` inside a component.
fn inside_less(tie: Tie, nm: &Vec<Vec<char>>, a: usize, b: usize) -> (r: bool)
    requires
        a < nm.len(),
        b < nm.len(),
    ensures
        r == match tie {
            Tie::Alphabetical => lex_lt(nm@[a as int]@, nm@[b as int]@) || (nm@[a as int]@ == nm@[b as int]@
                && a < b),
            _ => a < b,
        },
{
    match tie {
        Tie::Alphabetical => {
            if lex_less(&nm[a], &nm[b]) {
                true
            } else if lex_less(&nm[b], &nm[a]) {
                proof {
                    lemma_lex_asym(nm@[b as int]@, nm@[a as int]@);
                    if nm@[a as int]@ == nm@[b as int]@ {
                        lemma_lex_irrefl(nm@[a as int]@);
                    }
                }
                false
            } else {
                proof {
                    lemma_lex_total(nm@[a as int]@, nm@[b as int]@);
                }
                a < b
            }
        },
        _ => a < b,
    }
}

/// The members of a component in the order `tie` gives them.
fn sorted_block(tie: Tie, nm: &Vec<Vec<char>>, names: Ghost<Seq<Seq<char>>>, members: &Vec<usize>) -> (out: Vec<usize>)
    requires
        nm.len() == names@.len(),
        forall|x: int| 0 <= x < nm.len() ==> #[trigger] nm@[x]@ == names@[x],
        forall|a: int| 0 <= a < members.len() ==> #[trigger] members@[a] < nm.len(),
        members@.no_duplicates(),
    ensures
        out.len() == members.len(),
        out@.no_duplicates(),
        forall|x: usize| #[trigger] out@.contains(x) <==> members@.contains(x),
        forall|a: int, b: int| 0 <= a < b < out.len() ==> inside_lt(tie, names@, #[trigger] out@[a] as int, #[trigger] out@[b] as int),
{
    let mut out: Vec<usize> = Vec::new();
    let mut i: usize = 0;
    while i < members.len()
        invariant
            i <= members.len(),
            nm.len() == names@.len(),
            forall|x: int| 0 <= x < nm.len() ==> #[trigger] nm@[x]@ == names@[x],
            forall|a: int| 0 <= a < members.len() ==> #[trigger] members@[a] < nm.len(),
            members@.no_duplicates(),
            out.len() == i,
            out@.no_duplicates(),
            forall|x: usize| #[trigger] out@.contains(x) <==> members@.take(i as int).contains(x),
            forall|a: int| 0 <= a < out.len() ==> #[trigger] out@[a] < nm.len(),
            forall|a: int, b: int| 0 <= a < b < out.len() ==> inside_lt(tie, names@, #[trigger] out@[a] as int, #[trigger] out@[b] as int),
        decreases members.len() - i,
    {
        let e = members[i];
        let mut p: usize = 0;
        while p < out.len() && !inside_less(tie, nm, e, out[p])
            invariant
                p <= out.len(),
                e < nm.len(),
                nm.len() == names@.len(),
                forall|a: int| 0 <= a < out.len() ==> #[trigger] out@[a] < nm.len(),
                forall|a: int| 0 <= a < p ==> !inside_lt(tie, names@, e as int, #[trigger] out@[a] as int),
                forall|x: int| 0 <= x < nm.len() ==> #[trigger] nm@[x]@ == names@[x],
            decreases out.len() - p,
        {
            p += 1;
        }
        proof {
            assert(!members@.take(i as int).contains(e)) by {
                if members@.take(i as int).contains(e) {
                    let a = choose|a: int| 0 <= a < i && members@.take(i as int)[a] == e;
                    assert(members@[a] == members@[i as int]);
                }
            }
            assert(!out@.contains(e));
            assert forall|a: int| 0 <= a < p implies inside_lt(tie, names@, #[trigger] out@[a] as int, e as int) by {
                assert(out@[a] != e);
                lemma_inside_lt_total(tie, names@, e as int, out@[a] as int);
            }
        }
        let ghost pre = out@;
        out.insert(p, e);
        proof {
            assert(out@ =~= pre.take(p as int).push(e) + pre.skip(p as int));
            assert forall|a: int, b: int| 0 <= a < b < out.len() implies inside_lt(tie, names@, #[trigger] out@[a] as int, #[trigger] out@[b] as int) by {
                if b < p {
                    assert(out@[a] == pre[a] && out@[b] == pre[b]);
                } else if b == p {
                    assert(out@[a] == pre[a]);
                } else if a < p {
                    assert(out@[a] == pre[a] && out@[b] == pre[b - 1]);
                } else if a == p {
                    assert(out@[b] == pre[b - 1]);
                    if p < pre.len() {
                        assert(inside_lt(tie, names@, e as int, pre[p as int] as int));
                        if b - 1 > p {
                            lemma_inside_lt_trans(tie, names@, e as int, pre[p as int] as int, pre[b - 1] as int);
                        }
                    }
                } else {
                    assert(out@[a] == pre[a - 1] && out@[b] == pre[b - 1]);
                }
            }
            assert(members@.take(i + 1) =~= members@.take(i as int).push(e));
            assert forall|x: usize| out@.contains(x) <==> (pre.contains(x) || x == e) by {
                if out@.contains(x) {
                    let a = choose|a: int| 0 <= a < out.len() && out@[a] == x;
                    if a < p {
                        assert(pre[a] == x);
                    } else if a > p {
                        assert(pre[a - 1] == x);
                    }
                }
                if pre.contains(x) {
                    let a = choose|a: int| 0 <= a < pre.len() && pre[a] == x;
                    if a < p {
                        assert(out@[a] == x);
                    } else {
                        assert(out@[a + 1] == x);
                    }
                }
                if x == e {
                    assert(out@[p as int] == e);
                }
            }
            assert forall|x: usize| members@.take(i + 1).contains(x) <==> (members@.take(i as int).contains(x) || x == e) by {
                if members@.take(i + 1).contains(x) {
                    let a = choose|a: int| 0 <= a < i + 1 && #[trigger] members@.take(i + 1)[a] == x;
                    if a < i {
                        assert(members@.take(i as int)[a] == x);
                    }
                }
                if members@.take(i as int).contains(x) {
                    let a = choose|a: int| 0 <= a < i && #[trigger] members@.take(i as int)[a] == x;
                    assert(members@.take(i + 1)[a] == x);
                }
                if x == e {
                    assert(members@.take(i + 1)[i as int] == e);
                }
            }
            assert forall|x: usize| #[trigger] out@.contains(x) <==> members@.take(i + 1).contains(x) by {
                assert(out@.contains(x) <==> (pre.contains(x) || x == e));
                assert(members@.take(i + 1).contains(x) <==> (members@.take(i as int).contains(x) || x == e));
            }
            assert(out@.no_duplicates()) by {
                assert forall|a: int, b: int| 0 <= a < b < out.len() implies out@[a] != out@[b] by {
                    assert(inside_lt(tie, names@, out@[a] as int, out@[b] as int));
                    if out@[a] == out@[b] {
                        lemma_inside_lt_asym(tie, names@, out@[a] as int, out@[b] as int);
                    }
                }
            }
        }
        i += 1;
    }
    proof {
        assert(members@.take(members.len() as int) =~= members@);
    }
    out
}

/// What the emitted prefix `o` satisfies at every step: no repeats, a member
/// is emitted exactly when its component is marked `placed`, dependencies
/// come first, components are contiguous and ordered inside by `inside`, and
/// `groups` are the emitted components of two or more members, found at
/// positions `gs` in `o`.
pub open spec fn prefix_inv(
    m: Seq<bool>,
    d: Seq<Vec<usize>>,
    names: Seq<Seq<char>>,
    inside: Tie,
    ci: Seq<usize>,
    placed: Seq<bool>,
    o: Seq<usize>,
    groups: Seq<Vec<usize>>,
    gs: Seq<int>,
) -> bool {
    &&& o.no_duplicates()
    &&& forall|i: int| 0 <= i < o.len() ==> #[trigger] o[i] < m.len() && m[o[i] as int]
    &&& forall|z: int| 0 <= z < m.len() && m[z] ==> (#[trigger] o.contains(z as usize) <==> placed[ci[z] as int])
    &&& forall|i: int, z: int|
        0 <= i < o.len() && #[trigger] edge(m, d, o[i] as int, z) && !mutual(m, d, o[i] as int, z) ==> o.take(
            i,
        ).contains(z as usize)
    &&& forall|i: int, j: int, k: int|
        0 <= i < j < k < o.len() && mutual(m, d, #[trigger] o[i] as int, #[trigger] o[k] as int) ==> mutual(
            m,
            d,
            o[i] as int,
            #[trigger] o[j] as int,
        )
    &&& forall|i: int|
        0 <= i < o.len() - 1 && mutual(m, d, #[trigger] o[i] as int, o[i + 1] as int) ==> inside_lt(
            inside,
            names,
            o[i] as int,
            o[i + 1] as int,
        )
    &&& gs.len() == groups.len()
    &&& forall|k: int|
        0 <= k < groups.len() ==> #[trigger] groups[k].len() >= 2 && 0 <= gs[k] && gs[k] + groups[k].len() <= o.len()
            && o.subrange(gs[k], gs[k] + groups[k].len()) == groups[k]@
    &&& forall|k: int, y: int|
        0 <= k < groups.len() && 0 <= y < m.len() ==> (#[trigger] groups[k]@.contains(y as usize) <==> mutual(
            m,
            d,
            groups[k]@[0] as int,
            y,
        ))
    &&& forall|k1: int, k2: int| 0 <= k1 < k2 < groups.len() ==> #[trigger] gs[k1] < #[trigger] gs[k2]
    &&& forall|x: int, y: int|
        0 <= x < m.len() && #[trigger] o.contains(x as usize) && y != x && #[trigger] mutual(m, d, x, y) ==> exists|k: int|
            0 <= k < groups.len() && #[trigger] groups[k]@.contains(x as usize)
}

/// The block of component `k` may be appended: every member `w` of it has
/// all its dependencies outside the component already placed.
pub open spec fn comp_ready_spec(
    m: Seq<bool>,
    d: Seq<Vec<usize>>,
    ci: Seq<usize>,
    placed: Seq<bool>,
    k: int,
) -> bool {
    forall|w: int, z: int|
        0 <= w < m.len() && m[w] && ci[w] == k && #[trigger] edge(m, d, w, z) && ci[z] != k ==> placed[ci[z] as int]
}

/// Appending the (sorted) block of a ready, unplaced component keeps `prefix_inv`.
proof fn lemma_append_block(
    m: Seq<bool>,
    d: Seq<Vec<usize>>,
    names: Seq<Seq<char>>,
    inside: Tie,
    ci: Seq<usize>,
    cs: Seq<usize>,
    cm: Seq<Vec<usize>>,
    placed: Seq<bool>,
    o: Seq<usize>,
    groups: Seq<Vec<usize>>,
    gs: Seq<int>,
    k: int,
    b: Vec<usize>,
)
    requires
        m.len() <= usize::MAX,
        comps_wf(m, d, ci, cs, cm),
        placed.len() == cs.len(),
        prefix_inv(m, d, names, inside, ci, placed, o, groups, gs),
        0 <= k < cs.len(),
        !placed[k],
        comp_ready_spec(m, d, ci, placed, k),
        b@.no_duplicates(),
        forall|y: usize| #[trigger] b@.contains(y) <==> cm[k]@.contains(y),
        forall|a: int, c: int| 0 <= a < c < b.len() ==> inside_lt(inside, names, #[trigger] b@[a] as int, #[trigger] b@[c] as int),
    ensures
        b.len() >= 1,
        ({
            let o2 = o + b@;
            let p2 = placed.update(k, true);
            let g2 = if b.len() >= 2 { groups.push(b) } else { groups };
            let gs2 = if b.len() >= 2 { gs.push(o.len() as int) } else { gs };
            prefix_inv(m, d, names, inside, ci, p2, o2, g2, gs2)
        }),
        forall|i: int| 0 <= i <= o.len() ==> (o + b@).take(i) == o.take(i),
        block_start(m, d, o + b@, o.len() as int),
{
    let n = m.len();
    let o2 = o + b@;
    let p2 = placed.update(k, true);
    let g2 = if b.len() >= 2 { groups.push(b) } else { groups };
    let gs2 = if b.len() >= 2 { gs.push(o.len() as int) } else { gs };
    let r = cs[k] as int;
    // facts about b
    assert(is_scc_min(m, d, cs[k] as int, cs[k] as int));
    lemma_reaches_members(m, d, cs[k] as int, cs[k] as int);
    assert(ci[cs[k] as int] == k);
    assert(cm[k]@.contains((cs[k] as int) as usize));
    assert(b@.contains(cs[k]));
    assert(b.len() >= 1);
    assert forall|a: int| 0 <= a < b.len() implies #[trigger] b@[a] < n && m[b@[a] as int] && ci[b@[a] as int] == k by {
        assert(b@.contains(b@[a]));
        assert(cm[k]@.contains(b@[a]));
        let q = choose|q: int| 0 <= q < cm[k].len() && cm[k]@[q] == b@[a];
        assert(cm[k]@[q] < n);
        assert(cm[k]@.contains((b@[a] as int) as usize));
    }
    assert forall|y: int| 0 <= y < n implies (b@.contains(y as usize) <==> (m[y] && ci[y] == k)) by {
        assert(cm[k]@.contains(y as usize) <==> (m[y] && ci[y] == k));
    }
    assert forall|a: int, y: int| 0 <= a < b.len() && 0 <= y < n implies (#[trigger] mutual(m, d, b@[a] as int, y) <==> (m[y] && ci[y] == k)) by {
        if m[y] {
            lemma_comps_mutual(m, d, ci, cs, cm, b@[a] as int, y);
        } else if mutual(m, d, b@[a] as int, y) {
            lemma_reaches_members(m, d, b@[a] as int, y);
        }
    }
    // the prefix is unchanged
    assert forall|i: int| 0 <= i <= o.len() implies o2.take(i) == o.take(i) by {
        assert(o2.take(i) =~= o.take(i));
    }
    assert forall|a: int| 0 <= a < o.len() implies ci[#[trigger] o[a] as int] != k by {
        assert(o.contains(o[a]));
    }
    // no duplicates
    assert(o2.no_duplicates()) by {
        assert forall|i: int, j: int| 0 <= i < j < o2.len() implies o2[i] != o2[j] by {
            if j >= o.len() && i < o.len() {
                assert(ci[o[i] as int] != k);
                assert(o2[j] == b@[j - o.len()]);
            } else if i >= o.len() {
                assert(o2[i] == b@[i - o.len()] && o2[j] == b@[j - o.len()]);
            }
        }
    }
    assert forall|i: int| 0 <= i < o2.len() implies #[trigger] o2[i] < m.len() && m[o2[i] as int] by {
        if i >= o.len() {
            assert(o2[i] == b@[i - o.len()]);
        }
    }
    assert forall|z: int| 0 <= z < m.len() && m[z] implies (#[trigger] o2.contains(z as usize) <==> p2[ci[z] as int]) by {
        if o2.contains(z as usize) {
            let i = choose|i: int| 0 <= i < o2.len() && o2[i] == z as usize;
            if i < o.len() {
                assert(o.contains(z as usize));
            } else {
                assert(b@[i - o.len()] == z as usize);
            }
        }
        if p2[ci[z] as int] {
            if ci[z] == k {
                assert(b@.contains(z as usize));
                let a = choose|a: int| 0 <= a < b.len() && b@[a] == z as usize;
                assert(o2[o.len() + a] == z as usize);
            } else {
                assert(o.contains(z as usize));
                let i = choose|i: int| 0 <= i < o.len() && o[i] == z as usize;
                assert(o2[i] == z as usize);
            }
        }
    }
    // dependencies first
    assert forall|i: int, z: int|
        0 <= i < o2.len() && #[trigger] edge(m, d, o2[i] as int, z) && !mutual(m, d, o2[i] as int, z) implies o2.take(
            i,
        ).contains(z as usize) by {
        if i < o.len() {
            assert(o2[i] == o[i]);
            assert(o.take(i).contains(z as usize));
            assert(o2.take(i) =~= o.take(i));
        } else {
            let w = o2[i] as int;
            assert(w == b@[i - o.len()]);
            assert(ci[w] == k);
            assert(ci[z] != k);
            assert(placed[ci[z] as int]);
            assert(o.contains(z as usize));
            let q = choose|q: int| 0 <= q < o.len() && o[q] == z as usize;
            assert(o2.take(i)[q] == z as usize);
        }
    }
    // contiguity
    assert forall|i: int, j: int, c: int|
        0 <= i < j < c < o2.len() && mutual(m, d, #[trigger] o2[i] as int, #[trigger] o2[c] as int) implies mutual(
            m,
            d,
            o2[i] as int,
            #[trigger] o2[j] as int,
        ) by {
        if c < o.len() {
            assert(o2[i] == o[i] && o2[j] == o[j] && o2[c] == o[c]);
        } else if i < o.len() {
            assert(o2[c] == b@[c - o.len()]);
            assert(ci[o[i] as int] != k);
            assert(o2[i] == o[i]);
            assert(mutual(m, d, b@[c - o.len()] as int, o[i] as int));
        } else {
            assert(o2[i] == b@[i - o.len()] && o2[j] == b@[j - o.len()]);
            assert(mutual(m, d, b@[i - o.len()] as int, b@[j - o.len()] as int) <==> (m[b@[j - o.len()] as int] && ci[b@[j - o.len()] as int] == k));
        }
    }
    // inside order
    assert forall|i: int|
        0 <= i < o2.len() - 1 && mutual(m, d, #[trigger] o2[i] as int, o2[i + 1] as int) implies inside_lt(
            inside,
            names,
            o2[i] as int,
            o2[i + 1] as int,
        ) by {
        if i + 1 < o.len() {
            assert(o2[i] == o[i] && o2[i + 1] == o[i + 1]);
        } else if i + 1 == o.len() {
            assert(o2[i] == o[i]);
            assert(o2[i + 1] == b@[0]);
            assert(ci[o[i] as int] != k);
            assert(mutual(m, d, b@[0] as int, o[i] as int));
        } else {
            assert(o2[i] == b@[i - o.len()] && o2[i + 1] == b@[i + 1 - o.len()]);
        }
    }
    // block start
    if o.len() > 0 {
        assert(o2[o.len() - 1] == o[o.len() - 1]);
        assert(ci[o[o.len() - 1] as int] != k);
        assert(o2[o.len() as int] == b@[0]);
        assert(!mutual(m, d, o2[o.len() - 1] as int, o2[o.len() as int] as int)) by {
            if mutual(m, d, o2[o.len() - 1] as int, o2[o.len() as int] as int) {
                assert(mutual(m, d, o2[o.len() as int] as int, o2[o.len() - 1] as int));
            }
        }
    }
    // groups
    assert forall|q: int|
        0 <= q < g2.len() implies #[trigger] g2[q].len() >= 2 && 0 <= gs2[q] && gs2[q] + g2[q].len() <= o2.len()
            && o2.subrange(gs2[q], gs2[q] + g2[q].len()) == g2[q]@ by {
        if q < groups.len() {
            assert(g2[q] == groups[q]);
            assert(gs2[q] == gs[q]);
            assert(o2.subrange(gs[q], gs[q] + groups[q].len()) =~= o.subrange(gs[q], gs[q] + groups[q].len()));
        } else {
            assert(o2.subrange(o.len() as int, o.len() + b.len()) =~= b@);
        }
    }
    assert forall|q: int, y: int|
        0 <= q < g2.len() && 0 <= y < m.len() implies (#[trigger] g2[q]@.contains(y as usize) <==> mutual(
            m,
            d,
            g2[q]@[0] as int,
            y,
        )) by {
        if q < groups.len() {
            assert(g2[q] == groups[q]);
        }
    }
    assert forall|k1: int, k2: int| 0 <= k1 < k2 < g2.len() implies #[trigger] gs2[k1] < #[trigger] gs2[k2] by {
        if k2 >= groups.len() {
            assert(gs2[k2] == o.len());
            assert(gs[k1] + groups[k1].len() <= o.len());
        }
    }
    assert forall|x: int, y: int|
        0 <= x < m.len() && #[trigger] o2.contains(x as usize) && y != x && #[trigger] mutual(m, d, x, y) implies exists|q: int|
            0 <= q < g2.len() && #[trigger] g2[q]@.contains(x as usize) by {
        lemma_reaches_members(m, d, x, y);
        if o.contains(x as usize) {
            let q = choose|q: int| 0 <= q < groups.len() && #[trigger] groups[q]@.contains(x as usize);
            assert(g2[q] == groups[q]);
        } else {
            assert(p2[ci[x] as int]);
            assert(ci[x] == k);
            lemma_comps_mutual(m, d, ci, cs, cm, x, y);
            assert(ci[y] == k);
            assert(b@.contains(x as usize));
            assert(b@.contains(y as usize));
            assert(b.len() >= 2) by {
                if b.len() < 2 {
                    let ax = choose|a: int| 0 <= a < b.len() && b@[a] == x as usize;
                    let ay = choose|a: int| 0 <= a < b.len() && b@[a] == y as usize;
                    assert(ax == 0 && ay == 0);
                    assert(x as usize != y as usize);
                    assert(false);
                }
            }
            assert(g2 == groups.push(b));
            assert(g2[groups.len() as int] == b);
        }
    }
    assert(prefix_inv(m, d, names, inside, ci, p2, o2, g2, gs2));
}

/// `mn[k]` is a member of component `k` with the smallest name.
pub open spec fn mn_wf(m: Seq<bool>, names: Seq<Seq<char>>, ci: Seq<usize>, cs: Seq<usize>, mn: Seq<usize>) -> bool {
    &&& mn.len() == cs.len()
    &&& forall|k: int| 0 <= k < mn.len() ==> #[trigger] mn[k] < m.len() && m[mn[k] as int] && ci[mn[k] as int] == k
    &&& forall|k: int, y: int|
        #![trigger ci[y], mn[k]]
        0 <= k < mn.len() && 0 <= y < m.len() && m[y] && ci[y] == k ==> !lex_lt(names[y], names[mn[k] as int])
}

/// Comparison of components by their keys: smallest index, or smallest name
/// and then smallest index.
pub open spec fn ckey_lt(tie: Tie, names: Seq<Seq<char>>, mn: Seq<usize>, cs: Seq<usize>, a: int, b: int) -> bool {
    match tie {
        Tie::Alphabetical => lex_lt(names[mn[a] as int], names[mn[b] as int]) || (names[mn[a] as int]
            == names[mn[b] as int] && cs[a] < cs[b]),
        _ => cs[a] < cs[b],
    }
}

proof fn lemma_ckey_trans(tie: Tie, names: Seq<Seq<char>>, mn: Seq<usize>, cs: Seq<usize>, a: int, b: int, c: int)
    requires
        ckey_lt(tie, names, mn, cs, a, b),
        ckey_lt(tie, names, mn, cs, b, c),
    ensures
        ckey_lt(tie, names, mn, cs, a, c),
{
    if tie == Tie::Alphabetical {
        let (na, nb, nc) = (names[mn[a] as int], names[mn[b] as int], names[mn[c] as int]);
        if lex_lt(na, nb) && lex_lt(nb, nc) {
            lemma_lex_trans(na, nb, nc);
        }
    }
}

proof fn lemma_ckey_total(tie: Tie, names: Seq<Seq<char>>, mn: Seq<usize>, cs: Seq<usize>, a: int, b: int)
    requires
        cs[a] != cs[b],
    ensures
        ckey_lt(tie, names, mn, cs, a, b) || ckey_lt(tie, names, mn, cs, b, a),
{
    lemma_lex_total(names[mn[a] as int], names[mn[b] as int]);
}

/// The key order of components is the key order of their members.
proof fn lemma_key_bridge(
    tie: Tie,
    m: Seq<bool>,
    d: Seq<Vec<usize>>,
    names: Seq<Seq<char>>,
    ci: Seq<usize>,
    cs: Seq<usize>,
    cm: Seq<Vec<usize>>,
    mn: Seq<usize>,
    x: int,
    y: int,
)
    requires
        names.len() == m.len(),
        comps_wf(m, d, ci, cs, cm),
        mn_wf(m, names, ci, cs, mn),
        0 <= x < m.len(),
        0 <= y < m.len(),
        m[x],
        m[y],
    ensures
        key_lt(tie, m, d, names, x, y) == ckey_lt(tie, names, mn, cs, ci[x] as int, ci[y] as int),
{
    lemma_comps_mutual(m, d, ci, cs, cm, x, x);
    lemma_comps_mutual(m, d, ci, cs, cm, y, y);
    lemma_min_name_bridge(m, d, names, ci, cs, cm, mn, x);
    lemma_min_name_bridge(m, d, names, ci, cs, cm, mn, y);
}

proof fn lemma_min_name_bridge(
    m: Seq<bool>,
    d: Seq<Vec<usize>>,
    names: Seq<Seq<char>>,
    ci: Seq<usize>,
    cs: Seq<usize>,
    cm: Seq<Vec<usize>>,
    mn: Seq<usize>,
    x: int,
)
    requires
        names.len() == m.len(),
        comps_wf(m, d, ci, cs, cm),
        mn_wf(m, names, ci, cs, mn),
        0 <= x < m.len(),
        m[x],
    ensures
        scc_min_name(m, d, names, x) == names[mn[ci[x] as int] as int],
{
    let k = ci[x] as int;
    let w = mn[k] as int;
    let s = names[w];
    lemma_comps_mutual(m, d, ci, cs, cm, x, w);
    assert(mutual(m, d, x, w));
    assert forall|y: int| 0 <= y < names.len() && #[trigger] mutual(m, d, x, y) implies !lex_lt(names[y], s) by {
        lemma_reaches_members(m, d, x, y);
        lemma_comps_mutual(m, d, ci, cs, cm, x, y);
    }
    assert(is_min_name(m, d, names, x, s));
    let s2 = scc_min_name(m, d, names, x);
    assert(is_min_name(m, d, names, x, s2));
    let y2 = choose|y: int| 0 <= y < names.len() && #[trigger] mutual(m, d, x, y) && names[y] == s2;
    assert(!lex_lt(s2, s));
    assert(!lex_lt(s, s2));
    lemma_lex_total(s, s2);
}

/// Whether `a`'s key is below `b`'s.
fn comp_key_less(tie: Tie, nm: &Vec<Vec<char>>, names: Ghost<Seq<Seq<char>>>, mn: &Vec<usize>, cs: &Vec<usize>, a: usize, b: usize) -> (r: bool)
    requires
        a < mn.len(),
        b < mn.len(),
        mn.len() == cs.len(),
        nm.len() == names@.len(),
        forall|x: int| 0 <= x < nm.len() ==> #[trigger] nm@[x]@ == names@[x],
        forall|k: int| 0 <= k < mn.len() ==> #[trigger] mn@[k] < nm.len(),
    ensures
        r == ckey_lt(tie, names@, mn@, cs@, a as int, b as int),
{
    let (x, y) = (mn[a], mn[b]);
    proof {
        assert(mn@[a as int] < nm.len() && mn@[b as int] < nm.len());
        assert(nm@[x as int]@ == names@[x as int]);
        assert(nm@[y as int]@ == names@[y as int]);
    }
    match tie {
        Tie::Alphabetical => {
            if lex_less(&nm[x], &nm[y]) {
                true
            } else if lex_less(&nm[y], &nm[x]) {
                proof {
                    lemma_lex_asym(nm@[y as int]@, nm@[x as int]@);
                    if nm@[x as int]@ == nm@[y as int]@ {
                        lemma_lex_irrefl(nm@[x as int]@);
                    }
                }
                false
            } else {
                proof {
                    lemma_lex_total(nm@[x as int]@, nm@[y as int]@);
                }
                cs[a] < cs[b]
            }
        },
        _ => cs[a] < cs[b],
    }
}

/// For each component, a member with the smallest name.
fn comp_min_names(
    m: &Vec<bool>,
    d: Ghost<Seq<Vec<usize>>>,
    nm: &Vec<Vec<char>>,
    names: Ghost<Seq<Seq<char>>>,
    ci: &Vec<usize>,
    cs: &Vec<usize>,
    cm: &Vec<Vec<usize>>,
) -> (mn: Vec<usize>)
    requires
        m.len() <= usize::MAX,
        comps_wf(m@, d@, ci@, cs@, cm@),
        nm.len() == m.len(),
        names@.len() == m.len(),
        forall|x: int| 0 <= x < nm.len() ==> #[trigger] nm@[x]@ == names@[x],
    ensures
        mn_wf(m@, names@, ci@, cs@, mn@),
{
    let mut mn: Vec<usize> = Vec::new();
    let mut k: usize = 0;
    while k < cm.len()
        invariant
            m.len() <= usize::MAX,
            comps_wf(m@, d@, ci@, cs@, cm@),
            nm.len() == m.len(),
            names@.len() == m.len(),
            forall|x: int| 0 <= x < nm.len() ==> #[trigger] nm@[x]@ == names@[x],
            k <= cm.len(),
            mn.len() == k,
            forall|q: int| 0 <= q < k ==> #[trigger] mn@[q] < m.len() && m[mn@[q] as int] && ci@[mn@[q] as int] == q,
            forall|q: int, y: int|
                #![trigger ci@[y], mn@[q]]
                0 <= q < k && 0 <= y < m.len() && m[y] && ci@[y] == q ==> !lex_lt(names@[y], names@[mn@[q] as int]),
        decreases cm.len() - k,
    {
        let members = &cm[k];
        proof {
            assert(is_scc_min(m@, d@, cs@[k as int] as int, cs@[k as int] as int));
            lemma_reaches_members(m@, d@, cs@[k as int] as int, cs@[k as int] as int);
            assert(ci@[cs@[k as int] as int] == k);
            assert(cs@[k as int] < m.len());
            assert(cm@[k as int]@.contains((cs@[k as int] as int) as usize));
        }
        let mut best = members[0];
        let mut i: usize = 1;
        proof {
            assert(cm@[k as int]@.contains(members@[0]));
            assert(members@[0] < m.len());
            assert(cm@[k as int]@.contains((members@[0] as int) as usize));
            lemma_lex_irrefl(names@[members@[0] as int]);
        }
        while i < members.len()
            invariant
                comps_wf(m@, d@, ci@, cs@, cm@),
                nm.len() == m.len(),
                names@.len() == m.len(),
                forall|x: int| 0 <= x < nm.len() ==> #[trigger] nm@[x]@ == names@[x],
                k < cm.len(),
                members == &cm@[k as int],
                1 <= i <= members.len(),
                best < m.len(),
                m[best as int],
                ci@[best as int] == k,
                forall|a: int| 0 <= a < i ==> !lex_lt(names@[#[trigger] members@[a] as int], names@[best as int]),
            decreases members.len() - i,
        {
            let y = members[i];
            proof {
                assert(members@[i as int] < m.len());
                assert(cm@[k as int]@.contains((members@[i as int] as int) as usize));
            }
            if lex_less(&nm[y], &nm[best]) {
                proof {
                    assert forall|a: int| 0 <= a < i + 1 implies !lex_lt(names@[#[trigger] members@[a] as int], names@[y as int]) by {
                        if a < i {
                            let na = names@[members@[a] as int];
                            lemma_lex_total(na, names@[best as int]);
                            if lex_lt(na, names@[y as int]) {
                                if lex_lt(names@[best as int], na) {
                                    lemma_lex_trans(names@[best as int], na, names@[y as int]);
                                    lemma_lex_asym(names@[y as int], names@[best as int]);
                                } else if na == names@[best as int] {
                                    lemma_lex_asym(names@[y as int], names@[best as int]);
                                }
                            }
                        } else {
                            lemma_lex_irrefl(names@[y as int]);
                        }
                    }
                }
                best = y;
            }
            i += 1;
        }
        proof {
            assert forall|y: int| 0 <= y < m.len() && m[y] && ci@[y] == k implies !lex_lt(names@[y], names@[best as int]) by {
                assert(cm@[k as int]@.contains(y as usize));
                let a = choose|a: int| 0 <= a < members.len() && members@[a] == y as usize;
                assert(!lex_lt(names@[members@[a] as int], names@[best as int]));
            }
        }
        mn.push(best);
        k += 1;
    }
    mn
}

/// Whether every outside dependency of component `k` is placed.
fn comp_ready(
    m: &Vec<bool>,
    d: &[Vec<usize>],
    ci: &Vec<usize>,
    cs: Ghost<Seq<usize>>,
    cm: &Vec<Vec<usize>>,
    placed: &Vec<bool>,
    k: usize,
) -> (r: bool)
    requires
        m.len() == d.len(),
        comps_wf(m@, d@, ci@, cs@, cm@),
        placed.len() == cs@.len(),
        k < cs@.len(),
    ensures
        r == comp_ready_spec(m@, d@, ci@, placed@, k as int),
{
    let n = m.len();
    let members = &cm[k];
    let mut i: usize = 0;
    while i < members.len()
        invariant
            n == m.len(),
            m.len() == d.len(),
            comps_wf(m@, d@, ci@, cs@, cm@),
            placed.len() == cs@.len(),
            k < cs@.len(),
            members == &cm@[k as int],
            i <= members.len(),
            forall|a: int, z: int|
                0 <= a < i && #[trigger] edge(m@, d@, members@[a] as int, z) && ci@[z] != k ==> placed@[ci@[z] as int],
        decreases members.len() - i,
    {
        let w = members[i];
        proof {
            assert(members@[i as int] < n);
        }
        let dw = &d[w];
        let mut j: usize = 0;
        while j < dw.len()
            invariant
                n == m.len(),
                m.len() == d.len(),
                comps_wf(m@, d@, ci@, cs@, cm@),
                placed.len() == cs@.len(),
                k < cs@.len(),
                w < n,
                members == &cm@[k as int],
                i < members.len(),
                w == members@[i as int],
                dw == &d@[w as int],
                j <= dw.len(),
                forall|b: int|
                    0 <= b < j && #[trigger] dw@[b] < n && m[dw@[b] as int] && ci@[dw@[b] as int] != k ==> placed@[ci@[dw@[b] as int] as int],
            decreases dw.len() - j,
        {
            let z = dw[j];
            if z < n && m[z] && ci[z] != k {
                proof {
                    assert(ci@[z as int] < cs@.len());
                }
                if !placed[ci[z]] {
                    proof {
                        assert(members@[i as int] == w);
                        assert(cm@[k as int]@.contains(w));
                        assert(cm@[k as int]@.contains((w as int) as usize));
                        assert(edge(m@, d@, w as int, z as int));
                    }
                    return false;
                }
            }
            j += 1;
        }
        proof {
            assert forall|a: int, z: int|
                0 <= a < i + 1 && #[trigger] edge(m@, d@, members@[a] as int, z) && ci@[z] != k implies placed@[ci@[z] as int] by {
                if a == i as int {
                    let b = choose|b: int| 0 <= b < dw.len() && dw@[b] == z as usize;
                    assert(dw@[b] < n && m[dw@[b] as int]);
                }
            }
        }
        i += 1;
    }
    proof {
        assert forall|w: int, z: int|
            0 <= w < m.len() && m[w] && ci@[w] == k && #[trigger] edge(m@, d@, w, z) && ci@[z] != k implies placed@[ci@[z] as int] by {
            assert(cm@[k as int]@.contains(w as usize));
            let a = choose|a: int| 0 <= a < members.len() && members@[a] == w as usize;
        }
    }
    true
}

/// Readiness of `y`'s component, stated over members, is readiness of its
/// component index.
proof fn lemma_ready_bridge(
    m: Seq<bool>,
    d: Seq<Vec<usize>>,
    names: Seq<Seq<char>>,
    inside: Tie,
    ci: Seq<usize>,
    cs: Seq<usize>,
    cm: Seq<Vec<usize>>,
    placed: Seq<bool>,
    o: Seq<usize>,
    groups: Seq<Vec<usize>>,
    gs: Seq<int>,
    y: int,
)
    requires
        comps_wf(m, d, ci, cs, cm),
        placed.len() == cs.len(),
        prefix_inv(m, d, names, inside, ci, placed, o, groups, gs),
        0 <= y < m.len(),
        m[y],
    ensures
        ready_at(m, d, o, o.len() as int, y) == comp_ready_spec(m, d, ci, placed, ci[y] as int),
        ready_at(m, d, o, o.len() as int, y) == deps_placed(m, d, |z: int| o.contains(z as usize), y),
{
    assert(o.take(o.len() as int) =~= o);
    let k = ci[y] as int;
    if ready_at(m, d, o, o.len() as int, y) {
        assert forall|w: int, z: int|
            0 <= w < m.len() && m[w] && ci[w] == k && #[trigger] edge(m, d, w, z) && ci[z] != k implies placed[ci[z] as int] by {
            lemma_comps_mutual(m, d, ci, cs, cm, w, y);
            lemma_comps_mutual(m, d, ci, cs, cm, z, y);
            assert(o.take(o.len() as int).contains(z as usize));
        }
    }
    if comp_ready_spec(m, d, ci, placed, k) {
        assert forall|w: int, z: int|
            mutual(m, d, w, y) && #[trigger] edge(m, d, w, z) && !mutual(m, d, z, y) implies o.take(o.len() as int).contains(
                z as usize,
            ) by {
            lemma_comps_mutual(m, d, ci, cs, cm, w, y);
            lemma_comps_mutual(m, d, ci, cs, cm, z, y);
        }
    }
}

/// The component of each block among the first `k` positions of `o`: the
/// component of every position that starts a new one.
pub open spec fn comp_blocks(m: Seq<bool>, d: Seq<Vec<usize>>, o: Seq<usize>, ci: Seq<usize>, k: int) -> Seq<usize>
    decreases k,
{
    if k <= 0 {
        Seq::empty()
    } else {
        comp_blocks(m, d, o, ci, k - 1) + if block_start(m, d, o, k - 1) {
            seq![ci[o[k - 1] as int]]
        } else {
            Seq::empty()
        }
    }
}

/// `cdl` lists, for each of the `nc` components, the components it uses, in
/// increasing order.
pub open spec fn cdl_wf(m: Seq<bool>, d: Seq<Vec<usize>>, ci: Seq<usize>, nc: int, cdl: Seq<Seq<usize>>) -> bool {
    &&& cdl.len() == nc
    &&& forall|k: int, a: int, b: int| 0 <= k < nc && 0 <= a < b < cdl[k].len() ==> #[trigger] cdl[k][a] < #[trigger] cdl[k][b]
    &&& forall|k: int, a: int| 0 <= k < nc && 0 <= a < cdl[k].len() ==> #[trigger] cdl[k][a] < nc
    &&& forall|k: int, j: int| 0 <= k < nc && 0 <= j < nc ==> (#[trigger] cdl[k].contains(j as usize) <==> cdep(m, d, ci, k, j))
}

/// The blocks of `o` follow the components in depth-first order, for the
/// decomposition `(ci, cs, cm)` into components (numbered by smallest
/// member) and their dependency lists `cdl`.
pub open spec fn topo_parts(
    m: Seq<bool>,
    d: Seq<Vec<usize>>,
    o: Seq<usize>,
    ci: Seq<usize>,
    cs: Seq<usize>,
    cm: Seq<Vec<usize>>,
    cdl: Seq<Seq<usize>>,
) -> bool {
    &&& comps_wf(m, d, ci, cs, cm)
    &&& cdl_wf(m, d, ci, cs.len() as int, cdl)
    &&& comp_blocks(m, d, o, ci, o.len() as int) == dfs_spec(cdl)
}

/// The order of `Topological`: the components in depth-first order.
pub open spec fn topo_spec(m: Seq<bool>, d: Seq<Vec<usize>>, o: Seq<usize>) -> bool {
    exists|ci: Seq<usize>, cs: Seq<usize>, cm: Seq<Vec<usize>>, cdl: Seq<Seq<usize>>|
        #[trigger] topo_parts(m, d, o, ci, cs, cm, cdl)
}

proof fn lemma_comp_blocks_prefix(m: Seq<bool>, d: Seq<Vec<usize>>, o: Seq<usize>, b: Seq<usize>, ci: Seq<usize>, k: int)
    requires
        0 <= k <= o.len(),
    ensures
        comp_blocks(m, d, o + b, ci, k) == comp_blocks(m, d, o, ci, k),
    decreases k,
{
    if k > 0 {
        lemma_comp_blocks_prefix(m, d, o, b, ci, k - 1);
        assert((o + b)[k - 1] == o[k - 1]);
        if k > 1 {
            assert((o + b)[k - 2] == o[k - 2]);
        }
    }
}

/// Appending the block of component `c` adds `c` to the blocks.
proof fn lemma_comp_blocks_append(
    m: Seq<bool>,
    d: Seq<Vec<usize>>,
    ci: Seq<usize>,
    cs: Seq<usize>,
    cm: Seq<Vec<usize>>,
    o: Seq<usize>,
    b: Seq<usize>,
    c: int,
)
    requires
        comps_wf(m, d, ci, cs, cm),
        b.len() > 0,
        forall|j: int| 0 <= j < b.len() ==> #[trigger] b[j] < m.len() && m[b[j] as int] && ci[b[j] as int] == c,
        forall|j: int| 0 <= j < o.len() ==> #[trigger] o[j] < m.len() && m[o[j] as int],
        o.len() > 0 ==> ci[o.last() as int] != c,
    ensures
        comp_blocks(m, d, o + b, ci, (o + b).len() as int) == comp_blocks(m, d, o, ci, o.len() as int).push(c as usize),
{
    let ob = o + b;
    lemma_comp_blocks_prefix(m, d, o, b, ci, o.len() as int);
    let base = comp_blocks(m, d, o, ci, o.len() as int);
    assert(ob[o.len() as int] == b[0]);
    assert(block_start(m, d, ob, o.len() as int)) by {
        if o.len() > 0 {
            let x = ob[o.len() - 1] as int;
            let y = ob[o.len() as int] as int;
            assert(x == o.last());
            lemma_comps_mutual(m, d, ci, cs, cm, x, y);
        }
    }
    assert(comp_blocks(m, d, ob, ci, o.len() + 1int) == base.push(c as usize));
    lemma_comp_blocks_rest(m, d, ci, cs, cm, o, b, c, ob.len() as int);
}

proof fn lemma_comp_blocks_rest(
    m: Seq<bool>,
    d: Seq<Vec<usize>>,
    ci: Seq<usize>,
    cs: Seq<usize>,
    cm: Seq<Vec<usize>>,
    o: Seq<usize>,
    b: Seq<usize>,
    c: int,
    k: int,
)
    requires
        comps_wf(m, d, ci, cs, cm),
        b.len() > 0,
        forall|j: int| 0 <= j < b.len() ==> #[trigger] b[j] < m.len() && m[b[j] as int] && ci[b[j] as int] == c,
        o.len() + 1 <= k <= (o + b).len(),
        comp_blocks(m, d, o + b, ci, o.len() + 1int) == comp_blocks(m, d, o, ci, o.len() as int).push(c as usize),
    ensures
        comp_blocks(m, d, o + b, ci, k) == comp_blocks(m, d, o, ci, o.len() as int).push(c as usize),
    decreases k,
{
    if k > o.len() + 1 {
        lemma_comp_blocks_rest(m, d, ci, cs, cm, o, b, c, k - 1);
        let ob = o + b;
        let x = ob[k - 2] as int;
        let y = ob[k - 1] as int;
        assert(x == b[k - 2 - o.len()]);
        assert(y == b[k - 1 - o.len()]);
        lemma_comps_mutual(m, d, ci, cs, cm, x, y);
        assert(!block_start(m, d, ob, k - 1));
    }
}

/// Appending the block of an unplaced component `c` to the placed prefix
/// `o` adds `c` to the blocks.
proof fn lemma_topo_step(
    m: Seq<bool>,
    d: Seq<Vec<usize>>,
    ci: Seq<usize>,
    cs: Seq<usize>,
    cm: Seq<Vec<usize>>,
    o: Seq<usize>,
    block: Seq<usize>,
    c: int,
    placed: Seq<bool>,
)
    requires
        comps_wf(m, d, ci, cs, cm),
        0 <= c < cs.len(),
        !placed[c],
        forall|y: usize| #[trigger] block.contains(y) <==> cm[c]@.contains(y),
        forall|i: int| 0 <= i < o.len() ==> #[trigger] o[i] < m.len() && m[o[i] as int],
        forall|z: int| 0 <= z < m.len() && m[z] ==> (#[trigger] o.contains(z as usize) <==> placed[ci[z] as int]),
    ensures
        comp_blocks(m, d, o + block, ci, (o + block).len() as int) == comp_blocks(m, d, o, ci, o.len() as int).push(c as usize),
{
    let r = cs[c] as int;
    assert(is_scc_min(m, d, r, r));
    lemma_reaches_members(m, d, r, r);
    assert(cm[c]@.contains((r as int) as usize));
    assert(block.contains(r as usize));
    assert forall|j: int| 0 <= j < block.len() implies #[trigger] block[j] < m.len() && m[block[j] as int] && ci[block[j] as int] == c by {
        assert(block.contains(block[j]));
        assert(cm[c]@.contains(block[j]));
        assert(cm[c]@[0] < m.len()) by {
            assert(cm[c]@.len() > 0);
        }
        let a = choose|a: int| 0 <= a < cm[c]@.len() && cm[c]@[a] == block[j];
        assert(cm[c]@[a] < m.len());
        assert(cm[c]@.contains((block[j] as int) as usize));
    }
    if o.len() > 0 {
        let z = o.last() as int;
        assert(o.contains(z as usize));
        assert(placed[ci[z] as int]);
    }
    lemma_comp_blocks_append(m, d, ci, cs, cm, o, block, c);
}

/// What `order_scope` returns for `members`: `o` is the order, `g` the
/// mutual groups.
pub open spec fn order_spec(
    members: Seq<usize>,
    deps: Seq<Vec<usize>>,
    names: Seq<Seq<char>>,
    opts: OrderOpts,
    o: Seq<usize>,
    g: Seq<Vec<usize>>,
) -> bool {
    let m = scope_mask(members, deps.len());
    let d = deps;
    &&& o.len() == members.len()
    &&& o.no_duplicates()
    &&& forall|x: usize| #[trigger] o.contains(x) <==> members.contains(x)
    // every dependency comes first, unless both lie on a common cycle
    &&& forall|i: int, j: int|
        0 <= i < j < o.len() && #[trigger] edge(m, d, o[i] as int, o[j] as int) ==> mutual(m, d, o[i] as int, o[j] as int)
    // the members of a component are contiguous
    &&& forall|i: int, j: int, k: int|
        0 <= i < j < k < o.len() && mutual(m, d, #[trigger] o[i] as int, #[trigger] o[k] as int) ==> mutual(
            m,
            d,
            o[i] as int,
            #[trigger] o[j] as int,
        )
    // and ordered by `opts.inside`
    &&& forall|i: int|
        0 <= i < o.len() - 1 && mutual(m, d, #[trigger] o[i] as int, o[i + 1] as int) ==> inside_lt(
            opts.inside,
            names,
            o[i] as int,
            o[i + 1] as int,
        )
    // among components free to go next, the smallest key goes first
    &&& opts.outside != Tie::Topological ==> forall|i: int, j: int|
        0 <= i < j < o.len() && block_start(m, d, o, i) && !mutual(m, d, o[i] as int, o[j] as int)
            && #[trigger] ready_at(m, d, o, i, o[j] as int) ==> key_lt(opts.outside, m, d, names, o[i] as int, o[j] as int)
    // with `Topological`, the components come in depth-first order
    &&& opts.outside == Tie::Topological ==> topo_spec(m, d, o)
    // the groups are the components of two or more members, in order
    &&& forall|k: int|
        0 <= k < g.len() ==> #[trigger] g[k].len() >= 2 && exists|s: int|
            0 <= s && s + g[k].len() <= o.len() && #[trigger] o.subrange(s, s + g[k].len()) == g[k]@
    &&& forall|k: int, y: int|
        0 <= k < g.len() && 0 <= y < m.len() ==> (#[trigger] g[k]@.contains(y as usize) <==> mutual(
            m,
            d,
            g[k]@[0] as int,
            y,
        ))
    &&& forall|x: int, y: int|
        0 <= x < m.len() && m[x] && y != x && #[trigger] mutual(m, d, x, y) ==> exists|k: int|
            0 <= k < g.len() && #[trigger] g[k]@.contains(x as usize)
    &&& forall|k1: int, k2: int, i1: int, i2: int|
        0 <= k1 < k2 < g.len() && 0 <= i1 < o.len() && 0 <= i2 < o.len() && #[trigger] o[i1] == #[trigger] g[k1]@[0]
            && #[trigger] o[i2] == #[trigger] g[k2]@[0] ==> i1 < i2
}

/// Where group `k` starts in `o`.
pub open spec fn group_pos(o: Seq<usize>, g: Seq<Vec<usize>>, k: int) -> int {
    choose|s: int| 0 <= s && s + g[k].len() <= o.len() && #[trigger] o.subrange(s, s + g[k].len()) == g[k]@
}

pub proof fn lemma_group_pos(
    members: Seq<usize>,
    deps: Seq<Vec<usize>>,
    names: Seq<Seq<char>>,
    opts: OrderOpts,
    o: Seq<usize>,
    g: Seq<Vec<usize>>,
    k: int,
)
    requires
        order_spec(members, deps, names, opts, o, g),
        0 <= k < g.len(),
    ensures
        k <= group_pos(o, g, k) < o.len(),
        o[group_pos(o, g, k)] == g[k]@[0],
    decreases k,
{
    let s = group_pos(o, g, k);
    assert(g[k].len() >= 2);
    assert(o.subrange(s, s + g[k].len())[0] == o[s]);
    if k > 0 {
        lemma_group_pos(members, deps, names, opts, o, g, k - 1);
        let i1 = group_pos(o, g, k - 1);
        assert(o[i1] == g[k - 1]@[0]);
        assert(o[s] == g[k]@[0]);
    }
}

/// The mutual groups are exactly the cycles: each has two or more members,
/// any two of them lie on a common cycle, and a member lies in a group
/// exactly when it shares a cycle with another member (so an item that
/// only calls itself is in none).
pub proof fn lemma_groups_are_cycles(
    members: Seq<usize>,
    deps: Seq<Vec<usize>>,
    names: Seq<Seq<char>>,
    opts: OrderOpts,
    o: Seq<usize>,
    g: Seq<Vec<usize>>,
)
    requires
        order_spec(members, deps, names, opts, o, g),
        forall|i: int| 0 <= i < members.len() ==> #[trigger] members[i] < deps.len(),
    ensures
        forall|k: int| 0 <= k < g.len() ==> #[trigger] g[k].len() >= 2,
        forall|k: int, a: usize, b: usize|
            0 <= k < g.len() && #[trigger] g[k]@.contains(a) && #[trigger] g[k]@.contains(b) ==> mutual(
                scope_mask(members, deps.len()),
                deps,
                a as int,
                b as int,
            ),
        forall|x: usize|
            #[trigger] members.contains(x) ==> ((exists|k: int| 0 <= k < g.len() && #[trigger] g[k]@.contains(x)) <==> (exists|
                y: int,
            | y != x as int && #[trigger] mutual(scope_mask(members, deps.len()), deps, x as int, y))),
{
    let m = scope_mask(members, deps.len());
    assert forall|k: int, j: int| 0 <= k < g.len() && 0 <= j < g[k].len() implies members.contains(#[trigger] g[k]@[j])
        && g[k]@[j] < deps.len() by {
        let s = group_pos(o, g, k);
        lemma_group_pos(members, deps, names, opts, o, g, k);
        assert(o.subrange(s, s + g[k].len())[j] == o[s + j]);
        assert(o.contains(o[s + j]));
        let i = choose|i: int| 0 <= i < members.len() && members[i] == g[k]@[j];
        assert(members[i] < deps.len());
    }
    assert forall|k: int, a: usize, b: usize|
        0 <= k < g.len() && #[trigger] g[k]@.contains(a) && #[trigger] g[k]@.contains(b) implies mutual(m, deps, a as int, b as int) by {
        let ja = choose|j: int| 0 <= j < g[k].len() && g[k]@[j] == a;
        let jb = choose|j: int| 0 <= j < g[k].len() && g[k]@[j] == b;
        assert(g[k]@[ja] < deps.len() && g[k]@[jb] < deps.len());
        assert(g[k]@.contains((a as int) as usize));
        assert(g[k]@.contains((b as int) as usize));
        let z = g[k]@[0] as int;
        assert(mutual(m, deps, z, a as int));
        assert(mutual(m, deps, z, b as int));
        lemma_mutual_trans(m, deps, a as int, z, b as int);
    }
    assert forall|x: usize| #[trigger] members.contains(x) implies ((exists|k: int| 0 <= k < g.len() && #[trigger] g[k]@.contains(x))
        <==> (exists|y: int| y != x as int && #[trigger] mutual(m, deps, x as int, y))) by {
        let ix = choose|i: int| 0 <= i < members.len() && members[i] == x;
        assert(members[ix] < deps.len());
        assert(m[x as int]);
        if exists|k: int| 0 <= k < g.len() && #[trigger] g[k]@.contains(x) {
            let k = choose|k: int| 0 <= k < g.len() && #[trigger] g[k]@.contains(x);
            let s = group_pos(o, g, k);
            lemma_group_pos(members, deps, names, opts, o, g, k);
            let jx = choose|j: int| 0 <= j < g[k].len() && g[k]@[j] == x;
            let jy = if jx == 0 { 1int } else { 0int };
            assert(g[k].len() >= 2);
            assert(o.subrange(s, s + g[k].len())[jx] == o[s + jx]);
            assert(o.subrange(s, s + g[k].len())[jy] == o[s + jy]);
            let y = g[k]@[jy];
            assert(y != x);
            assert(g[k]@.contains(y));
            assert(mutual(m, deps, x as int, y as int));
        }
        if exists|y: int| y != x as int && #[trigger] mutual(m, deps, x as int, y) {
            let y = choose|y: int| y != x as int && #[trigger] mutual(m, deps, x as int, y);
            assert(exists|k: int| 0 <= k < g.len() && #[trigger] g[k]@.contains((x as int) as usize));
        }
    }
}

/// With backward edges only (every dependency has a smaller index), a walk
/// never climbs.
proof fn lemma_walk_descends(m: Seq<bool>, d: Seq<Vec<usize>>, p: Seq<int>, i: int)
    requires
        is_walk(m, d, p),
        0 <= i < p.len(),
        forall|x: int, y: int| #[trigger] edge(m, d, x, y) ==> y < x,
    ensures
        p[i] <= p[0],
    decreases i,
{
    if i > 0 {
        lemma_walk_descends(m, d, p, i - 1);
        assert(edge(m, d, p[i - 1], p[i - 1 + 1]));
    }
}

/// When every dependency among the members points to an earlier member,
/// ordering with `Original` keeps the members in place and makes no group.
pub proof fn lemma_backward_stays(
    members: Seq<usize>,
    deps: Seq<Vec<usize>>,
    names: Seq<Seq<char>>,
    opts: OrderOpts,
    o: Seq<usize>,
    g: Seq<Vec<usize>>,
)
    requires
        order_spec(members, deps, names, opts, o, g),
        opts.outside == Tie::Original,
        forall|i: int| 0 <= i < members.len() ==> #[trigger] members[i] < deps.len(),
        forall|a: int, b: int| 0 <= a < b < members.len() ==> #[trigger] members[a] < #[trigger] members[b],
        forall|x: int, y: int| #[trigger] edge(scope_mask(members, deps.len()), deps, x, y) ==> y < x,
    ensures
        o == members,
        g.len() == 0,
{
    let m = scope_mask(members, deps.len());
    assert forall|x: int, y: int| #[trigger] mutual(m, deps, x, y) implies x == y by {
        let p = choose|p: Seq<int>| #[trigger] is_walk(m, deps, p) && p[0] == x && p.last() == y;
        lemma_walk_descends(m, deps, p, p.len() - 1);
        let q = choose|q: Seq<int>| #[trigger] is_walk(m, deps, q) && q[0] == y && q.last() == x;
        lemma_walk_descends(m, deps, q, q.len() - 1);
    }
    assert forall|x: int| 0 <= x < m.len() && m[x] implies #[trigger] scc_min(m, deps, x) == x by {
        lemma_mutual_refl(m, deps, x);
        assert(is_scc_min(m, deps, x, x));
        lemma_scc_min_unique(m, deps, x, x);
    }
    if g.len() > 0 {
        assert(g[0].len() >= 2);
        let s = group_pos(o, g, 0);
        lemma_group_pos(members, deps, names, opts, o, g, 0);
        assert(o.subrange(s, s + g[0].len())[1] == o[s + 1]);
        assert(o.contains(o[s + 1]));
        let i1 = choose|i: int| 0 <= i < members.len() && members[i] == o[s + 1];
        assert(members[i1] < deps.len());
        assert(g[0]@.contains(o[s + 1]));
        assert(g[0]@.contains((o[s + 1] as int) as usize));
        assert(o[s] != o[s + 1]);
    }
    lemma_backward_prefix(members, deps, names, opts, o, g, members.len() as int);
    assert(o =~= members);
}

proof fn lemma_backward_prefix(
    members: Seq<usize>,
    deps: Seq<Vec<usize>>,
    names: Seq<Seq<char>>,
    opts: OrderOpts,
    o: Seq<usize>,
    g: Seq<Vec<usize>>,
    i: int,
)
    requires
        order_spec(members, deps, names, opts, o, g),
        opts.outside == Tie::Original,
        forall|i: int| 0 <= i < members.len() ==> #[trigger] members[i] < deps.len(),
        forall|a: int, b: int| 0 <= a < b < members.len() ==> #[trigger] members[a] < #[trigger] members[b],
        forall|x: int, y: int| #[trigger] edge(scope_mask(members, deps.len()), deps, x, y) ==> y < x,
        forall|x: int, y: int| #[trigger] mutual(scope_mask(members, deps.len()), deps, x, y) ==> x == y,
        forall|x: int|
            0 <= x < deps.len() && scope_mask(members, deps.len())[x] ==> #[trigger] scc_min(
                scope_mask(members, deps.len()),
                deps,
                x,
            ) == x,
        0 <= i <= members.len(),
    ensures
        forall|j: int| 0 <= j < i ==> #[trigger] o[j] == members[j],
    decreases i,
{
    let m = scope_mask(members, deps.len());
    if i > 0 {
        lemma_backward_prefix(members, deps, names, opts, o, g, i - 1);
        let k = i - 1;
        let y = members[k];
        assert(members.contains(y));
        assert(o.contains(y));
        let j0 = choose|j: int| 0 <= j < o.len() && o[j] == y;
        if j0 < k {
            assert(o[j0] == members[j0]);
            assert(members[j0] < members[k]);
        }
        if j0 > k {
            let x = o[k];
            assert(o.contains(x));
            assert(members.contains(x));
            let jx = choose|j: int| 0 <= j < members.len() && members[j] == x;
            if jx < k {
                assert(o[jx] == members[jx]);
                assert(o.no_duplicates());
            }
            assert(jx != k);
            assert(jx > k);
            assert(members[k] < members[jx]);
            assert(block_start(m, deps, o, k)) by {
                if k > 0 {
                    assert(o[k - 1] != o[k]) by {
                        assert(o.no_duplicates());
                    }
                }
            }
            assert(ready_at(m, deps, o, k, y as int)) by {
                assert forall|w: int, z: int|
                    mutual(m, deps, w, y as int) && #[trigger] edge(m, deps, w, z) && !mutual(m, deps, z, y as int) implies o.take(k).contains(
                    z as usize,
                ) by {
                    assert(w == y as int);
                    assert(z < y);
                    assert(m[z]);
                    assert(members.contains(z as usize));
                    let jz = choose|j: int| 0 <= j < members.len() && members[j] == z as usize;
                    if jz >= k {
                        if jz > k {
                            assert(members[k] < members[jz]);
                        }
                    }
                    assert(jz < k);
                    assert(o[jz] == members[jz]);
                    assert(o.take(k)[jz] == z as usize);
                }
            }
            assert(!mutual(m, deps, x as int, y as int));
            assert(key_lt(opts.outside, m, deps, names, o[k] as int, o[j0] as int));
            assert(x < deps.len());
            assert(y < deps.len());
            assert(scc_min(m, deps, x as int) == x as int);
            assert(scc_min(m, deps, y as int) == y as int);
        }
    }
}

/// An item lies in at most one group.
pub proof fn lemma_groups_disjoint(
    members: Seq<usize>,
    deps: Seq<Vec<usize>>,
    names: Seq<Seq<char>>,
    opts: OrderOpts,
    o: Seq<usize>,
    g: Seq<Vec<usize>>,
    k1: int,
    k2: int,
    y: usize,
)
    requires
        order_spec(members, deps, names, opts, o, g),
        forall|i: int| 0 <= i < members.len() ==> #[trigger] members[i] < deps.len(),
        0 <= k1 < k2 < g.len(),
        g[k1]@.contains(y),
    ensures
        !g[k2]@.contains(y),
{
    let m = scope_mask(members, deps.len());
    lemma_group_pos(members, deps, names, opts, o, g, k1);
    lemma_group_pos(members, deps, names, opts, o, g, k2);
    let s1 = group_pos(o, g, k1);
    let s2 = group_pos(o, g, k2);
    let a = g[k1]@[0];
    let b = g[k2]@[0];
    assert(o.contains(a) && o.contains(b));
    assert(members.contains(a) && members.contains(b));
    assert(o.contains(y)) by {
        let j = choose|j: int| 0 <= j < g[k1].len() && g[k1]@[j] == y;
        assert(o.subrange(s1, s1 + g[k1].len())[j] == o[s1 + j]);
    }
    assert(members.contains(y));
    let iy = choose|i: int| 0 <= i < members.len() && members[i] == y;
    assert(members[iy] < deps.len());
    let ia = choose|i: int| 0 <= i < members.len() && members[i] == a;
    assert(members[ia] < deps.len());
    let ib = choose|i: int| 0 <= i < members.len() && members[i] == b;
    assert(members[ib] < deps.len());
    assert(m.len() == deps.len());
    if g[k2]@.contains(y) {
        assert(g[k1]@.contains((y as int) as usize));
        assert(g[k2]@.contains((y as int) as usize));
        assert(mutual(m, deps, a as int, y as int));
        assert(mutual(m, deps, b as int, y as int));
        lemma_mutual_trans(m, deps, a as int, y as int, b as int);
        lemma_mutual_trans(m, deps, b as int, y as int, a as int);
        assert(g[k1]@.contains((b as int) as usize));
        assert(g[k2]@.contains((a as int) as usize));
        assert(s1 < s2);
        let j1 = choose|j: int| 0 <= j < g[k1].len() && g[k1]@[j] == b;
        assert(o.subrange(s1, s1 + g[k1].len())[j1] == o[s1 + j1]);
        let j2 = choose|j: int| 0 <= j < g[k2].len() && g[k2]@[j] == a;
        assert(o.subrange(s2, s2 + g[k2].len())[j2] == o[s2 + j2]);
        assert(o[s2 + j2] == o[s1]);
        assert(s2 + j2 == s1);
    }
}

/// Two different members share a group exactly when they lie on a common
/// cycle: then the group holding one holds the other.
pub proof fn lemma_group_iff_mutual(
    members: Seq<usize>,
    deps: Seq<Vec<usize>>,
    names: Seq<Seq<char>>,
    opts: OrderOpts,
    o: Seq<usize>,
    g: Seq<Vec<usize>>,
    x: usize,
    y: usize,
)
    requires
        order_spec(members, deps, names, opts, o, g),
        forall|i: int| 0 <= i < members.len() ==> #[trigger] members[i] < deps.len(),
        members.contains(x),
        members.contains(y),
        x != y,
    ensures
        mutual(scope_mask(members, deps.len()), deps, x as int, y as int) <==> exists|k: int|
            0 <= k < g.len() && #[trigger] g[k]@.contains(x) && g[k]@.contains(y),
        mutual(scope_mask(members, deps.len()), deps, x as int, y as int) ==> forall|k: int|
            0 <= k < g.len() && #[trigger] g[k]@.contains(x) ==> g[k]@.contains(y),
{
    let m = scope_mask(members, deps.len());
    let ix = choose|i: int| 0 <= i < members.len() && members[i] == x;
    assert(members[ix] < deps.len());
    let iy = choose|i: int| 0 <= i < members.len() && members[i] == y;
    assert(members[iy] < deps.len());
    assert(m[x as int] && m[y as int]);
    if mutual(m, deps, x as int, y as int) {
        let k = choose|k: int| 0 <= k < g.len() && #[trigger] g[k]@.contains(x as usize);
        assert forall|k2: int| 0 <= k2 < g.len() && #[trigger] g[k2]@.contains(x) implies g[k2]@.contains(y) by {
            let a = g[k2]@[0];
            assert(mutual(m, deps, a as int, x as int));
            lemma_mutual_trans(m, deps, a as int, x as int, y as int);
        }
        assert(g[k]@.contains(x) && g[k]@.contains(y));
    }
    if exists|k: int| 0 <= k < g.len() && #[trigger] g[k]@.contains(x) && g[k]@.contains(y) {
        let k = choose|k: int| 0 <= k < g.len() && #[trigger] g[k]@.contains(x) && g[k]@.contains(y);
        let a = g[k]@[0];
        assert(mutual(m, deps, a as int, x as int));
        assert(mutual(m, deps, a as int, y as int));
        lemma_mutual_trans(m, deps, x as int, a as int, y as int);
    }
}

/// The names as characters, one per item `0..n`; an item past the end of
/// `names` reads as empty (only the members' names are ever read).
pub open spec fn padded_names(names: Seq<String>, n: nat) -> Seq<Seq<char>> {
    Seq::new(n, |x: int| if x < names.len() { names[x]@ } else { Seq::<char>::empty() })
}

/// Order `members` (indices into `deps` and `names`) by their dependencies:
/// `deps[g]` lists what item `g` uses; only edges between members count.
/// Returns the order and the mutual groups (components of two or more
/// members), both as item indices.
pub fn order_scope(members: &[usize], deps: &[Vec<usize>], names: &[String], opts: OrderOpts) -> (res: (
    Vec<usize>,
    Vec<Vec<usize>>,
))
    requires
        forall|i: int| 0 <= i < members.len() ==> #[trigger] members@[i] < deps.len(),
        opts.outside != Tie::Topological || opts.inside == Tie::Alphabetical ==> forall|i: int|
            0 <= i < members.len() ==> #[trigger] members@[i] < names.len(),
        members@.no_duplicates(),
    ensures
        order_spec(members@, deps@, padded_names(names@, deps.len() as nat), opts, res.0@, res.1@),
        names.len() == deps.len() ==> order_spec(members@, deps@, names@.map_values(|s: String| s@), opts, res.0@, res.1@),
{
    let n = deps.len();
    // membership mask
    let mut m = filled_bools(n, false);
    let mut i: usize = 0;
    while i < members.len()
        invariant
            n == deps.len(),
            m.len() == n,
            i <= members.len(),
            forall|k: int| 0 <= k < members.len() ==> #[trigger] members@[k] < n,
            forall|x: int| 0 <= x < n ==> (#[trigger] m@[x] <==> members@.take(i as int).contains(x as usize)),
        decreases members.len() - i,
    {
        let x = members[i];
        m.set(x, true);
        proof {
            assert forall|y: int| 0 <= y < n implies (#[trigger] m@[y] <==> members@.take(i + 1).contains(y as usize)) by {
                if members@.take(i + 1).contains(y as usize) {
                    let a = choose|a: int| 0 <= a < i + 1 && #[trigger] members@.take(i + 1)[a] == y as usize;
                    if a < i {
                        assert(members@.take(i as int)[a] == y as usize);
                    }
                }
                if members@.take(i as int).contains(y as usize) {
                    let a = choose|a: int| 0 <= a < i && #[trigger] members@.take(i as int)[a] == y as usize;
                    assert(members@.take(i + 1)[a] == y as usize);
                }
                if y == x as int {
                    assert(members@.take(i + 1)[i as int] == x);
                }
            }
        }
        i += 1;
    }
    proof {
        assert(members@.take(members.len() as int) =~= members@);
        assert(m@ =~= scope_mask(members@, deps@.len()));
    }
    let ghost md = m@;
    let ghost nv = padded_names(names@, n as nat);
    // names as characters, empty past the end of `names`
    let mut nm: Vec<Vec<char>> = Vec::new();
    while nm.len() < n
        invariant
            n == deps.len(),
            nm.len() <= n,
            nv == padded_names(names@, n as nat),
            forall|x: int| 0 <= x < nm.len() ==> #[trigger] nm@[x]@ == nv[x],
        decreases n - nm.len(),
    {
        let k = nm.len();
        if k < names.len() {
            let c = chars_of(names[k].as_str());
            nm.push(c);
        } else {
            nm.push(Vec::new());
        }
    }
    let r = reach_matrix(&m, deps);
    let (ci, cs, cm) = components(&m, deps, &r);
    let mn = comp_min_names(&m, Ghost(deps@), &nm, Ghost(nv), &ci, &cs, &cm);
    let nc = cs.len();
    let ghost mut cdl: Seq<Seq<usize>> = Seq::empty();
    let corder: Vec<usize> = if opts.outside == Tie::Topological {
        let cd = comp_deps(&m, deps, &ci, Ghost(cs@), &cm);
        proof {
            cdl = lists_view(cd@);
            assert(cdl_wf(m@, deps@, ci@, cs@.len() as int, cdl)) by {
                assert forall|k: int| 0 <= k < cdl.len() implies #[trigger] cdl[k] == cd@[k]@ by {}
            }
        }
        dfs_order(Ghost(m@), Ghost(deps@), Ghost(ci@), Ghost(cs@), Ghost(cm@), &cd)
    } else {
        Vec::new()
    };
    proof {
        if opts.outside == Tie::Topological {
            let all = Seq::new(nc as nat, |i: int| i as usize);
            assert forall|x: usize| #[trigger] corder@.contains(x) <==> all.contains(x) by {
                if x < nc {
                    assert(Seq::new(nc as nat, |i: int| true)[x as int]);
                    assert(all[x as int] == x);
                }
                if corder@.contains(x) {
                    let a = choose|a: int| 0 <= a < corder@.len() && corder@[a] == x;
                    assert(corder@[a] < nc);
                    assert(all[x as int] == x);
                }
            }
            lemma_same_elements_same_len(corder@, all);
        }
    }
    let mut placed = filled_bools(nc, false);
    let mut o: Vec<usize> = Vec::new();
    let mut groups: Vec<Vec<usize>> = Vec::new();
    let ghost mut gs: Seq<int> = Seq::empty();
    proof {
        assert forall|z: int| 0 <= z < n && m@[z] implies (#[trigger] o@.contains(z as usize) <==> placed@[ci@[z] as int]) by {
            assert(ci@[z] < nc);
        }
        assert(prefix_inv(m@, deps@, nv, opts.inside, ci@, placed@, o@, groups@, gs));
        lemma_count_true_none(placed@);
    }
    let mut count: usize = 0;
    while count < nc
        invariant
            n == deps.len(),
            m.len() == n,
            m@ == md,
            n <= usize::MAX,
            nm.len() == n,
            forall|x: int| 0 <= x < nm.len() ==> #[trigger] nm@[x]@ == nv[x],
            nv.len() == n,
            comps_wf(m@, deps@, ci@, cs@, cm@),
            mn_wf(m@, nv, ci@, cs@, mn@),
            nc == cs.len(),
            placed.len() == nc,
            count <= nc,
            count_true(placed@) == count,
            prefix_inv(m@, deps@, nv, opts.inside, ci@, placed@, o@, groups@, gs),
            opts.outside == Tie::Topological ==> corder.len() == nc && dfs_inv(
                m@,
                deps@,
                ci@,
                nc as int,
                Seq::new(nc as nat, |i: int| true),
                corder@,
                Seq::empty(),
            ) && forall|c: int| 0 <= c < nc ==> (#[trigger] placed@[c] <==> corder@.take(count as int).contains(c as usize)),
            opts.outside == Tie::Topological ==> corder@ == dfs_spec(cdl) && cdl_wf(m@, deps@, ci@, cs@.len() as int, cdl)
                && comp_blocks(m@, deps@, o@, ci@, o@.len() as int) == corder@.take(count as int),
            opts.outside != Tie::Topological ==> forall|i: int, y: int|
                0 <= i < o.len() && block_start(m@, deps@, o@, i) && 0 <= y < n && m@[y] && !o@.take(i).contains(y as usize)
                    && !mutual(m@, deps@, o@[i] as int, y) && #[trigger] ready_at(m@, deps@, o@, i, y) ==> key_lt(
                    opts.outside,
                    m@,
                    deps@,
                    nv,
                    o@[i] as int,
                    y,
                ),
        decreases nc - count,
    {
        // some component is still unplaced, and some unplaced one is ready
        proof {
          if opts.outside != Tie::Topological {
            lemma_count_true_lt(placed@);
            let kk = choose|kk: int| 0 <= kk < nc && !placed@[kk];
            let x = cs@[kk] as int;
            assert(is_scc_min(m@, deps@, x, x));
            lemma_reaches_members(m@, deps@, x, x);
            assert(ci@[x] == kk);
            let pf = |z: int| o@.contains(z as usize);
            assert(!pf(x));
            assert forall|a: int, b: int| #[trigger] mutual(m@, deps@, a, b) && pf(a) implies pf(b) by {
                lemma_reaches_members(m@, deps@, a, b);
                lemma_comps_mutual(m@, deps@, ci@, cs@, cm@, a, b);
            }
            lemma_ready_exists(m@, deps@, pf, x);
            let y = choose|y: int| 0 <= y < m@.len() && m@[y] && !pf(y) && #[trigger] deps_placed(m@, deps@, pf, y);
            lemma_ready_bridge(m@, deps@, nv, opts.inside, ci@, cs@, cm@, placed@, o@, groups@, gs, y);
            assert(comp_ready_spec(m@, deps@, ci@, placed@, ci@[y] as int));
            assert(!placed@[ci@[y] as int]);
          }
        }
        let pick = if opts.outside == Tie::Topological {
            let c = corder[count];
            proof {
                assert(corder@[count as int] < nc);
                assert(!corder@.take(count as int).contains(c)) by {
                    if corder@.take(count as int).contains(c) {
                        let a = choose|a: int| 0 <= a < count && #[trigger] corder@.take(count as int)[a] == c;
                        assert(corder@[a] == corder@[count as int]);
                    }
                }
                assert(!placed@[c as int]);
                assert forall|w: int, z: int|
                    0 <= w < m@.len() && m@[w] && ci@[w] == c && #[trigger] edge(m@, deps@, w, z) && ci@[z] != c implies placed@[ci@[z] as int] by {
                    crate::graph::lemma_edge_reaches(m@, deps@, w, z);
                    lemma_reaches_members(m@, deps@, w, z);
                    assert(ci@[z] < nc);
                    assert(cdep(m@, deps@, ci@, c as int, ci@[z] as int));
                    assert(cdep(m@, deps@, ci@, corder@[count as int] as int, ci@[z] as int));
                    assert(corder@.take(count as int).contains(ci@[z]));
                    assert(corder@.take(count as int).contains((ci@[z] as int) as usize));
                }
            }
            c
        } else {
            select_next(opts.outside, &m, deps, &nm, Ghost(nv), &ci, &cs, &cm, &mn, &placed)
        };
        let block = sorted_block(opts.inside, &nm, Ghost(nv), &cm[pick]);
        proof {
            assert forall|y: usize| #[trigger] block@.contains(y) <==> cm@[pick as int]@.contains(y) by {}
            lemma_append_block(m@, deps@, nv, opts.inside, ci@, cs@, cm@, placed@, o@, groups@, gs, pick as int, block);
        }
        let ghost o_pre = o@;
        let ghost placed_pre = placed@;
        let ghost groups_pre = groups@;
        let ghost gs_pre = gs;
        let mut t: usize = 0;
        while t < block.len()
            invariant
                t <= block.len(),
                o@ == o_pre + block@.take(t as int),
            decreases block.len() - t,
        {
            o.push(block[t]);
            proof {
                assert(block@.take(t + 1) =~= block@.take(t as int).push(block@[t as int]));
            }
            t += 1;
        }
        proof {
            assert(block@.take(block.len() as int) =~= block@);
            lemma_count_true_set(placed@, pick as int);
            if opts.outside == Tie::Topological {
                lemma_topo_step(m@, deps@, ci@, cs@, cm@, o_pre, block@, pick as int, placed_pre);
                assert(o@ == o_pre + block@);
                assert(corder@.take(count + 1) =~= corder@.take(count as int).push(pick));
            }
        }
        placed.set(pick, true);
        if block.len() >= 2 {
            groups.push(block);
            proof {
                gs = gs.push(o_pre.len() as int);
            }
        }
        proof {
            let tie = opts.outside;
            if tie == Tie::Topological {
                assert forall|c: int| 0 <= c < nc implies (#[trigger] placed@[c] <==> corder@.take(count + 1).contains(c as usize)) by {
                    assert(pick == corder@[count as int]);
                    assert(corder@.take(count + 1) =~= corder@.take(count as int).push(pick));
                    if c == pick as int {
                        assert(corder@.take(count + 1)[count as int] == pick);
                    } else {
                        assert(placed@[c] == placed_pre[c]);
                    }
                    if corder@.take(count as int).contains(c as usize) {
                        let a = choose|a: int| 0 <= a < count && #[trigger] corder@.take(count as int)[a] == c as usize;
                        assert(corder@.take(count + 1)[a] == c as usize);
                    }
                    if corder@.take(count + 1).contains(c as usize) {
                        let a = choose|a: int| 0 <= a < count + 1 && #[trigger] corder@.take(count + 1)[a] == c as usize;
                        if a < count {
                            assert(corder@.take(count as int)[a] == c as usize);
                        }
                    }
                }
            }
            if tie != Tie::Topological {
                let L = o_pre.len() as int;
                assert forall|i: int, y: int|
                    0 <= i < o.len() && block_start(m@, deps@, o@, i) && 0 <= y < n && m@[y] && !o@.take(i).contains(y as usize)
                        && !mutual(m@, deps@, o@[i] as int, y) && #[trigger] ready_at(m@, deps@, o@, i, y) implies key_lt(
                        tie,
                        m@,
                        deps@,
                        nv,
                        o@[i] as int,
                        y,
                    ) by {
                    if i < L {
                        assert(o@.take(i) == o_pre.take(i));
                        assert(o@[i] == o_pre[i]);
                        if i > 0 {
                            assert(o@[i - 1] == o_pre[i - 1]);
                        }
                        assert(ready_at(m@, deps@, o_pre, i, y));
                        assert(block_start(m@, deps@, o_pre, i));
                    } else if i == L {
                        assert(o@.take(L) == o_pre);
                        assert(o_pre.take(L) =~= o_pre);
                        assert(ready_at(m@, deps@, o_pre, L, y));
                        lemma_ready_bridge(m@, deps@, nv, opts.inside, ci@, cs@, cm@, placed_pre, o_pre, groups_pre, gs_pre, y);
                        let x = o@[i] as int;
                        assert(x == block@[0]);
                        assert(block@.contains(block@[0]));
                        assert(cm@[pick as int]@.contains(block@[0]));
                        assert(x < n);
                        assert(cm@[pick as int]@.contains((x as int) as usize));
                        assert(ci@[x] == pick);
                        lemma_comps_mutual(m@, deps@, ci@, cs@, cm@, x, y);
                        assert(!o_pre.contains(y as usize));
                        assert(!placed_pre[ci@[y] as int]);
                        lemma_key_bridge(tie, m@, deps@, nv, ci@, cs@, cm@, mn@, x, y);
                    } else {
                        assert(o@[i - 1] == block@[i - 1 - L] && o@[i] == block@[i - L]);
                        assert(block@.contains(block@[i - 1 - L]) && block@.contains(block@[i - L]));
                        let a = o@[i - 1] as int;
                        let c = o@[i] as int;
                        assert(cm@[pick as int]@.contains((a as int) as usize));
                        assert(cm@[pick as int]@.contains((c as int) as usize));
                        lemma_comps_mutual(m@, deps@, ci@, cs@, cm@, a, c);
                    }
                }
            }
        }
        count += 1;
    }
    proof {
        let mm = m@;
        let d = deps@;
        let oo = o@;
        let g = groups@;
        // everything is placed
        lemma_count_true_all(placed@);
        assert forall|x: usize| #[trigger] oo.contains(x) <==> members@.contains(x) by {
            if members@.contains(x) {
                let a = choose|a: int| 0 <= a < members.len() && members@[a] == x;
                assert(x < n);
                assert(mm[x as int]);
                assert(ci@[x as int] < nc);
                assert(oo.contains((x as int) as usize));
            }
            if oo.contains(x) {
                let a = choose|a: int| 0 <= a < oo.len() && oo[a] == x;
                assert(mm[x as int]);
            }
        }
        assert(oo.len() == members.len()) by {
            lemma_same_elements_same_len(oo, members@);
        }
        assert forall|i: int, j: int| 0 <= i < j < oo.len() && #[trigger] edge(mm, d, oo[i] as int, oo[j] as int) implies mutual(mm, d, oo[i] as int, oo[j] as int) by {
            if !mutual(mm, d, oo[i] as int, oo[j] as int) {
                assert(oo.take(i).contains(oo[j]));
                let q = choose|q: int| 0 <= q < i && oo.take(i)[q] == oo[j];
                assert(oo[q] == oo[j]);
            }
        }
        assert forall|k: int| 0 <= k < g.len() implies #[trigger] g[k].len() >= 2 && exists|s: int|
            0 <= s && s + g[k].len() <= oo.len() && #[trigger] oo.subrange(s, s + g[k].len()) == g[k]@ by {
            let s = gs[k];
            assert(oo.subrange(s, s + g[k].len()) == g[k]@);
        }
        assert forall|k1: int, k2: int, i1: int, i2: int|
            0 <= k1 < k2 < g.len() && 0 <= i1 < oo.len() && 0 <= i2 < oo.len() && #[trigger] oo[i1] == #[trigger] g[k1]@[0]
                && #[trigger] oo[i2] == #[trigger] g[k2]@[0] implies i1 < i2 by {
            assert(oo.subrange(gs[k1], gs[k1] + g[k1].len())[0] == g[k1]@[0]);
            assert(oo[gs[k1]] == g[k1]@[0]);
            assert(oo.subrange(gs[k2], gs[k2] + g[k2].len())[0] == g[k2]@[0]);
            assert(oo[gs[k2]] == g[k2]@[0]);
            assert(gs[k1] < gs[k2]);
        }
        assert forall|x: int, y: int|
            0 <= x < mm.len() && mm[x] && y != x && #[trigger] mutual(mm, d, x, y) implies exists|k: int|
                0 <= k < g.len() && #[trigger] g[k]@.contains(x as usize) by {
            assert(ci@[x] < nc);
            assert(oo.contains(x as usize));
        }
        if opts.outside == Tie::Topological {
            assert(corder@.take(nc as int) =~= corder@);
            assert(topo_parts(mm, d, oo, ci@, cs@, cm@, cdl));
        }
        if opts.outside != Tie::Topological {
            assert forall|i: int, j: int|
                0 <= i < j < oo.len() && block_start(mm, d, oo, i) && !mutual(mm, d, oo[i] as int, oo[j] as int)
                    && #[trigger] ready_at(mm, d, oo, i, oo[j] as int) implies key_lt(opts.outside, mm, d, nv, oo[i] as int, oo[j] as int) by {
                let y = oo[j] as int;
                assert(!oo.take(i).contains(y as usize)) by {
                    if oo.take(i).contains(y as usize) {
                        let q = choose|q: int| 0 <= q < i && oo.take(i)[q] == y as usize;
                        assert(oo[q] == oo[j]);
                    }
                }
            }
        }
        assert(order_spec(members@, deps@, nv, opts, oo, g));
        if names.len() == deps.len() {
            assert(nv =~= names@.map_values(|s: String| s@));
        }
    }
    (o, groups)
}

/// The ready, unplaced component with the smallest key.
fn select_next(
    tie: Tie,
    m: &Vec<bool>,
    deps: &[Vec<usize>],
    nm: &Vec<Vec<char>>,
    names: Ghost<Seq<Seq<char>>>,
    ci: &Vec<usize>,
    cs: &Vec<usize>,
    cm: &Vec<Vec<usize>>,
    mn: &Vec<usize>,
    placed: &Vec<bool>,
) -> (pick: usize)
    requires
        m.len() == deps.len(),
        nm.len() == m.len(),
        names@.len() == m.len(),
        forall|x: int| 0 <= x < nm.len() ==> #[trigger] nm@[x]@ == names@[x],
        comps_wf(m@, deps@, ci@, cs@, cm@),
        mn_wf(m@, names@, ci@, cs@, mn@),
        placed.len() == cs.len(),
        exists|k: int| 0 <= k < cs.len() && !placed@[k] && #[trigger] comp_ready_spec(m@, deps@, ci@, placed@, k),
    ensures
        pick < cs.len(),
        !placed@[pick as int],
        comp_ready_spec(m@, deps@, ci@, placed@, pick as int),
        forall|k: int|
            0 <= k < cs.len() && k != pick && !placed@[k] && #[trigger] comp_ready_spec(m@, deps@, ci@, placed@, k)
                ==> ckey_lt(tie, names@, mn@, cs@, pick as int, k),
{
    let nc = cs.len();
    let mut best: usize = nc;
    let mut k: usize = 0;
    proof {
        assert forall|q: int| 0 <= q < mn.len() implies #[trigger] mn@[q] < nm.len() by {}
    }
    while k < nc
        invariant
            m.len() == deps.len(),
            nm.len() == m.len(),
            names@.len() == m.len(),
            forall|x: int| 0 <= x < nm.len() ==> #[trigger] nm@[x]@ == names@[x],
            forall|q: int| 0 <= q < mn.len() ==> #[trigger] mn@[q] < nm.len(),
            comps_wf(m@, deps@, ci@, cs@, cm@),
            mn_wf(m@, names@, ci@, cs@, mn@),
            placed.len() == nc,
            nc == cs.len(),
            k <= nc,
            best == nc || (best < k && !placed@[best as int] && comp_ready_spec(m@, deps@, ci@, placed@, best as int)),
            best == nc ==> forall|q: int| 0 <= q < k ==> !(!placed@[q] && #[trigger] comp_ready_spec(m@, deps@, ci@, placed@, q)),
            best < nc ==> forall|q: int|
                0 <= q < k && q != best && !placed@[q] && #[trigger] comp_ready_spec(m@, deps@, ci@, placed@, q)
                    ==> ckey_lt(tie, names@, mn@, cs@, best as int, q),
        decreases nc - k,
    {
        if !placed[k] && comp_ready(m, deps, ci, Ghost(cs@), cm, placed, k) {
            if best == nc {
                best = k;
            } else if comp_key_less(tie, nm, names, mn, cs, k, best) {
                proof {
                    assert forall|q: int|
                        0 <= q < k + 1 && q != k && !placed@[q] && #[trigger] comp_ready_spec(m@, deps@, ci@, placed@, q)
                            implies ckey_lt(tie, names@, mn@, cs@, k as int, q) by {
                        if q != best as int {
                            lemma_ckey_trans(tie, names@, mn@, cs@, k as int, best as int, q);
                        }
                    }
                }
                best = k;
            } else {
                proof {
                    assert(cs@[best as int] < cs@[k as int]);
                    lemma_ckey_total(tie, names@, mn@, cs@, best as int, k as int);
                }
            }
        }
        k += 1;
    }
    best
}

pub open spec fn count_true(s: Seq<bool>) -> nat
    decreases s.len(),
{
    if s.len() == 0 {
        0
    } else {
        count_true(s.drop_last()) + if s.last() { 1nat } else { 0nat }
    }
}

proof fn lemma_count_true_set(s: Seq<bool>, i: int)
    requires
        0 <= i < s.len(),
        !s[i],
    ensures
        count_true(s.update(i, true)) == count_true(s) + 1,
    decreases s.len(),
{
    let t = s.update(i, true);
    if i == s.len() - 1 {
        assert(t.drop_last() =~= s.drop_last());
    } else {
        assert(t.drop_last() =~= s.drop_last().update(i, true));
        lemma_count_true_set(s.drop_last(), i);
    }
}

proof fn lemma_count_true_none(s: Seq<bool>)
    requires
        forall|i: int| 0 <= i < s.len() ==> !s[i],
    ensures
        count_true(s) == 0,
    decreases s.len(),
{
    if s.len() > 0 {
        lemma_count_true_none(s.drop_last());
    }
}

proof fn lemma_count_true_le(s: Seq<bool>)
    ensures
        count_true(s) <= s.len(),
    decreases s.len(),
{
    if s.len() > 0 {
        lemma_count_true_le(s.drop_last());
    }
}

proof fn lemma_count_true_lt(s: Seq<bool>)
    requires
        count_true(s) < s.len(),
    ensures
        exists|i: int| 0 <= i < s.len() && !s[i],
    decreases s.len(),
{
    if s.last() {
        lemma_count_true_lt(s.drop_last());
        let i = choose|i: int| 0 <= i < s.drop_last().len() && !s.drop_last()[i];
        assert(!s[i]);
    } else {
        assert(!s[s.len() - 1]);
    }
}

proof fn lemma_count_true_all(s: Seq<bool>)
    requires
        count_true(s) == s.len(),
    ensures
        forall|i: int| 0 <= i < s.len() ==> s[i],
    decreases s.len(),
{
    if s.len() > 0 {
        lemma_count_true_le(s.drop_last());
        if !s.last() {
            assert(false);
        }
        lemma_count_true_all(s.drop_last());
        assert forall|i: int| 0 <= i < s.len() implies s[i] by {
            if i < s.len() - 1 {
                assert(s.drop_last()[i] == s[i]);
            }
        }
    }
}

/// Two duplicate-free sequences with the same elements have the same length.
pub proof fn lemma_same_elements_same_len(a: Seq<usize>, b: Seq<usize>)
    requires
        a.no_duplicates(),
        b.no_duplicates(),
        forall|x: usize| #[trigger] a.contains(x) <==> b.contains(x),
    ensures
        a.len() == b.len(),
{
    a.unique_seq_to_set();
    b.unique_seq_to_set();
    assert(a.to_set() =~= b.to_set());
}

/// Component `k` uses component `j` (through some edge), `j != k`.
pub open spec fn cdep(m: Seq<bool>, d: Seq<Vec<usize>>, ci: Seq<usize>, k: int, j: int) -> bool {
    j != k && exists|w: int, z: int|
        0 <= w < m.len() && m[w] && ci[w] == k && #[trigger] edge(m, d, w, z) && ci[z] == j
}

/// For each component, the components it uses, in increasing order.
fn comp_deps(m: &Vec<bool>, d: &[Vec<usize>], ci: &Vec<usize>, cs: Ghost<Seq<usize>>, cm: &Vec<Vec<usize>>) -> (cd: Vec<Vec<usize>>)
    requires
        m.len() == d.len(),
        comps_wf(m@, d@, ci@, cs@, cm@),
    ensures
        cd.len() == cs@.len(),
        forall|k: int, a: int, b: int| 0 <= k < cd.len() && 0 <= a < b < cd@[k].len() ==> #[trigger] cd@[k]@[a] < #[trigger] cd@[k]@[b],
        forall|k: int, a: int| 0 <= k < cd.len() && 0 <= a < cd@[k].len() ==> #[trigger] cd@[k]@[a] < cs@.len(),
        forall|k: int, j: int| 0 <= k < cd.len() && 0 <= j < cs@.len() ==> (#[trigger] cd@[k]@.contains(j as usize) <==> cdep(m@, d@, ci@, k, j)),
{
    let n = m.len();
    let nc = cm.len();
    let mut cd: Vec<Vec<usize>> = Vec::new();
    while cd.len() < nc
        invariant
            n == m.len(),
            m.len() == d.len(),
            comps_wf(m@, d@, ci@, cs@, cm@),
            nc == cm.len(),
            cd.len() <= nc,
            forall|k: int, a: int, b: int| 0 <= k < cd.len() && 0 <= a < b < cd@[k].len() ==> #[trigger] cd@[k]@[a] < #[trigger] cd@[k]@[b],
            forall|k: int, a: int| 0 <= k < cd.len() && 0 <= a < cd@[k].len() ==> #[trigger] cd@[k]@[a] < nc,
            forall|k: int, j: int| 0 <= k < cd.len() && 0 <= j < nc ==> (#[trigger] cd@[k]@.contains(j as usize) <==> cdep(m@, d@, ci@, k, j)),
        decreases nc - cd.len(),
    {
        let k = cd.len();
        let mut mark = filled_bools(nc, false);
        let members = &cm[k];
        let mut i: usize = 0;
        while i < members.len()
            invariant
                n == m.len(),
                m.len() == d.len(),
                comps_wf(m@, d@, ci@, cs@, cm@),
                nc == cm.len(),
                k < nc,
                members == &cm@[k as int],
                i <= members.len(),
                mark.len() == nc,
                forall|j: int| 0 <= j < nc && #[trigger] mark@[j] ==> cdep(m@, d@, ci@, k as int, j),
                forall|a: int, z: int|
                    0 <= a < i && #[trigger] edge(m@, d@, members@[a] as int, z) && ci@[z] != k ==> mark@[ci@[z] as int],
            decreases members.len() - i,
        {
            let w = members[i];
            proof {
                assert(members@[i as int] < n);
                assert(cm@[k as int]@.contains(members@[i as int]));
                assert(cm@[k as int]@.contains((w as int) as usize));
            }
            let dw = &d[w];
            let mut t: usize = 0;
            while t < dw.len()
                invariant
                    n == m.len(),
                    m.len() == d.len(),
                    comps_wf(m@, d@, ci@, cs@, cm@),
                    nc == cm.len(),
                    k < nc,
                    w < n,
                    m[w as int],
                    ci@[w as int] == k,
                    members == &cm@[k as int],
                    i < members.len(),
                    w == members@[i as int],
                    dw == &d@[w as int],
                    t <= dw.len(),
                    mark.len() == nc,
                    forall|j: int| 0 <= j < nc && #[trigger] mark@[j] ==> cdep(m@, d@, ci@, k as int, j),
                    forall|a: int, z: int|
                        0 <= a < i && #[trigger] edge(m@, d@, members@[a] as int, z) && ci@[z] != k ==> mark@[ci@[z] as int],
                    forall|b: int|
                        0 <= b < t && #[trigger] dw@[b] < n && m[dw@[b] as int] && ci@[dw@[b] as int] != k ==> mark@[ci@[dw@[b] as int] as int],
                decreases dw.len() - t,
            {
                let z = dw[t];
                if z < n && m[z] && ci[z] != k {
                    proof {
                        assert(edge(m@, d@, w as int, z as int));
                        assert(ci@[z as int] < nc);
                        assert(cdep(m@, d@, ci@, k as int, ci@[z as int] as int));
                    }
                    mark.set(ci[z], true);
                }
                t += 1;
            }
            proof {
                assert forall|a: int, z: int|
                    0 <= a < i + 1 && #[trigger] edge(m@, d@, members@[a] as int, z) && ci@[z] != k implies mark@[ci@[z] as int] by {
                    if a == i as int {
                        let b = choose|b: int| 0 <= b < dw.len() && dw@[b] == z as usize;
                        assert(dw@[b] < n && m[dw@[b] as int]);
                    }
                }
            }
            i += 1;
        }
        let mut list: Vec<usize> = Vec::new();
        let mut j: usize = 0;
        while j < nc
            invariant
                mark.len() == nc,
                j <= nc,
                forall|a: int, b: int| 0 <= a < b < list.len() ==> #[trigger] list@[a] < #[trigger] list@[b],
                forall|a: int| 0 <= a < list.len() ==> #[trigger] list@[a] < j,
                forall|q: int| 0 <= q < nc ==> (#[trigger] list@.contains(q as usize) <==> (q < j && mark@[q])),
            decreases nc - j,
        {
            let ghost pre = list@;
            if mark[j] {
                list.push(j);
            }
            proof {
                assert forall|q: int| 0 <= q < nc implies (#[trigger] list@.contains(q as usize) <==> (q < j + 1 && mark@[q])) by {
                    if list@.contains(q as usize) {
                        let a = choose|a: int| 0 <= a < list.len() && list@[a] == q as usize;
                        if a < pre.len() {
                            assert(pre[a] == q as usize);
                            assert(pre.contains(q as usize));
                        } else {
                            assert(list@ == pre.push(j));
                            assert(list@[a] == j);
                        }
                    }
                    if q < j && mark@[q] {
                        assert(pre.contains(q as usize));
                        let a = choose|a: int| 0 <= a < pre.len() && pre[a] == q as usize;
                        assert(list@[a] == q as usize);
                    }
                    if q == j as int && mark@[q] {
                        assert(list@[list.len() - 1] == j);
                    }
                }
            }
            j += 1;
        }
        proof {
            assert forall|q: int| 0 <= q < nc && cdep(m@, d@, ci@, k as int, q) implies #[trigger] mark@[q] by {
                let (w, z) = choose|w: int, z: int|
                    0 <= w < m.len() && m[w] && ci@[w] == k && #[trigger] edge(m@, d@, w, z) && ci@[z] == q;
                assert(cm@[k as int]@.contains(w as usize));
                let a = choose|a: int| 0 <= a < members.len() && members@[a] == w as usize;
            }
        }
        let ghost cd_pre = cd@;
        cd.push(list);
        proof {
            assert forall|k2: int, a: int, b: int| 0 <= k2 < cd.len() && 0 <= a < b < cd@[k2].len() implies #[trigger] cd@[k2]@[a] < #[trigger] cd@[k2]@[b] by {
                if k2 < k as int {
                    assert(cd@[k2] == cd_pre[k2]);
                }
            }
            assert forall|k2: int, a: int| 0 <= k2 < cd.len() && 0 <= a < cd@[k2].len() implies #[trigger] cd@[k2]@[a] < nc by {
                if k2 < k as int {
                    assert(cd@[k2] == cd_pre[k2]);
                }
            }
            assert forall|k2: int, q: int| 0 <= k2 < cd.len() && 0 <= q < nc implies (#[trigger] cd@[k2]@.contains(q as usize) <==> cdep(m@, d@, ci@, k2, q)) by {
                if k2 < k as int {
                    assert(cd@[k2] == cd_pre[k2]);
                }
            }
        }
    }
    cd
}

/// A dependency between components leads from representative to representative.
proof fn lemma_cdep_reaches(
    m: Seq<bool>,
    d: Seq<Vec<usize>>,
    ci: Seq<usize>,
    cs: Seq<usize>,
    cm: Seq<Vec<usize>>,
    k: int,
    j: int,
)
    requires
        comps_wf(m, d, ci, cs, cm),
        0 <= k < cs.len(),
        0 <= j < cs.len(),
        cdep(m, d, ci, k, j),
    ensures
        reaches(m, d, cs[k] as int, cs[j] as int),
{
    let (w, z) = choose|w: int, z: int| 0 <= w < m.len() && m[w] && ci[w] == k && #[trigger] edge(m, d, w, z) && ci[z] == j;
    lemma_reaches_members(m, d, cs[k] as int, cs[k] as int);
    assert(is_scc_min(m, d, cs[k] as int, cs[k] as int));
    crate::graph::lemma_edge_reaches(m, d, w, z);
    lemma_reaches_members(m, d, w, z);
    assert(mutual(m, d, w, cs[ci[w] as int] as int));
    assert(mutual(m, d, z, cs[ci[z] as int] as int));
    crate::graph::lemma_reaches_trans(m, d, cs[k] as int, w, z);
    crate::graph::lemma_reaches_trans(m, d, cs[k] as int, z, cs[j] as int);
}

/// Depth-first visit of component `c` over the dependency lists `cd`:
/// unless seen, mark it, visit what it uses in list order, then emit it.
/// `fuel` bounds the depth.
pub open spec fn visit_spec(cd: Seq<Seq<usize>>, fuel: nat, c: int, seen: Seq<bool>, out: Seq<usize>) -> (
    Seq<bool>,
    Seq<usize>,
)
    decreases fuel, 0int, 0int,
{
    if fuel == 0 || c < 0 || c >= seen.len() || seen[c] {
        (seen, out)
    } else {
        let r = visit_list_spec(cd, (fuel - 1) as nat, cd[c], 0, seen.update(c, true), out);
        (r.0, r.1.push(c as usize))
    }
}

/// Visit the entries `i..` of `ds` in turn.
pub open spec fn visit_list_spec(cd: Seq<Seq<usize>>, fuel: nat, ds: Seq<usize>, i: int, seen: Seq<bool>, out: Seq<usize>) -> (
    Seq<bool>,
    Seq<usize>,
)
    decreases fuel, 1int, ds.len() - i,
{
    if i < 0 || i >= ds.len() {
        (seen, out)
    } else {
        let r = visit_spec(cd, fuel, ds[i] as int, seen, out);
        visit_list_spec(cd, fuel, ds, i + 1, r.0, r.1)
    }
}

/// Visit the components `k..` in increasing order.
pub open spec fn visit_all_spec(cd: Seq<Seq<usize>>, k: int, seen: Seq<bool>, out: Seq<usize>) -> (Seq<bool>, Seq<usize>)
    decreases cd.len() - k,
{
    if k < 0 || k >= cd.len() {
        (seen, out)
    } else {
        let r = visit_spec(cd, cd.len(), k, seen, out);
        visit_all_spec(cd, k + 1, r.0, r.1)
    }
}

/// The components in the order a depth-first walk emits them: roots in
/// increasing order, each component after the ones it uses (visited in
/// increasing order).
pub open spec fn dfs_spec(cd: Seq<Seq<usize>>) -> Seq<usize> {
    visit_all_spec(cd, 0, Seq::new(cd.len(), |i: int| false), Seq::empty()).1
}

/// The contents of the dependency lists.
pub open spec fn lists_view(cd: Seq<Vec<usize>>) -> Seq<Seq<usize>> {
    cd.map_values(|v: Vec<usize>| v@)
}

/// The state of the depth-first walk over components: `seen` marks the
/// components emitted to `out` or on the current `path` of nested visits;
/// each emitted component comes after everything it uses; `path` is a chain
/// of dependencies.
pub open spec fn dfs_inv(
    m: Seq<bool>,
    d: Seq<Vec<usize>>,
    ci: Seq<usize>,
    nc: int,
    seen: Seq<bool>,
    out: Seq<usize>,
    path: Seq<usize>,
) -> bool {
    &&& seen.len() == nc
    &&& forall|j: int| 0 <= j < nc ==> (#[trigger] seen[j] <==> (out.contains(j as usize) || path.contains(j as usize)))
    &&& out.no_duplicates()
    &&& path.no_duplicates()
    &&& forall|a: int| 0 <= a < out.len() ==> #[trigger] out[a] < nc
    &&& forall|a: int| 0 <= a < path.len() ==> #[trigger] path[a] < nc
    &&& forall|a: int| 0 <= a < out.len() ==> !path.contains(#[trigger] out[a])
    &&& forall|a: int, j: int| 0 <= a < out.len() && 0 <= j < nc && #[trigger] cdep(m, d, ci, out[a] as int, j) ==> out.take(a).contains(j as usize)
    &&& forall|a: int| 0 <= a < path.len() - 1 ==> #[trigger] cdep(m, d, ci, path[a] as int, path[a + 1] as int)
}

proof fn lemma_chain_reaches(
    m: Seq<bool>,
    d: Seq<Vec<usize>>,
    ci: Seq<usize>,
    cs: Seq<usize>,
    cm: Seq<Vec<usize>>,
    path: Seq<usize>,
    a: int,
    b: int,
)
    requires
        comps_wf(m, d, ci, cs, cm),
        forall|q: int| 0 <= q < path.len() ==> #[trigger] path[q] < cs.len(),
        forall|q: int| 0 <= q < path.len() - 1 ==> #[trigger] cdep(m, d, ci, path[q] as int, path[q + 1] as int),
        0 <= a <= b < path.len(),
    ensures
        reaches(m, d, cs[path[a] as int] as int, cs[path[b] as int] as int),
    decreases b - a,
{
    if a == b {
        assert(is_scc_min(m, d, cs[path[a] as int] as int, cs[path[a] as int] as int));
    } else {
        lemma_chain_reaches(m, d, ci, cs, cm, path, a, b - 1);
        assert(cdep(m, d, ci, path[b - 1] as int, path[b - 1 + 1] as int));
        lemma_cdep_reaches(m, d, ci, cs, cm, path[b - 1] as int, path[b] as int);
        crate::graph::lemma_reaches_trans(m, d, cs[path[a] as int] as int, cs[path[b - 1] as int] as int, cs[path[b] as int] as int);
    }
}

proof fn lemma_count_false_mono(a: Seq<bool>, b: Seq<bool>)
    requires
        a.len() == b.len(),
        forall|i: int| 0 <= i < a.len() && #[trigger] a[i] ==> b[i],
    ensures
        crate::graph::count_false(b) <= crate::graph::count_false(a),
    decreases a.len(),
{
    if a.len() > 0 {
        lemma_count_false_mono(a.drop_last(), b.drop_last());
    }
}

/// Visit component `k`: first the components it uses, in increasing order,
/// then `k` itself.
fn dfs_visit(
    m: Ghost<Seq<bool>>,
    d: Ghost<Seq<Vec<usize>>>,
    ci: Ghost<Seq<usize>>,
    cs: Ghost<Seq<usize>>,
    cm: Ghost<Seq<Vec<usize>>>,
    cd: &Vec<Vec<usize>>,
    k: usize,
    seen: &mut Vec<bool>,
    out: &mut Vec<usize>,
    path: Ghost<Seq<usize>>,
    fuel: Ghost<nat>,
)
    requires
        comps_wf(m@, d@, ci@, cs@, cm@),
        cd.len() == cs@.len(),
        forall|q: int, a: int| 0 <= q < cd.len() && 0 <= a < cd@[q].len() ==> #[trigger] cd@[q]@[a] < cs@.len(),
        forall|q: int, j: int| 0 <= q < cd.len() && 0 <= j < cs@.len() ==> (#[trigger] cd@[q]@.contains(j as usize) <==> cdep(m@, d@, ci@, q, j)),
        dfs_inv(m@, d@, ci@, cs@.len() as int, old(seen)@, old(out)@, path@),
        k < cs@.len(),
        path@.len() == 0 || cdep(m@, d@, ci@, path@.last() as int, k as int),
        fuel@ >= crate::graph::count_false(old(seen)@),
    ensures
        dfs_inv(m@, d@, ci@, cs@.len() as int, final(seen)@, final(out)@, path@),
        (final(seen)@, final(out)@) == visit_spec(lists_view(cd@), fuel@, k as int, old(seen)@, old(out)@),
        final(out)@.contains(k),
        final(out)@.len() >= old(out)@.len(),
        final(out)@.take(old(out)@.len() as int) == old(out)@,
        forall|j: int| 0 <= j < cs@.len() && #[trigger] old(seen)@[j] ==> final(seen)@[j],
    decreases crate::graph::count_false(old(seen)@),
{
    let nc = cd.len();
    if seen[k] {
        proof {
            if path@.contains(k) {
                let i = choose|i: int| 0 <= i < path@.len() && path@[i] == k;
                let l = path@.len() - 1;
                lemma_chain_reaches(m@, d@, ci@, cs@, cm@, path@, i, l);
                lemma_cdep_reaches(m@, d@, ci@, cs@, cm@, path@[l] as int, k as int);
                let (rk, rl) = (cs@[k as int] as int, cs@[path@[l] as int] as int);
                assert(mutual(m@, d@, rk, rl));
                lemma_reaches_members(m@, d@, rk, rl);
                assert(is_scc_min(m@, d@, rk, rk));
                assert(is_scc_min(m@, d@, rl, rl));
                if rk < rl {
                    assert(!mutual(m@, d@, rl, rk));
                } else if rl < rk {
                    assert(!mutual(m@, d@, rk, rl));
                }
                assert(ci@[rk] == k && ci@[rl] == path@[l]);
            }
            assert(out@.take(out@.len() as int) =~= out@);
        }
        return;
    }
    let ghost seen0 = seen@;
    let ghost out0 = out@;
    seen.set(k, true);
    proof {
        crate::graph::lemma_count_false_set(seen0, k as int);
    }
    let ghost cdv = lists_view(cd@);
    let ghost f1: nat = (fuel@ - 1) as nat;
    let ghost seenk = seen@;
    proof {
        assert(cdv[k as int] == cd@[k as int]@);
        assert(visit_list_spec(cdv, f1, cdv[k as int], 0, seenk, out0) == visit_list_spec(cdv, f1, cdv[k as int], 0, seen@, out@));
    }
    let ghost inner = path@.push(k);
    proof {
        assert(dfs_inv(m@, d@, ci@, nc as int, seen@, out@, inner)) by {
            assert forall|j: int| 0 <= j < nc implies (#[trigger] seen@[j] <==> (out@.contains(j as usize) || inner.contains(j as usize))) by {
                if inner.contains(j as usize) && j != k as int {
                    let a = choose|a: int| 0 <= a < inner.len() && inner[a] == j as usize;
                    assert(path@[a] == j as usize);
                }
                if path@.contains(j as usize) {
                    let a = choose|a: int| 0 <= a < path@.len() && path@[a] == j as usize;
                    assert(inner[a] == j as usize);
                }
                if j == k as int {
                    assert(inner[inner.len() - 1] == k);
                }
            }
            assert(!out@.contains(k));
            assert(!path@.contains(k));
            assert forall|a: int| 0 <= a < out@.len() implies !inner.contains(#[trigger] out@[a]) by {
                if inner.contains(out@[a]) {
                    let q = choose|q: int| 0 <= q < inner.len() && inner[q] == out@[a];
                    if q < path@.len() {
                        assert(path@[q] == out@[a]);
                    } else {
                        assert(out@.contains(k));
                    }
                }
            }
            assert forall|a: int| 0 <= a < inner.len() - 1 implies #[trigger] cdep(m@, d@, ci@, inner[a] as int, inner[a + 1] as int) by {
                if a < path@.len() - 1 {
                    assert(inner[a] == path@[a] && inner[a + 1] == path@[a + 1]);
                } else {
                    assert(inner[a] == path@.last());
                }
            }
        }
    }
    let deps = &cd[k];
    let mut i: usize = 0;
    while i < deps.len()
        invariant
            comps_wf(m@, d@, ci@, cs@, cm@),
            nc == cd.len(),
            cd.len() == cs@.len(),
            forall|q: int, a: int| 0 <= q < cd.len() && 0 <= a < cd@[q].len() ==> #[trigger] cd@[q]@[a] < cs@.len(),
            forall|q: int, j: int| 0 <= q < cd.len() && 0 <= j < cs@.len() ==> (#[trigger] cd@[q]@.contains(j as usize) <==> cdep(m@, d@, ci@, q, j)),
            k < nc,
            deps == &cd@[k as int],
            i <= deps.len(),
            inner == path@.push(k),
            dfs_inv(m@, d@, ci@, nc as int, seen@, out@, inner),
            seen@[k as int],
            crate::graph::count_false(seen@) < crate::graph::count_false(seen0),
            seen0 == old(seen)@,
            out@.len() >= out0.len(),
            out@.take(out0.len() as int) == out0,
            forall|j: int| 0 <= j < nc && #[trigger] seen0[j] ==> seen@[j],
            forall|a: int| 0 <= a < i ==> out@.contains(#[trigger] deps@[a]),
            cdv == lists_view(cd@),
            deps@ == cdv[k as int],
            f1 + 1 == fuel@,
            fuel@ >= crate::graph::count_false(seen0),
            visit_list_spec(cdv, f1, cdv[k as int], 0, seenk, out0) == visit_list_spec(cdv, f1, cdv[k as int], i as int, seen@, out@),
        decreases deps.len() - i,
    {
        let j = deps[i];
        proof {
            assert(deps@[i as int] < nc);
            assert(cd@[k as int]@.contains(deps@[i as int]));
            assert(cd@[k as int]@.contains((j as int) as usize));
            assert(cdep(m@, d@, ci@, k as int, j as int));
            assert(inner.last() == k);
        }
        let ghost out1 = out@;
        let ghost seen1 = seen@;
        dfs_visit(m, d, ci, cs, cm, cd, j, seen, out, Ghost(inner), Ghost(f1));
        proof {
            assert forall|a: int| 0 <= a < i + 1 implies out@.contains(#[trigger] deps@[a]) by {
                if a < i {
                    let q = choose|q: int| 0 <= q < out1.len() && out1[q] == deps@[a];
                    assert(out@.take(out1.len() as int)[q] == deps@[a]);
                    assert(out@[q] == deps@[a]);
                }
            }
            assert(out@.take(out0.len() as int) =~= out0) by {
                assert(out@.take(out1.len() as int) == out1);
                assert forall|q: int| 0 <= q < out0.len() implies out@[q] == out0[q] by {
                    assert(out@.take(out1.len() as int)[q] == out1[q]);
                    assert(out1.take(out0.len() as int)[q] == out0[q]);
                }
            }
            lemma_count_false_mono(seen1, seen@);
            assert(deps@[i as int] == j);
        }
        i += 1;
    }
    let ghost out2 = out@;
    out.push(k);
    proof {
        assert(visit_list_spec(cdv, f1, cdv[k as int], i as int, seen@, out2) == (seen@, out2));
        assert(seen0[k as int] == false);
        assert(fuel@ >= 1) by {
            crate::graph::lemma_count_false_set(seen0, k as int);
        }
        assert(seenk == seen0.update(k as int, true));
    }
    proof {
        assert(!out2.contains(k)) by {
            assert(inner.contains(k)) by {
                assert(inner[inner.len() - 1] == k);
            }
            if out2.contains(k) {
                let a = choose|a: int| 0 <= a < out2.len() && out2[a] == k;
            }
        }
        assert(dfs_inv(m@, d@, ci@, nc as int, seen@, out@, path@)) by {
            assert forall|q: int| 0 <= q < nc implies (#[trigger] seen@[q] <==> (out@.contains(q as usize) || path@.contains(q as usize))) by {
                if out@.contains(q as usize) {
                    let a = choose|a: int| 0 <= a < out@.len() && out@[a] == q as usize;
                    if a < out2.len() {
                        assert(out2[a] == q as usize);
                    }
                }
                if out2.contains(q as usize) {
                    let a = choose|a: int| 0 <= a < out2.len() && out2[a] == q as usize;
                    assert(out@[a] == q as usize);
                }
                if path@.contains(q as usize) {
                    let a = choose|a: int| 0 <= a < path@.len() && path@[a] == q as usize;
                    assert(inner[a] == q as usize);
                }
                if inner.contains(q as usize) && q != k as int {
                    let a = choose|a: int| 0 <= a < inner.len() && inner[a] == q as usize;
                    assert(a < path@.len());
                    assert(path@[a] == q as usize);
                }
                if q == k as int {
                    assert(out@[out@.len() - 1] == k);
                }
            }
            assert(out@.no_duplicates()) by {
                assert forall|a: int, b: int| 0 <= a < b < out@.len() implies out@[a] != out@[b] by {
                    if b == out@.len() - 1 {
                        assert(out@[a] == out2[a]);
                        assert(out2.contains(out2[a]));
                    } else {
                        assert(out@[a] == out2[a] && out@[b] == out2[b]);
                    }
                }
            }
            assert forall|a: int| 0 <= a < out@.len() implies !path@.contains(#[trigger] out@[a]) by {
                if a < out2.len() {
                    assert(out@[a] == out2[a]);
                    if path@.contains(out2[a]) {
                        let q = choose|q: int| 0 <= q < path@.len() && path@[q] == out2[a];
                        assert(inner[q] == out2[a]);
                    }
                } else {
                    assert(!path@.contains(k)) by {
                        if path@.contains(k) {
                            let q = choose|q: int| 0 <= q < path@.len() && path@[q] == k;
                            assert(inner[q] == k);
                            assert(inner[inner.len() - 1] == k);
                        }
                    }
                }
            }
            assert forall|a: int, j: int| 0 <= a < out@.len() && 0 <= j < nc && #[trigger] cdep(m@, d@, ci@, out@[a] as int, j) implies out@.take(a).contains(j as usize) by {
                if a < out2.len() {
                    assert(out@[a] == out2[a]);
                    assert(out2.take(a).contains(j as usize));
                    assert(out@.take(a) =~= out2.take(a));
                } else {
                    assert(deps@.contains(j as usize));
                    let q = choose|q: int| 0 <= q < deps.len() && deps@[q] == j as usize;
                    assert(out2.contains(deps@[q]));
                    assert(out@.take(a) =~= out2);
                }
            }
        }
        assert(out@.take(out0.len() as int) =~= out0) by {
            assert forall|q: int| 0 <= q < out0.len() implies out@[q] == out0[q] by {
                assert(out2.take(out0.len() as int)[q] == out0[q]);
            }
        }
        assert(out@.contains(k)) by {
            assert(out@[out@.len() - 1] == k);
        }
    }
}

/// All components in depth-first order: roots in increasing order, and each
/// component after the components it uses.
fn dfs_order(
    m: Ghost<Seq<bool>>,
    d: Ghost<Seq<Vec<usize>>>,
    ci: Ghost<Seq<usize>>,
    cs: Ghost<Seq<usize>>,
    cm: Ghost<Seq<Vec<usize>>>,
    cd: &Vec<Vec<usize>>,
) -> (out: Vec<usize>)
    requires
        comps_wf(m@, d@, ci@, cs@, cm@),
        cd.len() == cs@.len(),
        forall|q: int, a: int| 0 <= q < cd.len() && 0 <= a < cd@[q].len() ==> #[trigger] cd@[q]@[a] < cs@.len(),
        forall|q: int, j: int| 0 <= q < cd.len() && 0 <= j < cs@.len() ==> (#[trigger] cd@[q]@.contains(j as usize) <==> cdep(m@, d@, ci@, q, j)),
    ensures
        dfs_inv(m@, d@, ci@, cs@.len() as int, Seq::new(cs@.len(), |i: int| true), out@, Seq::empty()),
        out@ == dfs_spec(lists_view(cd@)),
{
    let nc = cd.len();
    let mut seen = filled_bools(nc, false);
    let mut out: Vec<usize> = Vec::new();
    let mut k: usize = 0;
    let ghost cdv = lists_view(cd@);
    proof {
        assert(dfs_inv(m@, d@, ci@, nc as int, seen@, out@, Seq::empty()));
        assert(seen@ =~= Seq::new(cdv.len(), |i: int| false));
    }
    while k < nc
        invariant
            comps_wf(m@, d@, ci@, cs@, cm@),
            nc == cd.len(),
            cd.len() == cs@.len(),
            forall|q: int, a: int| 0 <= q < cd.len() && 0 <= a < cd@[q].len() ==> #[trigger] cd@[q]@[a] < cs@.len(),
            forall|q: int, j: int| 0 <= q < cd.len() && 0 <= j < cs@.len() ==> (#[trigger] cd@[q]@.contains(j as usize) <==> cdep(m@, d@, ci@, q, j)),
            k <= nc,
            dfs_inv(m@, d@, ci@, nc as int, seen@, out@, Seq::empty()),
            forall|j: int| 0 <= j < k ==> #[trigger] seen@[j],
            cdv == lists_view(cd@),
            seen.len() == nc,
            dfs_spec(cdv) == visit_all_spec(cdv, k as int, seen@, out@).1,
        decreases nc - k,
    {
        let ghost seen1 = seen@;
        proof {
            crate::graph::lemma_count_false_le(seen@);
        }
        dfs_visit(m, d, ci, cs, cm, cd, k, &mut seen, &mut out, Ghost(Seq::empty()), Ghost(nc as nat));
        proof {
            assert(seen@[k as int]);
            assert forall|j: int| 0 <= j < k + 1 implies #[trigger] seen@[j] by {
                if j < k {
                    assert(seen1[j]);
                }
            }
        }
        k += 1;
    }
    proof {
        assert(seen@ =~= Seq::new(nc as nat, |i: int| true));
    }
    out
}

} // verus!
