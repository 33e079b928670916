//! rsorder: order the top-level items of a Rust source file so that every
//! definition precedes its uses, wrapping genuine cycles in mutual blocks.
//!
//! The parser reports the items of a file as `RawItem`s; `reorder` cuts the
//! text into a `FileModel`, orders the movable items of the whole file (or
//! of each `// TO REORDER` region) and writes the new text, together with a
//! `Plan` of what moved. `check` lists the dependencies used before they
//! are declared.

pub mod model;
pub mod graph;
pub mod text;
pub mod order;
pub mod analyze;
pub mod render;
pub mod mermaid;
pub mod rewrite;
pub mod syntax;
pub mod settle;
pub mod demo;
pub mod laws;
pub mod region_laws;
pub mod output_laws;
pub mod input_laws;

use vstd::prelude::*;

use crate::analyze::{
    lemma_regions_clear, model_spec, model_wf, opt_view, parse, pinned_in_region, raws_fit, regions_clear, FileModel,
    RawItem, Region,
};
use crate::model::{kind_label, shape_ok, Item, ItemKind};
use crate::order::{
    group_pos, lemma_group_iff_mutual, lemma_group_pos, lemma_groups_disjoint, order_scope, order_spec, OrderOpts, Tie,
};
use crate::graph::{lemma_mutual_views, mutual, scope_mask};
use crate::text::{blank, chars_of, is_blank, join_with, push_all, push_joined, push_str, string_of, trim, trim_end, trim_end_vec, trim_vec};

verus! {

/// The text of item `it`: the floating comments above it (if asked for),
/// the comments attached to it, and its body, one per line.
pub open spec fn block_spec(it: Item, fl: bool) -> Seq<char> {
    let p1 = if fl && !is_blank(it.pre_floating@) {
        seq![trim_end(it.pre_floating@)]
    } else {
        Seq::<Seq<char>>::empty()
    };
    let p2 = if !is_blank(it.lead@) {
        seq![trim_end(it.lead@)]
    } else {
        Seq::<Seq<char>>::empty()
    };
    join_with(p1 + p2 + seq![it.body@], "\n"@)
}

/// `s` as a segment of its own, unless it is blank.
pub open spec fn opt_seg(s: Seq<char>) -> Seq<Seq<char>> {
    if is_blank(s) {
        Seq::empty()
    } else {
        seq![s]
    }
}

/// The segments that are not empty.
pub open spec fn nonempty(segs: Seq<Seq<char>>) -> Seq<Seq<char>>
    decreases segs.len(),
{
    if segs.len() == 0 {
        segs
    } else {
        nonempty(segs.drop_last()) + if segs.last().len() == 0 {
            Seq::empty()
        } else {
            seq![segs.last()]
        }
    }
}

/// The segments joined by blank lines, with a final newline.
pub open spec fn join_spec(segs: Seq<Seq<char>>) -> Seq<char> {
    join_with(nonempty(segs), "\n\n"@) + "\n"@
}

/// `o` cut into runs: consecutive members of one mutual group form a run,
/// every other item a run of its own.
pub open spec fn runs(o: Seq<usize>, gid: Seq<int>) -> Seq<Seq<usize>>
    decreases o.len(),
{
    if o.len() == 0 {
        Seq::empty()
    } else {
        let r = runs(o.drop_last(), gid);
        let x = o.last();
        if r.len() > 0 && gid[x as int] >= 0 && gid[r.last().last() as int] == gid[x as int] {
            r.update(r.len() - 1, r.last().push(x))
        } else {
            r.push(seq![x])
        }
    }
}

/// The blocks of the items of `run`, joined by blank lines.
pub open spec fn run_blocks(items: Seq<Item>, fl: bool, run: Seq<usize>) -> Seq<char> {
    join_with(run.map_values(|g: usize| block_spec(items[g as int], fl)), "\n\n"@)
}

/// The text of a run: a mutual group between its markers, or one item.
pub open spec fn segment(items: Seq<Item>, gid: Seq<int>, fl: bool, run: Seq<usize>) -> Seq<char> {
    if gid[run[0] as int] >= 0 {
        "// mutual start\n"@ + run_blocks(items, fl, run) + "\n// mutual end"@
    } else {
        block_spec(items[run[0] as int], fl)
    }
}

/// The segments that emitting the items in order `o` produces.
pub open spec fn emit_spec(items: Seq<Item>, gid: Seq<int>, fl: bool, o: Seq<usize>) -> Seq<Seq<char>> {
    runs(o, gid).map_values(|r: Seq<usize>| segment(items, gid, fl, r))
}

/// `s` as the text of one segment when it is not blank.
fn push_nonempty(segs: &mut Vec<Vec<char>>, s: &[char])
    ensures
        final(segs)@.map_values(|v: Vec<char>| v@) == old(segs)@.map_values(|v: Vec<char>| v@) + opt_seg(s@),
{
    let ghost pre = segs@;
    if !blank(s) {
        let mut v: Vec<char> = Vec::new();
        push_all(&mut v, s);
        segs.push(v);
        proof {
            assert(segs@.map_values(|v: Vec<char>| v@) =~= pre.map_values(|v: Vec<char>| v@) + opt_seg(s@));
        }
    } else {
        proof {
            assert(segs@.map_values(|v: Vec<char>| v@) =~= pre.map_values(|v: Vec<char>| v@) + opt_seg(s@));
        }
    }
}

/// The segments joined by blank lines, skipping empty ones, with a final
/// newline.
fn join(segs: &Vec<Vec<char>>) -> (out: Vec<char>)
    ensures
        out@ == join_spec(segs@.map_values(|v: Vec<char>| v@)),
{
    let ghost sv = segs@.map_values(|v: Vec<char>| v@);
    let mut kept: Vec<Vec<char>> = Vec::new();
    let mut i: usize = 0;
    proof {
        assert(kept@.map_values(|v: Vec<char>| v@) =~= nonempty(sv.take(0)));
    }
    while i < segs.len()
        invariant
            i <= segs.len(),
            sv == segs@.map_values(|v: Vec<char>| v@),
            kept@.map_values(|v: Vec<char>| v@) == nonempty(sv.take(i as int)),
        decreases segs.len() - i,
    {
        proof {
            assert(sv.take(i + 1).drop_last() =~= sv.take(i as int));
            assert(sv.take(i + 1).last() == segs@[i as int]@);
        }
        let ghost pre = kept@;
        if segs[i].len() > 0 {
            let mut v: Vec<char> = Vec::new();
            push_all(&mut v, segs[i].as_slice());
            kept.push(v);
            proof {
                assert(kept@.map_values(|v: Vec<char>| v@) =~= pre.map_values(|v: Vec<char>| v@).push(segs@[i as int]@));
            }
        }
        proof {
            assert(kept@.map_values(|v: Vec<char>| v@) =~= nonempty(sv.take(i + 1)));
        }
        i += 1;
    }
    proof {
        assert(sv.take(segs.len() as int) =~= sv);
    }
    let mut out: Vec<char> = Vec::new();
    let sep = chars_of("\n\n");
    push_joined(&mut out, &kept, sep.as_slice());
    push_str(&mut out, "\n");
    out
}

/// The text of item `it` (see `block_spec`).
pub(crate) fn block(it: &Item, include_floating: bool) -> (out: Vec<char>)
    ensures
        out@ == block_spec(*it, include_floating),
{
    let mut parts: Vec<Vec<char>> = Vec::new();
    let fl = chars_of(it.pre_floating.as_str());
    if include_floating && !blank(fl.as_slice()) {
        parts.push(trim_end_vec(fl.as_slice()));
    }
    let ld = chars_of(it.lead.as_str());
    if !blank(ld.as_slice()) {
        parts.push(trim_end_vec(ld.as_slice()));
    }
    parts.push(chars_of(it.body.as_str()));
    let mut out: Vec<char> = Vec::new();
    let sep = chars_of("\n");
    push_joined(&mut out, &parts, sep.as_slice());
    proof {
        let p1 = if include_floating && !is_blank(it.pre_floating@) {
            seq![trim_end(it.pre_floating@)]
        } else {
            Seq::<Seq<char>>::empty()
        };
        let p2 = if !is_blank(it.lead@) {
            seq![trim_end(it.lead@)]
        } else {
            Seq::<Seq<char>>::empty()
        };
        assert(parts@.map_values(|p: Vec<char>| p@) =~= p1 + p2 + seq![it.body@]);
    }
    out
}

/// The group ids as integers.
pub open spec fn gview(gid: Seq<i64>) -> Seq<int> {
    gid.map_values(|x: i64| x as int)
}

pub proof fn lemma_runs_last(o: Seq<usize>, gid: Seq<int>)
    ensures
        runs(o, gid).len() <= o.len(),
        o.len() > 0 ==> runs(o, gid).len() > 0 && runs(o, gid).last().len() > 0 && runs(o, gid).last().last() == o.last(),
    decreases o.len(),
{
    if o.len() > 0 {
        lemma_runs_last(o.drop_last(), gid);
    }
}

/// Adding item `o[k]` to the first `k`: it joins the last run when it
/// continues a mutual group, else it starts a run of its own.
pub proof fn lemma_runs_step(o: Seq<usize>, gid: Seq<int>, k: int)
    requires
        0 <= k < o.len(),
    ensures
        runs(o.take(k + 1), gid) == if k > 0 && gid[o[k] as int] >= 0 && gid[o[k - 1] as int] == gid[o[k] as int] {
            runs(o.take(k), gid).update(runs(o.take(k), gid).len() - 1, runs(o.take(k), gid).last().push(o[k]))
        } else {
            runs(o.take(k), gid).push(seq![o[k]])
        },
{
    assert(o.take(k + 1).drop_last() =~= o.take(k));
    lemma_runs_last(o.take(k), gid);
    if k > 0 {
        assert(o.take(k).last() == o[k - 1]);
    }
}

proof fn lemma_runs_cover_alt(o: Seq<usize>, gid: Seq<int>)
    ensures
        runs(o, gid).flatten_alt() == o,
        forall|k: int, a: int|
            0 <= k < runs(o, gid).len() && 0 <= a < runs(o, gid)[k].len() && runs(o, gid)[k].len() > 1 ==> gid[
                #[trigger] runs(o, gid)[k][a] as int] >= 0 && gid[runs(o, gid)[k][a] as int] == gid[runs(o, gid)[k][0] as int],
        forall|k: int| 0 <= k < runs(o, gid).len() ==> #[trigger] runs(o, gid)[k].len() > 0,
    decreases o.len(),
{
    if o.len() > 0 {
        let o1 = o.drop_last();
        let x = o.last();
        lemma_runs_cover_alt(o1, gid);
        lemma_runs_last(o1, gid);
        let r = runs(o1, gid);
        if r.len() > 0 && gid[x as int] >= 0 && gid[r.last().last() as int] == gid[x as int] {
            let r2 = r.update(r.len() - 1, r.last().push(x));
            assert(r2.drop_last() =~= r.drop_last());
            assert(r.flatten_alt() == r.drop_last().flatten_alt() + r.last());
            assert(r2.flatten_alt() == r2.drop_last().flatten_alt() + r2.last());
            assert(r2.last() == r.last().push(x));
            assert(o =~= o1.push(x));
            assert(r2.flatten_alt() =~= (r.drop_last().flatten_alt() + r.last()).push(x));
            assert forall|k: int, a: int| 0 <= k < r2.len() && 0 <= a < r2[k].len() && r2[k].len() > 1 implies gid[
                #[trigger] r2[k][a] as int] >= 0 && gid[r2[k][a] as int] == gid[r2[k][0] as int] by {
                if k == r.len() - 1 {
                    let l = r.last();
                    if l.len() > 1 {
                        assert(gid[l[l.len() - 1] as int] == gid[l[0] as int]);
                    }
                    if a < l.len() {
                        assert(r2[k][a] == l[a]);
                    }
                    assert(r2[k][0] == l[0]);
                }
            }
        } else {
            let r2 = r.push(seq![x]);
            assert(r2.drop_last() =~= r);
            assert(r2.flatten_alt() == r2.drop_last().flatten_alt() + r2.last());
            assert(o =~= o1 + seq![x]);
        }
    }
}

/// The runs that the new text and the Mermaid graph after reordering are
/// cut into cover the order exactly: joined up they give `o` back, so every
/// entry of `o` is written (or declared) once, in the order of `o`; no run
/// is empty, and a run of two or more entries lies within one mutual group.
pub proof fn law_runs_cover(o: Seq<usize>, gid: Seq<int>)
    ensures
        runs(o, gid).flatten() == o,
        forall|k: int| 0 <= k < runs(o, gid).len() ==> #[trigger] runs(o, gid)[k].len() > 0,
        forall|k: int, a: int|
            0 <= k < runs(o, gid).len() && 0 <= a < runs(o, gid)[k].len() && runs(o, gid)[k].len() > 1 ==> gid[
                #[trigger] runs(o, gid)[k][a] as int] >= 0 && gid[runs(o, gid)[k][a] as int] == gid[runs(o, gid)[k][0] as int],
{
    lemma_runs_cover_alt(o, gid);
    runs(o, gid).lemma_flatten_and_flatten_alt_are_equivalent();
}

pub(crate) proof fn lemma_join_push(s: Seq<Seq<char>>, x: Seq<char>, sep: Seq<char>)
    ensures
        join_with(s.push(x), sep) == if s.len() == 0 { x } else { join_with(s, sep) + sep + x },
{
    assert(s.push(x).drop_last() =~= s);
}

/// Emit items in `order`, wrapping each run of a mutual group between
/// markers; the items emitted are appended to `after_g`.
fn emit_ordered(
    order: &Vec<usize>,
    gid: &Vec<i64>,
    items: &Vec<Item>,
    include_floating: bool,
    after_g: &mut Vec<usize>,
) -> (segs: Vec<Vec<char>>)
    requires
        gid.len() == items.len(),
        forall|k: int| 0 <= k < order.len() ==> #[trigger] order@[k] < items.len(),
    ensures
        segs@.map_values(|v: Vec<char>| v@) == emit_spec(items@, gview(gid@), include_floating, order@),
        final(after_g)@ == old(after_g)@ + order@,
{
    let ghost gv = gview(gid@);
    let ghost o = order@;
    let ghost a0 = after_g@;
    let mut segs: Vec<Vec<char>> = Vec::new();
    let mut i: usize = 0;
    proof {
        assert(o.take(0) =~= Seq::<usize>::empty());
        assert(segs@.map_values(|v: Vec<char>| v@) =~= emit_spec(items@, gv, include_floating, o.take(0)));
    }
    while i < order.len()
        invariant
            gid.len() == items.len(),
            forall|k: int| 0 <= k < order.len() ==> #[trigger] order@[k] < items.len(),
            gv == gview(gid@),
            o == order@,
            i <= order.len(),
            segs@.map_values(|v: Vec<char>| v@) == emit_spec(items@, gv, include_floating, o.take(i as int)),
            after_g@ == a0 + o.take(i as int),
            0 < i < order.len() ==> !(gv[o[i as int] as int] >= 0 && gv[o[i - 1] as int] == gv[o[i as int] as int]),
        decreases order.len() - i,
    {
        let g = order[i];
        let id = gid[g];
        proof {
            assert(gv[g as int] == id as int);
        }
        let start = i;
        let ghost rs0 = runs(o.take(start as int), gv);
        if id >= 0 {
            let mut group: Vec<char> = chars_of("// mutual start\n");
            let ghost head = group@;
            let sep = chars_of("\n\n");
            while i < order.len() && gid[order[i]] == id
                invariant
                    gid.len() == items.len(),
                    forall|k: int| 0 <= k < order.len() ==> #[trigger] order@[k] < items.len(),
                    gv == gview(gid@),
                    o == order@,
                    start < order.len(),
                    start <= i <= order.len(),
                    gv[o[start as int] as int] == id as int,
                    id >= 0,
                    rs0 == runs(o.take(start as int), gv),
                    0 < start ==> !(gv[o[start as int] as int] >= 0 && gv[o[start - 1] as int] == gv[o[start as int] as int]),
                    i > start ==> runs(o.take(i as int), gv) == rs0.push(o.subrange(start as int, i as int)),
                    i > start ==> gv[o[i - 1] as int] == id as int,
                    i == start ==> group@ == head,
                    i > start ==> group@ == head + run_blocks(items@, include_floating, o.subrange(start as int, i as int)),
                    head == "// mutual start\n"@,
                    sep@ == "\n\n"@,
                    after_g@ == a0 + o.take(i as int),
                decreases order.len() - i,
            {
                proof {
                    assert(gv[o[i as int] as int] == gid@[order@[i as int] as int] as int);
                    lemma_runs_step(o, gv, i as int);
                    let r2 = o.subrange(start as int, i + 1);
                    assert(o.subrange(start as int, i as int).push(o[i as int]) =~= r2);
                    lemma_join_push(
                        o.subrange(start as int, i as int).map_values(|g: usize| block_spec(items@[g as int], include_floating)),
                        block_spec(items@[o[i as int] as int], include_floating),
                        "\n\n"@,
                    );
                    assert(o.subrange(start as int, i as int).map_values(|g: usize| block_spec(items@[g as int], include_floating)).push(
                        block_spec(items@[o[i as int] as int], include_floating)) =~= r2.map_values(|g: usize| block_spec(items@[g as int], include_floating)));
                }
                if i > start {
                    push_all(&mut group, sep.as_slice());
                }
                let b = block(&items[order[i]], include_floating);
                push_all(&mut group, b.as_slice());
                after_g.push(order[i]);
                proof {
                    assert(o.take(i + 1) =~= o.take(i as int).push(o[i as int]));
                    if i == start {
                        assert(o.subrange(start as int, i + 1) =~= seq![o[i as int]]);
                        assert(o.subrange(start as int, i as int) =~= Seq::<usize>::empty());
                    }
                }
                i += 1;
            }
            push_str(&mut group, "\n// mutual end");
            let ghost pre = segs@;
            segs.push(group);
            proof {
                let r = o.subrange(start as int, i as int);
                assert(r[0] == o[start as int]);
                assert(segment(items@, gv, include_floating, r) == group@);
                assert(runs(o.take(i as int), gv) == rs0.push(r));
                assert(segs@.map_values(|v: Vec<char>| v@) =~= pre.map_values(|v: Vec<char>| v@).push(group@));
                assert(emit_spec(items@, gv, include_floating, o.take(i as int)) =~= emit_spec(items@, gv, include_floating, o.take(start as int)).push(group@));
                if i < order.len() {
                    assert(gv[o[i as int] as int] == gid@[order@[i as int] as int] as int);
                }
            }
        } else {
            let b = block(&items[g], include_floating);
            let ghost pre = segs@;
            segs.push(b);
            after_g.push(g);
            proof {
                lemma_runs_step(o, gv, i as int);
                assert(o.take(i + 1) =~= o.take(i as int).push(o[i as int]));
                assert(segs@.map_values(|v: Vec<char>| v@) =~= pre.map_values(|v: Vec<char>| v@).push(b@));
                assert(segment(items@, gv, include_floating, seq![g]) == b@);
                assert(emit_spec(items@, gv, include_floating, o.take(i + 1)) =~= emit_spec(items@, gv, include_floating, o.take(i as int)).push(b@));
            }
            i += 1;
        }
    }
    proof {
        assert(o.take(order.len() as int) =~= o);
    }
    segs
}

/// A movable item, as the renderers see it.
#[derive(Debug, Clone)]
pub struct Node {
    pub display: String,
    pub name: Option<String>,
}

/// What happened, in the index space of the movable items (their
/// positions among the items that are not pinned).
#[derive(Debug, Clone)]
pub struct Plan {
    pub scoped: bool,
    pub region_count: usize,
    pub nodes: Vec<Node>,
    /// Dependency edges: `deps[c]` precede `c`.
    pub deps: Vec<Vec<usize>>,
    /// Movable items in original source order (`0..R`).
    pub before: Vec<usize>,
    /// Movable items in final emit order.
    pub after: Vec<usize>,
    /// For each movable item: its mutual group, or -1.
    pub group_of: Vec<i64>,
    /// Mutual groups, each of two or more items.
    pub mutual_groups: Vec<Vec<usize>>,
    pub kind_counts: Vec<(String, usize)>,
    pub edges: usize,
    pub moved: usize,
}

#[derive(Debug, Clone)]
pub struct Outcome {
    pub new_src: String,
    pub plan: Plan,
}

/// The name an item is known by: the name it defines, else its label.
pub open spec fn name_of(it: Item) -> Seq<char> {
    match it.name {
        Some(n) => n@,
        None => it.display@,
    }
}

/// The indices of the items among the first `k` that are not pinned.
pub open spec fn movable_upto(items: Seq<Item>, k: int) -> Seq<usize>
    decreases k,
{
    if k <= 0 {
        Seq::empty()
    } else {
        movable_upto(items, k - 1) + if items[k - 1].pinned {
            Seq::empty()
        } else {
            seq![(k - 1) as usize]
        }
    }
}

/// The indices of the items that are not pinned, in source order.
pub open spec fn movable(items: Seq<Item>) -> Seq<usize> {
    movable_upto(items, items.len() as int)
}

/// The position of item `g` among the movable items.
pub open spec fn compact(items: Seq<Item>, g: int) -> int {
    movable_upto(items, g).len() as int
}

/// The names of the items.
pub open spec fn names_view(items: Seq<Item>) -> Seq<Seq<char>> {
    items.map_values(|it: Item| name_of(it))
}

/// `dg` holds the dependency lists of the items.
pub open spec fn deps_match(dg: Seq<Vec<usize>>, items: Seq<Item>) -> bool {
    &&& dg.len() == items.len()
    &&& forall|i: int| 0 <= i < items.len() ==> (#[trigger] dg[i])@ == items[i].deps@
}

/// The items of a region.
pub open spec fn region_members(r: Region) -> Seq<usize> {
    Seq::new((r.last_excl - r.first) as nat, |k: int| (r.first + k) as usize)
}

/// The ordering of a region: its own options, else the global ones.
pub open spec fn region_opts(r: Region, global: OrderOpts) -> OrderOpts {
    OrderOpts {
        inside: match r.opts.inside {
            Some(t) => t,
            None => global.inside,
        },
        outside: match r.opts.outside {
            Some(t) => t,
            None => global.outside,
        },
    }
}

/// The contents of each list.
pub open spec fn vviews(g: Seq<Vec<usize>>) -> Seq<Seq<usize>> {
    g.map_values(|v: Vec<usize>| v@)
}

/// The groups of the first `k` scopes, one after the other.
pub open spec fn concat_groups(gs: Seq<Seq<Vec<usize>>>, k: int) -> Seq<Seq<usize>>
    decreases k,
{
    if k <= 0 {
        Seq::empty()
    } else {
        concat_groups(gs, k - 1) + vviews(gs[k - 1])
    }
}

/// `gid[g]` is the index of the group that holds item `g`, or -1 when
/// none does.
pub open spec fn gid_spec(groups: Seq<Seq<usize>>, gid: Seq<int>, n: int) -> bool {
    &&& gid.len() == n
    &&& forall|g: int|
        0 <= g < n ==> {
            &&& #[trigger] gid[g] >= -1
            &&& gid[g] >= 0 ==> gid[g] < groups.len() && groups[gid[g]].contains(g as usize)
            &&& gid[g] == -1 ==> forall|k: int| 0 <= k < groups.len() ==> !(#[trigger] groups[k]).contains(g as usize)
        }
}

/// The pinned items' blocks, among the first `k` items.
pub open spec fn pinned_blocks(items: Seq<Item>, k: int) -> Seq<Seq<char>>
    decreases k,
{
    if k <= 0 {
        Seq::empty()
    } else {
        pinned_blocks(items, k - 1) + if items[k - 1].pinned {
            seq![block_spec(items[k - 1], true)]
        } else {
            Seq::empty()
        }
    }
}

/// The floating comments of the movable items among the first `k`,
/// trimmed, when there are any.
pub open spec fn floats(items: Seq<Item>, k: int) -> Seq<Seq<char>>
    decreases k,
{
    if k <= 0 {
        Seq::empty()
    } else {
        floats(items, k - 1) + if !items[k - 1].pinned && trim(items[k - 1].pre_floating@).len() > 0 {
            seq![trim(items[k - 1].pre_floating@)]
        } else {
            Seq::empty()
        }
    }
}

/// The new text in whole-file mode: the preamble, the pinned items, the
/// floating comments gathered, the movable items in `order`, the postamble.
pub open spec fn whole_text(fm: FileModel, order: Seq<usize>, gid: Seq<int>) -> Seq<char> {
    let items = fm.items@;
    join_spec(
        opt_seg(trim_end(fm.preamble@)) + pinned_blocks(items, items.len() as int) + opt_seg(
            join_with(floats(items, items.len() as int), "\n\n"@),
        ) + emit_spec(items, gid, false, order) + opt_seg(trim(fm.postamble@)),
    )
}

/// A region starts at item `i`.
pub open spec fn is_region_start(fm: FileModel, i: int) -> bool {
    exists|k: int| 0 <= k < fm.regions.len() && #[trigger] fm.regions@[k].first == i
}

/// The region that starts at item `i`.
pub open spec fn region_at(fm: FileModel, i: int) -> int {
    choose|k: int| 0 <= k < fm.regions.len() && #[trigger] fm.regions@[k].first == i
}

/// The segments of scoped mode from item `i` on: items outside regions in
/// place, each region between its marker lines with its items in its order.
#[verifier::opaque]
pub open spec fn scoped_segs(fm: FileModel, orders: Seq<Seq<usize>>, gid: Seq<int>, i: int) -> Seq<Seq<char>>
    decreases fm.items.len() - i,
{
    if i < 0 || i >= fm.items.len() {
        Seq::empty()
    } else if is_region_start(fm, i) && i < fm.regions@[region_at(fm, i)].last_excl <= fm.items.len() {
        let k = region_at(fm, i);
        let r = fm.regions@[k];
        seq![r.start_line@] + emit_spec(fm.items@, gid, true, orders[k]) + seq![r.end_line@] + scoped_segs(
            fm,
            orders,
            gid,
            r.last_excl as int,
        )
    } else {
        seq![block_spec(fm.items@[i], true)] + scoped_segs(fm, orders, gid, i + 1)
    }
}

/// The movable items in the order scoped mode emits them, from item `i` on.
#[verifier::opaque]
pub open spec fn scoped_after(fm: FileModel, orders: Seq<Seq<usize>>, i: int) -> Seq<usize>
    decreases fm.items.len() - i,
{
    if i < 0 || i >= fm.items.len() {
        Seq::empty()
    } else if is_region_start(fm, i) && i < fm.regions@[region_at(fm, i)].last_excl <= fm.items.len() {
        let k = region_at(fm, i);
        orders[k] + scoped_after(fm, orders, fm.regions@[k].last_excl as int)
    } else if fm.items@[i].pinned {
        scoped_after(fm, orders, i + 1)
    } else {
        seq![i as usize] + scoped_after(fm, orders, i + 1)
    }
}

/// The new text in scoped mode.
pub open spec fn scoped_text(fm: FileModel, orders: Seq<Seq<usize>>, gid: Seq<int>) -> Seq<char> {
    join_spec(opt_seg(trim_end(fm.preamble@)) + scoped_segs(fm, orders, gid, 0) + opt_seg(trim(fm.postamble@)))
}

/// The number of items of each kind.
pub open spec fn count_kind(items: Seq<Item>, k: ItemKind) -> nat
    decreases items.len(),
{
    if items.len() == 0 {
        0
    } else {
        count_kind(items.drop_last(), k) + if items.last().kind == k {
            1nat
        } else {
            0nat
        }
    }
}

/// The kinds in the order of their labels.
pub open spec fn kinds_by_label() -> Seq<ItemKind> {
    seq![
        ItemKind::Const,
        ItemKind::Enum,
        ItemKind::ExternCrate,
        ItemKind::Fn,
        ItemKind::Impl,
        ItemKind::MacroDef,
        ItemKind::MacroCall,
        ItemKind::Mod,
        ItemKind::Other,
        ItemKind::Static,
        ItemKind::Struct,
        ItemKind::Trait,
        ItemKind::TypeAlias,
        ItemKind::Union,
        ItemKind::Use,
    ]
}

/// The label and count of each kind present among the first `k` kinds of
/// `kinds_by_label`.
pub open spec fn kind_counts_upto(items: Seq<Item>, k: int) -> Seq<(Seq<char>, nat)>
    decreases k,
{
    if k <= 0 {
        Seq::empty()
    } else {
        let kk = kinds_by_label()[k - 1];
        kind_counts_upto(items, k - 1) + if count_kind(items, kk) > 0 {
            seq![(kind_label(kk), count_kind(items, kk))]
        } else {
            Seq::empty()
        }
    }
}

/// The label and count of each kind of item present, by label.
pub open spec fn kind_counts_spec(items: Seq<Item>) -> Seq<(Seq<char>, nat)> {
    kind_counts_upto(items, 15)
}

/// The sum of the lengths of `d`, saturating at `usize::MAX`.
pub open spec fn total_len(d: Seq<Vec<usize>>) -> nat
    decreases d.len(),
{
    if d.len() == 0 {
        0
    } else {
        let t = total_len(d.drop_last()) + d.last()@.len();
        if t > usize::MAX {
            usize::MAX as nat
        } else {
            t
        }
    }
}

/// The number of positions `p` with `a[p] != p`.
pub open spec fn count_moved(a: Seq<usize>) -> nat
    decreases a.len(),
{
    if a.len() == 0 {
        0
    } else {
        count_moved(a.drop_last()) + if a.last() != (a.len() - 1) as usize {
            1nat
        } else {
            0nat
        }
    }
}

/// The plan of an outcome: the movable items, their edges and groups in
/// their own index space, and `after_g` (item indices) as the new order.
pub open spec fn plan_spec(fm: FileModel, p: Plan, after_g: Seq<usize>, groups: Seq<Seq<usize>>, gid: Seq<int>) -> bool {
    let items = fm.items@;
    let mv = movable(items);
    let r = mv.len();
    &&& p.scoped == (fm.regions.len() > 0)
    &&& p.region_count == fm.regions.len()
    &&& p.nodes.len() == r
    &&& forall|c: int|
        0 <= c < r ==> (#[trigger] p.nodes@[c]).display@ == items[mv[c] as int].display@ && opt_view(p.nodes@[c].name)
            == opt_view(items[mv[c] as int].name)
    &&& p.deps.len() == r
    &&& forall|c: int|
        0 <= c < r ==> (#[trigger] p.deps@[c])@ == items[mv[c] as int].deps@.map_values(
            |d: usize| compact(items, d as int) as usize,
        )
    &&& p.before@ == Seq::new(r, |c: int| c as usize)
    &&& p.after@ == after_g.map_values(|g: usize| compact(items, g as int) as usize)
    &&& p.group_of.len() == r
    &&& forall|c: int| 0 <= c < r ==> #[trigger] p.group_of@[c] as int == gid[mv[c] as int]
    &&& p.mutual_groups.len() == groups.len()
    &&& forall|k: int|
        0 <= k < groups.len() ==> (#[trigger] p.mutual_groups@[k])@ == groups[k].map_values(
            |g: usize| compact(items, g as int) as usize,
        )
    &&& p.kind_counts@.map_values(|e: (String, usize)| (e.0@, e.1 as nat)) == kind_counts_spec(items)
    &&& p.edges == total_len(p.deps@)
    &&& p.moved == count_moved(p.after@)
}

/// The outcome of reordering `fm`, given the orders chosen for its scopes
/// (`orders`, with their groups `gs`), group ids `gid` and dependency lists
/// `dg`: each order meets `order_spec`, and the text and plan follow from
/// them.
pub open spec fn outcome_parts(
    fm: FileModel,
    global: OrderOpts,
    o: Outcome,
    orders: Seq<Seq<usize>>,
    gs: Seq<Seq<Vec<usize>>>,
    gid: Seq<int>,
    dg: Seq<Vec<usize>>,
) -> bool {
    let items = fm.items@;
    let n = items.len() as int;
    &&& deps_match(dg, items)
    &&& if fm.regions.len() == 0 {
        &&& orders.len() == 1
        &&& gs.len() == 1
        &&& order_spec(movable(items), dg, names_view(items), global, orders[0], gs[0])
        &&& gid_spec(vviews(gs[0]), gid, n)
        &&& o.new_src@ == whole_text(fm, orders[0], gid)
        &&& plan_spec(fm, o.plan, orders[0], vviews(gs[0]), gid)
    } else {
        &&& orders.len() == fm.regions.len()
        &&& gs.len() == fm.regions.len()
        &&& forall|k: int|
            0 <= k < fm.regions.len() ==> order_spec(
                region_members(fm.regions@[k]),
                dg,
                names_view(items),
                region_opts(fm.regions@[k], global),
                #[trigger] orders[k],
                gs[k],
            )
        &&& gid_spec(concat_groups(gs, gs.len() as int), gid, n)
        &&& o.new_src@ == scoped_text(fm, orders, gid)
        &&& plan_spec(fm, o.plan, scoped_after(fm, orders, 0), concat_groups(gs, gs.len() as int), gid)
    }
}

/// What `reorder` returns for the model `fm`.
pub open spec fn outcome_spec(fm: FileModel, global: OrderOpts, o: Outcome) -> bool {
    exists|orders: Seq<Seq<usize>>, gs: Seq<Seq<Vec<usize>>>, gid: Seq<int>, dg: Seq<Vec<usize>>|
        #[trigger] outcome_parts(fm, global, o, orders, gs, gid, dg)
}

/// The groups of an order number at most its length, and hold members.
proof fn lemma_groups_facts(
    members: Seq<usize>,
    deps: Seq<Vec<usize>>,
    names: Seq<Seq<char>>,
    opts: OrderOpts,
    o: Seq<usize>,
    g: Seq<Vec<usize>>,
)
    requires
        order_spec(members, deps, names, opts, o, g),
    ensures
        g.len() <= o.len(),
        forall|k: int, j: int| 0 <= k < g.len() && 0 <= j < g[k].len() ==> members.contains(#[trigger] g[k]@[j]),
{
    assert forall|k: int, j: int| 0 <= k < g.len() && 0 <= j < g[k].len() implies members.contains(#[trigger] g[k]@[j]) by {
        let s = group_pos(o, g, k);
        assert(g[k].len() >= 2);
        assert(o.subrange(s, s + g[k].len())[j] == o[s + j]);
        assert(o.contains(o[s + j]));
    }
    if g.len() > 0 {
        lemma_group_pos(members, deps, names, opts, o, g, g.len() - 1);
    }
}

/// A copy of `v`.
fn copy_usizes(v: &Vec<usize>) -> (r: Vec<usize>)
    ensures
        r@ == v@,
{
    let mut r: Vec<usize> = Vec::new();
    let mut i: usize = 0;
    while i < v.len()
        invariant
            i <= v.len(),
            r@ == v@.take(i as int),
        decreases v.len() - i,
    {
        r.push(v[i]);
        proof {
            assert(v@.take(i + 1) =~= v@.take(i as int).push(v@[i as int]));
        }
        i += 1;
    }
    proof {
        assert(v@.take(v.len() as int) =~= v@);
    }
    r
}

/// The name of each item, and its dependency list.
fn names_and_deps(items: &Vec<Item>) -> (r: (Vec<String>, Vec<Vec<usize>>))
    ensures
        r.0@.map_values(|s: String| s@) == names_view(items@),
        deps_match(r.1@, items@),
{
    let mut names: Vec<String> = Vec::new();
    let mut dg: Vec<Vec<usize>> = Vec::new();
    let mut i: usize = 0;
    while i < items.len()
        invariant
            i <= items.len(),
            names.len() == i,
            dg.len() == i,
            forall|k: int| 0 <= k < i ==> (#[trigger] names@[k])@ == name_of(items@[k]),
            forall|k: int| 0 <= k < i ==> (#[trigger] dg@[k])@ == items@[k].deps@,
        decreases items.len() - i,
    {
        let it = &items[i];
        let nm = match &it.name {
            Some(n) => n.clone(),
            None => it.display.clone(),
        };
        names.push(nm);
        dg.push(copy_usizes(&it.deps));
        i += 1;
    }
    proof {
        assert(names@.map_values(|s: String| s@) =~= names_view(items@));
    }
    (names, dg)
}

/// The movable items, and the position among them of every item.
fn movable_exec(items: &Vec<Item>) -> (r: (Vec<usize>, Vec<usize>))
    ensures
        r.0@ == movable(items@),
        r.1.len() == items.len(),
        forall|g: int| 0 <= g < items.len() ==> #[trigger] r.1@[g] as int == compact(items@, g),
{
    let mut mv: Vec<usize> = Vec::new();
    let mut g2c: Vec<usize> = Vec::new();
    let mut i: usize = 0;
    while i < items.len()
        invariant
            i <= items.len(),
            mv@ == movable_upto(items@, i as int),
            mv.len() <= i,
            g2c.len() == i,
            forall|g: int| 0 <= g < i ==> #[trigger] g2c@[g] as int == compact(items@, g),
        decreases items.len() - i,
    {
        g2c.push(mv.len());
        if !items[i].pinned {
            mv.push(i);
        }
        proof {
            assert(mv@ =~= movable_upto(items@, i + 1));
        }
        i += 1;
    }
    (mv, g2c)
}

/// The blocks of the pinned items.
fn pinned_blocks_exec(items: &Vec<Item>) -> (r: Vec<Vec<char>>)
    ensures
        r@.map_values(|v: Vec<char>| v@) == pinned_blocks(items@, items.len() as int),
{
    let mut r: Vec<Vec<char>> = Vec::new();
    let mut i: usize = 0;
    while i < items.len()
        invariant
            i <= items.len(),
            r@.map_values(|v: Vec<char>| v@) == pinned_blocks(items@, i as int),
        decreases items.len() - i,
    {
        let ghost pre = r@;
        if items[i].pinned {
            let b = block(&items[i], true);
            r.push(b);
            proof {
                assert(r@.map_values(|v: Vec<char>| v@) =~= pre.map_values(|v: Vec<char>| v@).push(b@));
            }
        }
        proof {
            assert(r@.map_values(|v: Vec<char>| v@) =~= pinned_blocks(items@, i + 1));
        }
        i += 1;
    }
    r
}

/// The floating comments of the movable items, trimmed, joined by blank
/// lines.
fn floating_exec(items: &Vec<Item>) -> (r: Vec<char>)
    ensures
        r@ == join_with(floats(items@, items.len() as int), "\n\n"@),
{
    let mut fs: Vec<Vec<char>> = Vec::new();
    let mut i: usize = 0;
    while i < items.len()
        invariant
            i <= items.len(),
            fs@.map_values(|v: Vec<char>| v@) == floats(items@, i as int),
        decreases items.len() - i,
    {
        let ghost pre = fs@;
        if !items[i].pinned {
            let c = chars_of(items[i].pre_floating.as_str());
            let t = trim_vec(c.as_slice());
            if t.len() > 0 {
                fs.push(t);
                proof {
                    assert(fs@.map_values(|v: Vec<char>| v@) =~= pre.map_values(|v: Vec<char>| v@).push(t@));
                }
            }
        }
        proof {
            assert(fs@.map_values(|v: Vec<char>| v@) =~= floats(items@, i + 1));
        }
        i += 1;
    }
    let mut r: Vec<char> = Vec::new();
    let sep = chars_of("\n\n");
    push_joined(&mut r, &fs, sep.as_slice());
    proof {
        assert(r@ =~= join_with(floats(items@, items.len() as int), "\n\n"@));
    }
    r
}

/// Append `groups` to `all`, giving their items the new group ids.
fn register_groups(gid: &mut Vec<i64>, all: &mut Vec<Vec<usize>>, groups: &Vec<Vec<usize>>)
    requires
        gid_spec(vviews(old(all)@), gview(old(gid)@), old(gid).len() as int),
        old(all).len() + groups.len() <= i64::MAX,
        forall|k: int, j: int| 0 <= k < groups.len() && 0 <= j < groups@[k].len() ==> #[trigger] groups@[k]@[j] < old(gid).len(),
        forall|k: int, j: int| 0 <= k < old(all).len() && 0 <= j < old(all)@[k].len() ==> #[trigger] old(all)@[k]@[j] < old(gid).len(),
    ensures
        vviews(final(all)@) == vviews(old(all)@) + vviews(groups@),
        forall|k: int, j: int| 0 <= k < final(all).len() && 0 <= j < final(all)@[k].len() ==> #[trigger] final(all)@[k]@[j] < old(gid).len(),
        final(gid).len() == old(gid).len(),
        gid_spec(vviews(final(all)@), gview(final(gid)@), old(gid).len() as int),
{
    let n = gid.len();
    let ghost a0 = vviews(all@);
    let mut k: usize = 0;
    proof {
        assert(vviews(all@) =~= a0 + vviews(groups@).take(0));
    }
    while k < groups.len()
        invariant
            n == gid.len(),
            a0.len() + groups.len() <= i64::MAX,
            forall|k: int, j: int| 0 <= k < groups.len() && 0 <= j < groups@[k].len() ==> #[trigger] groups@[k]@[j] < n,
            k <= groups.len(),
            vviews(all@) == a0 + vviews(groups@).take(k as int),
            gid_spec(vviews(all@), gview(gid@), n as int),
            forall|k: int, j: int| 0 <= k < all.len() && 0 <= j < all@[k].len() ==> #[trigger] all@[k]@[j] < n,
        decreases groups.len() - k,
    {
        let id = all.len();
        let grp = &groups[k];
        let mut j: usize = 0;
        let ghost gid0 = gview(gid@);
        let ghost av = vviews(all@);
        let ghost allk = av.push(grp@);
        while j < grp.len()
            invariant
                n == gid.len(),
                id == all.len(),
                id == av.len(),
                id < i64::MAX,
                forall|j2: int| 0 <= j2 < grp.len() ==> #[trigger] grp@[j2] < n,
                j <= grp.len(),
                allk == av.push(grp@),
                gid_spec(av, gid0, n as int),
                forall|g: int|
                    0 <= g < n ==> {
                        &&& #[trigger] gview(gid@)[g] >= -1
                        &&& gview(gid@)[g] >= 0 ==> gview(gid@)[g] < allk.len() && allk[gview(gid@)[g]].contains(g as usize)
                        &&& gview(gid@)[g] == -1 ==> forall|k2: int| 0 <= k2 < av.len() ==> !(#[trigger] allk[k2]).contains(g as usize)
                        &&& grp@.take(j as int).contains(g as usize) ==> gview(gid@)[g] == id as int
                        &&& !grp@.take(j as int).contains(g as usize) ==> gview(gid@)[g] == gid0[g]
                    },
            decreases grp.len() - j,
        {
            let x = grp[j];
            let ghost pre = gview(gid@);
            gid.set(x, id as i64);
            proof {
                assert(grp@.take(j + 1) =~= grp@.take(j as int).push(x));
                assert forall|g: int| 0 <= g < n implies {
                    &&& #[trigger] gview(gid@)[g] >= -1
                    &&& gview(gid@)[g] >= 0 ==> gview(gid@)[g] < allk.len() && allk[gview(gid@)[g]].contains(g as usize)
                    &&& gview(gid@)[g] == -1 ==> forall|k2: int| 0 <= k2 < av.len() ==> !(#[trigger] allk[k2]).contains(g as usize)
                    &&& grp@.take(j + 1).contains(g as usize) ==> gview(gid@)[g] == id as int
                    &&& !grp@.take(j + 1).contains(g as usize) ==> gview(gid@)[g] == gid0[g]
                } by {
                    if g == x as int {
                        assert(grp@.take(j + 1)[j as int] == x);
                        assert(allk[id as int] == grp@);
                        assert(grp@[j as int] == x);
                    } else {
                        assert(gview(gid@)[g] == pre[g]);
                        if grp@.take(j + 1).contains(g as usize) {
                            let a = choose|a: int| 0 <= a < j + 1 && #[trigger] grp@.take(j + 1)[a] == g as usize;
                            assert(grp@.take(j as int)[a] == g as usize);
                        }
                        if grp@.take(j as int).contains(g as usize) {
                            let a = choose|a: int| 0 <= a < j && #[trigger] grp@.take(j as int)[a] == g as usize;
                            assert(grp@.take(j + 1)[a] == g as usize);
                        }
                    }
                }
            }
            j += 1;
        }
        let ghost pre_all = all@;
        all.push(copy_usizes(grp));
        proof {
            assert forall|k2: int, j2: int| 0 <= k2 < all.len() && 0 <= j2 < all@[k2].len() implies #[trigger] all@[k2]@[j2] < n by {
                if k2 < pre_all.len() {
                    assert(all@[k2] == pre_all[k2]);
                }
            }
            assert(grp@.take(grp.len() as int) =~= grp@);
            assert(vviews(all@) =~= vviews(pre_all).push(grp@));
            assert(vviews(all@) =~= allk);
            assert(vviews(groups@).take(k + 1) =~= vviews(groups@).take(k as int).push(grp@));
            assert(vviews(all@) =~= a0 + vviews(groups@).take(k + 1));
            assert forall|g: int| 0 <= g < n implies {
                &&& #[trigger] gview(gid@)[g] >= -1
                &&& gview(gid@)[g] >= 0 ==> gview(gid@)[g] < vviews(all@).len() && vviews(all@)[gview(gid@)[g]].contains(g as usize)
                &&& gview(gid@)[g] == -1 ==> forall|k2: int| 0 <= k2 < vviews(all@).len() ==> !(#[trigger] vviews(all@)[k2]).contains(g as usize)
            } by {
                if gview(gid@)[g] == -1 {
                    if grp@.take(grp.len() as int).contains(g as usize) {
                    } else {
                        assert(gid0[g] == -1);
                        assert(!grp@.contains(g as usize));
                        assert(vviews(all@)[av.len() as int] == grp@);
                    }
                }
            }
        }
        k += 1;
    }
    proof {
        assert(vviews(groups@).take(groups.len() as int) =~= vviews(groups@));
    }
}

/// The kind at position `j` of `kinds_by_label`.
fn kind_at(j: usize) -> (k: ItemKind)
    requires
        j < 15,
    ensures
        k == kinds_by_label()[j as int],
{
    match j {
        0 => ItemKind::Const,
        1 => ItemKind::Enum,
        2 => ItemKind::ExternCrate,
        3 => ItemKind::Fn,
        4 => ItemKind::Impl,
        5 => ItemKind::MacroDef,
        6 => ItemKind::MacroCall,
        7 => ItemKind::Mod,
        8 => ItemKind::Other,
        9 => ItemKind::Static,
        10 => ItemKind::Struct,
        11 => ItemKind::Trait,
        12 => ItemKind::TypeAlias,
        13 => ItemKind::Union,
        _ => ItemKind::Use,
    }
}

/// The position of `k` in `kinds_by_label`.
fn kind_pos(k: ItemKind) -> (j: usize)
    ensures
        j < 15,
        kinds_by_label()[j as int] == k,
{
    match k {
        ItemKind::Const => 0,
        ItemKind::Enum => 1,
        ItemKind::ExternCrate => 2,
        ItemKind::Fn => 3,
        ItemKind::Impl => 4,
        ItemKind::MacroDef => 5,
        ItemKind::MacroCall => 6,
        ItemKind::Mod => 7,
        ItemKind::Other => 8,
        ItemKind::Static => 9,
        ItemKind::Struct => 10,
        ItemKind::Trait => 11,
        ItemKind::TypeAlias => 12,
        ItemKind::Union => 13,
        ItemKind::Use => 14,
    }
}

/// How many items there are of each kind, by label.
fn kind_counts(items: &Vec<Item>) -> (r: Vec<(String, usize)>)
    ensures
        r@.map_values(|e: (String, usize)| (e.0@, e.1 as nat)) == kind_counts_spec(items@),
{
    let mut counts: Vec<usize> = Vec::new();
    while counts.len() < 15
        invariant
            counts.len() <= 15,
            forall|j: int| 0 <= j < counts.len() ==> #[trigger] counts@[j] == 0,
        decreases 15 - counts.len(),
    {
        counts.push(0);
    }
    let mut i: usize = 0;
    proof {
        assert(items@.take(0) =~= Seq::<Item>::empty());
    }
    while i < items.len()
        invariant
            i <= items.len(),
            counts.len() == 15,
            forall|j: int| 0 <= j < 15 ==> #[trigger] counts@[j] == count_kind(items@.take(i as int), kinds_by_label()[j]),
            forall|j: int| 0 <= j < 15 ==> #[trigger] counts@[j] <= i,
        decreases items.len() - i,
    {
        let p = kind_pos(items[i].kind);
        let c = counts[p];
        counts.set(p, c + 1);
        proof {
            assert(items@.take(i + 1).drop_last() =~= items@.take(i as int));
            assert forall|j: int| 0 <= j < 15 implies #[trigger] counts@[j] == count_kind(items@.take(i + 1), kinds_by_label()[j]) by {
                assert(items@.take(i + 1).last() == items@[i as int]);
                if j != p as int {
                    assert(kinds_by_label()[j] != kinds_by_label()[p as int]) by {
                        assert(kinds_by_label()[0] != kinds_by_label()[1]);
                    }
                }
            }
        }
        i += 1;
    }
    proof {
        assert(items@.take(items.len() as int) =~= items@);
    }
    let mut r: Vec<(String, usize)> = Vec::new();
    let mut j: usize = 0;
    while j < 15
        invariant
            j <= 15,
            counts.len() == 15,
            forall|j: int| 0 <= j < 15 ==> #[trigger] counts@[j] == count_kind(items@, kinds_by_label()[j]),
            r@.map_values(|e: (String, usize)| (e.0@, e.1 as nat)) == kind_counts_upto(items@, j as int),
        decreases 15 - j,
    {
        let ghost pre = r@;
        if counts[j] > 0 {
            let k = kind_at(j);
            r.push((String::from_str(k.label()), counts[j]));
            proof {
                assert(r@.map_values(|e: (String, usize)| (e.0@, e.1 as nat)) =~= pre.map_values(|e: (String, usize)| (e.0@, e.1 as nat)).push((kind_label(k), counts@[j as int] as nat)));
            }
        }
        proof {
            assert(r@.map_values(|e: (String, usize)| (e.0@, e.1 as nat)) =~= kind_counts_upto(items@, j + 1));
        }
        j += 1;
    }
    r
}

/// `v` with every item index replaced by its position among the movable items.
fn to_compact(v: &Vec<usize>, g2c: &Vec<usize>, items: Ghost<Seq<Item>>) -> (r: Vec<usize>)
    requires
        g2c.len() == items@.len(),
        forall|g: int| 0 <= g < g2c.len() ==> #[trigger] g2c@[g] as int == compact(items@, g),
        forall|k: int| 0 <= k < v.len() ==> #[trigger] v@[k] < g2c.len(),
    ensures
        r@ == v@.map_values(|g: usize| compact(items@, g as int) as usize),
{
    let mut r: Vec<usize> = Vec::new();
    let mut i: usize = 0;
    while i < v.len()
        invariant
            g2c.len() == items@.len(),
            forall|g: int| 0 <= g < g2c.len() ==> #[trigger] g2c@[g] as int == compact(items@, g),
            forall|k: int| 0 <= k < v.len() ==> #[trigger] v@[k] < g2c.len(),
            i <= v.len(),
            r@ == v@.take(i as int).map_values(|g: usize| compact(items@, g as int) as usize),
        decreases v.len() - i,
    {
        let c = g2c[v[i]];
        r.push(c);
        proof {
            assert(v@.take(i + 1) =~= v@.take(i as int).push(v@[i as int]));
            assert(r@ =~= v@.take(i + 1).map_values(|g: usize| compact(items@, g as int) as usize));
        }
        i += 1;
    }
    proof {
        assert(v@.take(v.len() as int) =~= v@);
    }
    r
}

proof fn lemma_movable_facts(items: Seq<Item>, k: int)
    requires
        0 <= k <= items.len(),
        items.len() <= usize::MAX,
    ensures
        movable_upto(items, k).len() <= k,
        forall|c: int| 0 <= c < movable_upto(items, k).len() ==> #[trigger] movable_upto(items, k)[c] < k && !items[movable_upto(items, k)[c] as int].pinned,
        forall|c1: int, c2: int| 0 <= c1 < c2 < movable_upto(items, k).len() ==> #[trigger] movable_upto(items, k)[c1] < #[trigger] movable_upto(items, k)[c2],
        forall|c: int| 0 <= c < movable_upto(items, k).len() ==> compact(items, #[trigger] movable_upto(items, k)[c] as int) == c,
    decreases k,
{
    if k > 0 {
        lemma_movable_facts(items, k - 1);
        let a = movable_upto(items, k - 1);
        assert forall|c: int| 0 <= c < movable_upto(items, k).len() implies compact(items, #[trigger] movable_upto(items, k)[c] as int) == c by {
            if c < a.len() {
                assert(movable_upto(items, k)[c] == a[c]);
            } else {
                assert(movable_upto(items, k)[c] == (k - 1) as usize);
            }
        }
        assert forall|c1: int, c2: int| 0 <= c1 < c2 < movable_upto(items, k).len() implies #[trigger] movable_upto(items, k)[c1] < #[trigger] movable_upto(items, k)[c2] by {
            if c2 < a.len() {
                assert(movable_upto(items, k)[c1] == a[c1]);
                assert(movable_upto(items, k)[c2] == a[c2]);
            } else {
                assert(movable_upto(items, k)[c1] == a[c1]);
            }
        }
        assert forall|c: int| 0 <= c < movable_upto(items, k).len() implies #[trigger] movable_upto(items, k)[c] < k && !items[movable_upto(items, k)[c] as int].pinned by {
            if c < a.len() {
                assert(movable_upto(items, k)[c] == a[c]);
            }
        }
    }
}

/// The plan of an outcome.
fn build_plan(
    fm: &FileModel,
    mv: &Vec<usize>,
    g2c: &Vec<usize>,
    after_g: &Vec<usize>,
    all: &Vec<Vec<usize>>,
    gid: &Vec<i64>,
) -> (p: Plan)
    requires
        model_wf(*fm),
        mv@ == movable(fm.items@),
        g2c.len() == fm.items.len(),
        forall|g: int| 0 <= g < g2c.len() ==> #[trigger] g2c@[g] as int == compact(fm.items@, g),
        forall|k: int| 0 <= k < after_g.len() ==> #[trigger] after_g@[k] < fm.items.len(),
        forall|k: int, j: int| 0 <= k < all.len() && 0 <= j < all@[k].len() ==> #[trigger] all@[k]@[j] < fm.items.len(),
        gid.len() == fm.items.len(),
    ensures
        plan_spec(*fm, p, after_g@, vviews(all@), gview(gid@)),
{
    let items = &fm.items;
    let ghost iv = items@;
    proof {
        lemma_movable_facts(iv, iv.len() as int);
    }
    let r = mv.len();
    let mut nodes: Vec<Node> = Vec::new();
    let mut deps: Vec<Vec<usize>> = Vec::new();
    let mut before: Vec<usize> = Vec::new();
    let mut group_of: Vec<i64> = Vec::new();
    let mut edges: usize = 0;
    let mut c: usize = 0;
    proof {
        assert(deps@.take(0) =~= Seq::<Vec<usize>>::empty());
    }
    while c < r
        invariant
            model_wf(*fm),
            items == &fm.items,
            iv == items@,
            r == mv.len(),
            mv@ == movable(iv),
            forall|c2: int| 0 <= c2 < r ==> #[trigger] mv@[c2] < iv.len() && !iv[mv@[c2] as int].pinned,
            g2c.len() == iv.len(),
            forall|g: int| 0 <= g < g2c.len() ==> #[trigger] g2c@[g] as int == compact(iv, g),
            gid.len() == iv.len(),
            c <= r,
            nodes.len() == c,
            deps.len() == c,
            before.len() == c,
            group_of.len() == c,
            forall|c2: int|
                0 <= c2 < c ==> (#[trigger] nodes@[c2]).display@ == iv[mv@[c2] as int].display@ && opt_view(nodes@[c2].name)
                    == opt_view(iv[mv@[c2] as int].name),
            forall|c2: int|
                0 <= c2 < c ==> (#[trigger] deps@[c2])@ == iv[mv@[c2] as int].deps@.map_values(
                    |d: usize| compact(iv, d as int) as usize,
                ),
            forall|c2: int| 0 <= c2 < c ==> #[trigger] before@[c2] == c2 as usize,
            forall|c2: int| 0 <= c2 < c ==> #[trigger] group_of@[c2] as int == gview(gid@)[mv@[c2] as int],
            edges == total_len(deps@),
        decreases r - c,
    {
        let g = mv[c];
        let it = &items[g];
        let name = match &it.name {
            Some(n) => Some(n.clone()),
            None => None,
        };
        nodes.push(Node { display: it.display.clone(), name });
        proof {
            assert forall|k: int| 0 <= k < it.deps.len() implies #[trigger] it.deps@[k] < g2c.len() by {
                assert(fm.items@[g as int].deps@[k] < fm.items.len());
            }
        }
        let dc = to_compact(&it.deps, g2c, Ghost(iv));
        let dl = dc.len();
        let ghost pre = deps@;
        deps.push(dc);
        proof {
            assert(deps@.drop_last() =~= pre);
        }
        edges = edges.saturating_add(dl);
        before.push(c);
        group_of.push(gid[g]);
        proof {
            assert(gview(gid@)[g as int] == gid@[g as int] as int);
        }
        c += 1;
    }
    proof {
        assert(before@ =~= Seq::new(r as nat, |c: int| c as usize));
    }
    let after = to_compact(after_g, g2c, Ghost(iv));
    let mut moved: usize = 0;
    let mut p: usize = 0;
    proof {
        assert(after@.take(0) =~= Seq::<usize>::empty());
    }
    while p < after.len()
        invariant
            p <= after.len(),
            moved <= p,
            moved == count_moved(after@.take(p as int)),
        decreases after.len() - p,
    {
        proof {
            assert(after@.take(p + 1).drop_last() =~= after@.take(p as int));
            assert(after@.take(p + 1).last() == after@[p as int]);
        }
        if after[p] != p {
            moved += 1;
        }
        p += 1;
    }
    proof {
        assert(after@.take(after.len() as int) =~= after@);
    }
    let mut mutual_groups: Vec<Vec<usize>> = Vec::new();
    let mut k: usize = 0;
    while k < all.len()
        invariant
            g2c.len() == iv.len(),
            forall|g: int| 0 <= g < g2c.len() ==> #[trigger] g2c@[g] as int == compact(iv, g),
            forall|k: int, j: int| 0 <= k < all.len() && 0 <= j < all@[k].len() ==> #[trigger] all@[k]@[j] < iv.len(),
            k <= all.len(),
            mutual_groups.len() == k,
            forall|k2: int|
                0 <= k2 < k ==> (#[trigger] mutual_groups@[k2])@ == vviews(all@)[k2].map_values(
                    |g: usize| compact(iv, g as int) as usize,
                ),
        decreases all.len() - k,
    {
        proof {
            assert forall|j: int| 0 <= j < all@[k as int].len() implies #[trigger] all@[k as int]@[j] < g2c.len() by {}
        }
        mutual_groups.push(to_compact(&all[k], g2c, Ghost(iv)));
        k += 1;
    }
    let kc = kind_counts(items);
    Plan {
        scoped: fm.regions.len() > 0,
        region_count: fm.regions.len(),
        nodes,
        deps,
        before,
        after,
        group_of,
        mutual_groups,
        kind_counts: kc,
        edges,
        moved,
    }
}

/// Regions that come earlier end before later ones start.
proof fn lemma_regions_apart(fm: FileModel, k1: int, k2: int)
    requires
        model_wf(fm),
        0 <= k1 < k2 < fm.regions.len(),
    ensures
        fm.regions@[k1].last_excl <= fm.regions@[k2].first,
    decreases k2 - k1,
{
    if k1 + 1 < k2 {
        lemma_regions_apart(fm, k1, k2 - 1);
        assert(fm.regions@[k2 - 1].first < fm.regions@[k2 - 1].last_excl);
    }
}

/// The contents of each order.
pub open spec fn oviews(orders: Seq<Vec<usize>>) -> Seq<Seq<usize>> {
    orders.map_values(|v: Vec<usize>| v@)
}

/// Where a region starts, scoped mode emits its marker lines around its
/// items and goes on after it.
proof fn lemma_walk_region(fm: FileModel, ov: Seq<Seq<usize>>, gv: Seq<int>, i: int, ri: int)
    requires
        model_wf(fm),
        0 <= ri < fm.regions.len(),
        fm.regions@[ri].first == i,
        forall|k: int| 0 <= k < ri ==> #[trigger] fm.regions@[k].last_excl <= i,
    ensures
        scoped_segs(fm, ov, gv, i) == seq![fm.regions@[ri].start_line@] + emit_spec(fm.items@, gv, true, ov[ri])
            + seq![fm.regions@[ri].end_line@] + scoped_segs(fm, ov, gv, fm.regions@[ri].last_excl as int),
        scoped_after(fm, ov, i) == ov[ri] + scoped_after(fm, ov, fm.regions@[ri].last_excl as int),
        forall|k: int| ri + 1 <= k < fm.regions.len() ==> #[trigger] fm.regions@[k].first >= fm.regions@[ri].last_excl,
{
    reveal(scoped_segs);
    reveal(scoped_after);
    assert(is_region_start(fm, i));
    let k = region_at(fm, i);
    if k < ri {
        assert(fm.regions@[k].last_excl <= i);
    } else if k > ri {
        lemma_regions_apart(fm, ri, k);
    }
    assert(k == ri);
    assert forall|k2: int| ri + 1 <= k2 < fm.regions.len() implies #[trigger] fm.regions@[k2].first >= fm.regions@[ri].last_excl by {
        lemma_regions_apart(fm, ri, k2);
    }
}

/// Where no region starts, scoped mode emits the item in place and goes on
/// with the next.
proof fn lemma_walk_item(fm: FileModel, ov: Seq<Seq<usize>>, gv: Seq<int>, i: int, ri: int)
    requires
        model_wf(fm),
        0 <= i < fm.items.len(),
        0 <= ri <= fm.regions.len(),
        !(ri < fm.regions.len() && fm.regions@[ri].first == i),
        forall|k: int| 0 <= k < ri ==> #[trigger] fm.regions@[k].last_excl <= i,
        forall|k: int| ri <= k < fm.regions.len() ==> #[trigger] fm.regions@[k].first >= i,
    ensures
        scoped_segs(fm, ov, gv, i) == seq![block_spec(fm.items@[i], true)] + scoped_segs(fm, ov, gv, i + 1),
        scoped_after(fm, ov, i) == (if fm.items@[i].pinned {
            Seq::<usize>::empty()
        } else {
            seq![i as usize]
        }) + scoped_after(fm, ov, i + 1),
        forall|k: int| ri <= k < fm.regions.len() ==> #[trigger] fm.regions@[k].first >= i + 1,
{
    reveal(scoped_segs);
    reveal(scoped_after);
    if is_region_start(fm, i) {
        let k = choose|k: int| 0 <= k < fm.regions.len() && #[trigger] fm.regions@[k].first == i;
        if k < ri {
            assert(fm.regions@[k].last_excl <= i);
        } else if k > ri {
            lemma_regions_apart(fm, ri, k);
            assert(fm.regions@[ri].first < fm.regions@[ri].last_excl);
        }
    }
    assert(!is_region_start(fm, i));
    assert forall|k: int| ri <= k < fm.regions.len() implies #[trigger] fm.regions@[k].first >= i + 1 by {
        if k > ri {
            lemma_regions_apart(fm, ri, k);
            assert(fm.regions@[ri].first < fm.regions@[ri].last_excl);
        }
    }
    if fm.items@[i].pinned {
        assert(Seq::<usize>::empty() + scoped_after(fm, ov, i + 1) =~= scoped_after(fm, ov, i + 1));
    }
}

/// Emit region `ri`: its start line, its items in their order, its end line.
fn emit_region(
    fm: &FileModel,
    orders: &Vec<Vec<usize>>,
    gid: &Vec<i64>,
    ri: usize,
    segs: &mut Vec<Vec<char>>,
    after_g: &mut Vec<usize>,
)
    requires
        ri < fm.regions.len(),
        orders.len() == fm.regions.len(),
        forall|j: int| 0 <= j < orders@[ri as int].len() ==> #[trigger] orders@[ri as int]@[j] < fm.items.len(),
        gid.len() == fm.items.len(),
        forall|k: int| 0 <= k < old(after_g).len() ==> #[trigger] old(after_g)@[k] < fm.items.len(),
    ensures
        final(segs)@.map_values(|v: Vec<char>| v@) == old(segs)@.map_values(|v: Vec<char>| v@) + seq![
            fm.regions@[ri as int].start_line@,
        ] + emit_spec(fm.items@, gview(gid@), true, orders@[ri as int]@) + seq![fm.regions@[ri as int].end_line@],
        final(after_g)@ == old(after_g)@ + orders@[ri as int]@,
        forall|k: int| 0 <= k < final(after_g).len() ==> #[trigger] final(after_g)@[k] < fm.items.len(),
{
    let r = &fm.regions[ri];
    let ghost segs_pre = segs@.map_values(|v: Vec<char>| v@);
    let ghost after_pre = after_g@;
    let sl = chars_of(r.start_line.as_str());
    segs.push(sl);
    let ghost s1 = segs@.map_values(|v: Vec<char>| v@);
    proof {
        assert(s1 =~= segs_pre + seq![r.start_line@]);
    }
    let ord = &orders[ri];
    let em = emit_ordered(ord, gid, &fm.items, true, after_g);
    let ghost emv = em@.map_values(|v: Vec<char>| v@);
    append_segs(segs, em);
    let ghost s2 = segs@.map_values(|v: Vec<char>| v@);
    let el = chars_of(r.end_line.as_str());
    segs.push(el);
    proof {
        assert(s2 == s1 + emv);
        assert(segs@.map_values(|v: Vec<char>| v@) =~= s2.push(r.end_line@));
        assert(segs@.map_values(|v: Vec<char>| v@) =~= segs_pre + seq![r.start_line@] + emit_spec(fm.items@, gview(gid@), true, ord@)
            + seq![r.end_line@]);
        assert forall|k: int| 0 <= k < after_g.len() implies #[trigger] after_g@[k] < fm.items.len() by {
            if k >= after_pre.len() {
                assert(after_g@[k] == ord@[k - after_pre.len()]);
            }
        }
    }
}

/// Scoped mode: every item outside the regions in place, each region
/// between its marker lines with its items in their order.
fn walk(
    fm: &FileModel,
    orders: &Vec<Vec<usize>>,
    gid: &Vec<i64>,
    segs: &mut Vec<Vec<char>>,
    after_g: &mut Vec<usize>,
)
    requires
        model_wf(*fm),
        orders.len() == fm.regions.len(),
        forall|k: int, j: int| 0 <= k < orders.len() && 0 <= j < orders@[k].len() ==> #[trigger] orders@[k]@[j] < fm.items.len(),
        gid.len() == fm.items.len(),
        forall|k: int| 0 <= k < old(after_g).len() ==> #[trigger] old(after_g)@[k] < fm.items.len(),
    ensures
        final(segs)@.map_values(|v: Vec<char>| v@) == old(segs)@.map_values(|v: Vec<char>| v@) + scoped_segs(*fm, oviews(orders@), gview(gid@), 0),
        final(after_g)@ == old(after_g)@ + scoped_after(*fm, oviews(orders@), 0),
        forall|k: int| 0 <= k < final(after_g).len() ==> #[trigger] final(after_g)@[k] < fm.items.len(),
{
    let n = fm.items.len();
    let ghost ov = oviews(orders@);
    let ghost gv = gview(gid@);
    let ghost s0 = segs@.map_values(|v: Vec<char>| v@);
    let ghost a0 = after_g@;
    let mut i: usize = 0;
    let mut ri: usize = 0;
    while i < n
        invariant
            model_wf(*fm),
            n == fm.items.len(),
            orders.len() == fm.regions.len(),
            forall|k: int, j: int| 0 <= k < orders.len() && 0 <= j < orders@[k].len() ==> #[trigger] orders@[k]@[j] < n,
            gid.len() == n,
            ov == oviews(orders@),
            gv == gview(gid@),
            i <= n,
            ri <= fm.regions.len(),
            forall|k: int| 0 <= k < ri ==> #[trigger] fm.regions@[k].last_excl <= i,
            forall|k: int| ri <= k < fm.regions.len() ==> #[trigger] fm.regions@[k].first >= i,
            s0 + scoped_segs(*fm, ov, gv, 0) == segs@.map_values(|v: Vec<char>| v@) + scoped_segs(*fm, ov, gv, i as int),
            forall|k: int| 0 <= k < after_g.len() ==> #[trigger] after_g@[k] < n,
            a0 + scoped_after(*fm, ov, 0) == after_g@ + scoped_after(*fm, ov, i as int),
        decreases n - i,
    {
        let ghost segs_pre = segs@.map_values(|v: Vec<char>| v@);
        let ghost after_pre = after_g@;
        if ri < fm.regions.len() && fm.regions[ri].first == i {
            proof {
                lemma_walk_region(*fm, ov, gv, i as int, ri as int);
                assert(ov[ri as int] == orders@[ri as int]@);
                assert forall|j: int| 0 <= j < orders@[ri as int].len() implies #[trigger] orders@[ri as int]@[j] < n by {}
                assert(fm.regions@[ri as int].first < fm.regions@[ri as int].last_excl);
            }
            emit_region(fm, orders, gid, ri, segs, after_g);
            i = fm.regions[ri].last_excl;
            ri += 1;
        } else {
            proof {
                lemma_walk_item(*fm, ov, gv, i as int, ri as int);
            }
            let b = block(&fm.items[i], true);
            segs.push(b);
            if !fm.items[i].pinned {
                after_g.push(i);
            }
            proof {
                assert(segs@.map_values(|v: Vec<char>| v@) =~= segs_pre.push(b@));
                if !fm.items@[i as int].pinned {
                    assert(after_g@ =~= after_pre.push(i));
                }
            }
            i += 1;
        }
    }
    proof {
        reveal(scoped_segs);
        reveal(scoped_after);
        assert(scoped_segs(*fm, ov, gv, n as int) =~= Seq::<Seq<char>>::empty());
        assert(scoped_after(*fm, ov, n as int) =~= Seq::<usize>::empty());
    }
}

/// Append the segments of `more` to `segs`.
fn append_segs(segs: &mut Vec<Vec<char>>, more: Vec<Vec<char>>)
    ensures
        final(segs)@.map_values(|v: Vec<char>| v@) == old(segs)@.map_values(|v: Vec<char>| v@) + more@.map_values(|v: Vec<char>| v@),
{
    let mut more = more;
    let ghost pre = segs@;
    let ghost m = more@;
    segs.append(&mut more);
    proof {
        assert(segs@.map_values(|v: Vec<char>| v@) =~= pre.map_values(|v: Vec<char>| v@) + m.map_values(|v: Vec<char>| v@));
    }
}

/// Reorder a parsed file. `global` is the ordering of the whole file, and
/// of the regions whose marker line does not choose their own.
pub fn reorder_model(fm: &FileModel, global: OrderOpts) -> (out: Outcome)
    requires
        model_wf(*fm),
        regions_clear(*fm),
        fm.items.len() <= i64::MAX,
    ensures
        outcome_spec(*fm, global, out),
{
    let items = &fm.items;
    let n = items.len();
    let (names, dg) = names_and_deps(items);
    let (mv, g2c) = movable_exec(items);
    proof {
        assert(names@.len() == n) by {
            assert(names@.map_values(|s: String| s@).len() == names@.len());
        }
        lemma_movable_facts(items@, n as int);
        assert(mv@.no_duplicates()) by {
            assert forall|a: int, b: int| 0 <= a < mv.len() && 0 <= b < mv.len() && a != b implies mv@[a] != mv@[b] by {
                if a < b {
                    assert(mv@[a] < mv@[b]);
                } else {
                    assert(mv@[b] < mv@[a]);
                }
            }
        }
    }
    let mut gid: Vec<i64> = Vec::new();
    while gid.len() < n
        invariant
            gid.len() <= n,
            forall|g: int| 0 <= g < gid.len() ==> #[trigger] gid@[g] == -1,
        decreases n - gid.len(),
    {
        gid.push(-1);
    }
    let mut all: Vec<Vec<usize>> = Vec::new();
    proof {
        assert(gid_spec(vviews(all@), gview(gid@), n as int)) by {
            assert forall|g: int| 0 <= g < n implies #[trigger] gview(gid@)[g] == -1 by {
                assert(gid@[g] == -1);
            }
        }
    }
    let mut after_g: Vec<usize> = Vec::new();
    let mut segs: Vec<Vec<char>> = Vec::new();
    let pre = chars_of(fm.preamble.as_str());
    let pre_t = trim_end_vec(pre.as_slice());
    push_nonempty(&mut segs, pre_t.as_slice());
    let ghost mut orders: Seq<Seq<usize>> = Seq::empty();
    let ghost mut gs: Seq<Seq<Vec<usize>>> = Seq::empty();
    if fm.regions.len() == 0 {
        let (order, groups) = order_scope(mv.as_slice(), dg.as_slice(), names.as_slice(), global);
        proof {
            lemma_groups_facts(mv@, dg@, names@.map_values(|s: String| s@), global, order@, groups@);
            assert forall|k: int, j: int| 0 <= k < groups.len() && 0 <= j < groups@[k].len() implies #[trigger] groups@[k]@[j] < gid.len() by {
                assert(mv@.contains(groups@[k]@[j]));
            }
            assert(order@.len() == mv.len());
            assert forall|k: int| 0 <= k < order.len() implies #[trigger] order@[k] < items.len() by {
                assert(order@.contains(order@[k]));
                assert(mv@.contains(order@[k]));
            }
        }
        register_groups(&mut gid, &mut all, &groups);
        let pb = pinned_blocks_exec(items);
        append_segs(&mut segs, pb);
        let fl = floating_exec(items);
        push_nonempty(&mut segs, fl.as_slice());
        let em = emit_ordered(&order, &gid, items, false, &mut after_g);
        append_segs(&mut segs, em);
        proof {
            assert(after_g@ =~= order@);
            orders = seq![order@];
            gs = seq![groups@];
            assert(vviews(all@) =~= vviews(groups@));
        }
    } else {
        let mut ords: Vec<Vec<usize>> = Vec::new();
        let mut k: usize = 0;
        proof {
            assert(vviews(all@) =~= concat_groups(gs, 0));
        }
        while k < fm.regions.len()
            invariant
                model_wf(*fm),
                items == &fm.items,
                n == items.len(),
                n <= i64::MAX,
                names@.map_values(|s: String| s@) == names_view(items@),
                deps_match(dg@, items@),
                names.len() == n,
                dg.len() == n,
                gid.len() == n,
                forall|k2: int, j: int| 0 <= k2 < all.len() && 0 <= j < all@[k2].len() ==> #[trigger] all@[k2]@[j] < n,
                k <= fm.regions.len(),
                ords.len() == k,
                gs.len() == k,
                forall|k2: int| 0 <= k2 < k ==> (#[trigger] ords@[k2])@.len() == (fm.regions@[k2].last_excl - fm.regions@[k2].first),
                forall|k2: int, j: int| 0 <= k2 < k && 0 <= j < ords@[k2].len() ==> #[trigger] ords@[k2]@[j] < n,
                forall|k2: int|
                    0 <= k2 < k ==> order_spec(
                        region_members(fm.regions@[k2]),
                        dg@,
                        names_view(items@),
                        region_opts(fm.regions@[k2], global),
                        #[trigger] oviews(ords@)[k2],
                        gs[k2],
                    ),
                vviews(all@) == concat_groups(gs, k as int),
                gid_spec(vviews(all@), gview(gid@), n as int),
                all.len() <= if k == 0 { 0 } else { fm.regions@[k - 1].last_excl as int },
            decreases fm.regions.len() - k,
        {
            let r = &fm.regions[k];
            proof {
                assert(fm.regions@[k as int].first < fm.regions@[k as int].last_excl <= n);
                if k > 0 {
                    assert(fm.regions@[k - 1].last_excl <= fm.regions@[k as int].first);
                }
            }
            let mut members: Vec<usize> = Vec::new();
            let mut x = r.first;
            while x < r.last_excl
                invariant
                    r.first <= x <= r.last_excl <= n,
                    members@ == Seq::new((x - r.first) as nat, |j: int| (r.first + j) as usize),
                decreases r.last_excl - x,
            {
                members.push(x);
                proof {
                    assert(members@ =~= Seq::new((x + 1 - r.first) as nat, |j: int| (r.first + j) as usize));
                }
                x += 1;
            }
            proof {
                assert(members@ =~= region_members(*r));
                assert(members@.no_duplicates());
            }
            let opts = OrderOpts {
                inside: match r.opts.inside {
                    Some(t) => t,
                    None => global.inside,
                },
                outside: match r.opts.outside {
                    Some(t) => t,
                    None => global.outside,
                },
            };
            let (o, g) = order_scope(members.as_slice(), dg.as_slice(), names.as_slice(), opts);
            proof {
                lemma_groups_facts(members@, dg@, names@.map_values(|s: String| s@), opts, o@, g@);
                assert forall|a: int, j: int| 0 <= a < g.len() && 0 <= j < g@[a].len() implies #[trigger] g@[a]@[j] < gid.len() by {
                    assert(members@.contains(g@[a]@[j]));
                }
                assert forall|j: int| 0 <= j < o.len() implies #[trigger] o@[j] < n by {
                    assert(o@.contains(o@[j]));
                    assert(members@.contains(o@[j]));
                }
            }
            register_groups(&mut gid, &mut all, &g);
            let ghost ords_old = ords@;
            let ghost gs_old = gs;
            ords.push(o);
            proof {
                gs = gs.push(g@);
                assert(gs.drop_last() =~= gs_old);
                lemma_concat_prefix(gs, k as int);
                assert(gs[k as int] == g@);
                assert(concat_groups(gs, k + 1) == concat_groups(gs, k as int) + vviews(gs[k as int]));
                assert(vviews(all@).len() == all@.len());
                assert(vviews(g@).len() == g@.len());
                assert forall|k2: int|
                    0 <= k2 < k + 1 implies order_spec(
                        region_members(fm.regions@[k2]),
                        dg@,
                        names_view(items@),
                        region_opts(fm.regions@[k2], global),
                        #[trigger] oviews(ords@)[k2],
                        gs[k2],
                    ) by {
                    assert(oviews(ords@)[k2] == ords@[k2]@);
                    if k2 < k {
                        assert(gs[k2] == gs_old[k2]);
                        assert(ords@[k2] == ords_old[k2]);
                        assert(oviews(ords_old)[k2] == ords_old[k2]@);
                    }
                }
            }
            k += 1;
        }
        proof {
            orders = oviews(ords@);
            assert forall|k2: int, j: int| 0 <= k2 < ords.len() && 0 <= j < ords@[k2].len() implies #[trigger] ords@[k2]@[j] < fm.items.len() by {}
        }
        walk(fm, &ords, &gid, &mut segs, &mut after_g);
    }
    let post = chars_of(fm.postamble.as_str());
    let post_t = trim_vec(post.as_slice());
    push_nonempty(&mut segs, post_t.as_slice());
    let text = join(&segs);
    let new_src = string_of(text.as_slice());
    let plan = build_plan(fm, &mv, &g2c, &after_g, &all, &gid);
    let out = Outcome { new_src, plan };
    proof {
        assert(outcome_parts(*fm, global, out, orders, gs, gview(gid@), dg@));
    }
    out
}

proof fn lemma_concat_prefix(gs: Seq<Seq<Vec<usize>>>, k: int)
    requires
        0 <= k < gs.len(),
    ensures
        concat_groups(gs.drop_last(), k) == concat_groups(gs, k),
    decreases k,
{
    if k > 0 {
        lemma_concat_prefix(gs, k - 1);
    }
}

/// Two different members have the same group id exactly when they lie on
/// a common cycle.
proof fn lemma_same_gid(
    members: Seq<usize>,
    dg: Seq<Vec<usize>>,
    names: Seq<Seq<char>>,
    opts: OrderOpts,
    o: Seq<usize>,
    g: Seq<Vec<usize>>,
    gid: Seq<int>,
    u: usize,
    t: usize,
)
    requires
        order_spec(members, dg, names, opts, o, g),
        forall|i: int| 0 <= i < members.len() ==> #[trigger] members[i] < dg.len(),
        gid_spec(vviews(g), gid, dg.len() as int),
        members.contains(u),
        members.contains(t),
        u != t,
    ensures
        (gid[t as int] == gid[u as int] && gid[t as int] >= 0) <==> mutual(scope_mask(members, dg.len()), dg, u as int, t as int),
{
    let iu = choose|i: int| 0 <= i < members.len() && members[i] == u;
    let it = choose|i: int| 0 <= i < members.len() && members[i] == t;
    assert(members[iu] < dg.len() && members[it] < dg.len());
    lemma_group_iff_mutual(members, dg, names, opts, o, g, u, t);
    let gv = vviews(g);
    if mutual(scope_mask(members, dg.len()), dg, u as int, t as int) {
        let k = choose|k: int| 0 <= k < g.len() && #[trigger] g[k]@.contains(u) && g[k]@.contains(t);
        assert(gv[k] == g[k]@);
        assert(gid[u as int] >= -1);
        assert(gid[u as int] != -1);
        assert(gid[t as int] >= -1);
        assert(gid[t as int] != -1);
        let ku = gid[u as int];
        let kt = gid[t as int];
        assert(gv[ku] == g[ku]@ && gv[kt] == g[kt]@);
        if ku < k {
            lemma_groups_disjoint(members, dg, names, opts, o, g, ku, k, u);
        } else if k < ku {
            lemma_groups_disjoint(members, dg, names, opts, o, g, k, ku, u);
        }
        if kt < k {
            lemma_groups_disjoint(members, dg, names, opts, o, g, kt, k, t);
        } else if k < kt {
            lemma_groups_disjoint(members, dg, names, opts, o, g, k, kt, t);
        }
    }
    if gid[t as int] == gid[u as int] && gid[t as int] >= 0 {
        let k = gid[u as int];
        assert(gv[k] == g[k]@);
        assert(g[k]@.contains(u) && g[k]@.contains(t));
    }
}

/// A dependency of `u` on `t` is declared too late: `t` comes after `u`
/// and the two do not lie on a common cycle.
pub open spec fn late_dep(items: Seq<Item>, dg: Seq<Vec<usize>>, u: int, t: int) -> bool {
    t >= u && !mutual(scope_mask(movable(items), items.len() as nat), dg, u, t)
}

/// The late dependencies among the first `j` of item `u`.
pub open spec fn late_of(items: Seq<Item>, dg: Seq<Vec<usize>>, u: int, j: int) -> Seq<(int, int)>
    decreases j,
{
    if j <= 0 {
        Seq::empty()
    } else {
        let t = items[u].deps@[j - 1] as int;
        late_of(items, dg, u, j - 1) + if late_dep(items, dg, u, t) {
            seq![(u, t)]
        } else {
            Seq::empty()
        }
    }
}

/// The late dependencies of the movable items among the first `k`, by user
/// and then in the order of its dependency list.
pub open spec fn late_upto(items: Seq<Item>, dg: Seq<Vec<usize>>, k: int) -> Seq<(int, int)>
    decreases k,
{
    if k <= 0 {
        Seq::empty()
    } else {
        late_upto(items, dg, k - 1) + if items[k - 1].pinned {
            Seq::empty()
        } else {
            late_of(items, dg, k - 1, items[k - 1].deps.len() as int)
        }
    }
}

/// A dependency that is used before it is declared.
#[derive(Debug, Clone)]
pub struct CheckViolation {
    pub user: String,
    pub user_index: usize,
    pub dependency: String,
    pub dependency_index: usize,
}

#[derive(Debug, Clone)]
pub struct CheckReport {
    pub violations: Vec<CheckViolation>,
}

impl CheckReport {
    pub fn is_ok(&self) -> (r: bool)
        ensures
            r == (self.violations.len() == 0),
    {
        self.violations.len() == 0
    }
}

/// The report lists, for dependency lists `dg` like the items', every late
/// dependency with the names of the two items.
pub open spec fn check_parts(fm: FileModel, rep: CheckReport, dg: Seq<Vec<usize>>) -> bool {
    let items = fm.items@;
    &&& deps_match(dg, items)
    &&& rep.violations@.map_values(|v: CheckViolation| (v.user_index as int, v.dependency_index as int)) == late_upto(
        items,
        dg,
        items.len() as int,
    )
    &&& forall|k: int|
        0 <= k < rep.violations.len() ==> (#[trigger] rep.violations@[k]).user@ == name_of(
            items[rep.violations@[k].user_index as int],
        ) && rep.violations@[k].dependency@ == name_of(items[rep.violations@[k].dependency_index as int])
}

/// What `check` reports for the model `fm`.
pub open spec fn check_spec(fm: FileModel, rep: CheckReport) -> bool {
    exists|dg: Seq<Vec<usize>>| #[trigger] check_parts(fm, rep, dg)
}

/// Every dependency of a movable item is declared before it, unless the
/// two lie on a common cycle.
pub open spec fn declared_first(items: Seq<Item>, dg: Seq<Vec<usize>>) -> bool {
    forall|u: int, a: int|
        0 <= u < items.len() && !items[u].pinned && 0 <= a < items[u].deps.len() ==> !late_dep(
            items,
            dg,
            u,
            #[trigger] items[u].deps@[a] as int,
        )
}

proof fn lemma_late_of_empty(items: Seq<Item>, dg: Seq<Vec<usize>>, u: int, j: int)
    requires
        0 <= j <= items[u].deps.len(),
    ensures
        late_of(items, dg, u, j).len() == 0 <==> forall|a: int| 0 <= a < j ==> !late_dep(items, dg, u, #[trigger] items[u].deps@[a] as int),
    decreases j,
{
    if j > 0 {
        lemma_late_of_empty(items, dg, u, j - 1);
    }
}

/// No late dependency is listed exactly when every dependency is declared
/// first.
proof fn lemma_late_empty(items: Seq<Item>, dg: Seq<Vec<usize>>, k: int)
    requires
        0 <= k <= items.len(),
    ensures
        late_upto(items, dg, k).len() == 0 <==> forall|u: int, a: int|
            0 <= u < k && !items[u].pinned && 0 <= a < items[u].deps.len() ==> !late_dep(
                items,
                dg,
                u,
                #[trigger] items[u].deps@[a] as int,
            ),
    decreases k,
{
    if k > 0 {
        lemma_late_empty(items, dg, k - 1);
        lemma_late_of_empty(items, dg, k - 1, items[k - 1].deps.len() as int);
    }
}

/// Check a parsed file: list every dependency of a movable item on one
/// declared after it, unless the two lie on a common cycle.
pub fn check_model(fm: &FileModel) -> (rep: CheckReport)
    requires
        model_wf(*fm),
        fm.items.len() <= i64::MAX,
    ensures
        check_spec(*fm, rep),
        forall|dg: Seq<Vec<usize>>| deps_match(dg, fm.items@) ==> (rep.violations.len() == 0 <==> declared_first(fm.items@, dg)),
{
    let items = &fm.items;
    let n = items.len();
    let (names, dg) = names_and_deps(items);
    let (mv, _g2c) = movable_exec(items);
    proof {
        assert(names@.len() == n) by {
            assert(names@.map_values(|s: String| s@).len() == names@.len());
        }
        lemma_movable_facts(items@, n as int);
        assert(mv@.no_duplicates()) by {
            assert forall|a: int, b: int| 0 <= a < mv.len() && 0 <= b < mv.len() && a != b implies mv@[a] != mv@[b] by {
                if a < b {
                    assert(mv@[a] < mv@[b]);
                } else {
                    assert(mv@[b] < mv@[a]);
                }
            }
        }
    }
    let opts = OrderOpts { inside: Tie::Original, outside: Tie::Original };
    let (order, groups) = order_scope(mv.as_slice(), dg.as_slice(), names.as_slice(), opts);
    let mut gid: Vec<i64> = Vec::new();
    while gid.len() < n
        invariant
            gid.len() <= n,
            forall|g: int| 0 <= g < gid.len() ==> #[trigger] gid@[g] == -1,
        decreases n - gid.len(),
    {
        gid.push(-1);
    }
    let mut all: Vec<Vec<usize>> = Vec::new();
    proof {
        assert(gid_spec(vviews(all@), gview(gid@), n as int)) by {
            assert forall|g: int| 0 <= g < n implies #[trigger] gview(gid@)[g] == -1 by {
                assert(gid@[g] == -1);
            }
        }
        lemma_groups_facts(mv@, dg@, names@.map_values(|s: String| s@), opts, order@, groups@);
        assert forall|k: int, j: int| 0 <= k < groups.len() && 0 <= j < groups@[k].len() implies #[trigger] groups@[k]@[j] < gid.len() by {
            assert(mv@.contains(groups@[k]@[j]));
        }
    }
    register_groups(&mut gid, &mut all, &groups);
    let ghost iv = items@;
    let ghost dv = dg@;
    let ghost nv = names@.map_values(|s: String| s@);
    proof {
        assert(vviews(all@) =~= vviews(groups@));
        assert forall|i: int| 0 <= i < mv@.len() implies #[trigger] mv@[i] < dv.len() by {}
    }
    let mut violations: Vec<CheckViolation> = Vec::new();
    let mut u: usize = 0;
    proof {
        assert(violations@.map_values(|v: CheckViolation| (v.user_index as int, v.dependency_index as int)) =~= late_upto(iv, dv, 0));
    }
    while u < n
        invariant
            model_wf(*fm),
            items == &fm.items,
            iv == items@,
            n == items.len(),
            dv == dg@,
            dv.len() == n,
            deps_match(dv, iv),
            names@.map_values(|s: String| s@) == names_view(iv),
            names.len() == n,
            mv@ == movable(iv),
            forall|i: int| 0 <= i < mv@.len() ==> #[trigger] mv@[i] < dv.len(),
            order_spec(mv@, dv, nv, opts, order@, groups@),
            nv == names@.map_values(|s: String| s@),
            gid_spec(vviews(groups@), gview(gid@), n as int),
            gid.len() == n,
            u <= n,
            violations@.map_values(|v: CheckViolation| (v.user_index as int, v.dependency_index as int)) == late_upto(iv, dv, u as int),
            forall|k: int|
                0 <= k < violations.len() ==> (#[trigger] violations@[k]).user@ == name_of(iv[violations@[k].user_index as int])
                    && violations@[k].dependency@ == name_of(iv[violations@[k].dependency_index as int]),
        decreases n - u,
    {
        let ghost base = violations@.map_values(|v: CheckViolation| (v.user_index as int, v.dependency_index as int));
        if !items[u].pinned {
            let ds = &items[u].deps;
            let mut j: usize = 0;
            proof {
                assert(base + late_of(iv, dv, u as int, 0) =~= base);
                assert(mv@.contains(u)) by {
                    lemma_movable_member(iv, u as int);
                }
            }
            while j < ds.len()
                invariant
                    model_wf(*fm),
                    items == &fm.items,
                    iv == items@,
                    n == items.len(),
                    u < n,
                    !iv[u as int].pinned,
                    ds == &iv[u as int].deps,
                    dv == dg@,
                    dv.len() == n,
                    names@.map_values(|s: String| s@) == names_view(iv),
                    names.len() == n,
                    mv@ == movable(iv),
                    mv@.contains(u),
                    forall|i: int| 0 <= i < mv@.len() ==> #[trigger] mv@[i] < dv.len(),
                    order_spec(mv@, dv, nv, opts, order@, groups@),
                    gid_spec(vviews(groups@), gview(gid@), n as int),
                    gid.len() == n,
                    j <= ds.len(),
                    violations@.map_values(|v: CheckViolation| (v.user_index as int, v.dependency_index as int)) == base + late_of(iv, dv, u as int, j as int),
                    forall|k: int|
                        0 <= k < violations.len() ==> (#[trigger] violations@[k]).user@ == name_of(iv[violations@[k].user_index as int])
                            && violations@[k].dependency@ == name_of(iv[violations@[k].dependency_index as int]),
                decreases ds.len() - j,
            {
                let t = ds[j];
                proof {
                    assert(fm.items@[u as int].deps@[j as int] < n);
                    assert(t != u);
                    assert(!iv[t as int].pinned);
                    assert(mv@.contains(t)) by {
                        lemma_movable_member(iv, t as int);
                    }
                    lemma_same_gid(mv@, dv, nv, opts, order@, groups@, gview(gid@), u, t);
                    assert(gview(gid@)[t as int] == gid@[t as int] as int);
                    assert(gview(gid@)[u as int] == gid@[u as int] as int);
                }
                let same = gid[t] == gid[u] && gid[t] >= 0;
                let ghost pre = violations@;
                if !(t < u || same) {
                    let un = match &items[u].name {
                        Some(x) => x.clone(),
                        None => items[u].display.clone(),
                    };
                    let tn = match &items[t].name {
                        Some(x) => x.clone(),
                        None => items[t].display.clone(),
                    };
                    violations.push(CheckViolation { user: un, user_index: u, dependency: tn, dependency_index: t });
                    proof {
                        assert(violations@.map_values(|v: CheckViolation| (v.user_index as int, v.dependency_index as int)) =~= pre.map_values(|v: CheckViolation| (v.user_index as int, v.dependency_index as int)).push((u as int, t as int)));
                    }
                }
                proof {
                    assert(late_dep(iv, dv, u as int, t as int) == !(t < u || same));
                    assert(late_of(iv, dv, u as int, j + 1) == late_of(iv, dv, u as int, j as int) + if late_dep(iv, dv, u as int, t as int) {
                        seq![(u as int, t as int)]
                    } else {
                        Seq::empty()
                    });
                    assert(violations@.map_values(|v: CheckViolation| (v.user_index as int, v.dependency_index as int)) =~= base + late_of(iv, dv, u as int, j + 1));
                }
                j += 1;
            }
        }
        proof {
            assert(violations@.map_values(|v: CheckViolation| (v.user_index as int, v.dependency_index as int)) =~= late_upto(iv, dv, u + 1));
        }
        u += 1;
    }
    let rep = CheckReport { violations };
    proof {
        assert(check_parts(*fm, rep, dv));
        lemma_late_empty(iv, dv, n as int);
        assert forall|dg2: Seq<Vec<usize>>| deps_match(dg2, fm.items@) implies (rep.violations.len() == 0 <==> declared_first(fm.items@, dg2)) by {
            assert forall|u: int, a: int| 0 <= u < iv.len() && !iv[u].pinned && 0 <= a < iv[u].deps.len() implies late_dep(iv, dv, u, #[trigger] iv[u].deps@[a] as int) == late_dep(iv, dg2, u, iv[u].deps@[a] as int) by {
                assert forall|i: int| 0 <= i < dv.len() implies (#[trigger] dv[i])@ == dg2[i]@ by {
                    assert(dv[i]@ == iv[i].deps@);
                }
                lemma_mutual_views(scope_mask(movable(iv), iv.len() as nat), dv, dg2, u, iv[u].deps@[a] as int);
            }
        }
    }
    rep
}

/// A movable item lies among the movable items.
proof fn lemma_movable_member(items: Seq<Item>, g: int)
    requires
        0 <= g < items.len(),
        !items[g].pinned,
        items.len() <= usize::MAX,
    ensures
        movable(items).contains(g as usize),
{
    lemma_movable_upto_member(items, g, items.len() as int);
}

proof fn lemma_movable_upto_member(items: Seq<Item>, g: int, k: int)
    requires
        0 <= g < k <= items.len(),
        !items[g].pinned,
        items.len() <= usize::MAX,
    ensures
        movable_upto(items, k).contains(g as usize),
    decreases k,
{
    if g < k - 1 {
        lemma_movable_upto_member(items, g, k - 1);
        let a = movable_upto(items, k - 1);
        let j = choose|j: int| 0 <= j < a.len() && a[j] == g as usize;
        assert(movable_upto(items, k)[j] == g as usize);
    } else {
        let a = movable_upto(items, k - 1);
        assert(movable_upto(items, k)[a.len() as int] == g as usize);
    }
}

/// Reorder a source file, given the items the parser found in it. `global`
/// is the ordering of the whole file, and of the `// TO REORDER` regions
/// whose marker line does not choose their own. `None` when the items'
/// spans do not fit `src`.
pub fn reorder(src: &str, raws: &[RawItem], global: OrderOpts) -> (r: Option<Outcome>)
    requires
        forall|i: int| 0 <= i < raws.len() ==> shape_ok(#[trigger] raws@[i].shape),
        src@.len() < usize::MAX / 4,
        raws.len() < usize::MAX,
        raws.len() <= i64::MAX,
        raws_fit(src@, raws@) ==> !pinned_in_region(src@, raws@),
    ensures
        r is Some <==> raws_fit(src@, raws@),
        r matches Some(o) ==> exists|fm: FileModel| #[trigger] model_spec(src@, raws@, fm) && model_wf(fm) && outcome_spec(fm, global, o),
{
    let fm = match parse(src, raws) {
        Some(fm) => fm,
        None => return None,
    };
    proof {
        lemma_regions_clear(src@, raws@, fm);
    }
    let o = reorder_model(&fm, global);
    Some(o)
}

/// Check a source file, given the items the parser found in it: list every
/// dependency of a movable item on one declared after it, unless the two
/// lie on a common cycle. `None` when the items' spans do not fit `src`.
pub fn check(src: &str, raws: &[RawItem]) -> (r: Option<CheckReport>)
    requires
        forall|i: int| 0 <= i < raws.len() ==> shape_ok(#[trigger] raws@[i].shape),
        src@.len() < usize::MAX / 4,
        raws.len() < usize::MAX,
        raws.len() <= i64::MAX,
    ensures
        r is Some <==> raws_fit(src@, raws@),
        r matches Some(rep) ==> exists|fm: FileModel| #[trigger] model_spec(src@, raws@, fm) && model_wf(fm) && check_spec(fm, rep) && forall|
            dg: Seq<Vec<usize>>,
        | deps_match(dg, fm.items@) ==> (rep.violations.len() == 0 <==> declared_first(fm.items@, dg)),
{
    let fm = match parse(src, raws) {
        Some(fm) => fm,
        None => return None,
    };
    let rep = check_model(&fm);
    Some(rep)
}

} // verus!
