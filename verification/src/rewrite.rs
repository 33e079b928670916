//! The text of a file model with its movable items in the order of an
//! `ItemOrder`: pinned items first, then the floating comments, then the
//! movable items with each mutual group between its markers.

use vstd::prelude::*;

use crate::analyze::FileModel;
use crate::mermaid::{mgid, order_fits, ItemOrder};
use crate::model::Item;
use crate::text::{chars_of, join_with, push_all, push_joined, push_str, string_of, trim, trim_end, trim_end_vec, trim_vec};
use crate::{block, block_spec, emit_spec, lemma_join_push, lemma_runs_last, lemma_runs_step, run_blocks, runs, segment};

verus! {

/// `s` as a segment of its own, unless it is empty.
pub open spec fn seg_if(s: Seq<char>) -> Seq<Seq<char>> {
    if s.len() > 0 {
        seq![s]
    } else {
        Seq::empty()
    }
}

/// The blocks of the pinned items among the first `k`, without their
/// floating comments.
pub open spec fn pinned_plain(items: Seq<Item>, k: int) -> Seq<Seq<char>>
    decreases k,
{
    if k <= 0 {
        Seq::empty()
    } else {
        pinned_plain(items, k - 1) + if items[k - 1].pinned {
            seq![block_spec(items[k - 1], false)]
        } else {
            Seq::empty()
        }
    }
}

/// The floating comments of the first `k` items, trimmed, when not blank.
pub open spec fn all_floats(items: Seq<Item>, k: int) -> Seq<Seq<char>>
    decreases k,
{
    if k <= 0 {
        Seq::empty()
    } else {
        all_floats(items, k - 1) + seg_if(trim(items[k - 1].pre_floating@))
    }
}

/// The movable entries among the first `k` of `o`, in order.
pub open spec fn movable_in(items: Seq<Item>, o: Seq<usize>, k: int) -> Seq<usize>
    decreases k,
{
    if k <= 0 {
        Seq::empty()
    } else {
        movable_in(items, o, k - 1) + if items[o[k - 1] as int].pinned {
            Seq::empty()
        } else {
            seq![o[k - 1]]
        }
    }
}

/// The segments of the new text: preamble, pinned items, floating
/// comments, the movable items in `ord`'s order, postamble.
pub open spec fn emit_segments(model: FileModel, ord: ItemOrder) -> Seq<Seq<char>> {
    let items = model.items@;
    let n = items.len() as int;
    seg_if(trim_end(model.preamble@)) + pinned_plain(items, n) + all_floats(items, n) + emit_spec(
        items,
        mgid(ord),
        false,
        movable_in(items, ord.order@, ord.order.len() as int),
    ) + seg_if(trim(model.postamble@))
}

/// The new text: the segments joined by blank lines, with a final newline.
pub open spec fn emit_text(model: FileModel, ord: ItemOrder) -> Seq<char> {
    join_with(emit_segments(model, ord), "\n\n"@) + "\n"@
}

proof fn lemma_push_view(v: Seq<Vec<char>>, x: Vec<char>)
    ensures
        v.push(x).map_values(|w: Vec<char>| w@) == v.map_values(|w: Vec<char>| w@).push(x@),
{
    assert(v.push(x).map_values(|w: Vec<char>| w@) =~= v.map_values(|w: Vec<char>| w@).push(x@));
}

/// The movable entries of `o`.
fn movable_entries(items: &Vec<Item>, o: &Vec<usize>, bound: usize) -> (mv: Vec<usize>)
    requires
        forall|k: int| 0 <= k < o.len() ==> #[trigger] o@[k] < items.len() && o@[k] < bound,
    ensures
        mv@ == movable_in(items@, o@, o.len() as int),
        forall|k: int| 0 <= k < mv.len() ==> #[trigger] mv@[k] < items.len() && mv@[k] < bound,
{
    let mut mv: Vec<usize> = Vec::new();
    let mut i: usize = 0;
    while i < o.len()
        invariant
            forall|k: int| 0 <= k < o.len() ==> #[trigger] o@[k] < items.len() && o@[k] < bound,
            i <= o.len(),
            mv@ == movable_in(items@, o@, i as int),
            forall|k: int| 0 <= k < mv.len() ==> #[trigger] mv@[k] < items.len() && mv@[k] < bound,
        decreases o.len() - i,
    {
        let g = o[i];
        if !items[g].pinned {
            mv.push(g);
        }
        proof {
            assert(mv@ =~= movable_in(items@, o@, i + 1));
        }
        i += 1;
    }
    mv
}

/// The segments of the items in order `mv`: each run of one mutual group
/// between markers, every other item on its own.
fn emit_runs(mv: &Vec<usize>, ord: &ItemOrder, items: &Vec<Item>) -> (segs: Vec<Vec<char>>)
    requires
        forall|k: int|
            0 <= k < mv.len() ==> #[trigger] mv@[k] < items.len() && mv@[k] < ord.in_mutual.len() && mv@[k]
                < ord.comp_of.len(),
    ensures
        segs@.map_values(|v: Vec<char>| v@) == emit_spec(items@, mgid(*ord), false, mv@),
{
    let ghost gv = mgid(*ord);
    let ghost o = mv@;
    let mut segs: Vec<Vec<char>> = Vec::new();
    let mut i: usize = 0;
    proof {
        assert(o.take(0) =~= Seq::<usize>::empty());
        assert(segs@.map_values(|v: Vec<char>| v@) =~= emit_spec(items@, gv, false, o.take(0)));
    }
    while i < mv.len()
        invariant
            forall|k: int|
                0 <= k < mv.len() ==> #[trigger] mv@[k] < items.len() && mv@[k] < ord.in_mutual.len() && mv@[k]
                    < ord.comp_of.len(),
            gv == mgid(*ord),
            o == mv@,
            i <= mv.len(),
            segs@.map_values(|v: Vec<char>| v@) == emit_spec(items@, gv, false, o.take(i as int)),
            0 < i < mv.len() ==> !(gv[o[i as int] as int] >= 0 && gv[o[i - 1] as int] == gv[o[i as int] as int]),
        decreases mv.len() - i,
    {
        let idx = mv[i];
        let start = i;
        let ghost rs0 = runs(o.take(start as int), gv);
        proof {
            lemma_runs_last(o.take(start as int), gv);
        }
        if ord.in_mutual[idx] {
            let comp = ord.comp_of[idx];
            proof {
                assert(gv[idx as int] == comp as int);
            }
            let mut group: Vec<char> = chars_of("// mutual start\n");
            let ghost head = group@;
            while i < mv.len() && ord.in_mutual[mv[i]] && ord.comp_of[mv[i]] == comp
                invariant
                    forall|k: int|
                        0 <= k < mv.len() ==> #[trigger] mv@[k] < items.len() && mv@[k] < ord.in_mutual.len() && mv@[k]
                            < ord.comp_of.len(),
                    gv == mgid(*ord),
                    o == mv@,
                    start < mv.len(),
                    start <= i <= mv.len(),
                    gv[o[start as int] as int] == comp as int,
                    rs0 == runs(o.take(start as int), gv),
                    0 < start ==> !(gv[o[start as int] as int] >= 0 && gv[o[start - 1] as int] == gv[o[start as int] as int]),
                    i > start ==> runs(o.take(i as int), gv) == rs0.push(o.subrange(start as int, i as int)),
                    i > start ==> gv[o[i - 1] as int] == comp as int,
                    i == start ==> group@ == head,
                    i > start ==> group@ == head + run_blocks(items@, false, o.subrange(start as int, i as int)),
                    head == "// mutual start\n"@,
                decreases mv.len() - i,
            {
                proof {
                    assert(gv[o[i as int] as int] == comp as int);
                    lemma_runs_step(o, gv, i as int);
                    let r2 = o.subrange(start as int, i + 1);
                    assert(o.subrange(start as int, i as int).push(o[i as int]) =~= r2);
                    lemma_join_push(
                        o.subrange(start as int, i as int).map_values(|g: usize| block_spec(items@[g as int], false)),
                        block_spec(items@[o[i as int] as int], false),
                        "\n\n"@,
                    );
                    assert(o.subrange(start as int, i as int).map_values(|g: usize| block_spec(items@[g as int], false)).push(
                        block_spec(items@[o[i as int] as int], false),
                    ) =~= r2.map_values(|g: usize| block_spec(items@[g as int], false)));
                }
                if i > start {
                    push_str(&mut group, "\n\n");
                }
                let b = block(&items[mv[i]], false);
                push_all(&mut group, b.as_slice());
                proof {
                    assert(o.take(i + 1) =~= o.take(i as int).push(o[i as int]));
                    if i == start {
                        assert(o.subrange(start as int, i + 1) =~= seq![o[i as int]]);
                        assert(o.subrange(start as int, i as int) =~= Seq::<usize>::empty());
                    }
                }
                i += 1;
            }
            push_str(&mut group, "\n// mutual end");
            let ghost pre = segs@;
            segs.push(group);
            proof {
                lemma_push_view(pre, group);
                let r = o.subrange(start as int, i as int);
                assert(r[0] == o[start as int]);
                assert(segment(items@, gv, false, r) == group@);
                assert(runs(o.take(i as int), gv) == rs0.push(r));
                assert(emit_spec(items@, gv, false, o.take(i as int)) =~= emit_spec(items@, gv, false, o.take(start as int)).push(
                    group@,
                ));
                if i < mv.len() {
                    assert(gv[o[i as int] as int] == if ord.in_mutual@[mv@[i as int] as int] {
                        ord.comp_of@[mv@[i as int] as int] as int
                    } else {
                        -1
                    });
                }
            }
        } else {
            proof {
                assert(gv[idx as int] == -1);
            }
            let b = block(&items[idx], false);
            let ghost pre = segs@;
            segs.push(b);
            proof {
                lemma_push_view(pre, b);
                lemma_runs_step(o, gv, i as int);
                assert(o.take(i + 1) =~= o.take(i as int).push(o[i as int]));
                assert(segment(items@, gv, false, seq![idx]) == b@);
                assert(emit_spec(items@, gv, false, o.take(i + 1)) =~= emit_spec(items@, gv, false, o.take(i as int)).push(
                    b@,
                ));
            }
            i += 1;
        }
    }
    proof {
        assert(o.take(mv.len() as int) =~= o);
    }
    segs
}

/// Render the new file from the model and an order of its items. Lossless
/// except for blank-line normalisation and the relocation of stand-alone
/// comments, which gather after the pinned items.
pub fn emit(model: &FileModel, ord: &ItemOrder) -> (r: String)
    requires
        order_fits(*ord, model.items.len() as nat),
    ensures
        r@ == emit_text(*model, *ord),
{
    let items = &model.items;
    let ghost n = items.len() as int;
    let mut segs: Vec<Vec<char>> = Vec::new();
    let pre = trim_end_vec(chars_of(model.preamble.as_str()).as_slice());
    if pre.len() > 0 {
        segs.push(pre);
    }
    proof {
        assert(segs@.map_values(|v: Vec<char>| v@) =~= seg_if(trim_end(model.preamble@)));
    }
    let ghost s1 = segs@.map_values(|v: Vec<char>| v@);
    let mut i: usize = 0;
    while i < items.len()
        invariant
            i <= items.len(),
            segs@.map_values(|v: Vec<char>| v@) == s1 + pinned_plain(items@, i as int),
        decreases items.len() - i,
    {
        let ghost pre_segs = segs@;
        if items[i].pinned {
            let b = block(&items[i], false);
            segs.push(b);
            proof {
                lemma_push_view(pre_segs, b);
            }
        }
        proof {
            assert(segs@.map_values(|v: Vec<char>| v@) =~= s1 + pinned_plain(items@, i + 1));
        }
        i += 1;
    }
    let ghost s2 = segs@.map_values(|v: Vec<char>| v@);
    let mut i: usize = 0;
    while i < items.len()
        invariant
            i <= items.len(),
            segs@.map_values(|v: Vec<char>| v@) == s2 + all_floats(items@, i as int),
        decreases items.len() - i,
    {
        let ghost pre_segs = segs@;
        let t = trim_vec(chars_of(items[i].pre_floating.as_str()).as_slice());
        if t.len() > 0 {
            segs.push(t);
            proof {
                lemma_push_view(pre_segs, t);
            }
        }
        proof {
            assert(segs@.map_values(|v: Vec<char>| v@) =~= s2 + all_floats(items@, i + 1));
        }
        i += 1;
    }
    let bound = if ord.in_mutual.len() < ord.comp_of.len() { ord.in_mutual.len() } else { ord.comp_of.len() };
    let mv = movable_entries(items, &ord.order, bound);
    let runs_segs = emit_runs(&mv, ord, items);
    let ghost s3 = segs@.map_values(|v: Vec<char>| v@);
    let mut k: usize = 0;
    while k < runs_segs.len()
        invariant
            k <= runs_segs.len(),
            segs@.map_values(|v: Vec<char>| v@) == s3 + runs_segs@.map_values(|v: Vec<char>| v@).take(k as int),
        decreases runs_segs.len() - k,
    {
        let ghost pre_segs = segs@;
        let mut v: Vec<char> = Vec::new();
        push_all(&mut v, runs_segs[k].as_slice());
        segs.push(v);
        proof {
            lemma_push_view(pre_segs, v);
            assert(runs_segs@.map_values(|v: Vec<char>| v@).take(k + 1) =~= runs_segs@.map_values(|v: Vec<char>| v@).take(
                k as int,
            ).push(runs_segs@[k as int]@));
        }
        k += 1;
    }
    proof {
        assert(runs_segs@.map_values(|v: Vec<char>| v@).take(runs_segs.len() as int) =~= runs_segs@.map_values(
            |v: Vec<char>| v@,
        ));
    }
    let ghost s4 = segs@.map_values(|v: Vec<char>| v@);
    let post = trim_vec(chars_of(model.postamble.as_str()).as_slice());
    let ghost pre_segs = segs@;
    if post.len() > 0 {
        segs.push(post);
        proof {
            lemma_push_view(pre_segs, post);
        }
    }
    proof {
        assert(segs@.map_values(|v: Vec<char>| v@) =~= s4 + seg_if(trim(model.postamble@)));
        assert(segs@.map_values(|v: Vec<char>| v@) =~= emit_segments(*model, *ord));
    }
    let mut out: Vec<char> = Vec::new();
    let sep = chars_of("\n\n");
    push_joined(&mut out, &segs, sep.as_slice());
    push_str(&mut out, "\n");
    string_of(out.as_slice())
}

} // verus!
