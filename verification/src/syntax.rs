//! The items of a source text as `syn` finds them: their byte spans come
//! from the parser; their shapes and references, from the caller's walk of
//! the same items. The spans are sorted by start, as the cutting expects.

use vstd::prelude::*;

use syn::spanned::Spanned;

use crate::analyze::{
    lemma_regions_clear, model_spec, model_wf, parse, pinned_in_region, raws_fit, regions_are_clear, regions_clear,
    FileModel, RawItem,
};
use crate::model::{shape_ok, Shape};
use crate::order::OrderOpts;
use crate::{check_model, check_spec, declared_first, deps_match, outcome_spec, reorder_model, CheckReport, Outcome};

verus! {

/// What `syn` reports of `src`: the byte span of each top-level item, in
/// the order of the parsed file's item list; `None` when `src` is not a
/// Rust file.
pub uninterp spec fn syn_spans(src: Seq<char>) -> Option<Seq<(int, int)>>;

/// Calls `syn::parse_file` on `src` and takes each item's byte range
/// (`Spanned::span` then `byte_range`). Trusted: the contract only names
/// the result as `syn_spans` of the text.
///
/// The spans live in a per-thread source map with 32-bit character
/// positions that grow with every text parsed on the thread; the map is
/// emptied first (`proc_macro2::extra::invalidate_current_thread_spans`,
/// which panics only inside a procedural macro), so each call starts from
/// the same position and its result depends on `src` alone, and texts are
/// kept below `u32::MAX` characters so that no position overflows.
#[verifier::external_body]
fn parse_spans(src: &str) -> (r: Option<Vec<(usize, usize)>>)
    requires
        src@.len() < u32::MAX,
    ensures
        match r {
            Some(v) => syn_spans(src@) == Some(v@.map_values(|t: (usize, usize)| (t.0 as int, t.1 as int))),
            None => syn_spans(src@) is None,
        },
{
    proc_macro2::extra::invalidate_current_thread_spans();
    let file = match syn::parse_file(src) {
        Ok(f) => f,
        Err(_) => return None,
    };
    let mut v: Vec<(usize, usize)> = Vec::new();
    for item in &file.items {
        let range = item.span().byte_range();
        v.push((range.start, range.end));
    }
    Some(v)
}


/// The shape of an item and the names it refers to, as a walk of the
/// parsed file reports them, item by item in the file's order.
#[derive(Debug, Clone)]
pub struct ItemInfo {
    pub shape: Shape,
    pub refs: Vec<String>,
}

/// Why a text could not be taken apart.
#[derive(Debug, Clone, Copy, PartialEq, Eq, Structural)]
pub enum TextError {
    /// `syn` does not parse the text.
    Unparsed,
    /// The item reports do not match the parsed items, or the spans do
    /// not fit the text.
    Misaligned,
    /// A pinned item (`use`, `extern crate`, ...) lies inside a
    /// `// TO REORDER` region.
    PinnedInRegion,
}

/// The item at span `sp` with the reported shape and references.
pub open spec fn raw_of(sp: (int, int), info: ItemInfo) -> RawItem {
    RawItem { shape: info.shape, start: sp.0 as usize, end: sp.1 as usize, refs: info.refs }
}

/// The items in the parsed file's order.
pub open spec fn file_raws(sp: Seq<(int, int)>, infos: Seq<ItemInfo>) -> Seq<RawItem> {
    Seq::new(infos.len(), |i: int| raw_of(sp[i], infos[i]))
}

/// `t` with `x` placed after the last item that does not start later.
pub open spec fn insert_by_start(t: Seq<RawItem>, x: RawItem) -> Seq<RawItem>
    decreases t.len(),
{
    if t.len() == 0 {
        seq![x]
    } else if t.last().start <= x.start {
        t.push(x)
    } else {
        insert_by_start(t.drop_last(), x).push(t.last())
    }
}

/// `s` sorted by start, items with equal starts in their order in `s`.
pub open spec fn sort_by_start(s: Seq<RawItem>) -> Seq<RawItem>
    decreases s.len(),
{
    if s.len() == 0 {
        s
    } else {
        insert_by_start(sort_by_start(s.drop_last()), s.last())
    }
}

/// The items of `src` as the cutting takes them: `syn`'s spans with the
/// reported shapes and references, sorted by start. `None` when `src`
/// does not parse or the number of reports differs from the number of
/// parsed items.
pub open spec fn text_raws(src: Seq<char>, infos: Seq<ItemInfo>) -> Option<Seq<RawItem>> {
    match syn_spans(src) {
        Some(sp) => if sp.len() == infos.len() {
            Some(sort_by_start(file_raws(sp, infos)))
        } else {
            None
        },
        None => None,
    }
}

/// The text parses, the reports match its items, and their spans fit it.
pub open spec fn text_fits(src: Seq<char>, infos: Seq<ItemInfo>) -> bool {
    text_raws(src, infos) matches Some(raws) && raws_fit(src, raws)
}

proof fn lemma_insert_at(t: Seq<RawItem>, x: RawItem, j: int)
    requires
        0 <= j <= t.len(),
        j == 0 || t[j - 1].start <= x.start,
        forall|a: int| j <= a < t.len() ==> #[trigger] t[a].start > x.start,
    ensures
        insert_by_start(t, x) == t.take(j).push(x) + t.skip(j),
    decreases t.len(),
{
    if t.len() == 0 {
        assert(t.take(j).push(x) + t.skip(j) =~= seq![x]);
    } else if t.last().start <= x.start {
        assert(j == t.len()) by {
            if j < t.len() {
                assert(t[t.len() - 1].start > x.start);
            }
        }
        assert(t.take(j).push(x) + t.skip(j) =~= t.push(x));
    } else {
        let t1 = t.drop_last();
        assert(j < t.len()) by {
            if j == t.len() {
                assert(t[j - 1] == t.last());
            }
        }
        lemma_insert_at(t1, x, j);
        assert((t1.take(j).push(x) + t1.skip(j)).push(t.last()) =~= t.take(j).push(x) + t.skip(j));
    }
}

proof fn lemma_insert_elems(t: Seq<RawItem>, x: RawItem)
    ensures
        insert_by_start(t, x).len() == t.len() + 1,
        forall|k: int| 0 <= k < insert_by_start(t, x).len() ==> #[trigger] insert_by_start(t, x)[k] == x || t.contains(
            insert_by_start(t, x)[k],
        ),
    decreases t.len(),
{
    if t.len() > 0 && t.last().start > x.start {
        let t1 = t.drop_last();
        lemma_insert_elems(t1, x);
        assert forall|k: int| 0 <= k < insert_by_start(t, x).len() implies #[trigger] insert_by_start(t, x)[k] == x
            || t.contains(insert_by_start(t, x)[k]) by {
            if k < t.len() {
                let e = insert_by_start(t, x)[k];
                assert(e == insert_by_start(t1, x)[k]);
                if e != x {
                    let a = choose|a: int| 0 <= a < t1.len() && t1[a] == e;
                    assert(t[a] == e);
                }
            } else {
                assert(insert_by_start(t, x)[k] == t[t.len() - 1]);
            }
        }
    } else if t.len() > 0 {
        assert forall|k: int| 0 <= k < insert_by_start(t, x).len() implies #[trigger] insert_by_start(t, x)[k] == x
            || t.contains(insert_by_start(t, x)[k]) by {
            if k < t.len() {
                assert(insert_by_start(t, x)[k] == t[k]);
            }
        }
    }
}

/// Sorting keeps the items: each item of the result is one of `s`.
pub proof fn lemma_sort_elems(s: Seq<RawItem>)
    ensures
        sort_by_start(s).len() == s.len(),
        forall|k: int| 0 <= k < sort_by_start(s).len() ==> s.contains(#[trigger] sort_by_start(s)[k]),
    decreases s.len(),
{
    if s.len() > 0 {
        let s1 = s.drop_last();
        lemma_sort_elems(s1);
        lemma_insert_elems(sort_by_start(s1), s.last());
        assert forall|k: int| 0 <= k < sort_by_start(s).len() implies s.contains(#[trigger] sort_by_start(s)[k]) by {
            let e = sort_by_start(s)[k];
            if e == s.last() {
                assert(s[s.len() - 1] == e);
            } else {
                let a = choose|a: int| 0 <= a < sort_by_start(s1).len() && sort_by_start(s1)[a] == e;
                let b = choose|b: int| 0 <= b < s1.len() && s1[b] == sort_by_start(s1)[a];
                assert(s[b] == e);
            }
        }
    }
}

/// `items` sorted by start, stably.
fn sort_raws(items: Vec<RawItem>) -> (out: Vec<RawItem>)
    ensures
        out@ == sort_by_start(items@),
{
    let ghost all = items@;
    let mut rest = items;
    let mut out: Vec<RawItem> = Vec::new();
    let ghost mut k: int = 0;
    proof {
        assert(all.take(0) =~= Seq::<RawItem>::empty());
        assert(rest@ =~= all.skip(0));
    }
    while rest.len() > 0
        invariant
            0 <= k <= all.len(),
            rest@ == all.skip(k),
            out@ == sort_by_start(all.take(k)),
        decreases rest.len(),
    {
        let x = rest.remove(0);
        let mut j = out.len();
        while j > 0 && out[j - 1].start > x.start
            invariant
                j <= out.len(),
                forall|a: int| j <= a < out.len() ==> #[trigger] out@[a].start > x.start,
            decreases j,
        {
            j -= 1;
        }
        proof {
            lemma_insert_at(out@, x, j as int);
            assert(all.take(k + 1).drop_last() =~= all.take(k));
            assert(all.take(k + 1).last() == x) by {
                assert(all.skip(k)[0] == all[k]);
            }
            assert(out@.take(j as int).push(x) + out@.skip(j as int) =~= out@.insert(j as int, x));
        }
        out.insert(j, x);
        proof {
            assert(rest@ =~= all.skip(k + 1));
            k = k + 1;
        }
    }
    proof {
        assert(all.take(k) =~= all);
    }
    out
}

/// The items of `src`, from `syn`'s spans and the reports, sorted by
/// start; `None` as `text_raws` says.
fn text_raws_exec(src: &str, infos: Vec<ItemInfo>) -> (r: Result<Vec<RawItem>, TextError>)
    requires
        src@.len() < u32::MAX,
    ensures
        match r {
            Ok(v) => text_raws(src@, infos@) == Some(v@),
            Err(e) => e == TextError::Unparsed && syn_spans(src@) is None || e == TextError::Misaligned && syn_spans(
                src@,
            ) is Some && text_raws(src@, infos@) is None,
        },
{
    let sp = match parse_spans(src) {
        Some(v) => v,
        None => return Err(TextError::Unparsed),
    };
    if sp.len() != infos.len() {
        return Err(TextError::Misaligned);
    }
    let ghost spv = sp@.map_values(|t: (usize, usize)| (t.0 as int, t.1 as int));
    let ghost all = infos@;
    let mut rest = infos;
    let mut raws: Vec<RawItem> = Vec::new();
    let mut i: usize = 0;
    while i < sp.len()
        invariant
            sp.len() == all.len(),
            spv == sp@.map_values(|t: (usize, usize)| (t.0 as int, t.1 as int)),
            i <= sp.len(),
            rest@ == all.skip(i as int),
            raws@ == file_raws(spv, all).take(i as int),
        decreases sp.len() - i,
    {
        let info = rest.remove(0);
        proof {
            assert(all.skip(i as int)[0] == all[i as int]);
        }
        let (a, b) = sp[i];
        raws.push(RawItem { shape: info.shape, start: a, end: b, refs: info.refs });
        proof {
            assert(rest@ =~= all.skip(i + 1));
            assert(raws@ =~= file_raws(spv, all).take(i + 1));
        }
        i += 1;
    }
    proof {
        assert(file_raws(spv, all).take(i as int) =~= file_raws(spv, all));
    }
    Ok(sort_raws(raws))
}

/// Parse `src` with `syn` and cut it into the model, given each parsed
/// item's shape and references in the file's order.
pub fn parse_text(src: &str, infos: Vec<ItemInfo>) -> (r: Result<FileModel, TextError>)
    requires
        src@.len() < usize::MAX / 4,
        src@.len() < u32::MAX,
        infos.len() < usize::MAX,
        forall|i: int| 0 <= i < infos.len() ==> shape_ok(#[trigger] infos@[i].shape),
    ensures
        r == Err::<FileModel, TextError>(TextError::Unparsed) <==> syn_spans(src@) is None,
        r == Err::<FileModel, TextError>(TextError::Misaligned) <==> syn_spans(src@) is Some && !text_fits(src@, infos@),
        r is Ok <==> text_fits(src@, infos@),
        r matches Ok(fm) ==> model_spec(src@, text_raws(src@, infos@)->0, fm) && model_wf(fm) && fm.items.len()
            == infos.len(),
{
    let ghost iv = infos@;
    let raws = match text_raws_exec(src, infos) {
        Ok(v) => v,
        Err(e) => return Err(e),
    };
    proof {
        let sp = syn_spans(src@)->0;
        lemma_sort_elems(file_raws(sp, iv));
        assert forall|i: int| 0 <= i < raws.len() implies shape_ok(#[trigger] raws@[i].shape) by {
            let b = choose|b: int| 0 <= b < file_raws(sp, iv).len() && file_raws(sp, iv)[b] == raws@[i];
            assert(iv[b].shape == raws@[i].shape);
        }
    }
    match parse(src, raws.as_slice()) {
        Some(fm) => Ok(fm),
        None => Err(TextError::Misaligned),
    }
}

/// Reorder a source text: parse it with `syn`, cut it with the reports of
/// its items, and reorder it under the options `global`.
pub fn reorder_text(src: &str, infos: Vec<ItemInfo>, global: OrderOpts) -> (r: Result<Outcome, TextError>)
    requires
        src@.len() < usize::MAX / 4,
        src@.len() < u32::MAX,
        infos.len() < usize::MAX,
        infos.len() <= i64::MAX,
        forall|i: int| 0 <= i < infos.len() ==> shape_ok(#[trigger] infos@[i].shape),
    ensures
        r == Err::<Outcome, TextError>(TextError::Unparsed) <==> syn_spans(src@) is None,
        r == Err::<Outcome, TextError>(TextError::Misaligned) <==> syn_spans(src@) is Some && !text_fits(src@, infos@),
        r == Err::<Outcome, TextError>(TextError::PinnedInRegion) <==> text_fits(src@, infos@) && pinned_in_region(
            src@,
            text_raws(src@, infos@)->0,
        ),
        r matches Ok(o) ==> text_fits(src@, infos@) && exists|fm: FileModel|
            #[trigger] model_spec(src@, text_raws(src@, infos@)->0, fm) && model_wf(fm) && outcome_spec(fm, global, o),
{
    let ghost iv = infos@;
    let fm = match parse_text(src, infos) {
        Ok(fm) => fm,
        Err(e) => return Err(e),
    };
    proof {
        lemma_regions_clear(src@, text_raws(src@, iv)->0, fm);
    }
    if !regions_are_clear(&fm) {
        return Err(TextError::PinnedInRegion);
    }
    Ok(reorder_model(&fm, global))
}

/// Check a source text: parse it with `syn`, cut it with the reports of
/// its items, and list the dependencies used before they are declared.
pub fn check_text(src: &str, infos: Vec<ItemInfo>) -> (r: Result<CheckReport, TextError>)
    requires
        src@.len() < usize::MAX / 4,
        src@.len() < u32::MAX,
        infos.len() < usize::MAX,
        infos.len() <= i64::MAX,
        forall|i: int| 0 <= i < infos.len() ==> shape_ok(#[trigger] infos@[i].shape),
    ensures
        r == Err::<CheckReport, TextError>(TextError::Unparsed) <==> syn_spans(src@) is None,
        r == Err::<CheckReport, TextError>(TextError::Misaligned) <==> syn_spans(src@) is Some && !text_fits(src@, infos@),
        r is Ok <==> text_fits(src@, infos@),
        r matches Ok(rep) ==> exists|fm: FileModel|
            #[trigger] model_spec(src@, text_raws(src@, infos@)->0, fm) && model_wf(fm) && check_spec(fm, rep) && forall|
                dg: Seq<Vec<usize>>,
            | deps_match(dg, fm.items@) ==> (rep.violations.len() == 0 <==> declared_first(fm.items@, dg)),
{
    let fm = match parse_text(src, infos) {
        Ok(fm) => fm,
        Err(e) => return Err(e),
    };
    Ok(check_model(&fm))
}

} // verus!
