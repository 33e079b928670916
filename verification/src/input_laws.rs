//! What the parser's report and a region's marker line decide: a named
//! item (`fn`, `struct`, `enum`, `union`, `trait`, `type`, `const`,
//! `static`, `mod`) is movable and depends on what it names, only `use`,
//! `extern crate`, foreign blocks and other items stay pinned; and each
//! option word of a `// TO REORDER` line, in either of its spellings,
//! sets the ordering it names unless a later word of the same kind
//! overrides it.

use vstd::prelude::*;

use crate::analyze::{
    all_marks, apply_opt, defines, gap_lines, item_spec, model_spec, num_gaps, opt_view, opts_of_line, opts_of_words, spans, uses,
    FileModel, RawItem,
};
use crate::model::{classify_spec, Shape};
use crate::order::Tie;
use crate::text::split_on;

verus! {

/// `w` asks for alphabetical order inside mutual groups.
pub open spec fn inside_alpha_word(w: Seq<char>) -> bool {
    w == "same-level-inside-of-mutual--alphabetically"@ || w == "sorting-inside-mutual=alphabetical"@
}

/// `w` asks for the original order inside mutual groups.
pub open spec fn inside_orig_word(w: Seq<char>) -> bool {
    w == "same-level-inside-of-mutual--original"@ || w == "sorting-inside-mutual=original"@
}

/// `w` chooses the order inside mutual groups.
pub open spec fn inside_word(w: Seq<char>) -> bool {
    inside_alpha_word(w) || inside_orig_word(w)
}

/// `w` asks for alphabetical order outside mutual groups.
pub open spec fn outside_alpha_word(w: Seq<char>) -> bool {
    w == "same-level-outside-of-mutual--alphabetically"@ || w == "sorting-non-mutual=alphabetical"@
}

/// `w` asks for the original order outside mutual groups.
pub open spec fn outside_orig_word(w: Seq<char>) -> bool {
    w == "same-level-outside-of-mutual--original"@ || w == "sorting-non-mutual=original"@
}

/// `w` asks for topological order outside mutual groups.
pub open spec fn outside_topo_word(w: Seq<char>) -> bool {
    w == "same-level-outside-of-mutual--topological"@ || w == "sorting-non-mutual=topological"@
}

/// `w` chooses the order outside mutual groups.
pub open spec fn outside_word(w: Seq<char>) -> bool {
    outside_alpha_word(w) || outside_orig_word(w) || outside_topo_word(w)
}

/// No word of `ws` from position `k` on chooses the order inside groups.
pub open spec fn no_inside_from(ws: Seq<Seq<char>>, k: int) -> bool {
    forall|j: int| k <= j < ws.len() ==> !inside_word(#[trigger] ws[j])
}

/// No word of `ws` from position `k` on chooses the order outside groups.
pub open spec fn no_outside_from(ws: Seq<Seq<char>>, k: int) -> bool {
    forall|j: int| k <= j < ws.len() ==> !outside_word(#[trigger] ws[j])
}

/// The ten option words are ten different words.
proof fn lemma_words_differ()
    ensures
        !inside_alpha_word("same-level-inside-of-mutual--original"@),
        !inside_alpha_word("sorting-inside-mutual=original"@),
        forall|w: Seq<char>| outside_word(w) ==> !inside_word(w),
        forall|w: Seq<char>| outside_orig_word(w) ==> !outside_alpha_word(w),
        forall|w: Seq<char>| outside_topo_word(w) ==> !outside_alpha_word(w) && !outside_orig_word(w),
{
    reveal_strlit("same-level-inside-of-mutual--alphabetically");
    reveal_strlit("sorting-inside-mutual=alphabetical");
    reveal_strlit("same-level-inside-of-mutual--original");
    reveal_strlit("sorting-inside-mutual=original");
    reveal_strlit("same-level-outside-of-mutual--alphabetically");
    reveal_strlit("sorting-non-mutual=alphabetical");
    reveal_strlit("same-level-outside-of-mutual--original");
    reveal_strlit("sorting-non-mutual=original");
    reveal_strlit("same-level-outside-of-mutual--topological");
    reveal_strlit("sorting-non-mutual=topological");
    assert("same-level-inside-of-mutual--alphabetically"@.len() != "same-level-outside-of-mutual--alphabetically"@.len());
    assert("same-level-inside-of-mutual--alphabetically"@.len() != "sorting-non-mutual=alphabetical"@.len());
    assert("same-level-inside-of-mutual--alphabetically"@.len() != "same-level-outside-of-mutual--original"@.len());
    assert("same-level-inside-of-mutual--alphabetically"@.len() != "sorting-non-mutual=original"@.len());
    assert("same-level-inside-of-mutual--alphabetically"@.len() != "same-level-outside-of-mutual--topological"@.len());
    assert("same-level-inside-of-mutual--alphabetically"@.len() != "sorting-non-mutual=topological"@.len());
    assert("sorting-inside-mutual=alphabetical"@.len() != "same-level-outside-of-mutual--alphabetically"@.len());
    assert("sorting-inside-mutual=alphabetical"@.len() != "sorting-non-mutual=alphabetical"@.len());
    assert("sorting-inside-mutual=alphabetical"@.len() != "same-level-outside-of-mutual--original"@.len());
    assert("sorting-inside-mutual=alphabetical"@.len() != "sorting-non-mutual=original"@.len());
    assert("sorting-inside-mutual=alphabetical"@.len() != "same-level-outside-of-mutual--topological"@.len());
    assert("sorting-inside-mutual=alphabetical"@.len() != "sorting-non-mutual=topological"@.len());
    assert("same-level-inside-of-mutual--original"@.len() != "same-level-outside-of-mutual--alphabetically"@.len());
    assert("same-level-inside-of-mutual--original"@.len() != "sorting-non-mutual=alphabetical"@.len());
    assert("same-level-inside-of-mutual--original"@.len() != "same-level-outside-of-mutual--original"@.len());
    assert("same-level-inside-of-mutual--original"@.len() != "sorting-non-mutual=original"@.len());
    assert("same-level-inside-of-mutual--original"@.len() != "same-level-outside-of-mutual--topological"@.len());
    assert("same-level-inside-of-mutual--original"@.len() != "sorting-non-mutual=topological"@.len());
    assert("sorting-inside-mutual=original"@.len() != "same-level-outside-of-mutual--alphabetically"@.len());
    assert("sorting-inside-mutual=original"@.len() != "sorting-non-mutual=alphabetical"@.len());
    assert("sorting-inside-mutual=original"@.len() != "same-level-outside-of-mutual--original"@.len());
    assert("sorting-inside-mutual=original"@.len() != "sorting-non-mutual=original"@.len());
    assert("sorting-inside-mutual=original"@.len() != "same-level-outside-of-mutual--topological"@.len());
    assert("sorting-inside-mutual=original"@[8] != "sorting-non-mutual=topological"@[8]);
    assert("same-level-outside-of-mutual--original"@.len() != "same-level-outside-of-mutual--alphabetically"@.len());
    assert("same-level-outside-of-mutual--original"@.len() != "sorting-non-mutual=alphabetical"@.len());
    assert("sorting-non-mutual=original"@.len() != "same-level-outside-of-mutual--alphabetically"@.len());
    assert("sorting-non-mutual=original"@.len() != "sorting-non-mutual=alphabetical"@.len());
    assert("same-level-outside-of-mutual--topological"@.len() != "same-level-outside-of-mutual--alphabetically"@.len());
    assert("same-level-outside-of-mutual--topological"@.len() != "sorting-non-mutual=alphabetical"@.len());
    assert("same-level-outside-of-mutual--topological"@.len() != "same-level-outside-of-mutual--original"@.len());
    assert("same-level-outside-of-mutual--topological"@.len() != "sorting-non-mutual=original"@.len());
    assert("sorting-non-mutual=topological"@.len() != "same-level-outside-of-mutual--alphabetically"@.len());
    assert("sorting-non-mutual=topological"@.len() != "sorting-non-mutual=alphabetical"@.len());
    assert("sorting-non-mutual=topological"@.len() != "same-level-outside-of-mutual--original"@.len());
    assert("sorting-non-mutual=topological"@.len() != "sorting-non-mutual=original"@.len());
    assert("same-level-inside-of-mutual--original"@.len() != "same-level-inside-of-mutual--alphabetically"@.len());
    assert("same-level-inside-of-mutual--original"@.len() != "sorting-inside-mutual=alphabetical"@.len());
    assert("sorting-inside-mutual=original"@.len() != "same-level-inside-of-mutual--alphabetically"@.len());
    assert("sorting-inside-mutual=original"@.len() != "sorting-inside-mutual=alphabetical"@.len());
}

/// Words that choose nothing inside groups leave that choice as it was.
proof fn lemma_inside_kept(ws: Seq<Seq<char>>, k: int)
    requires
        0 <= k <= ws.len(),
        no_inside_from(ws, k),
    ensures
        opts_of_words(ws).inside == opts_of_words(ws.take(k)).inside,
    decreases ws.len(),
{
    if ws.len() > k {
        let w0 = ws.drop_last();
        assert(no_inside_from(w0, k)) by {
            assert forall|j: int| k <= j < w0.len() implies !inside_word(#[trigger] w0[j]) by {
                assert(w0[j] == ws[j]);
            }
        }
        lemma_inside_kept(w0, k);
        assert(w0.take(k) =~= ws.take(k));
        assert(!inside_word(ws[ws.len() - 1]));
    } else {
        assert(ws.take(k) =~= ws);
    }
}

/// Words that choose nothing outside groups leave that choice as it was.
proof fn lemma_outside_kept(ws: Seq<Seq<char>>, k: int)
    requires
        0 <= k <= ws.len(),
        no_outside_from(ws, k),
    ensures
        opts_of_words(ws).outside == opts_of_words(ws.take(k)).outside,
    decreases ws.len(),
{
    if ws.len() > k {
        let w0 = ws.drop_last();
        assert(no_outside_from(w0, k)) by {
            assert forall|j: int| k <= j < w0.len() implies !outside_word(#[trigger] w0[j]) by {
                assert(w0[j] == ws[j]);
            }
        }
        lemma_outside_kept(w0, k);
        assert(w0.take(k) =~= ws.take(k));
        assert(!outside_word(ws[ws.len() - 1]));
    } else {
        assert(ws.take(k) =~= ws);
    }
}

/// The options of the first `i + 1` words are those of the first `i`,
/// changed by word `i`.
proof fn lemma_words_step(ws: Seq<Seq<char>>, i: int)
    requires
        0 <= i < ws.len(),
    ensures
        opts_of_words(ws.take(i + 1)) == apply_opt(opts_of_words(ws.take(i)), ws[i]),
{
    assert(ws.take(i + 1).drop_last() =~= ws.take(i));
    assert(ws.take(i + 1).last() == ws[i]);
}

/// The order inside mutual groups is the one the last word that chooses
/// it asks for: alphabetical for `same-level-inside-of-mutual--alphabetically`
/// and `sorting-inside-mutual=alphabetical`, original for
/// `same-level-inside-of-mutual--original` and `sorting-inside-mutual=original`.
pub proof fn law_inside_word_decides(ws: Seq<Seq<char>>, i: int)
    requires
        0 <= i < ws.len(),
        inside_word(ws[i]),
        no_inside_from(ws, i + 1),
    ensures
        inside_alpha_word(ws[i]) ==> opts_of_words(ws).inside == Some(Tie::Alphabetical),
        inside_orig_word(ws[i]) ==> opts_of_words(ws).inside == Some(Tie::Original),
{
    lemma_words_differ();
    lemma_inside_kept(ws, i + 1);
    lemma_words_step(ws, i);
}

/// The order outside mutual groups is the one the last word that chooses
/// it asks for: alphabetical, original or topological, in either spelling
/// (`same-level-outside-of-mutual--…` or `sorting-non-mutual=…`).
pub proof fn law_outside_word_decides(ws: Seq<Seq<char>>, i: int)
    requires
        0 <= i < ws.len(),
        outside_word(ws[i]),
        no_outside_from(ws, i + 1),
    ensures
        outside_alpha_word(ws[i]) ==> opts_of_words(ws).outside == Some(Tie::Alphabetical),
        outside_orig_word(ws[i]) ==> opts_of_words(ws).outside == Some(Tie::Original),
        outside_topo_word(ws[i]) ==> opts_of_words(ws).outside == Some(Tie::Topological),
{
    lemma_words_differ();
    lemma_outside_kept(ws, i + 1);
    lemma_words_step(ws, i);
}

/// Words that choose nothing leave both orders to the global options.
pub proof fn law_unchosen_is_global(ws: Seq<Seq<char>>)
    ensures
        no_inside_from(ws, 0) ==> opts_of_words(ws).inside is None,
        no_outside_from(ws, 0) ==> opts_of_words(ws).outside is None,
{
    assert(ws.take(0) =~= Seq::<Seq<char>>::empty());
    if no_inside_from(ws, 0) {
        lemma_inside_kept(ws, 0);
    }
    if no_outside_from(ws, 0) {
        lemma_outside_kept(ws, 0);
    }
}

/// On a `// TO REORDER` line, whose words follow the marker and are
/// separated by spaces, the last inside word and the last outside word
/// decide the region's options, whichever spelling they use.
pub proof fn law_marker_line_options(t: Seq<char>, i: int, j: int)
    requires
        0 <= i < split_on(t.skip(13), ' ').len(),
        0 <= j < split_on(t.skip(13), ' ').len(),
        inside_word(split_on(t.skip(13), ' ')[i]),
        no_inside_from(split_on(t.skip(13), ' '), i + 1),
        outside_word(split_on(t.skip(13), ' ')[j]),
        no_outside_from(split_on(t.skip(13), ' '), j + 1),
    ensures
        inside_alpha_word(split_on(t.skip(13), ' ')[i]) ==> opts_of_line(t).inside == Some(Tie::Alphabetical),
        inside_orig_word(split_on(t.skip(13), ' ')[i]) ==> opts_of_line(t).inside == Some(Tie::Original),
        outside_alpha_word(split_on(t.skip(13), ' ')[j]) ==> opts_of_line(t).outside == Some(Tie::Alphabetical),
        outside_orig_word(split_on(t.skip(13), ' ')[j]) ==> opts_of_line(t).outside == Some(Tie::Original),
        outside_topo_word(split_on(t.skip(13), ' ')[j]) ==> opts_of_line(t).outside == Some(Tie::Topological),
{
    law_inside_word_decides(split_on(t.skip(13), ' '), i);
    law_outside_word_decides(split_on(t.skip(13), ' '), j);
}

/// The shapes that stay where they are: `use`, `extern crate`, foreign
/// blocks and items of no other shape.
pub open spec fn pinned_shape(s: Shape) -> bool {
    s is Use || s is ExternCrate || s is ForeignMod || s is Other
}

/// The name a shape declares for other items to use.
pub open spec fn declared_name(s: Shape) -> Option<Seq<char>> {
    match s {
        Shape::Named(_, n) => Some(n@),
        Shape::MacroRules(n) => Some(n@),
        _ => None,
    }
}

/// Only `use`, `extern crate`, foreign blocks and other items are pinned;
/// every named item (`fn`, `struct`, `enum`, `union`, `trait`, `type`,
/// `const`, `static`, `mod`), macro and impl is movable, and a named item
/// keeps its kind and its name.
pub proof fn law_pinned_shapes(s: Shape)
    ensures
        classify_spec(s).3 <==> pinned_shape(s),
        s matches Shape::Named(k, n) ==> classify_spec(s).0 == k && classify_spec(s).1 == Some(n@),
        classify_spec(s).3 ==> classify_spec(s).1 is None,
        !classify_spec(s).3 ==> classify_spec(s).1 == declared_name(s),
{
}

/// In the model of a file, item `i` is pinned exactly when the parser
/// reported a `use`, `extern crate`, foreign block or other item; a named
/// item is movable and carries its name.
pub proof fn law_model_pinned(s: Seq<char>, raws: Seq<RawItem>, fm: FileModel, i: int)
    requires
        model_spec(s, raws, fm),
        0 <= i < raws.len(),
    ensures
        fm.items@[i].pinned <==> pinned_shape(raws[i].shape),
        raws[i].shape matches Shape::Named(k, n) ==> (!fm.items@[i].pinned && fm.items@[i].kind == k
            && opt_view(fm.items@[i].name) == Some(n@)),
{
    assert(item_spec(
        s,
        raws,
        spans(s, raws),
        gap_lines(s, spans(s, raws)),
        all_marks(
            gap_lines(s, spans(s, raws)),
            num_gaps(spans(s, raws)),
        ),
        i,
        fm.items@[i],
    ));
}

/// A named item (a `mod` among them) that names an earlier item `t`, the
/// last to declare that name, depends on it in the model: the dependency
/// edge is there, so `t` is ordered before it.
pub proof fn law_named_item_uses(s: Seq<char>, raws: Seq<RawItem>, fm: FileModel, i: int, t: int, q: int)
    requires
        model_spec(s, raws, fm),
        0 <= i < raws.len(),
        0 <= t < raws.len(),
        t != i,
        raws[i].shape is Named,
        !pinned_shape(raws[t].shape),
        0 <= q < raws[i].refs.len(),
        declared_name(raws[t].shape) == Some(raws[i].refs@[q]@),
        forall|t2: int| t < t2 < raws.len() ==> declared_name(#[trigger] raws[t2].shape) != Some(raws[i].refs@[q]@),
    ensures
        fm.items@[i].deps@.contains(t as usize),
{
    let sp = spans(s, raws);
    let lines = gap_lines(s, sp);
    let mk = all_marks(lines, num_gaps(sp));
    assert(item_spec(s, raws, sp, lines, mk, i, fm.items@[i]));
    law_pinned_shapes(raws[i].shape);
    law_pinned_shapes(raws[t].shape);
    let r = raws[i].refs@[q]@;
    assert(defines(raws, t, r));
    assert forall|t2: int| t < t2 < raws.len() implies !#[trigger] defines(raws, t2, r) by {
        law_pinned_shapes(raws[t2].shape);
    }
    assert(uses(raws, i, t));
}

} // verus!
