//! Turn a source text and the items the parser found in it into a
//! `FileModel`: a verbatim preamble, the items in source order (each with
//! attached comments and dependency edges), the `// TO REORDER` regions, and
//! a postamble. Nothing in the source is dropped but the tool's own markers.

use vstd::prelude::*;

use crate::model::{classify, classify_spec, shape_ok, Item, ItemKind, Shape};
use crate::order::Tie;
use crate::text::{
    blank, chars_of, eq_chars, eq_str, is_blank, join_with, lemma_split_on_len, push_joined, slice_vec, split_on, split_vec,
    string_of, strip_cr, strip_cr_vec, trim, trim_end, trim_end_vec, trim_vec,
};

verus! {

/// A top-level item as the parser reports it: its shape, its byte span in
/// the source, and every identifier it refers to (path segments other than
/// `crate`/`self`/`Self`/`super`, and identifiers inside macro invocations).
#[derive(Debug, Clone)]
pub struct RawItem {
    pub shape: Shape,
    pub start: usize,
    pub end: usize,
    pub refs: Vec<String>,
}

/// The number of bytes UTF-8 takes for `c`.
pub open spec fn utf8_len(c: char) -> nat {
    if (c as u32) < 0x80 {
        1
    } else if (c as u32) < 0x800 {
        2
    } else if (c as u32) < 0x10000 {
        3
    } else {
        4
    }
}

/// The byte offset, in UTF-8, of character `k` of `s`.
pub open spec fn byte_pos(s: Seq<char>, k: int) -> nat
    decreases k,
{
    if k <= 0 || k > s.len() {
        0
    } else {
        byte_pos(s, k - 1) + utf8_len(s[k - 1])
    }
}

pub proof fn lemma_byte_pos_mono(s: Seq<char>, a: int, b: int)
    requires
        0 <= a < b <= s.len(),
    ensures
        byte_pos(s, a) < byte_pos(s, b),
    decreases b - a,
{
    if a + 1 < b {
        lemma_byte_pos_mono(s, a, b - 1);
    }
}

proof fn lemma_byte_pos_bound(s: Seq<char>, k: int)
    requires
        0 <= k <= s.len(),
    ensures
        byte_pos(s, k) <= 4 * k,
    decreases k,
{
    if k > 0 {
        lemma_byte_pos_bound(s, k - 1);
    }
}

/// The character index at byte offset `b`.
pub open spec fn char_idx(s: Seq<char>, b: int) -> int {
    choose|k: int| 0 <= k <= s.len() && byte_pos(s, k) == b
}

/// Byte offset `b` falls on a character boundary of `s`.
pub open spec fn is_boundary(s: Seq<char>, b: int) -> bool {
    exists|k: int| 0 <= k <= s.len() && byte_pos(s, k) == b
}

pub proof fn lemma_char_idx(s: Seq<char>, k: int)
    requires
        0 <= k <= s.len(),
    ensures
        is_boundary(s, byte_pos(s, k) as int),
        char_idx(s, byte_pos(s, k) as int) == k,
{
    let b = byte_pos(s, k) as int;
    assert(0 <= k <= s.len() && byte_pos(s, k) == b);
    let k2 = char_idx(s, b);
    if k2 < k {
        lemma_byte_pos_mono(s, k2, k);
    } else if k < k2 {
        lemma_byte_pos_mono(s, k, k2);
    }
}

/// The spans of the items lie on character boundaries, in order and without
/// overlap.
pub open spec fn raws_fit(s: Seq<char>, raws: Seq<RawItem>) -> bool {
    &&& forall|i: int| 0 <= i < raws.len() ==> #[trigger] is_boundary(s, raws[i].start as int) && is_boundary(s, raws[i].end as int)
    &&& forall|i: int| 0 <= i < raws.len() ==> char_idx(s, #[trigger] raws[i].start as int) <= char_idx(s, raws[i].end as int)
    &&& forall|i: int| 0 <= i < raws.len() - 1 ==> char_idx(s, #[trigger] raws[i].end as int) <= char_idx(s, raws[i + 1].start as int)
}

/// The character span of item `i`.
pub open spec fn span_of(s: Seq<char>, raws: Seq<RawItem>, i: int) -> (int, int) {
    (char_idx(s, raws[i].start as int), char_idx(s, raws[i].end as int))
}

pub(crate) fn utf8_width(c: char) -> (w: usize)
    ensures
        w == utf8_len(c),
{
    if (c as u32) < 0x80 {
        1
    } else if (c as u32) < 0x800 {
        2
    } else if (c as u32) < 0x10000 {
        3
    } else {
        4
    }
}

/// The byte offset of every character position `0..=s.len()`.
pub(crate) fn byte_offsets(s: &Vec<char>) -> (bo: Vec<usize>)
    requires
        s.len() < usize::MAX / 4,
    ensures
        bo.len() == s.len() + 1,
        forall|k: int| 0 <= k <= s.len() ==> #[trigger] bo@[k] == byte_pos(s@, k),
{
    let mut bo: Vec<usize> = Vec::new();
    bo.push(0);
    let mut k: usize = 0;
    while k < s.len()
        invariant
            s.len() < usize::MAX / 4,
            k <= s.len(),
            bo.len() == k + 1,
            forall|q: int| 0 <= q <= k ==> #[trigger] bo@[q] == byte_pos(s@, q),
        decreases s.len() - k,
    {
        proof {
            lemma_byte_pos_bound(s@, k + 1);
        }
        let w = utf8_width(s[k]);
        let next = bo[k] + w;
        bo.push(next);
        k += 1;
    }
    bo
}

/// The character index at byte offset `b`, if `b` is a boundary.
pub(crate) fn char_index(s: Ghost<Seq<char>>, bo: &Vec<usize>, b: usize) -> (r: Option<usize>)
    requires
        bo.len() == s@.len() + 1,
        forall|k: int| 0 <= k <= s@.len() ==> #[trigger] bo@[k] == byte_pos(s@, k),
    ensures
        r is Some <==> is_boundary(s@, b as int),
        r matches Some(k) ==> k == char_idx(s@, b as int) && k <= s@.len(),
{
    let mut lo: usize = 0;
    let mut hi: usize = bo.len();
    while lo < hi
        invariant
            bo.len() == s@.len() + 1,
            forall|k: int| 0 <= k <= s@.len() ==> #[trigger] bo@[k] == byte_pos(s@, k),
            lo <= hi <= bo.len(),
            forall|k: int| 0 <= k < lo ==> #[trigger] byte_pos(s@, k) < b,
            forall|k: int| hi <= k <= s@.len() ==> #[trigger] byte_pos(s@, k) > b,
        decreases hi - lo,
    {
        let mid = lo + (hi - lo) / 2;
        if bo[mid] < b {
            proof {
                assert forall|k: int| 0 <= k < mid + 1 implies #[trigger] byte_pos(s@, k) < b by {
                    if k < mid {
                        lemma_byte_pos_mono(s@, k, mid as int);
                    }
                }
            }
            lo = mid + 1;
        } else if bo[mid] == b {
            proof {
                lemma_char_idx(s@, mid as int);
            }
            return Some(mid);
        } else {
            proof {
                assert forall|k: int| mid <= k <= s@.len() implies #[trigger] byte_pos(s@, k) > b by {
                    if k > mid {
                        lemma_byte_pos_mono(s@, mid as int, k);
                    }
                }
            }
            hi = mid;
        }
    }
    proof {
        if is_boundary(s@, b as int) {
            let k = choose|k: int| 0 <= k <= s@.len() && byte_pos(s@, k) == b;
            if k < lo {
                assert(byte_pos(s@, k) < b);
            } else {
                assert(byte_pos(s@, k) > b);
            }
        }
    }
    None
}

proof fn lemma_fit_step(s: Seq<char>, raws: Seq<RawItem>, i: int)
    requires
        0 <= i < raws.len(),
        raws_fit(s, raws.take(i)),
        is_boundary(s, raws[i].start as int),
        is_boundary(s, raws[i].end as int),
        char_idx(s, raws[i].start as int) <= char_idx(s, raws[i].end as int),
        i > 0 ==> char_idx(s, raws[i - 1].end as int) <= char_idx(s, raws[i].start as int),
    ensures
        raws_fit(s, raws.take(i + 1)),
{
    let t = raws.take(i + 1);
    let p = raws.take(i);
    assert forall|j: int| 0 <= j < t.len() implies #[trigger] is_boundary(s, t[j].start as int) && is_boundary(s, t[j].end as int) by {
        if j < i {
            assert(t[j] == p[j]);
        }
    }
    assert forall|j: int| 0 <= j < t.len() implies char_idx(s, #[trigger] t[j].start as int) <= char_idx(s, t[j].end as int) by {
        if j < i {
            assert(t[j] == p[j]);
        }
    }
    assert forall|j: int| 0 <= j < t.len() - 1 implies char_idx(s, #[trigger] t[j].end as int) <= char_idx(s, t[j + 1].start as int) by {
        if j < i - 1 {
            assert(t[j] == p[j] && t[j + 1] == p[j + 1]);
        } else {
            assert(t[j] == raws[i - 1] && t[j + 1] == raws[i]);
        }
    }
}

/// The character spans of `raws`, if they fit `s`.
fn char_spans(s: &Vec<char>, raws: &[RawItem]) -> (r: Option<Vec<(usize, usize)>>)
    requires
        s.len() < usize::MAX / 4,
    ensures
        r is Some <==> raws_fit(s@, raws@),
        r matches Some(sp) ==> sp.len() == raws.len() && forall|i: int| 0 <= i < raws.len() ==> (#[trigger] sp@[i].0 as int, sp@[i].1 as int) == span_of(s@, raws@, i) && sp@[i].1 <= s.len(),
{
    let bo = byte_offsets(s);
    let mut sp: Vec<(usize, usize)> = Vec::new();
    let mut i: usize = 0;
    proof {
        assert(raws_fit(s@, raws@.take(0)));
    }
    while i < raws.len()
        invariant
            bo.len() == s@.len() + 1,
            forall|k: int| 0 <= k <= s@.len() ==> #[trigger] bo@[k] == byte_pos(s@, k),
            i <= raws.len(),
            sp.len() == i,
            forall|j: int| 0 <= j < i ==> (#[trigger] sp@[j].0 as int, sp@[j].1 as int) == span_of(s@, raws@, j) && sp@[j].1 <= s.len(),
            raws_fit(s@, raws@.take(i as int)),
        decreases raws.len() - i,
    {
        let a = char_index(Ghost(s@), &bo, raws[i].start);
        let b = char_index(Ghost(s@), &bo, raws[i].end);
        if a.is_none() || b.is_none() {
            proof {
                assert(!raws_fit(s@, raws@)) by {
                    if raws_fit(s@, raws@) {
                        assert(is_boundary(s@, raws@[i as int].start as int) && is_boundary(s@, raws@[i as int].end as int));
                    }
                }
            }
            return None;
        }
        let a = a.unwrap();
        let b = b.unwrap();
        if a > b {
            proof {
                assert(!raws_fit(s@, raws@)) by {
                    if raws_fit(s@, raws@) {
                        assert(char_idx(s@, raws@[i as int].start as int) <= char_idx(s@, raws@[i as int].end as int));
                    }
                }
            }
            return None;
        }
        proof {
            if i > 0 {
                let t = sp@[i - 1];
                assert((t.0 as int, t.1 as int) == span_of(s@, raws@, i - 1));
                assert(t.1 as int == char_idx(s@, raws@[i - 1].end as int));
            }
        }
        if i > 0 && sp[i - 1].1 > a {
            proof {
                assert(!raws_fit(s@, raws@)) by {
                    if raws_fit(s@, raws@) {
                        assert(char_idx(s@, raws@[i - 1].end as int) <= char_idx(s@, raws@[i - 1 + 1].start as int));
                    }
                }
            }
            return None;
        }
        proof {
            lemma_fit_step(s@, raws@, i as int);
        }
        sp.push((a, b));
        i += 1;
    }
    proof {
        assert(raws@.take(raws.len() as int) =~= raws@);
    }
    Some(sp)
}

/// Whether the item spans fit the source: on character boundaries, in
/// order and without overlap.
pub fn spans_fit(src: &str, raws: &[RawItem]) -> (r: bool)
    requires
        src@.len() < usize::MAX / 4,
    ensures
        r == raws_fit(src@, raws@),
{
    let s = chars_of(src);
    char_spans(&s, raws).is_some()
}

/// The character spans of all items.
pub open spec fn spans(s: Seq<char>, raws: Seq<RawItem>) -> Seq<(int, int)> {
    Seq::new(raws.len(), |i: int| span_of(s, raws, i))
}

/// The number of gaps: before, between and after the items (just the whole
/// text when there are none).
pub open spec fn num_gaps(sp: Seq<(int, int)>) -> int {
    if sp.len() == 0 { 1 } else { sp.len() + 1int }
}

/// Gap `g`: before item 0 when `g == 0`, between items `g - 1` and `g`, or
/// after the last item.
pub open spec fn gap_text(s: Seq<char>, sp: Seq<(int, int)>, g: int) -> Seq<char> {
    let n = sp.len() as int;
    if n == 0 {
        s
    } else if g == 0 {
        s.take(sp[0].0)
    } else if g < n {
        s.subrange(sp[g - 1].1, sp[g].0)
    } else {
        s.skip(sp[n - 1].1)
    }
}

/// The lines of every gap (split at `\n`).
pub open spec fn gap_lines(s: Seq<char>, sp: Seq<(int, int)>) -> Seq<Seq<Seq<char>>> {
    Seq::new(num_gaps(sp) as nat, |g: int| split_on(gap_text(s, sp, g), '\n'))
}

/// 1 for a `// TO REORDER ...` line, 2 for `// TO REORDER END`, else 0.
pub open spec fn marker_kind(p: Seq<char>) -> int {
    let t = trim(p);
    if t == "// TO REORDER END"@ {
        2
    } else if t == "// TO REORDER"@ || (t.len() >= 14 && t.take(14) == "// TO REORDER "@) {
        1
    } else {
        0
    }
}

/// Lines reading `// mutual start` or `// mutual end`: the tool's own output.
pub open spec fn is_mutual_marker(p: Seq<char>) -> bool {
    trim(p) == "// mutual start"@ || trim(p) == "// mutual end"@
}

/// The positions `(gap, line)` of the marker lines among the first `l` lines of gap `g`.
pub open spec fn gap_marks(ps: Seq<Seq<char>>, g: int, l: int) -> Seq<(int, int)>
    decreases l,
{
    if l <= 0 {
        Seq::empty()
    } else {
        gap_marks(ps, g, l - 1) + if marker_kind(ps[l - 1]) != 0 {
            seq![(g, l - 1)]
        } else {
            Seq::empty()
        }
    }
}

/// The positions of the marker lines of the first `g` gaps, in order.
pub open spec fn all_marks(lines: Seq<Seq<Seq<char>>>, g: int) -> Seq<(int, int)>
    decreases g,
{
    if g <= 0 {
        Seq::empty()
    } else {
        all_marks(lines, g - 1) + gap_marks(lines[g - 1], g - 1, lines[g - 1].len() as int)
    }
}

pub open spec fn mark_kind(lines: Seq<Seq<Seq<char>>>, mk: Seq<(int, int)>, j: int) -> int {
    marker_kind(lines[mk[j].0][mk[j].1])
}

/// Where the region that marker `j` would open ends: at the gap of the next
/// marker, or after the last item.
pub open spec fn region_end(mk: Seq<(int, int)>, n: int, j: int) -> int {
    if j + 1 < mk.len() {
        mk[j + 1].0
    } else {
        n
    }
}

/// Marker `j` opens a region: it is a start marker with at least one item
/// before the next marker. Other start markers stay as plain text.
pub open spec fn opens(lines: Seq<Seq<Seq<char>>>, mk: Seq<(int, int)>, n: int, j: int) -> bool {
    mark_kind(lines, mk, j) == 1 && mk[j].0 < region_end(mk, n, j)
}

/// Marker `j` is taken out of the text: a start marker that opens a region,
/// and an end marker that closes it.
pub open spec fn consumed(lines: Seq<Seq<Seq<char>>>, mk: Seq<(int, int)>, n: int, j: int) -> bool {
    opens(lines, mk, n, j) || (mark_kind(lines, mk, j) == 2 && j > 0 && opens(lines, mk, n, j - 1))
}

pub open spec fn removed(lines: Seq<Seq<Seq<char>>>, mk: Seq<(int, int)>, n: int, g: int, l: int) -> bool {
    exists|j: int| 0 <= j < mk.len() && mk[j] == (g, l) && #[trigger] consumed(lines, mk, n, j)
}

/// Line `l` of gap `g` as it is kept: without a carriage return before its `\n`.
pub open spec fn line_out(lines: Seq<Seq<Seq<char>>>, g: int, l: int) -> Seq<char> {
    if l < lines[g].len() - 1 {
        strip_cr(lines[g][l])
    } else {
        lines[g][l]
    }
}

/// The first `l` lines of gap `g` that stay: markers of regions and mutual
/// blocks are dropped.
pub open spec fn kept(lines: Seq<Seq<Seq<char>>>, mk: Seq<(int, int)>, n: int, g: int, l: int) -> Seq<Seq<char>>
    decreases l,
{
    if l <= 0 {
        Seq::empty()
    } else {
        kept(lines, mk, n, g, l - 1) + if !removed(lines, mk, n, g, l - 1) && !is_mutual_marker(lines[g][l - 1]) {
            seq![line_out(lines, g, l - 1)]
        } else {
            Seq::empty()
        }
    }
}

/// The index where the trailing run of non-blank lines begins.
pub open spec fn run_start(b: Seq<Seq<char>>) -> int
    decreases b.len(),
{
    if b.len() == 0 {
        0
    } else if is_blank(b.last()) {
        b.len() as int
    } else {
        run_start(b.drop_last())
    }
}

/// The comment lines directly above an item (no blank line between).
pub open spec fn lead_of(b: Seq<Seq<char>>) -> Seq<char> {
    trim_end(join_with(b.skip(run_start(b)), "\n"@))
}

/// The lines of `b` that are not blank.
pub open spec fn nonblank(b: Seq<Seq<char>>) -> Seq<Seq<char>>
    decreases b.len(),
{
    if b.len() == 0 {
        b
    } else {
        nonblank(b.drop_last()) + if is_blank(b.last()) {
            Seq::empty()
        } else {
            seq![b.last()]
        }
    }
}

/// The non-blank lines above an item that a blank line separates from it.
pub open spec fn floating_of(b: Seq<Seq<char>>) -> Seq<char> {
    join_with(nonblank(b.take(run_start(b))), "\n"@)
}

/// Some line of the gap, past the rest of the previous item's line, is blank.
pub open spec fn blank_in(b: Seq<Seq<char>>) -> bool {
    exists|k: int| 1 <= k < b.len() && is_blank(#[trigger] b[k])
}

/// How a `// TO REORDER` line overrides the ordering inside its region.
#[derive(Debug, Clone, Copy)]
pub struct RegionOpts {
    pub inside: Option<Tie>,
    pub outside: Option<Tie>,
}

/// A `// TO REORDER` region: items `first..last_excl`, with the marker
/// lines that open and close it (empty when no end marker follows).
#[derive(Debug, Clone)]
pub struct Region {
    pub first: usize,
    pub last_excl: usize,
    pub start_line: String,
    pub end_line: String,
    pub opts: RegionOpts,
}

/// The effect of one word of a `// TO REORDER` line.
pub open spec fn apply_opt(o: RegionOpts, w: Seq<char>) -> RegionOpts {
    if w == "same-level-inside-of-mutual--alphabetically"@ || w == "sorting-inside-mutual=alphabetical"@ {
        RegionOpts { inside: Some(Tie::Alphabetical), ..o }
    } else if w == "same-level-inside-of-mutual--original"@ || w == "sorting-inside-mutual=original"@ {
        RegionOpts { inside: Some(Tie::Original), ..o }
    } else if w == "same-level-outside-of-mutual--alphabetically"@ || w == "sorting-non-mutual=alphabetical"@ {
        RegionOpts { outside: Some(Tie::Alphabetical), ..o }
    } else if w == "same-level-outside-of-mutual--original"@ || w == "sorting-non-mutual=original"@ {
        RegionOpts { outside: Some(Tie::Original), ..o }
    } else if w == "same-level-outside-of-mutual--topological"@ || w == "sorting-non-mutual=topological"@ {
        RegionOpts { outside: Some(Tie::Topological), ..o }
    } else {
        o
    }
}

/// The options of the words `ws`, later words overriding earlier ones.
pub open spec fn opts_of_words(ws: Seq<Seq<char>>) -> RegionOpts
    decreases ws.len(),
{
    if ws.len() == 0 {
        RegionOpts { inside: None, outside: None }
    } else {
        apply_opt(opts_of_words(ws.drop_last()), ws.last())
    }
}

/// The options of a (trimmed) `// TO REORDER` line: the words after the
/// marker, separated by spaces.
pub open spec fn opts_of_line(t: Seq<char>) -> RegionOpts {
    opts_of_words(split_on(t.skip(13), ' '))
}

/// What region marker `j` opens: its first item, the item after its last,
/// its lines and options.
pub open spec fn region_spec(
    lines: Seq<Seq<Seq<char>>>,
    mk: Seq<(int, int)>,
    n: int,
    j: int,
) -> (int, int, Seq<char>, Seq<char>, RegionOpts) {
    let t = trim(lines[mk[j].0][mk[j].1]);
    (
        mk[j].0,
        region_end(mk, n, j),
        t,
        if j + 1 < mk.len() && mark_kind(lines, mk, j + 1) == 2 {
            trim(lines[mk[j + 1].0][mk[j + 1].1])
        } else {
            Seq::empty()
        },
        opts_of_line(t),
    )
}

/// The regions the first `j` markers open.
pub open spec fn regions_upto(lines: Seq<Seq<Seq<char>>>, mk: Seq<(int, int)>, n: int, j: int) -> Seq<
    (int, int, Seq<char>, Seq<char>, RegionOpts),
>
    decreases j,
{
    if j <= 0 {
        Seq::empty()
    } else {
        regions_upto(lines, mk, n, j - 1) + if opens(lines, mk, n, j - 1) {
            seq![region_spec(lines, mk, n, j - 1)]
        } else {
            Seq::empty()
        }
    }
}

pub open spec fn region_view(r: Region) -> (int, int, Seq<char>, Seq<char>, RegionOpts) {
    (r.first as int, r.last_excl as int, r.start_line@, r.end_line@, r.opts)
}

pub open spec fn opt_view(o: Option<String>) -> Option<Seq<char>> {
    match o {
        Some(s) => Some(s@),
        None => None,
    }
}

/// Item `t` defines the name `r` (pinned items define none).
pub open spec fn defines(raws: Seq<RawItem>, t: int, r: Seq<char>) -> bool {
    !classify_spec(raws[t].shape).3 && classify_spec(raws[t].shape).1 == Some(r)
}

/// Item `i` uses item `t`: one of its references names `t`, and no later
/// item defines that name again (the last definition wins).
pub open spec fn uses(raws: Seq<RawItem>, i: int, t: int) -> bool {
    &&& 0 <= t < raws.len()
    &&& t != i
    &&& !classify_spec(raws[i].shape).3
    &&& exists|q: int|
        0 <= q < raws[i].refs.len() && #[trigger] defines(raws, t, raws[i].refs@[q]@) && forall|t2: int|
            t < t2 < raws.len() ==> !#[trigger] defines(raws, t2, raws[i].refs@[q]@)
}

/// Item `t` holds the last definition of its name.
pub open spec fn last_def(raws: Seq<RawItem>, t: int) -> bool {
    &&& !classify_spec(raws[t].shape).3
    &&& classify_spec(raws[t].shape).1 is Some
    &&& forall|t2: int| t < t2 < raws.len() ==> !#[trigger] defines(raws, t2, classify_spec(raws[t].shape).1->0)
}

/// Item `i` of the model: what `classify` makes of its shape, its text, the
/// comments above it, and the items it uses, in increasing order.
pub open spec fn item_spec(
    s: Seq<char>,
    raws: Seq<RawItem>,
    sp: Seq<(int, int)>,
    lines: Seq<Seq<Seq<char>>>,
    mk: Seq<(int, int)>,
    i: int,
    it: Item,
) -> bool {
    let n = raws.len() as int;
    let c = classify_spec(raws[i].shape);
    let b = kept(lines, mk, n, i, lines[i].len() - 1);
    &&& it.kind == c.0
    &&& opt_view(it.name) == c.1
    &&& it.display@ == c.2
    &&& it.pinned == c.3
    &&& it.body@ == trim_end(s.subrange(sp[i].0, sp[i].1))
    &&& it.byte_start == raws[i].start
    &&& it.lead@ == if i == 0 { Seq::<char>::empty() } else { lead_of(b) }
    &&& it.pre_floating@ == if i == 0 { Seq::<char>::empty() } else { floating_of(b) }
    &&& it.blank_before == (i > 0 && blank_in(b))
    &&& forall|a: int, c: int| 0 <= a < c < it.deps.len() ==> #[trigger] it.deps@[a] < #[trigger] it.deps@[c]
    &&& forall|t: int| 0 <= t < n ==> (#[trigger] it.deps@.contains(t as usize) <==> uses(raws, i, t))
    &&& forall|a: int| 0 <= a < it.deps.len() ==> #[trigger] it.deps@[a] < n
}

/// The model of `src` that `parse` builds.
pub open spec fn model_spec(s: Seq<char>, raws: Seq<RawItem>, fm: FileModel) -> bool {
    let sp = spans(s, raws);
    let n = raws.len() as int;
    let lines = gap_lines(s, sp);
    let mk = all_marks(lines, num_gaps(sp));
    &&& fm.preamble@ == join_with(kept(lines, mk, n, 0, lines[0].len() as int), "\n"@)
    &&& fm.postamble@ == if n == 0 {
        Seq::<char>::empty()
    } else {
        join_with(kept(lines, mk, n, n, lines[n].len() as int), "\n"@)
    }
    &&& fm.regions@.map_values(|r: Region| region_view(r)) == regions_upto(lines, mk, n, mk.len() as int)
    &&& fm.items.len() == n
    &&& forall|i: int| 0 <= i < n ==> item_spec(s, raws, sp, lines, mk, i, #[trigger] fm.items@[i])
}

proof fn lemma_gap_marks(ps: Seq<Seq<char>>, g: int, l: int)
    ensures
        forall|j: int| 0 <= j < gap_marks(ps, g, l).len() ==> #[trigger] gap_marks(ps, g, l)[j].0 == g,
    decreases l,
{
    if l > 0 {
        lemma_gap_marks(ps, g, l - 1);
        let a = gap_marks(ps, g, l - 1);
        assert forall|j: int| 0 <= j < gap_marks(ps, g, l).len() implies #[trigger] gap_marks(ps, g, l)[j].0 == g by {
            if j < a.len() {
                assert(gap_marks(ps, g, l)[j] == a[j]);
            }
        }
    }
}

/// The markers come gap by gap.
proof fn lemma_marks_ordered(lines: Seq<Seq<Seq<char>>>, g: int)
    requires
        0 <= g,
    ensures
        forall|j: int| 0 <= j < all_marks(lines, g).len() ==> 0 <= #[trigger] all_marks(lines, g)[j].0 < g,
        forall|j: int, k: int|
            0 <= j < k < all_marks(lines, g).len() ==> #[trigger] all_marks(lines, g)[j].0 <= #[trigger] all_marks(
                lines,
                g,
            )[k].0,
    decreases g,
{
    if g > 0 {
        lemma_marks_ordered(lines, g - 1);
        lemma_gap_marks(lines[g - 1], g - 1, lines[g - 1].len() as int);
        let a = all_marks(lines, g - 1);
        let b = gap_marks(lines[g - 1], g - 1, lines[g - 1].len() as int);
        assert(all_marks(lines, g) == a + b);
        assert forall|j: int| 0 <= j < all_marks(lines, g).len() implies 0 <= #[trigger] all_marks(lines, g)[j].0 < g by {
            if j >= a.len() {
                assert(all_marks(lines, g)[j] == b[j - a.len()]);
            }
        }
        assert forall|j: int, k: int| 0 <= j < k < all_marks(lines, g).len() implies #[trigger] all_marks(lines, g)[j].0
            <= #[trigger] all_marks(lines, g)[k].0 by {
            if k >= a.len() {
                assert(all_marks(lines, g)[k] == b[k - a.len()]);
                if j >= a.len() {
                    assert(all_marks(lines, g)[j] == b[j - a.len()]);
                }
            }
        }
    }
}

/// The regions the first `j` markers open lie in order, each holding at
/// least one item, within `0..n`.
proof fn lemma_regions_ordered(lines: Seq<Seq<Seq<char>>>, mk: Seq<(int, int)>, n: int, j: int)
    requires
        0 <= j <= mk.len(),
        forall|a: int| 0 <= a < mk.len() ==> 0 <= #[trigger] mk[a].0 <= n,
        forall|a: int, b: int| 0 <= a < b < mk.len() ==> #[trigger] mk[a].0 <= #[trigger] mk[b].0,
    ensures
        forall|k: int|
            0 <= k < regions_upto(lines, mk, n, j).len() ==> 0 <= #[trigger] regions_upto(lines, mk, n, j)[k].0
                < regions_upto(lines, mk, n, j)[k].1 <= n,
        forall|k: int|
            0 <= k < regions_upto(lines, mk, n, j).len() - 1 ==> #[trigger] regions_upto(lines, mk, n, j)[k].1
                <= regions_upto(lines, mk, n, j)[k + 1].0,
        regions_upto(lines, mk, n, j).len() > 0 ==> regions_upto(lines, mk, n, j).last().1 <= if j < mk.len() {
            mk[j].0
        } else {
            n
        },
    decreases j,
{
    if j > 0 {
        lemma_regions_ordered(lines, mk, n, j - 1);
        let r = regions_upto(lines, mk, n, j - 1);
        if opens(lines, mk, n, j - 1) {
            let x = region_spec(lines, mk, n, j - 1);
            assert(regions_upto(lines, mk, n, j) == r.push(x));
            if r.len() > 0 {
                assert(r.last().1 <= mk[j - 1].0);
            }
            if j < mk.len() {
                assert(mk[j - 1].0 <= mk[j].0);
            }
        } else {
            assert(regions_upto(lines, mk, n, j) == r);
            if r.len() > 0 && j < mk.len() {
                assert(mk[j - 1].0 <= mk[j].0);
            }
        }
    }
}

/// What `reorder` needs of a model: dependencies in range, in increasing
/// order, never on the item itself nor on a pinned item, none for pinned
/// items; regions in order, each holding at least one item.
pub open spec fn model_wf(fm: FileModel) -> bool {
    let n = fm.items.len();
    &&& forall|i: int, a: int, c: int|
        0 <= i < n && 0 <= a < c < fm.items@[i].deps.len() ==> #[trigger] fm.items@[i].deps@[a]
            < #[trigger] fm.items@[i].deps@[c]
    &&& forall|i: int, a: int|
        0 <= i < n && 0 <= a < fm.items@[i].deps.len() ==> {
            let t = #[trigger] fm.items@[i].deps@[a];
            &&& t < n
            &&& t != i
            &&& !fm.items@[t as int].pinned
        }
    &&& forall|i: int| 0 <= i < n && #[trigger] fm.items@[i].pinned ==> fm.items@[i].deps.len() == 0
    &&& forall|k: int|
        0 <= k < fm.regions.len() ==> #[trigger] fm.regions@[k].first < fm.regions@[k].last_excl <= n
    &&& forall|k: int|
        0 <= k < fm.regions.len() - 1 ==> #[trigger] fm.regions@[k].last_excl <= fm.regions@[k + 1].first
}

/// No pinned item (`use`, `extern crate`, ...) lies inside a region.
pub open spec fn regions_clear(fm: FileModel) -> bool {
    forall|k: int, i: int|
        #![trigger fm.regions@[k], fm.items@[i]]
        0 <= k < fm.regions.len() && fm.regions@[k].first <= i < fm.regions@[k].last_excl ==> !fm.items@[i].pinned
}

/// A source file cut into its parts.
pub struct FileModel {
    /// Bytes before the first item (license header, inner attrs, etc.), verbatim.
    pub preamble: String,
    /// All top-level items in source order; pinned ones included.
    pub items: Vec<Item>,
    /// The `// TO REORDER` regions, in source order.
    pub regions: Vec<Region>,
    /// Trailing text after the last item, verbatim.
    pub postamble: String,
}

fn marker_kind_exec(p: &[char]) -> (k: u8)
    ensures
        k as int == marker_kind(p@),
        k <= 2,
{
    let t = trim_vec(p);
    if eq_str(t.as_slice(), "// TO REORDER END") {
        2
    } else if eq_str(t.as_slice(), "// TO REORDER") {
        1
    } else if t.len() >= 14 {
        let h = slice_vec(t.as_slice(), 0, 14);
        proof {
            assert(t@.take(14) == t@.subrange(0, 14));
        }
        if eq_str(h.as_slice(), "// TO REORDER ") {
            1
        } else {
            0
        }
    } else {
        0
    }
}

fn is_mutual_marker_exec(p: &[char]) -> (r: bool)
    ensures
        r == is_mutual_marker(p@),
{
    let t = trim_vec(p);
    eq_str(t.as_slice(), "// mutual start") || eq_str(t.as_slice(), "// mutual end")
}

fn apply_opt_exec(o: RegionOpts, w: &[char]) -> (r: RegionOpts)
    ensures
        r == apply_opt(o, w@),
{
    if eq_str(w, "same-level-inside-of-mutual--alphabetically") || eq_str(w, "sorting-inside-mutual=alphabetical") {
        RegionOpts { inside: Some(Tie::Alphabetical), ..o }
    } else if eq_str(w, "same-level-inside-of-mutual--original") || eq_str(w, "sorting-inside-mutual=original") {
        RegionOpts { inside: Some(Tie::Original), ..o }
    } else if eq_str(w, "same-level-outside-of-mutual--alphabetically") || eq_str(w, "sorting-non-mutual=alphabetical") {
        RegionOpts { outside: Some(Tie::Alphabetical), ..o }
    } else if eq_str(w, "same-level-outside-of-mutual--original") || eq_str(w, "sorting-non-mutual=original") {
        RegionOpts { outside: Some(Tie::Original), ..o }
    } else if eq_str(w, "same-level-outside-of-mutual--topological") || eq_str(w, "sorting-non-mutual=topological") {
        RegionOpts { outside: Some(Tie::Topological), ..o }
    } else {
        o
    }
}

/// The options of a trimmed `// TO REORDER` line.
fn opts_of_line_exec(t: &[char]) -> (r: RegionOpts)
    requires
        t.len() >= 13,
    ensures
        r == opts_of_line(t@),
{
    let rest = slice_vec(t, 13, t.len());
    let ws = split_vec(rest.as_slice(), ' ');
    let ghost wsv = split_on(t@.skip(13), ' ');
    proof {
        assert(rest@ == t@.skip(13));
    }
    let mut o = RegionOpts { inside: None, outside: None };
    let mut i: usize = 0;
    proof {
        assert(wsv.take(0) =~= Seq::<Seq<char>>::empty());
    }
    while i < ws.len()
        invariant
            i <= ws.len(),
            ws@.len() == wsv.len(),
            forall|k: int| 0 <= k < ws@.len() ==> #[trigger] ws@[k]@ == wsv[k],
            o == opts_of_words(wsv.take(i as int)),
        decreases ws.len() - i,
    {
        proof {
            assert(wsv.take(i + 1).drop_last() =~= wsv.take(i as int));
            assert(wsv.take(i + 1).last() == ws@[i as int]@);
        }
        o = apply_opt_exec(o, ws[i].as_slice());
        i += 1;
    }
    proof {
        assert(wsv.take(ws.len() as int) =~= wsv);
    }
    o
}

/// The lines of every gap.
fn gap_lines_exec(s: &Vec<char>, sp: &Vec<(usize, usize)>, spi: Ghost<Seq<(int, int)>>) -> (lines: Vec<Vec<Vec<char>>>)
    requires
        sp.len() < usize::MAX,
        sp.len() == spi@.len(),
        forall|i: int| 0 <= i < sp.len() ==> (#[trigger] sp@[i].0 as int, sp@[i].1 as int) == spi@[i],
        forall|i: int| 0 <= i < sp.len() ==> #[trigger] sp@[i].0 <= sp@[i].1 <= s.len(),
        forall|i: int| 0 <= i < sp.len() - 1 ==> #[trigger] sp@[i].1 <= sp@[i + 1].0,
    ensures
        lines.len() == num_gaps(spi@),
        forall|g: int| 0 <= g < lines.len() ==> #[trigger] lines@[g]@.len() == gap_lines(s@, spi@)[g].len(),
        forall|g: int, l: int|
            0 <= g < lines.len() && 0 <= l < lines@[g]@.len() ==> #[trigger] lines@[g]@[l]@ == gap_lines(s@, spi@)[g][l],
{
    let n = sp.len();
    let ng: usize = if n == 0 { 1 } else { n + 1 };
    let mut lines: Vec<Vec<Vec<char>>> = Vec::new();
    while lines.len() < ng
        invariant
            n == sp.len(),
            ng == num_gaps(spi@),
            sp.len() == spi@.len(),
            forall|i: int| 0 <= i < sp.len() ==> (#[trigger] sp@[i].0 as int, sp@[i].1 as int) == spi@[i],
            forall|i: int| 0 <= i < sp.len() ==> #[trigger] sp@[i].0 <= sp@[i].1 <= s.len(),
            forall|i: int| 0 <= i < sp.len() - 1 ==> #[trigger] sp@[i].1 <= sp@[i + 1].0,
            lines.len() <= ng,
            forall|g: int| 0 <= g < lines.len() ==> #[trigger] lines@[g]@.len() == gap_lines(s@, spi@)[g].len(),
            forall|g: int, l: int|
                0 <= g < lines.len() && 0 <= l < lines@[g]@.len() ==> #[trigger] lines@[g]@[l]@ == gap_lines(s@, spi@)[g][l],
        decreases ng - lines.len(),
    {
        let g = lines.len();
        proof {
            if n > 0 {
                assert(sp@[n - 1].0 <= sp@[n - 1].1 <= s.len());
                assert(sp@[0].0 <= sp@[0].1 <= s.len());
                assert((sp@[0].0 as int, sp@[0].1 as int) == spi@[0]);
                assert((sp@[n - 1].0 as int, sp@[n - 1].1 as int) == spi@[n - 1]);
                if 0 < g < n {
                    assert((sp@[g - 1].0 as int, sp@[g - 1].1 as int) == spi@[g - 1]);
                    assert((sp@[g as int].0 as int, sp@[g as int].1 as int) == spi@[g as int]);
                    assert(sp@[g as int].0 <= sp@[g as int].1 <= s.len());
                }
            }
        }
        let text: Vec<char> = if n == 0 {
            slice_vec(s.as_slice(), 0, s.len())
        } else if g == 0 {
            slice_vec(s.as_slice(), 0, sp[0].0)
        } else if g < n {
            slice_vec(s.as_slice(), sp[g - 1].1, sp[g].0)
        } else {
            slice_vec(s.as_slice(), sp[n - 1].1, s.len())
        };
        proof {
            if n == 0 {
                assert(text@ =~= gap_text(s@, spi@, g as int));
            } else if g == 0 {
                assert(text@ =~= gap_text(s@, spi@, g as int));
            } else if g < n {
                assert(sp@[g - 1].1 <= sp@[g - 1 + 1].0);
                assert(text@ =~= gap_text(s@, spi@, g as int));
            } else {
                assert(text@ =~= gap_text(s@, spi@, g as int));
            }
        }
        let ps = split_vec(text.as_slice(), '\n');
        let ghost pre = lines@;
        lines.push(ps);
        proof {
            assert forall|g2: int, l: int|
                0 <= g2 < lines.len() && 0 <= l < lines@[g2]@.len() implies #[trigger] lines@[g2]@[l]@ == gap_lines(s@, spi@)[g2][l] by {
                if g2 < g as int {
                    assert(lines@[g2] == pre[g2]);
                }
            }
            assert forall|g2: int| 0 <= g2 < lines.len() implies #[trigger] lines@[g2]@.len() == gap_lines(s@, spi@)[g2].len() by {
                if g2 < g as int {
                    assert(lines@[g2] == pre[g2]);
                }
            }
        }
    }
    lines
}

/// The view of exec lines as sequences.
pub open spec fn lines_view(lines: Seq<Vec<Vec<char>>>) -> Seq<Seq<Seq<char>>> {
    lines.map_values(|ps: Vec<Vec<char>>| ps@.map_values(|p: Vec<char>| p@))
}

/// The marker lines of all gaps, with their kinds.
fn collect_marks(lines: &Vec<Vec<Vec<char>>>) -> (mk: Vec<(usize, usize, u8)>)
    ensures
        mk@.map_values(|t: (usize, usize, u8)| (t.0 as int, t.1 as int)) == all_marks(lines_view(lines@), lines.len() as int),
        forall|j: int| 0 <= j < mk.len() ==> #[trigger] mk@[j].2 as int == mark_kind(lines_view(lines@), all_marks(lines_view(lines@), lines.len() as int), j),
        forall|j: int| 0 <= j < mk.len() ==> #[trigger] mk@[j].0 < lines.len() && mk@[j].1 < lines@[mk@[j].0 as int].len(),
{
    let ghost lv = lines_view(lines@);
    let mut mk: Vec<(usize, usize, u8)> = Vec::new();
    let mut g: usize = 0;
    while g < lines.len()
        invariant
            lv == lines_view(lines@),
            g <= lines.len(),
            mk@.map_values(|t: (usize, usize, u8)| (t.0 as int, t.1 as int)) == all_marks(lv, g as int),
            forall|j: int| 0 <= j < mk.len() ==> #[trigger] mk@[j].0 < lines.len() && mk@[j].1 < lines@[mk@[j].0 as int].len(),
            forall|j: int| 0 <= j < mk.len() ==> #[trigger] mk@[j].2 as int == marker_kind(lv[mk@[j].0 as int][mk@[j].1 as int]),
        decreases lines.len() - g,
    {
        let ps = &lines[g];
        let mut l: usize = 0;
        let ghost base = mk@.map_values(|t: (usize, usize, u8)| (t.0 as int, t.1 as int));
        proof {
            assert(base + gap_marks(lv[g as int], g as int, 0) =~= base);
        }
        while l < ps.len()
            invariant
                lv == lines_view(lines@),
                g < lines.len(),
                ps == &lines@[g as int],
                l <= ps.len(),
                base == all_marks(lv, g as int),
                mk@.map_values(|t: (usize, usize, u8)| (t.0 as int, t.1 as int)) == base + gap_marks(lv[g as int], g as int, l as int),
                forall|j: int| 0 <= j < mk.len() ==> #[trigger] mk@[j].0 < lines.len() && mk@[j].1 < lines@[mk@[j].0 as int].len(),
                forall|j: int| 0 <= j < mk.len() ==> #[trigger] mk@[j].2 as int == marker_kind(lv[mk@[j].0 as int][mk@[j].1 as int]),
            decreases ps.len() - l,
        {
            let k = marker_kind_exec(ps[l].as_slice());
            proof {
                assert(lv[g as int][l as int] == ps@[l as int]@);
            }
            if k != 0 {
                let ghost pre = mk@;
                mk.push((g, l, k));
                proof {
                    assert(mk@.map_values(|t: (usize, usize, u8)| (t.0 as int, t.1 as int)) =~= pre.map_values(|t: (usize, usize, u8)| (t.0 as int, t.1 as int)).push((g as int, l as int)));
                    assert(mk@.map_values(|t: (usize, usize, u8)| (t.0 as int, t.1 as int)) =~= base + gap_marks(lv[g as int], g as int, l + 1));
                }
            } else {
                proof {
                    assert(gap_marks(lv[g as int], g as int, l + 1) =~= gap_marks(lv[g as int], g as int, l as int));
                }
            }
            l += 1;
        }
        proof {
            assert(all_marks(lv, g + 1) == all_marks(lv, g as int) + gap_marks(lv[g as int], g as int, lv[g as int].len() as int));
            assert(lv[g as int].len() == ps.len());
        }
        g += 1;
    }
    proof {
        let mk_s = all_marks(lv, lines.len() as int);
        assert forall|j: int| 0 <= j < mk.len() implies #[trigger] mk@[j].2 as int == mark_kind(lv, mk_s, j) by {
            assert(mk@.map_values(|t: (usize, usize, u8)| (t.0 as int, t.1 as int))[j] == mk_s[j]);
        }
    }
    mk
}

/// Whether the line at `(g, l)` is a region marker that the model takes out.
fn is_removed(
    mk: &Vec<(usize, usize, u8)>,
    n: usize,
    g: usize,
    l: usize,
    lv: Ghost<Seq<Seq<Seq<char>>>>,
    mks: Ghost<Seq<(int, int)>>,
) -> (r: bool)
    requires
        mk@.map_values(|t: (usize, usize, u8)| (t.0 as int, t.1 as int)) == mks@,
        forall|j: int| 0 <= j < mk.len() ==> #[trigger] mk@[j].2 as int == mark_kind(lv@, mks@, j),
    ensures
        r == removed(lv@, mks@, n as int, g as int, l as int),
{
    let mut j: usize = 0;
    while j < mk.len()
        invariant
            j <= mk.len(),
            mk@.map_values(|t: (usize, usize, u8)| (t.0 as int, t.1 as int)) == mks@,
            forall|j2: int| 0 <= j2 < mk.len() ==> #[trigger] mk@[j2].2 as int == mark_kind(lv@, mks@, j2),
            forall|j2: int| 0 <= j2 < j ==> !(mks@[j2] == (g as int, l as int) && #[trigger] consumed(lv@, mks@, n as int, j2)),
        decreases mk.len() - j,
    {
        let c = opens_exec(mk, n, j, lv, mks) || (mk[j].2 == 2 && j > 0 && opens_exec(mk, n, j - 1, lv, mks));
        proof {
            assert(mks@[j as int] == (mk@[j as int].0 as int, mk@[j as int].1 as int));
            assert(mk@[j as int].2 as int == mark_kind(lv@, mks@, j as int));
            assert(c == consumed(lv@, mks@, n as int, j as int));
        }
        if mk[j].0 == g && mk[j].1 == l && c {
            return true;
        }
        j += 1;
    }
    false
}

/// Whether marker `j` opens a region.
fn opens_exec(
    mk: &Vec<(usize, usize, u8)>,
    n: usize,
    j: usize,
    lv: Ghost<Seq<Seq<Seq<char>>>>,
    mks: Ghost<Seq<(int, int)>>,
) -> (r: bool)
    requires
        j < mk.len(),
        mk@.map_values(|t: (usize, usize, u8)| (t.0 as int, t.1 as int)) == mks@,
        forall|j: int| 0 <= j < mk.len() ==> #[trigger] mk@[j].2 as int == mark_kind(lv@, mks@, j),
    ensures
        r == opens(lv@, mks@, n as int, j as int),
{
    proof {
        assert(mks@[j as int] == (mk@[j as int].0 as int, mk@[j as int].1 as int));
        assert(mk@[j as int].2 as int == mark_kind(lv@, mks@, j as int));
        if j + 1 < mk.len() {
            assert(mks@[j + 1] == (mk@[j + 1].0 as int, mk@[j + 1].1 as int));
        }
    }
    let end = if j + 1 < mk.len() { mk[j + 1].0 } else { n };
    mk[j].2 == 1 && mk[j].0 < end
}

/// The first `upto` lines of gap `g`, without the markers of regions and
/// of mutual blocks.
fn strip_markers(
    lines: &Vec<Vec<Vec<char>>>,
    mk: &Vec<(usize, usize, u8)>,
    n: usize,
    g: usize,
    upto: usize,
    lv: Ghost<Seq<Seq<Seq<char>>>>,
    mks: Ghost<Seq<(int, int)>>,
) -> (r: Vec<Vec<char>>)
    requires
        lv@ == lines_view(lines@),
        g < lines.len(),
        upto <= lines@[g as int].len(),
        mk@.map_values(|t: (usize, usize, u8)| (t.0 as int, t.1 as int)) == mks@,
        forall|j: int| 0 <= j < mk.len() ==> #[trigger] mk@[j].2 as int == mark_kind(lv@, mks@, j),
    ensures
        r@.map_values(|p: Vec<char>| p@) == kept(lv@, mks@, n as int, g as int, upto as int),
{
    let mut r: Vec<Vec<char>> = Vec::new();
    let mut l: usize = 0;
    proof {
        assert(r@.map_values(|p: Vec<char>| p@) =~= kept(lv@, mks@, n as int, g as int, 0));
    }
    while l < upto
        invariant
            lv@ == lines_view(lines@),
            g < lines.len(),
            l <= upto <= lines@[g as int].len(),
            mk@.map_values(|t: (usize, usize, u8)| (t.0 as int, t.1 as int)) == mks@,
            forall|j: int| 0 <= j < mk.len() ==> #[trigger] mk@[j].2 as int == mark_kind(lv@, mks@, j),
            r@.map_values(|p: Vec<char>| p@) == kept(lv@, mks@, n as int, g as int, l as int),
        decreases upto - l,
    {
        let line = &lines[g][l];
        proof {
            assert(lv@[g as int] == lines@[g as int]@.map_values(|p: Vec<char>| p@));
            assert(lv@[g as int][l as int] == line@);
            assert(lv@[g as int].len() == lines@[g as int].len());
        }
        let rm = is_removed(mk, n, g, l, lv, mks);
        let mm = is_mutual_marker_exec(line.as_slice());
        let ghost pre = r@;
        if !rm && !mm {
            let out = if l + 1 < lines[g].len() {
                strip_cr_vec(line.as_slice())
            } else {
                slice_vec(line.as_slice(), 0, line.len())
            };
            r.push(out);
            proof {
                assert(out@ == line_out(lv@, g as int, l as int));
                assert(r@.map_values(|p: Vec<char>| p@) =~= pre.map_values(|p: Vec<char>| p@).push(out@));
            }
        }
        proof {
            assert(r@.map_values(|p: Vec<char>| p@) =~= kept(lv@, mks@, n as int, g as int, l + 1));
        }
        l += 1;
    }
    r
}

/// `parts` joined with newlines.
fn join_lines(parts: &Vec<Vec<char>>) -> (r: Vec<char>)
    ensures
        r@ == join_with(parts@.map_values(|p: Vec<char>| p@), "\n"@),
{
    let mut r: Vec<char> = Vec::new();
    let sep = chars_of("\n");
    push_joined(&mut r, parts, sep.as_slice());
    proof {
        assert(r@ =~= join_with(parts@.map_values(|p: Vec<char>| p@), "\n"@));
    }
    r
}

fn run_start_exec(b: &Vec<Vec<char>>) -> (k: usize)
    ensures
        k <= b.len(),
        k == run_start(b@.map_values(|p: Vec<char>| p@)),
{
    let ghost bv = b@.map_values(|p: Vec<char>| p@);
    let mut k = b.len();
    proof {
        assert(bv.take(k as int) =~= bv);
    }
    while k > 0 && !blank(b[k - 1].as_slice())
        invariant
            k <= b.len(),
            bv == b@.map_values(|p: Vec<char>| p@),
            run_start(bv.take(k as int)) == run_start(bv),
        decreases k,
    {
        proof {
            assert(bv.take(k as int).drop_last() =~= bv.take(k - 1));
            assert(bv.take(k as int).last() == b@[k - 1]@);
        }
        k -= 1;
    }
    proof {
        if k > 0 {
            assert(bv.take(k as int).last() == b@[k - 1]@);
        }
    }
    k
}

/// The comment lines directly above an item, the floating lines above
/// them, and whether the gap holds a blank line.
fn split_gap(b: &Vec<Vec<char>>) -> (r: (Vec<char>, Vec<char>, bool))
    ensures
        r.0@ == lead_of(b@.map_values(|p: Vec<char>| p@)),
        r.1@ == floating_of(b@.map_values(|p: Vec<char>| p@)),
        r.2 == blank_in(b@.map_values(|p: Vec<char>| p@)),
{
    let ghost bv = b@.map_values(|p: Vec<char>| p@);
    let k = run_start_exec(b);
    let mut attached: Vec<Vec<char>> = Vec::new();
    let mut i = k;
    proof {
        assert(attached@.map_values(|p: Vec<char>| p@) =~= bv.skip(k as int).take(0));
    }
    while i < b.len()
        invariant
            k <= i <= b.len(),
            bv == b@.map_values(|p: Vec<char>| p@),
            attached@.map_values(|p: Vec<char>| p@) == bv.skip(k as int).take(i - k),
        decreases b.len() - i,
    {
        let c = slice_vec(b[i].as_slice(), 0, b[i].len());
        proof {
            assert(c@ =~= b@[i as int]@);
        }
        let ghost pre = attached@;
        attached.push(c);
        proof {
            assert(attached@.map_values(|p: Vec<char>| p@) =~= pre.map_values(|p: Vec<char>| p@).push(c@));
            assert(attached@.map_values(|p: Vec<char>| p@) =~= bv.skip(k as int).take(i + 1 - k));
        }
        i += 1;
    }
    proof {
        assert(bv.skip(k as int).take(b.len() - k) =~= bv.skip(k as int));
    }
    let joined = join_lines(&attached);
    let lead = trim_end_vec(joined.as_slice());
    let mut floats: Vec<Vec<char>> = Vec::new();
    let mut i: usize = 0;
    proof {
        assert(floats@.map_values(|p: Vec<char>| p@) =~= nonblank(bv.take(0)));
    }
    while i < k
        invariant
            i <= k <= b.len(),
            bv == b@.map_values(|p: Vec<char>| p@),
            floats@.map_values(|p: Vec<char>| p@) == nonblank(bv.take(i as int)),
        decreases k - i,
    {
        proof {
            assert(bv.take(i + 1).drop_last() =~= bv.take(i as int));
            assert(bv.take(i + 1).last() == b@[i as int]@);
        }
        let ghost pre = floats@;
        if !blank(b[i].as_slice()) {
            let c = slice_vec(b[i].as_slice(), 0, b[i].len());
            proof {
                assert(c@ =~= b@[i as int]@);
            }
            floats.push(c);
            proof {
                assert(floats@.map_values(|p: Vec<char>| p@) =~= pre.map_values(|p: Vec<char>| p@).push(b@[i as int]@));
            }
        }
        proof {
            assert(floats@.map_values(|p: Vec<char>| p@) =~= nonblank(bv.take(i + 1)));
        }
        i += 1;
    }
    let floating = join_lines(&floats);
    let mut any_blank = false;
    let mut i: usize = 1;
    while i < b.len()
        invariant
            1 <= i <= b.len() || (b.len() == 0 && i == 1),
            bv == b@.map_values(|p: Vec<char>| p@),
            any_blank == exists|q: int| 1 <= q < i && q < bv.len() && is_blank(#[trigger] bv[q]),
        decreases b.len() - i,
    {
        if blank(b[i].as_slice()) {
            any_blank = true;
            proof {
                assert(bv[i as int] == b@[i as int]@);
            }
        } else {
            proof {
                assert(bv[i as int] == b@[i as int]@);
            }
        }
        i += 1;
    }
    (lead, floating, any_blank)
}

/// The regions the markers open.
fn build_regions(
    lines: &Vec<Vec<Vec<char>>>,
    mk: &Vec<(usize, usize, u8)>,
    n: usize,
    lv: Ghost<Seq<Seq<Seq<char>>>>,
    mks: Ghost<Seq<(int, int)>>,
) -> (rs: Vec<Region>)
    requires
        lv@ == lines_view(lines@),
        mk@.map_values(|t: (usize, usize, u8)| (t.0 as int, t.1 as int)) == mks@,
        forall|j: int| 0 <= j < mk.len() ==> #[trigger] mk@[j].2 as int == mark_kind(lv@, mks@, j),
        forall|j: int| 0 <= j < mk.len() ==> #[trigger] mk@[j].0 < lines.len() && mk@[j].1 < lines@[mk@[j].0 as int].len(),
    ensures
        rs@.map_values(|r: Region| region_view(r)) == regions_upto(lv@, mks@, n as int, mks@.len() as int),
{
    let mut rs: Vec<Region> = Vec::new();
    let mut j: usize = 0;
    proof {
        reveal_strlit("// TO REORDER");
        assert(rs@.map_values(|r: Region| region_view(r)) =~= regions_upto(lv@, mks@, n as int, 0));
    }
    while j < mk.len()
        invariant
            lv@ == lines_view(lines@),
            mk@.map_values(|t: (usize, usize, u8)| (t.0 as int, t.1 as int)) == mks@,
            forall|j2: int| 0 <= j2 < mk.len() ==> #[trigger] mk@[j2].2 as int == mark_kind(lv@, mks@, j2),
            forall|j2: int| 0 <= j2 < mk.len() ==> #[trigger] mk@[j2].0 < lines.len() && mk@[j2].1 < lines@[mk@[j2].0 as int].len(),
            j <= mk.len(),
            rs@.map_values(|r: Region| region_view(r)) == regions_upto(lv@, mks@, n as int, j as int),
        decreases mk.len() - j,
    {
        proof {
            assert(mks@[j as int] == (mk@[j as int].0 as int, mk@[j as int].1 as int));
            assert(mk@[j as int].2 as int == mark_kind(lv@, mks@, j as int));
        }
        if opens_exec(mk, n, j, lv, mks) {
            let (g, l, _) = mk[j];
            let line = &lines[g][l];
            proof {
                assert(lv@[g as int] == lines@[g as int]@.map_values(|p: Vec<char>| p@));
                assert(lv@[g as int][l as int] == line@);
            }
            let t = trim_vec(line.as_slice());
            proof {
                reveal_strlit("// TO REORDER");
                assert(t@.len() >= 13);
            }
            let opts = opts_of_line_exec(t.as_slice());
            let last_excl = if j + 1 < mk.len() { mk[j + 1].0 } else { n };
            let end_line = if j + 1 < mk.len() && mk[j + 1].2 == 2 {
                let (g2, l2, _) = mk[j + 1];
                let line2 = &lines[g2][l2];
                proof {
                    assert(mks@[j + 1] == (mk@[j + 1].0 as int, mk@[j + 1].1 as int));
                    assert(mk@[j + 1].2 as int == mark_kind(lv@, mks@, j + 1));
                    assert(lv@[g2 as int] == lines@[g2 as int]@.map_values(|p: Vec<char>| p@));
                    assert(lv@[g2 as int][l2 as int] == line2@);
                }
                let t2 = trim_vec(line2.as_slice());
                string_of(t2.as_slice())
            } else {
                proof {
                    if j + 1 < mk.len() {
                        assert(mk@[j + 1].2 as int == mark_kind(lv@, mks@, j + 1));
                    }
                }
                String::new()
            };
            proof {
                if j + 1 < mk.len() {
                    assert(mks@[j + 1] == (mk@[j + 1].0 as int, mk@[j + 1].1 as int));
                }
            }
            let r = Region { first: g, last_excl, start_line: string_of(t.as_slice()), end_line, opts };
            let ghost pre = rs@;
            rs.push(r);
            proof {
                assert(region_view(r) == region_spec(lv@, mks@, n as int, j as int));
                assert(rs@.map_values(|r: Region| region_view(r)) =~= pre.map_values(|r: Region| region_view(r)).push(region_view(r)));
            }
        }
        proof {
            assert(rs@.map_values(|r: Region| region_view(r)) =~= regions_upto(lv@, mks@, n as int, j + 1));
        }
        j += 1;
    }
    rs
}

/// Whether some reference in `rc` reads `x`.
fn refs_name(rc: &Vec<Vec<char>>, x: &Vec<char>) -> (r: bool)
    ensures
        r == exists|q: int| 0 <= q < rc.len() && #[trigger] rc@[q]@ == x@,
{
    let mut q: usize = 0;
    while q < rc.len()
        invariant
            q <= rc.len(),
            forall|q2: int| 0 <= q2 < q ==> #[trigger] rc@[q2]@ != x@,
        decreases rc.len() - q,
    {
        if eq_chars(rc[q].as_slice(), x.as_slice()) {
            return true;
        }
        q += 1;
    }
    false
}

/// Which items hold the last definition of their name.
fn last_defs(raws: &[RawItem], named: &Vec<bool>, nm: &Vec<Vec<char>>) -> (last: Vec<bool>)
    requires
        named.len() == raws.len(),
        nm.len() == raws.len(),
        forall|t: int| 0 <= t < raws.len() ==> #[trigger] named@[t] == (!classify_spec(raws@[t].shape).3 && classify_spec(raws@[t].shape).1 is Some),
        forall|t: int| 0 <= t < raws.len() && named@[t] ==> classify_spec(raws@[t].shape).1 == Some(#[trigger] nm@[t]@),
    ensures
        last.len() == raws.len(),
        forall|t: int| 0 <= t < raws.len() ==> #[trigger] last@[t] == last_def(raws@, t),
{
    let n = raws.len();
    let mut last: Vec<bool> = Vec::new();
    let mut t: usize = 0;
    while t < n
        invariant
            n == raws.len(),
            named.len() == n,
            nm.len() == n,
            forall|t: int| 0 <= t < raws.len() ==> #[trigger] named@[t] == (!classify_spec(raws@[t].shape).3 && classify_spec(raws@[t].shape).1 is Some),
            forall|t: int| 0 <= t < raws.len() && named@[t] ==> classify_spec(raws@[t].shape).1 == Some(#[trigger] nm@[t]@),
            t <= n,
            last.len() == t,
            forall|k: int| 0 <= k < t ==> #[trigger] last@[k] == last_def(raws@, k),
        decreases n - t,
    {
        let mut ok = named[t];
        let mut t2 = t + 1;
        while ok && t2 < n
            invariant
                n == raws.len(),
                named.len() == n,
                nm.len() == n,
                t < n,
                t < t2 <= n,
                forall|t: int| 0 <= t < raws.len() ==> #[trigger] named@[t] == (!classify_spec(raws@[t].shape).3 && classify_spec(raws@[t].shape).1 is Some),
                forall|t: int| 0 <= t < raws.len() && named@[t] ==> classify_spec(raws@[t].shape).1 == Some(#[trigger] nm@[t]@),
                ok ==> named@[t as int],
                ok ==> forall|t3: int| t < t3 < t2 ==> !#[trigger] defines(raws@, t3, nm@[t as int]@),
                !ok ==> !last_def(raws@, t as int),
            decreases n - t2,
        {
            if named[t2] && eq_chars(nm[t2].as_slice(), nm[t].as_slice()) {
                proof {
                    if ok {
                        assert(classify_spec(raws@[t as int].shape).1->0 == nm@[t as int]@);
                    }
                    assert(defines(raws@, t2 as int, nm@[t as int]@));
                }
                ok = false;
            } else {
                proof {
                    assert(!defines(raws@, t2 as int, nm@[t as int]@));
                }
            }
            t2 += 1;
        }
        proof {
            if ok {
                assert(classify_spec(raws@[t as int].shape).1->0 == nm@[t as int]@);
            }
        }
        last.push(ok);
        t += 1;
    }
    last
}

/// The items that item `i` uses, in increasing order.
fn item_deps(
    raws: &[RawItem],
    rc: &Vec<Vec<char>>,
    last: &Vec<bool>,
    nm: &Vec<Vec<char>>,
    i: usize,
    pinned_i: bool,
) -> (d: Vec<usize>)
    requires
        last.len() == raws.len(),
        nm.len() == raws.len(),
        i < raws.len(),
        pinned_i == classify_spec(raws@[i as int].shape).3,
        rc.len() == raws@[i as int].refs.len(),
        forall|q: int| 0 <= q < rc.len() ==> #[trigger] rc@[q]@ == raws@[i as int].refs@[q]@,
        forall|t: int| 0 <= t < raws.len() ==> #[trigger] last@[t] == last_def(raws@, t),
        forall|t: int| 0 <= t < raws.len() && last@[t] ==> classify_spec(raws@[t].shape).1 == Some(#[trigger] nm@[t]@),
    ensures
        forall|a: int, c: int| 0 <= a < c < d.len() ==> #[trigger] d@[a] < #[trigger] d@[c],
        forall|t: int| 0 <= t < raws.len() ==> (#[trigger] d@.contains(t as usize) <==> uses(raws@, i as int, t)),
        forall|a: int| 0 <= a < d.len() ==> #[trigger] d@[a] < raws.len(),
{
    let n = raws.len();
    let mut d: Vec<usize> = Vec::new();
    if pinned_i {
        proof {
            assert forall|t: int| 0 <= t < raws.len() implies (#[trigger] d@.contains(t as usize) <==> uses(raws@, i as int, t)) by {}
        }
        return d;
    }
    let mut t: usize = 0;
    while t < n
        invariant
            n == raws.len(),
            last.len() == n,
            nm.len() == n,
            i < n,
            !pinned_i,
            pinned_i == classify_spec(raws@[i as int].shape).3,
            rc.len() == raws@[i as int].refs.len(),
            forall|q: int| 0 <= q < rc.len() ==> #[trigger] rc@[q]@ == raws@[i as int].refs@[q]@,
            forall|t: int| 0 <= t < raws.len() ==> #[trigger] last@[t] == last_def(raws@, t),
            forall|t: int| 0 <= t < raws.len() && last@[t] ==> classify_spec(raws@[t].shape).1 == Some(#[trigger] nm@[t]@),
            t <= n,
            forall|a: int, c: int| 0 <= a < c < d.len() ==> #[trigger] d@[a] < #[trigger] d@[c],
            forall|a: int| 0 <= a < d.len() ==> #[trigger] d@[a] < t,
            forall|t2: int| 0 <= t2 < t ==> (#[trigger] d@.contains(t2 as usize) <==> uses(raws@, i as int, t2)),
        decreases n - t,
    {
        let hit = t != i && last[t] && refs_name(rc, &nm[t]);
        proof {
            let tt = t as int;
            if hit {
                let q = choose|q: int| 0 <= q < rc.len() && #[trigger] rc@[q]@ == nm@[tt]@;
                assert(last_def(raws@, tt));
                assert(classify_spec(raws@[tt].shape).1 == Some(nm@[tt]@));
                assert(raws@[i as int].refs@[q]@ == nm@[tt]@);
                assert(classify_spec(raws@[tt].shape).1->0 == raws@[i as int].refs@[q]@);
                assert(defines(raws@, tt, raws@[i as int].refs@[q]@));
                assert(forall|t2: int| tt < t2 < raws.len() ==> !#[trigger] defines(raws@, t2, raws@[i as int].refs@[q]@));
                assert(uses(raws@, i as int, tt));
            } else if uses(raws@, i as int, tt) {
                let q = choose|q: int|
                    0 <= q < raws@[i as int].refs.len() && #[trigger] defines(raws@, tt, raws@[i as int].refs@[q]@) && forall|t2: int|
                        tt < t2 < raws.len() ==> !#[trigger] defines(raws@, t2, raws@[i as int].refs@[q]@);
                assert(last_def(raws@, tt));
                assert(rc@[q]@ == nm@[tt]@);
                assert(false);
            }
        }
        let ghost pre = d@;
        if hit {
            d.push(t);
        }
        proof {
            assert forall|t2: int| 0 <= t2 < t + 1 implies (#[trigger] d@.contains(t2 as usize) <==> uses(raws@, i as int, t2)) by {
                if t2 < t {
                    if hit {
                        assert(d@ == pre.push(t));
                        if d@.contains(t2 as usize) {
                            let k = choose|k: int| 0 <= k < d@.len() && d@[k] == t2 as usize;
                            if k < pre.len() {
                                assert(pre.contains(t2 as usize));
                            }
                        }
                        if pre.contains(t2 as usize) {
                            let k = choose|k: int| 0 <= k < pre.len() && pre[k] == t2 as usize;
                            assert(d@[k] == t2 as usize);
                        }
                    }
                } else {
                    if hit {
                        assert(d@[d.len() - 1] == t);
                    } else {
                        assert(d@ == pre);
                    }
                }
            }
        }
        t += 1;
    }
    d
}

/// The characters of each of `refs`.
fn ref_chars(refs: &Vec<String>) -> (rc: Vec<Vec<char>>)
    ensures
        rc.len() == refs.len(),
        forall|q: int| 0 <= q < rc.len() ==> #[trigger] rc@[q]@ == refs@[q]@,
{
    let mut rc: Vec<Vec<char>> = Vec::new();
    let mut q: usize = 0;
    while q < refs.len()
        invariant
            q <= refs.len(),
            rc.len() == q,
            forall|k: int| 0 <= k < q ==> #[trigger] rc@[k]@ == refs@[k]@,
        decreases refs.len() - q,
    {
        rc.push(chars_of(refs[q].as_str()));
        q += 1;
    }
    rc
}

/// Cut `src` into its parts, given the items the parser found in it, in
/// source order. `None` when an item's span does not fit the text (off a
/// character boundary, reversed, or overlapping the one before).
pub fn parse(src: &str, raws: &[RawItem]) -> (r: Option<FileModel>)
    requires
        src@.len() < usize::MAX / 4,
        raws.len() < usize::MAX,
        forall|i: int| 0 <= i < raws.len() ==> shape_ok(#[trigger] raws@[i].shape),
    ensures
        r is Some <==> raws_fit(src@, raws@),
        r matches Some(fm) ==> model_spec(src@, raws@, fm) && model_wf(fm),
{
    let s = chars_of(src);
    let sp = match char_spans(&s, raws) {
        Some(sp) => sp,
        None => return None,
    };
    let ghost spi = spans(s@, raws@);
    let n = raws.len();
    proof {
        assert forall|i: int| 0 <= i < sp.len() implies (#[trigger] sp@[i].0 as int, sp@[i].1 as int) == spi[i] by {}
        assert forall|i: int| 0 <= i < sp.len() implies #[trigger] sp@[i].0 <= sp@[i].1 <= s.len() by {
            assert((sp@[i].0 as int, sp@[i].1 as int) == span_of(s@, raws@, i));
            assert(char_idx(s@, raws@[i].start as int) <= char_idx(s@, raws@[i].end as int));
        }
        assert forall|i: int| 0 <= i < sp.len() - 1 implies #[trigger] sp@[i].1 <= sp@[i + 1].0 by {
            assert((sp@[i].0 as int, sp@[i].1 as int) == span_of(s@, raws@, i));
            assert((sp@[i + 1].0 as int, sp@[i + 1].1 as int) == span_of(s@, raws@, i + 1));
            assert(char_idx(s@, raws@[i].end as int) <= char_idx(s@, raws@[i + 1].start as int));
        }
    }
    let lines = gap_lines_exec(&s, &sp, Ghost(spi));
    let ghost lv = lines_view(lines@);
    proof {
        let gl = gap_lines(s@, spi);
        assert forall|g: int| 0 <= g < lines.len() implies #[trigger] lv[g] =~= gl[g] by {
            assert(lines@[g]@.len() == gl[g].len());
            assert forall|l: int| 0 <= l < lv[g].len() implies #[trigger] lv[g][l] == gl[g][l] by {
                assert(lines@[g]@[l]@ == gl[g][l]);
            }
        }
        assert(lv =~= gl);
        assert forall|g: int| 0 <= g < lines.len() implies #[trigger] lv[g].len() >= 1 by {
            lemma_split_on_len(gap_text(s@, spi, g), '\n');
        }
    }
    let mk = collect_marks(&lines);
    let ghost mks = all_marks(lv, lines.len() as int);
    proof {
        assert(lines.len() == num_gaps(spi));
    }
    let pre_lines = strip_markers(&lines, &mk, n, 0, lines[0].len(), Ghost(lv), Ghost(mks));
    let preamble = string_of(join_lines(&pre_lines).as_slice());
    let postamble = if n == 0 {
        String::new()
    } else {
        let post_lines = strip_markers(&lines, &mk, n, n, lines[n].len(), Ghost(lv), Ghost(mks));
        string_of(join_lines(&post_lines).as_slice())
    };
    let regions = build_regions(&lines, &mk, n, Ghost(lv), Ghost(mks));
    let mut cls: Vec<(ItemKind, Option<String>, String, bool)> = Vec::new();
    let mut named: Vec<bool> = Vec::new();
    let mut nm: Vec<Vec<char>> = Vec::new();
    let mut i: usize = 0;
    while i < n
        invariant
            n == raws.len(),
            forall|i: int| 0 <= i < raws.len() ==> shape_ok(#[trigger] raws@[i].shape),
            i <= n,
            cls.len() == i,
            named.len() == i,
            nm.len() == i,
            forall|t: int| 0 <= t < i ==> {
                let c = classify_spec(raws@[t].shape);
                let e = #[trigger] cls@[t];
                &&& e.0 == c.0
                &&& opt_view(e.1) == c.1
                &&& e.2@ == c.2
                &&& e.3 == c.3
            },
            forall|t: int| 0 <= t < i ==> #[trigger] named@[t] == (!classify_spec(raws@[t].shape).3 && classify_spec(raws@[t].shape).1 is Some),
            forall|t: int| 0 <= t < i && named@[t] ==> classify_spec(raws@[t].shape).1 == Some(#[trigger] nm@[t]@),
        decreases n - i,
    {
        let c = classify(&raws[i].shape);
        let has = !c.3 && c.1.is_some();
        let chars = match &c.1 {
            Some(x) => chars_of(x.as_str()),
            None => Vec::new(),
        };
        named.push(has);
        nm.push(chars);
        cls.push(c);
        i += 1;
    }
    let last = last_defs(raws, &named, &nm);
    let mut items: Vec<Item> = Vec::new();
    let mut i: usize = 0;
    while i < n
        invariant
            n == raws.len(),
            sp.len() == n,
            spi.len() == n,
            forall|k: int| 0 <= k < sp.len() ==> (#[trigger] sp@[k].0 as int, sp@[k].1 as int) == spi[k],
            forall|k: int| 0 <= k < sp.len() ==> #[trigger] sp@[k].0 <= sp@[k].1 <= s.len(),
            lv == lines_view(lines@),
            lv == gap_lines(s@, spi),
            lines.len() == num_gaps(spi),
            forall|g: int| 0 <= g < lines.len() ==> #[trigger] lv[g].len() >= 1,
            mk@.map_values(|t: (usize, usize, u8)| (t.0 as int, t.1 as int)) == mks,
            mks == all_marks(lv, lines.len() as int),
            forall|j: int| 0 <= j < mk.len() ==> #[trigger] mk@[j].2 as int == mark_kind(lv, mks, j),
            cls.len() == n,
            nm.len() == n,
            last.len() == n,
            forall|t: int| 0 <= t < n ==> {
                let c = classify_spec(raws@[t].shape);
                let e = #[trigger] cls@[t];
                &&& e.0 == c.0
                &&& opt_view(e.1) == c.1
                &&& e.2@ == c.2
                &&& e.3 == c.3
            },
            forall|t: int| 0 <= t < raws.len() ==> #[trigger] last@[t] == last_def(raws@, t),
            forall|t: int| 0 <= t < raws.len() && last@[t] ==> classify_spec(raws@[t].shape).1 == Some(#[trigger] nm@[t]@),
            i <= n,
            items.len() == i,
            forall|k: int| 0 <= k < i ==> item_spec(s@, raws@, spi, lv, mks, k, #[trigger] items@[k]),
        decreases n - i,
    {
        proof {
            let t = i as int;
            if last@[t] {
                assert(classify_spec(raws@[t].shape).1 == Some(nm@[t]@));
            }
        }
        let c = &cls[i];
        let (a, b) = sp[i];
        let text = slice_vec(s.as_slice(), a, b);
        let body = string_of(trim_end_vec(text.as_slice()).as_slice());
        let (lead, floating, bb) = if i == 0 {
            (Vec::new(), Vec::new(), false)
        } else {
            proof {
                assert(spi.len() == n);
                assert(lv[i as int] == lines@[i as int]@.map_values(|p: Vec<char>| p@));
                assert(lines@[i as int]@.len() == lv[i as int].len());
            }
            let gb = strip_markers(&lines, &mk, n, i, lines[i].len() - 1, Ghost(lv), Ghost(mks));
            split_gap(&gb)
        };
        let rc = ref_chars(&raws[i].refs);
        let deps = item_deps(raws, &rc, &last, &nm, i, c.3);
        let it = Item {
            kind: c.0,
            name: c.1.clone(),
            display: c.2.clone(),
            lead: string_of(lead.as_slice()),
            pre_floating: string_of(floating.as_slice()),
            body,
            byte_start: raws[i].start,
            blank_before: bb,
            deps,
            pinned: c.3,
        };
        proof {
            assert(spi.len() == n);
            assert(lv[i as int] == lines@[i as int]@.map_values(|p: Vec<char>| p@));
            assert(lines@[i as int]@.len() == lv[i as int].len());
            assert((sp@[i as int].0 as int, sp@[i as int].1 as int) == spi[i as int]);
            assert(opt_view(it.name) == opt_view(c.1));
            assert(item_spec(s@, raws@, spi, lv, mks, i as int, it));
        }
        items.push(it);
        i += 1;
    }
    let fm = FileModel { preamble, items, regions, postamble };
    proof {
        assert(model_spec(s@, raws@, fm));
        lemma_wf(s@, raws@, fm);
    }
    Some(fm)
}

proof fn lemma_wf(s: Seq<char>, raws: Seq<RawItem>, fm: FileModel)
    requires
        model_spec(s, raws, fm),
    ensures
        model_wf(fm),
{
    let sp = spans(s, raws);
    let n = raws.len() as int;
    let lines = gap_lines(s, sp);
    let ng = num_gaps(sp);
    let mk = all_marks(lines, ng);
    let items = fm.items@;
    assert forall|i: int, a: int| 0 <= i < n && 0 <= a < items[i].deps.len() implies {
        let t = #[trigger] items[i].deps@[a];
        &&& t < n
        &&& t != i
        &&& !items[t as int].pinned
    } by {
        assert(item_spec(s, raws, sp, lines, mk, i, items[i]));
        let t = items[i].deps@[a];
        assert(t < n);
        assert(items[i].deps@.contains((t as int) as usize));
        assert(uses(raws, i, t as int));
        assert(item_spec(s, raws, sp, lines, mk, t as int, items[t as int]));
    }
    assert forall|i: int, a: int, c: int|
        0 <= i < n && 0 <= a < c < items[i].deps.len() implies #[trigger] items[i].deps@[a] < #[trigger] items[i].deps@[c] by {
        assert(item_spec(s, raws, sp, lines, mk, i, items[i]));
    }
    assert forall|i: int| 0 <= i < n && #[trigger] items[i].pinned implies items[i].deps.len() == 0 by {
        assert(item_spec(s, raws, sp, lines, mk, i, items[i]));
        if items[i].deps.len() > 0 {
            let t = items[i].deps@[0];
            assert(t < n);
            assert(items[i].deps@.contains((t as int) as usize));
        }
    }
    lemma_marks_ordered(lines, ng);
    assert forall|a: int| 0 <= a < mk.len() implies 0 <= #[trigger] mk[a].0 <= n by {
        if n == 0 {
            assert(ng == 1);
        }
    }
    lemma_regions_ordered(lines, mk, n, mk.len() as int);
    let rv = fm.regions@.map_values(|r: Region| region_view(r));
    assert(rv == regions_upto(lines, mk, n, mk.len() as int));
    assert(rv.len() == fm.regions.len());
    let ru = regions_upto(lines, mk, n, mk.len() as int);
    assert forall|k: int| 0 <= k < fm.regions.len() implies #[trigger] fm.regions@[k].first < fm.regions@[k].last_excl <= n by {
        assert(rv[k] == region_view(fm.regions@[k]));
        assert(ru[k].0 < ru[k].1 <= n);
    }
    assert forall|k: int| 0 <= k < fm.regions.len() - 1 implies #[trigger] fm.regions@[k].last_excl <= fm.regions@[k + 1].first by {
        assert(rv[k] == region_view(fm.regions@[k]));
        assert(rv[k + 1] == region_view(fm.regions@[k + 1]));
        assert(ru[k].1 <= ru[k + 1].0);
    }
}

/// Whether no pinned item lies inside a region.
pub fn regions_are_clear(fm: &FileModel) -> (r: bool)
    requires
        model_wf(*fm),
    ensures
        r == regions_clear(*fm),
{
    let mut k: usize = 0;
    while k < fm.regions.len()
        invariant
            model_wf(*fm),
            k <= fm.regions.len(),
            forall|k2: int, i: int|
                #![trigger fm.regions@[k2], fm.items@[i]]
                0 <= k2 < k && fm.regions@[k2].first <= i < fm.regions@[k2].last_excl ==> !fm.items@[i].pinned,
        decreases fm.regions.len() - k,
    {
        let r = &fm.regions[k];
        let mut i = r.first;
        proof {
            assert(fm.regions@[k as int].first < fm.regions@[k as int].last_excl <= fm.items.len());
        }
        while i < r.last_excl
            invariant
                model_wf(*fm),
                k < fm.regions.len(),
                r == &fm.regions@[k as int],
                r.first <= i <= r.last_excl <= fm.items.len(),
                forall|i2: int| r.first <= i2 < i ==> !(#[trigger] fm.items@[i2]).pinned,
            decreases r.last_excl - i,
        {
            if fm.items[i].pinned {
                return false;
            }
            i += 1;
        }
        k += 1;
    }
    true
}

/// A pinned item of `raws` lies inside one of the regions of `s`.
pub open spec fn pinned_in_region(s: Seq<char>, raws: Seq<RawItem>) -> bool {
    let sp = spans(s, raws);
    let lines = gap_lines(s, sp);
    let mk = all_marks(lines, num_gaps(sp));
    let rs = regions_upto(lines, mk, raws.len() as int, mk.len() as int);
    exists|k: int, i: int|
        #![trigger rs[k], raws[i]]
        0 <= k < rs.len() && rs[k].0 <= i < rs[k].1 && classify_spec(raws[i].shape).3
}

/// The model's regions hold no pinned item exactly when no pinned item of
/// `raws` lies in a region.
pub proof fn lemma_regions_clear(s: Seq<char>, raws: Seq<RawItem>, fm: FileModel)
    requires
        model_spec(s, raws, fm),
        model_wf(fm),
    ensures
        regions_clear(fm) <==> !pinned_in_region(s, raws),
{
    let sp = spans(s, raws);
    let lines = gap_lines(s, sp);
    let mk = all_marks(lines, num_gaps(sp));
    let rs = regions_upto(lines, mk, raws.len() as int, mk.len() as int);
    let rv = fm.regions@.map_values(|r: Region| region_view(r));
    assert(rv == rs);
    if !regions_clear(fm) {
        let (k, i) = choose|k: int, i: int|
            #![trigger fm.regions@[k], fm.items@[i]]
            0 <= k < fm.regions.len() && fm.regions@[k].first <= i < fm.regions@[k].last_excl && fm.items@[i].pinned;
        assert(rv[k] == region_view(fm.regions@[k]));
        assert(fm.regions@[k].last_excl <= fm.items.len());
        assert(item_spec(s, raws, sp, lines, mk, i, fm.items@[i]));
        assert(rs[k].0 <= i < rs[k].1 && classify_spec(raws[i].shape).3);
    }
    if pinned_in_region(s, raws) {
        let (k, i) = choose|k: int, i: int|
            #![trigger rs[k], raws[i]]
            0 <= k < rs.len() && rs[k].0 <= i < rs[k].1 && classify_spec(raws[i].shape).3;
        assert(rv[k] == region_view(fm.regions@[k]));
        assert(fm.regions@[k].last_excl <= fm.items.len());
        assert(item_spec(s, raws, sp, lines, mk, i, fm.items@[i]));
        assert(fm.items@[i].pinned);
    }
}

} // verus!
