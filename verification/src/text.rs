//! Character-level text utilities: the conversions between `String` and
//! `Vec<char>`, lexicographic order, whitespace, trimming, lines, joining and
//! decimal numbers.

use vstd::prelude::*;

verus! {

/// The characters of `s`.
pub fn chars_of(s: &str) -> (v: Vec<char>)
    ensures
        v@ == s@,
{
    broadcast use {vstd::string::axiom_spec_iter, vstd::string::next_postcondition};

    let mut v: Vec<char> = Vec::new();
    let mut chars = s.chars();
    loop
        invariant
            v.len() <= s@.len(),
            v@ == s@.take(v.len() as int),
            vstd::std_specs::iter::IteratorSpec::remaining(&chars) == s@.skip(v.len() as int),
        ensures
            v@ == s@,
        decreases s@.len() - v.len(),
    {
        match chars.next() {
            Some(c) => {
                proof {
                    assert(s@.take(v.len() + 1) =~= s@.take(v.len() as int).push(c));
                    assert(s@.skip(v.len() + 1) =~= s@.skip(v.len() as int).drop_first());
                }
                v.push(c);
            },
            None => {
                proof {
                    assert(s@.skip(v.len() as int).len() == 0);
                    assert(s@.take(v.len() as int) =~= s@);
                }
                break;
            },
        }
    }
    v
}

/// Collects `v` into a `String` through `std`'s `FromIterator<&char>` for
/// `String`. Trusted: the contract claims that the string holds exactly
/// `v`'s characters, in order, as that impl's documentation states.
#[verifier::external_body]
pub(crate) fn string_of(v: &[char]) -> (s: String)
    ensures
        s@ == v@,
{
    v.iter().collect()
}

/// Strict lexicographic order on character sequences, comparing code points.
/// For `String`s this is the order of `Ord` (UTF-8 keeps the order of code
/// points).
pub open spec fn lex_lt(a: Seq<char>, b: Seq<char>) -> bool
    decreases a.len(),
{
    if a.len() == 0 {
        b.len() > 0
    } else if b.len() == 0 {
        false
    } else if a[0] != b[0] {
        a[0] < b[0]
    } else {
        lex_lt(a.drop_first(), b.drop_first())
    }
}

pub proof fn lemma_lex_irrefl(a: Seq<char>)
    ensures
        !lex_lt(a, a),
    decreases a.len(),
{
    if a.len() > 0 {
        lemma_lex_irrefl(a.drop_first());
    }
}

pub proof fn lemma_lex_trans(a: Seq<char>, b: Seq<char>, c: Seq<char>)
    requires
        lex_lt(a, b),
        lex_lt(b, c),
    ensures
        lex_lt(a, c),
    decreases a.len(),
{
    if a.len() > 0 && b.len() > 0 && c.len() > 0 {
        if a[0] == b[0] && b[0] == c[0] {
            lemma_lex_trans(a.drop_first(), b.drop_first(), c.drop_first());
        }
    }
}

pub proof fn lemma_lex_total(a: Seq<char>, b: Seq<char>)
    ensures
        lex_lt(a, b) || lex_lt(b, a) || a == b,
    decreases a.len(),
{
    if a.len() > 0 && b.len() > 0 {
        if a[0] == b[0] {
            lemma_lex_total(a.drop_first(), b.drop_first());
            if a.drop_first() == b.drop_first() {
                assert(a =~= seq![a[0]] + a.drop_first());
                assert(b =~= seq![b[0]] + b.drop_first());
            }
        } else {
        }
    } else if a.len() == 0 && b.len() == 0 {
        assert(a =~= b);
    }
}

pub proof fn lemma_lex_asym(a: Seq<char>, b: Seq<char>)
    requires
        lex_lt(a, b),
    ensures
        !lex_lt(b, a),
{
    if lex_lt(b, a) {
        lemma_lex_trans(a, b, a);
        lemma_lex_irrefl(a);
    }
}

/// Whether `a` precedes `b` in lexicographic order.
pub fn lex_less(a: &Vec<char>, b: &Vec<char>) -> (r: bool)
    ensures
        r == lex_lt(a@, b@),
{
    let mut i: usize = 0;
    proof {
        assert(a@.skip(0) =~= a@);
        assert(b@.skip(0) =~= b@);
    }
    while i < a.len() && i < b.len()
        invariant
            i <= a.len(),
            i <= b.len(),
            lex_lt(a@, b@) == lex_lt(a@.skip(i as int), b@.skip(i as int)),
        decreases a.len() - i,
    {
        if a[i] != b[i] {
            proof {
                assert(a@.skip(i as int)[0] == a@[i as int]);
                assert(b@.skip(i as int)[0] == b@[i as int]);
            }
            return a[i] < b[i];
        }
        proof {
            assert(a@.skip(i as int).drop_first() =~= a@.skip(i + 1));
            assert(b@.skip(i as int).drop_first() =~= b@.skip(i + 1));
        }
        i += 1;
    }
    proof {
        assert(a@.skip(i as int).len() == a.len() - i);
        assert(b@.skip(i as int).len() == b.len() - i);
    }
    i == a.len() && i < b.len()
}

/// Unicode White_Space, as `char::is_whitespace` defines it.
pub open spec fn is_ws(c: char) -> bool {
    ||| ('\u{9}' <= c && c <= '\u{d}')
    ||| c == ' '
    ||| c == '\u{85}'
    ||| c == '\u{a0}'
    ||| c == '\u{1680}'
    ||| ('\u{2000}' <= c && c <= '\u{200a}')
    ||| c == '\u{2028}'
    ||| c == '\u{2029}'
    ||| c == '\u{202f}'
    ||| c == '\u{205f}'
    ||| c == '\u{3000}'
}

pub fn is_whitespace(c: char) -> (r: bool)
    ensures
        r == is_ws(c),
{
    ('\u{9}' <= c && c <= '\u{d}') || c == ' ' || c == '\u{85}' || c == '\u{a0}' || c == '\u{1680}' || (
    '\u{2000}' <= c && c <= '\u{200a}') || c == '\u{2028}' || c == '\u{2029}' || c == '\u{202f}' || c
        == '\u{205f}' || c == '\u{3000}'
}

/// `s` without its trailing whitespace.
pub open spec fn trim_end(s: Seq<char>) -> Seq<char>
    decreases s.len(),
{
    if s.len() > 0 && is_ws(s.last()) {
        trim_end(s.drop_last())
    } else {
        s
    }
}

/// `s` without its leading whitespace.
pub open spec fn trim_start(s: Seq<char>) -> Seq<char>
    decreases s.len(),
{
    if s.len() > 0 && is_ws(s[0]) {
        trim_start(s.drop_first())
    } else {
        s
    }
}

/// `s` without leading and trailing whitespace.
pub open spec fn trim(s: Seq<char>) -> Seq<char> {
    trim_end(trim_start(s))
}

/// Whether `s` is empty or all whitespace.
pub open spec fn is_blank(s: Seq<char>) -> bool {
    forall|i: int| 0 <= i < s.len() ==> is_ws(#[trigger] s[i])
}

pub proof fn lemma_trim_end_prefix(s: Seq<char>)
    ensures
        trim_end(s).len() <= s.len(),
        trim_end(s) == s.take(trim_end(s).len() as int),
        forall|i: int| trim_end(s).len() <= i < s.len() ==> is_ws(#[trigger] s[i]),
        trim_end(s).len() > 0 ==> !is_ws(trim_end(s).last()),
    decreases s.len(),
{
    if s.len() > 0 && is_ws(s.last()) {
        lemma_trim_end_prefix(s.drop_last());
        let t = trim_end(s.drop_last());
        assert(s.drop_last().take(t.len() as int) =~= s.take(t.len() as int));
        assert forall|i: int| t.len() <= i < s.len() implies is_ws(#[trigger] s[i]) by {
            if i < s.len() - 1 {
                assert(s[i] == s.drop_last()[i]);
            }
        }
    } else {
        assert(s.take(s.len() as int) =~= s);
    }
}

pub proof fn lemma_trim_start_suffix(s: Seq<char>)
    ensures
        trim_start(s).len() <= s.len(),
        trim_start(s) == s.skip(s.len() - trim_start(s).len()),
        forall|i: int| 0 <= i < s.len() - trim_start(s).len() ==> is_ws(#[trigger] s[i]),
        trim_start(s).len() > 0 ==> !is_ws(trim_start(s)[0]),
    decreases s.len(),
{
    if s.len() > 0 && is_ws(s[0]) {
        lemma_trim_start_suffix(s.drop_first());
        let t = trim_start(s.drop_first());
        assert(s.drop_first().skip(s.drop_first().len() - t.len()) =~= s.skip(s.len() - t.len()));
        assert forall|i: int| 0 <= i < s.len() - t.len() implies is_ws(#[trigger] s[i]) by {
            if i > 0 {
                assert(s[i] == s.drop_first()[i - 1]);
            }
        }
    } else {
        assert(s.skip(0) =~= s);
    }
}

/// The length of `s` without its trailing whitespace.
pub fn trim_end_len(s: &[char]) -> (k: usize)
    ensures
        k <= s.len(),
        k == trim_end(s@).len(),
        s@.take(k as int) == trim_end(s@),
{
    let mut k = s.len();
    proof {
        assert(s@.take(k as int) =~= s@);
    }
    while k > 0 && is_whitespace(s[k - 1])
        invariant
            k <= s.len(),
            trim_end(s@.take(k as int)) == trim_end(s@),
        decreases k,
    {
        proof {
            assert(s@.take(k as int).drop_last() =~= s@.take(k - 1));
        }
        k -= 1;
    }
    proof {
        assert(s@.take(k as int).len() == k);
        if k > 0 {
            assert(s@.take(k as int).last() == s@[k - 1]);
        }
    }
    k
}

/// The index of the first character of `s` that is not whitespace.
pub fn trim_start_len(s: &[char]) -> (k: usize)
    ensures
        k <= s.len(),
        s@.skip(k as int) == trim_start(s@),
{
    let mut k: usize = 0;
    proof {
        assert(s@.skip(0) =~= s@);
    }
    while k < s.len() && is_whitespace(s[k])
        invariant
            k <= s.len(),
            trim_start(s@.skip(k as int)) == trim_start(s@),
        decreases s.len() - k,
    {
        proof {
            assert(s@.skip(k as int).drop_first() =~= s@.skip(k + 1));
        }
        k += 1;
    }
    k
}

/// A copy of `s[a..b]`.
pub fn slice_vec(s: &[char], a: usize, b: usize) -> (r: Vec<char>)
    requires
        a <= b <= s.len(),
    ensures
        r@ == s@.subrange(a as int, b as int),
{
    let mut r: Vec<char> = Vec::new();
    let mut i = a;
    while i < b
        invariant
            a <= i <= b <= s.len(),
            r@ == s@.subrange(a as int, i as int),
        decreases b - i,
    {
        r.push(s[i]);
        proof {
            assert(s@.subrange(a as int, i + 1) =~= s@.subrange(a as int, i as int).push(s@[i as int]));
        }
        i += 1;
    }
    r
}

/// `s` trimmed of whitespace at both ends.
pub fn trim_vec(s: &[char]) -> (r: Vec<char>)
    ensures
        r@ == trim(s@),
{
    let a = trim_start_len(s);
    let t = slice_vec(s, a, s.len());
    let b = trim_end_len(&t);
    proof {
        assert(t@ == trim_start(s@));
    }
    slice_vec(&t, 0, b)
}

/// `s` without its trailing whitespace.
pub fn trim_end_vec(s: &[char]) -> (r: Vec<char>)
    ensures
        r@ == trim_end(s@),
{
    let b = trim_end_len(s);
    slice_vec(s, 0, b)
}

/// Whether `s` is empty or all whitespace.
pub fn blank(s: &[char]) -> (r: bool)
    ensures
        r == is_blank(s@),
{
    let mut i: usize = 0;
    while i < s.len()
        invariant
            i <= s.len(),
            forall|j: int| 0 <= j < i ==> is_ws(#[trigger] s@[j]),
        decreases s.len() - i,
    {
        if !is_whitespace(s[i]) {
            return false;
        }
        i += 1;
    }
    true
}

/// The pieces of `s` between occurrences of `c` (as `str::split` with a
/// character pattern): always at least one piece.
pub open spec fn split_on(s: Seq<char>, c: char) -> Seq<Seq<char>>
    decreases s.len(),
{
    if s.len() == 0 {
        seq![Seq::<char>::empty()]
    } else {
        let t = split_on(s.drop_last(), c);
        if s.last() == c {
            t.push(Seq::<char>::empty())
        } else {
            t.update(t.len() - 1, t.last().push(s.last()))
        }
    }
}

pub proof fn lemma_split_on_len(s: Seq<char>, c: char)
    ensures
        split_on(s, c).len() >= 1,
    decreases s.len(),
{
    if s.len() > 0 {
        lemma_split_on_len(s.drop_last(), c);
    }
}

/// No piece of a split holds the separator.
pub proof fn lemma_split_pieces(s: Seq<char>, c: char)
    ensures
        forall|j: int| 0 <= j < split_on(s, c).len() ==> !(#[trigger] split_on(s, c)[j]).contains(c),
    decreases s.len(),
{
    if s.len() > 0 {
        lemma_split_pieces(s.drop_last(), c);
        lemma_split_on_len(s.drop_last(), c);
        let t = split_on(s.drop_last(), c);
        if s.last() != c {
            let x = t.last().push(s.last());
            assert forall|j: int| 0 <= j < split_on(s, c).len() implies !(#[trigger] split_on(s, c)[j]).contains(c) by {
                if j == t.len() - 1 {
                    assert(split_on(s, c)[j] == x);
                    if x.contains(c) {
                        let k = choose|k: int| 0 <= k < x.len() && x[k] == c;
                        assert(t.last()[k] == c);
                    }
                } else {
                    assert(split_on(s, c)[j] == t[j]);
                }
            }
        } else {
            assert forall|j: int| 0 <= j < split_on(s, c).len() implies !(#[trigger] split_on(s, c)[j]).contains(c) by {
                if j < t.len() {
                    assert(split_on(s, c)[j] == t[j]);
                }
            }
        }
    }
}

/// Text without the separator, appended, extends the last piece.
pub proof fn lemma_split_extend(s: Seq<char>, t: Seq<char>, c: char)
    requires
        !t.contains(c),
    ensures
        split_on(s + t, c) == split_on(s, c).update(split_on(s, c).len() - 1, split_on(s, c).last() + t),
    decreases t.len(),
{
    lemma_split_on_len(s, c);
    if t.len() == 0 {
        assert(s + t =~= s);
        assert(split_on(s, c).update(split_on(s, c).len() - 1, split_on(s, c).last() + t) =~= split_on(s, c));
    } else {
        let t1 = t.drop_last();
        assert(!t1.contains(c)) by {
            if t1.contains(c) {
                let k = choose|k: int| 0 <= k < t1.len() && t1[k] == c;
                assert(t[k] == c);
            }
        }
        lemma_split_extend(s, t1, c);
        assert((s + t).drop_last() =~= s + t1);
        assert((s + t).last() == t.last());
        assert(t.last() != c) by {
            assert(t[t.len() - 1] == t.last());
        }
        let a = split_on(s, c);
        let u = split_on(s + t1, c);
        assert(u.last() == a.last() + t1);
        assert((a.last() + t1).push(t.last()) =~= a.last() + t);
        assert(split_on(s + t, c) =~= a.update(a.len() - 1, a.last() + t));
    }
}

/// Splitting pieces joined by the separator, none holding it, gives them back.
pub proof fn lemma_split_join(ls: Seq<Seq<char>>, c: char)
    requires
        ls.len() >= 1,
        forall|j: int| 0 <= j < ls.len() ==> !(#[trigger] ls[j]).contains(c),
    ensures
        split_on(join_with(ls, seq![c]), c) == ls,
    decreases ls.len(),
{
    if ls.len() == 1 {
        lemma_split_extend(Seq::<char>::empty(), ls[0], c);
        assert(Seq::<char>::empty() + ls[0] =~= ls[0]);
        assert(split_on(join_with(ls, seq![c]), c) =~= ls);
    } else {
        let l0 = ls.drop_last();
        lemma_split_join(l0, c);
        let j0 = join_with(l0, seq![c]);
        let jc = j0 + seq![c];
        assert(jc.drop_last() =~= j0);
        assert(split_on(jc, c) == split_on(j0, c).push(Seq::<char>::empty()));
        assert(!ls.last().contains(c)) by {
            assert(ls[ls.len() - 1] == ls.last());
        }
        lemma_split_extend(jc, ls.last(), c);
        assert(Seq::<char>::empty() + ls.last() =~= ls.last());
        assert(join_with(ls, seq![c]) == jc + ls.last());
        assert(split_on(join_with(ls, seq![c]), c) =~= ls);
    }
}

/// Whitespace appended at the end makes no difference once trimmed.
pub proof fn lemma_trim_end_ws(q: Seq<char>, w: Seq<char>)
    requires
        forall|i: int| 0 <= i < w.len() ==> is_ws(#[trigger] w[i]),
    ensures
        trim_end(q + w) == trim_end(q),
    decreases w.len(),
{
    if w.len() == 0 {
        assert(q + w =~= q);
    } else {
        assert((q + w).drop_last() =~= q + w.drop_last());
        assert((q + w).last() == w[w.len() - 1]);
        lemma_trim_end_ws(q, w.drop_last());
    }
}

proof fn lemma_trim_start_all_ws(w: Seq<char>)
    requires
        forall|i: int| 0 <= i < w.len() ==> is_ws(#[trigger] w[i]),
    ensures
        trim_start(w) == Seq::<char>::empty(),
    decreases w.len(),
{
    if w.len() > 0 {
        assert(is_ws(w[0]));
        lemma_trim_start_all_ws(w.drop_first());
    }
}

/// Whitespace appended at the end makes no difference to `trim`.
pub proof fn lemma_trim_ws_suffix(p: Seq<char>, w: Seq<char>)
    requires
        forall|i: int| 0 <= i < w.len() ==> is_ws(#[trigger] w[i]),
    ensures
        trim(p + w) == trim(p),
    decreases p.len(),
{
    if p.len() == 0 {
        assert(p + w =~= w);
        lemma_trim_start_all_ws(w);
    } else if is_ws(p[0]) {
        assert((p + w)[0] == p[0]);
        assert((p + w).drop_first() =~= p.drop_first() + w);
        lemma_trim_ws_suffix(p.drop_first(), w);
    } else {
        assert((p + w)[0] == p[0]);
        lemma_trim_end_ws(p, w);
    }
}

/// Split `s` at every `c`.
pub fn split_vec(s: &[char], c: char) -> (parts: Vec<Vec<char>>)
    ensures
        parts@.len() == split_on(s@, c).len(),
        forall|i: int| 0 <= i < parts@.len() ==> #[trigger] parts@[i]@ == split_on(s@, c)[i],
{
    let mut parts: Vec<Vec<char>> = Vec::new();
    let mut cur: Vec<char> = Vec::new();
    let mut i: usize = 0;
    proof {
        assert(s@.take(0) =~= Seq::<char>::empty());
    }
    while i < s.len()
        invariant
            i <= s.len(),
            split_on(s@.take(i as int), c).len() == parts@.len() + 1,
            forall|j: int| 0 <= j < parts@.len() ==> #[trigger] parts@[j]@ == split_on(s@.take(i as int), c)[j],
            cur@ == split_on(s@.take(i as int), c).last(),
        decreases s.len() - i,
    {
        proof {
            lemma_split_on_len(s@.take(i as int), c);
            assert(s@.take(i + 1).drop_last() =~= s@.take(i as int));
            assert(s@.take(i + 1).last() == s@[i as int]);
        }
        if s[i] == c {
            let done = cur;
            parts.push(done);
            cur = Vec::new();
        } else {
            cur.push(s[i]);
        }
        i += 1;
    }
    parts.push(cur);
    proof {
        assert(s@.take(s.len() as int) =~= s@);
        let sp = split_on(s@, c);
        assert forall|j: int| 0 <= j < parts@.len() implies #[trigger] parts@[j]@ == sp[j] by {}
    }
    parts
}

/// `parts` joined with `sep` between consecutive pieces.
pub open spec fn join_with(parts: Seq<Seq<char>>, sep: Seq<char>) -> Seq<char>
    decreases parts.len(),
{
    if parts.len() == 0 {
        Seq::empty()
    } else if parts.len() == 1 {
        parts[0]
    } else {
        join_with(parts.drop_last(), sep) + sep + parts.last()
    }
}

/// Append `parts` joined with `sep` to `out`.
pub fn push_joined(out: &mut Vec<char>, parts: &Vec<Vec<char>>, sep: &[char])
    ensures
        final(out)@ == old(out)@ + join_with(parts@.map_values(|p: Vec<char>| p@), sep@),
{
    let ghost ps = parts@.map_values(|p: Vec<char>| p@);
    let ghost start = out@;
    let mut i: usize = 0;
    proof {
        assert(ps.take(0) =~= Seq::<Seq<char>>::empty());
        assert(out@ =~= start + join_with(ps.take(0), sep@));
    }
    while i < parts.len()
        invariant
            i <= parts.len(),
            ps == parts@.map_values(|p: Vec<char>| p@),
            out@ == start + join_with(ps.take(i as int), sep@),
        decreases parts.len() - i,
    {
        proof {
            assert(ps.take(i + 1).drop_last() =~= ps.take(i as int));
            assert(ps.take(i + 1).last() == parts@[i as int]@);
        }
        if i > 0 {
            push_all(out, sep);
        } else {
            proof {
                assert(ps.take(1) =~= seq![parts@[0]@]);
            }
        }
        push_all(out, parts[i].as_slice());
        proof {
            if i > 0 {
                assert(out@ =~= start + join_with(ps.take(i + 1), sep@));
            } else {
                assert(out@ =~= start + join_with(ps.take(i + 1), sep@));
            }
        }
        i += 1;
    }
    proof {
        assert(ps.take(parts.len() as int) =~= ps);
    }
}

/// Append all of `s` to `out`.
pub fn push_all(out: &mut Vec<char>, s: &[char])
    ensures
        final(out)@ == old(out)@ + s@,
{
    let ghost start = out@;
    let mut i: usize = 0;
    while i < s.len()
        invariant
            i <= s.len(),
            out@ == start + s@.take(i as int),
        decreases s.len() - i,
    {
        out.push(s[i]);
        proof {
            assert(s@.take(i + 1) =~= s@.take(i as int).push(s@[i as int]));
        }
        i += 1;
    }
    proof {
        assert(s@.take(s.len() as int) =~= s@);
    }
}

/// Append the characters of `s` to `out`.
pub fn push_str(out: &mut Vec<char>, s: &str)
    ensures
        final(out)@ == old(out)@ + s@,
{
    let v = chars_of(s);
    push_all(out, v.as_slice());
}

/// `s` with every non-overlapping occurrence of `pat` (scanning from the
/// left) replaced by `rep`, as `str::replace` does.
pub open spec fn replace_all(s: Seq<char>, pat: Seq<char>, rep: Seq<char>) -> Seq<char>
    decreases s.len(),
{
    if pat.len() == 0 || s.len() < pat.len() {
        s
    } else if s.take(pat.len() as int) == pat {
        rep + replace_all(s.skip(pat.len() as int), pat, rep)
    } else {
        seq![s[0]] + replace_all(s.skip(1), pat, rep)
    }
}

/// Whether `s[i..]` starts with `pat`.
pub fn matches_at(s: &[char], i: usize, pat: &[char]) -> (r: bool)
    requires
        i <= s.len(),
    ensures
        r == (s@.len() - i >= pat@.len() && s@.skip(i as int).take(pat@.len() as int) == pat@),
{
    if s.len() - i < pat.len() {
        return false;
    }
    let mut k: usize = 0;
    while k < pat.len()
        invariant
            i + pat.len() <= s.len(),
            k <= pat.len(),
            forall|j: int| 0 <= j < k ==> s@[i + j] == #[trigger] pat@[j],
        decreases pat.len() - k,
    {
        if s[i + k] != pat[k] {
            proof {
                assert(s@.skip(i as int).take(pat@.len() as int)[k as int] == s@[i + k]);
            }
            return false;
        }
        k += 1;
    }
    proof {
        assert(s@.skip(i as int).take(pat@.len() as int) =~= pat@);
    }
    true
}

/// Replace every occurrence of `pat` in `s` by `rep`.
pub fn replace_vec(s: &[char], pat: &[char], rep: &[char]) -> (r: Vec<char>)
    ensures
        r@ == replace_all(s@, pat@, rep@),
{
    if pat.len() == 0 {
        return slice_vec(s, 0, s.len());
    }
    let mut out: Vec<char> = Vec::new();
    let mut i: usize = 0;
    proof {
        assert(s@.skip(0) =~= s@);
    }
    while i < s.len()
        invariant
            i <= s.len(),
            pat@.len() > 0,
            out@ + replace_all(s@.skip(i as int), pat@, rep@) == replace_all(s@, pat@, rep@),
        decreases s.len() - i,
    {
        if matches_at(s, i, pat) {
            push_all(&mut out, rep);
            proof {
                assert(s@.skip(i as int).skip(pat@.len() as int) =~= s@.skip(i + pat@.len()));
                assert(out@ + replace_all(s@.skip(i + pat@.len()), pat@, rep@) =~= replace_all(s@, pat@, rep@));
            }
            i = i + pat.len();
        } else {
            if s.len() - i < pat.len() {
                proof {
                    assert(replace_all(s@.skip(i as int), pat@, rep@) == s@.skip(i as int));
                }
                push_all(&mut out, slice_vec(s, i, s.len()).as_slice());
                proof {
                    assert(s@.skip(i as int) =~= s@.subrange(i as int, s.len() as int));
                    assert(s@.skip(s.len() as int) =~= Seq::<char>::empty());
                    assert(out@ + replace_all(s@.skip(s.len() as int), pat@, rep@) =~= replace_all(s@, pat@, rep@));
                }
                i = s.len();
            } else {
                out.push(s[i]);
                proof {
                    assert(s@.skip(i as int).skip(1) =~= s@.skip(i + 1));
                    assert(s@.skip(i as int)[0] == s@[i as int]);
                    assert(out@ + replace_all(s@.skip(i + 1), pat@, rep@) =~= replace_all(s@, pat@, rep@));
                }
                i += 1;
            }
        }
    }
    proof {
        assert(s@.skip(i as int) =~= Seq::<char>::empty());
        assert(out@ =~= replace_all(s@, pat@, rep@));
    }
    out
}

/// The decimal digits of `n`.
pub open spec fn decimal(n: nat) -> Seq<char>
    decreases n,
{
    if n < 10 {
        seq![digit_char(n)]
    } else {
        decimal(n / 10) + seq![digit_char(n % 10)]
    }
}

pub open spec fn digit_char(d: nat) -> char {
    if d == 0 { '0' }
    else if d == 1 { '1' }
    else if d == 2 { '2' }
    else if d == 3 { '3' }
    else if d == 4 { '4' }
    else if d == 5 { '5' }
    else if d == 6 { '6' }
    else if d == 7 { '7' }
    else if d == 8 { '8' }
    else { '9' }
}

fn digit(d: usize) -> (c: char)
    requires
        d < 10,
    ensures
        c == digit_char(d as nat),
{
    if d == 0 { '0' }
    else if d == 1 { '1' }
    else if d == 2 { '2' }
    else if d == 3 { '3' }
    else if d == 4 { '4' }
    else if d == 5 { '5' }
    else if d == 6 { '6' }
    else if d == 7 { '7' }
    else if d == 8 { '8' }
    else { '9' }
}

/// Append the decimal digits of `n` to `out`.
pub fn push_decimal(out: &mut Vec<char>, n: usize)
    ensures
        final(out)@ == old(out)@ + decimal(n as nat),
    decreases n,
{
    if n < 10 {
        out.push(digit(n));
    } else {
        push_decimal(out, n / 10);
        out.push(digit(n % 10));
        proof {
            assert(decimal(n as nat) == decimal((n / 10) as nat) + seq![digit_char((n % 10) as nat)]);
        }
    }
}

/// Append the decimal digits of a wide `n` to `out`.
pub fn push_decimal_wide(out: &mut Vec<char>, n: u128)
    ensures
        final(out)@ == old(out)@ + decimal(n as nat),
    decreases n,
{
    if n < 10 {
        out.push(digit(n as usize));
    } else {
        push_decimal_wide(out, n / 10);
        out.push(digit((n % 10) as usize));
        proof {
            assert(decimal(n as nat) == decimal((n / 10) as nat) + seq![digit_char((n % 10) as nat)]);
        }
    }
}

/// Whether `a` and `b` hold the same characters.
pub fn eq_chars(a: &[char], b: &[char]) -> (r: bool)
    ensures
        r == (a@ == b@),
{
    if a.len() != b.len() {
        return false;
    }
    let mut i: usize = 0;
    while i < a.len()
        invariant
            a.len() == b.len(),
            i <= a.len(),
            forall|j: int| 0 <= j < i ==> a@[j] == b@[j],
        decreases a.len() - i,
    {
        if a[i] != b[i] {
            return false;
        }
        i += 1;
    }
    proof {
        assert(a@ =~= b@);
    }
    true
}

/// Whether `a` and the literal `b` hold the same characters.
pub fn eq_str(a: &[char], b: &str) -> (r: bool)
    ensures
        r == (a@ == b@),
{
    let v = chars_of(b);
    eq_chars(a, v.as_slice())
}

/// `l` without one trailing carriage return.
pub open spec fn strip_cr(l: Seq<char>) -> Seq<char> {
    if l.len() > 0 && l.last() == '\r' {
        l.drop_last()
    } else {
        l
    }
}

pub fn strip_cr_vec(l: &[char]) -> (r: Vec<char>)
    ensures
        r@ == strip_cr(l@),
{
    if l.len() > 0 && l[l.len() - 1] == '\r' {
        slice_vec(l, 0, l.len() - 1)
    } else {
        slice_vec(l, 0, l.len())
    }
}


/// Each character of `s` written as `f` of it, one after the other.
pub open spec fn char_map(s: Seq<char>, f: spec_fn(char) -> Seq<char>) -> Seq<char>
    decreases s.len(),
{
    if s.len() == 0 {
        Seq::empty()
    } else {
        f(s[0]) + char_map(s.skip(1), f)
    }
}

/// Replacing one character distributes over concatenation.
pub proof fn lemma_replace_char_concat(a: Seq<char>, b: Seq<char>, c: char, rep: Seq<char>)
    ensures
        replace_all(a + b, seq![c], rep) == replace_all(a, seq![c], rep) + replace_all(b, seq![c], rep),
    decreases a.len(),
{
    if a.len() == 0 {
        assert(a + b =~= b);
        assert(replace_all(a, seq![c], rep) =~= Seq::<char>::empty());
    } else {
        lemma_replace_char_concat(a.skip(1), b, c, rep);
        assert((a + b).take(1) =~= a.take(1));
        assert((a + b).skip(1) =~= a.skip(1) + b);
        assert((a + b)[0] == a[0]);
        if a.take(1) == seq![c] {
            assert(replace_all(a + b, seq![c], rep) =~= rep + replace_all(a.skip(1) + b, seq![c], rep));
            assert(replace_all(a, seq![c], rep) =~= rep + replace_all(a.skip(1), seq![c], rep));
        } else {
            assert(replace_all(a + b, seq![c], rep) =~= seq![a[0]] + replace_all(a.skip(1) + b, seq![c], rep));
            assert(replace_all(a, seq![c], rep) =~= seq![a[0]] + replace_all(a.skip(1), seq![c], rep));
        }
    }
}

/// Replacing a character that does not occur changes nothing.
pub proof fn lemma_replace_char_absent(t: Seq<char>, c: char, rep: Seq<char>)
    requires
        !t.contains(c),
    ensures
        replace_all(t, seq![c], rep) == t,
    decreases t.len(),
{
    if t.len() > 0 {
        assert(t[0] != c) by {
            assert(t.contains(t[0]));
        }
        assert(t.take(1) != seq![c]) by {
            assert(t.take(1)[0] == t[0]);
        }
        assert(!t.skip(1).contains(c)) by {
            if t.skip(1).contains(c) {
                let k = choose|k: int| 0 <= k < t.skip(1).len() && t.skip(1)[k] == c;
                assert(t[k + 1] == c);
            }
        }
        lemma_replace_char_absent(t.skip(1), c, rep);
        assert(t =~= seq![t[0]] + t.skip(1));
    }
}

/// Replacing a character in a one-character text.
pub proof fn lemma_replace_char_single(x: char, c: char, rep: Seq<char>)
    ensures
        replace_all(seq![x], seq![c], rep) == if x == c { rep } else { seq![x] },
{
    let s = seq![x];
    assert(s.skip(1) =~= Seq::<char>::empty());
    assert(replace_all(s.skip(1), seq![c], rep) =~= Seq::<char>::empty());
    if x == c {
        assert(s.take(1) =~= seq![c]);
        assert(rep + Seq::<char>::empty() =~= rep);
    } else {
        assert(s.take(1) != seq![c]) by {
            assert(s.take(1)[0] == x);
        }
        assert(seq![x] + Seq::<char>::empty() =~= seq![x]);
    }
}

/// A text with no `&` in front of one replaced by a pattern starting with
/// `&` goes through unchanged.
pub proof fn lemma_replace_amp_free(u: Seq<char>, t: Seq<char>, pat: Seq<char>, rep: Seq<char>)
    requires
        pat.len() >= 1,
        pat[0] == '&',
        !u.contains('&'),
    ensures
        replace_all(u + t, pat, rep) == u + replace_all(t, pat, rep),
    decreases u.len(),
{
    if u.len() > 0 {
        assert(u.contains(u[0]));
        assert(!u.skip(1).contains('&')) by {
            if u.skip(1).contains('&') {
                let k = choose|k: int| 0 <= k < u.skip(1).len() && u.skip(1)[k] == '&';
                assert(u[k + 1] == '&');
            }
        }
        lemma_replace_amp_free(u.skip(1), t, pat, rep);
        let ut = u + t;
        assert(ut.skip(1) =~= u.skip(1) + t);
        assert(ut[0] == u[0]);
        if ut.len() < pat.len() {
            assert(t.len() < pat.len());
            assert(replace_all(t, pat, rep) == t);
            assert(replace_all(u.skip(1) + t, pat, rep) == u.skip(1) + t);
        } else {
            assert(ut.take(pat.len() as int) != pat) by {
                assert(ut.take(pat.len() as int)[0] == u[0]);
            }
            assert(u =~= seq![u[0]] + u.skip(1));
            assert(replace_all(ut, pat, rep) == seq![ut[0]] + replace_all(ut.skip(1), pat, rep));
            assert(seq![u[0]] + (u.skip(1) + replace_all(t, pat, rep)) =~= u + replace_all(t, pat, rep));
        }
    } else {
        assert(u + t =~= t);
    }
}

/// Replacing a pattern that starts with `&` in a text made of blocks, where
/// a block either is the pattern or holds `&` only in front and then
/// differs from the pattern at once: each block that is the pattern is
/// replaced, and the others stay.
pub proof fn lemma_replace_blocks(
    s: Seq<char>,
    f: spec_fn(char) -> Seq<char>,
    g: spec_fn(char) -> Seq<char>,
    pat: Seq<char>,
    rep: Seq<char>,
)
    requires
        pat.len() >= 2,
        pat[0] == '&',
        forall|x: char| #[trigger] f(x) == pat ==> g(x) == rep,
        forall|x: char|
            #[trigger] f(x) != pat ==> g(x) == f(x) && f(x).len() >= 1 && !f(x).skip(1).contains('&') && (f(x)[0] == '&' ==> f(
                x,
            ).len() >= 2 && f(x)[1] != pat[1]),
    ensures
        replace_all(char_map(s, f), pat, rep) == char_map(s, g),
    decreases s.len(),
{
    if s.len() == 0 {
        assert(replace_all(Seq::<char>::empty(), pat, rep) =~= Seq::<char>::empty());
    } else {
        let x = s[0];
        let bl = f(x);
        let t = char_map(s.skip(1), f);
        lemma_replace_blocks(s.skip(1), f, g, pat, rep);
        let bt = bl + t;
        assert(char_map(s, f) == bt);
        assert(char_map(s, g) == g(x) + char_map(s.skip(1), g));
        if bl == pat {
            assert(bt.take(pat.len() as int) =~= pat);
            assert(bt.skip(pat.len() as int) =~= t);
        } else if bl[0] != '&' {
            assert(!bl.contains('&')) by {
                if bl.contains('&') {
                    let k = choose|k: int| 0 <= k < bl.len() && bl[k] == '&';
                    assert(k != 0);
                    assert(bl.skip(1)[k - 1] == '&');
                }
            }
            lemma_replace_amp_free(bl, t, pat, rep);
        } else {
            let u = bl.skip(1);
            lemma_replace_amp_free(u, t, pat, rep);
            if bt.len() < pat.len() {
                assert(t.len() < pat.len());
                assert(replace_all(t, pat, rep) == t);
            } else {
                assert(bt.take(pat.len() as int) != pat) by {
                    assert(bt.take(pat.len() as int)[1] == bl[1]);
                }
                assert(bt.skip(1) =~= u + t);
                assert(bt[0] == bl[0]);
                assert(replace_all(bt, pat, rep) == seq![bt[0]] + replace_all(bt.skip(1), pat, rep));
                assert(seq![bl[0]] + (u + replace_all(t, pat, rep)) =~= bl + replace_all(t, pat, rep));
            }
        }
    }
}

/// Writing each character as itself gives the text back.
pub proof fn lemma_char_map_id(s: Seq<char>, f: spec_fn(char) -> Seq<char>)
    requires
        forall|x: char| #[trigger] f(x) == seq![x],
    ensures
        char_map(s, f) == s,
    decreases s.len(),
{
    if s.len() > 0 {
        lemma_char_map_id(s.skip(1), f);
        assert(s =~= seq![s[0]] + s.skip(1));
    }
}

} // verus!
