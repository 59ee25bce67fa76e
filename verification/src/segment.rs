//! Splitting text into segments.
//!
//! A text is cut into maximal whitespace runs and maximal non-whitespace
//! words. A word that is a whole number stays one segment; any other word is
//! cut into maximal punctuation runs and maximal runs of other characters.
//! Concatenating the segments gives the text back.

use vstd::prelude::*;
use crate::patterns::{
    digit_char, is_digit, is_number, is_number_separator, is_punct, is_space, punct_char,
    space_char,
};

verus! {

/// The kinds of run that segmentation cuts.
#[derive(Clone, Copy)]
pub enum RunClass {
    /// Whitespace characters.
    Space,
    /// Characters other than whitespace.
    Word,
    /// Punctuation characters.
    Punct,
    /// Characters other than punctuation.
    Plain,
}

pub open spec fn in_run(c: char, k: RunClass) -> bool {
    match k {
        RunClass::Space => is_space(c),
        RunClass::Word => !is_space(c),
        RunClass::Punct => is_punct(c),
        RunClass::Plain => !is_punct(c),
    }
}

/// End of the maximal run of class `k` that starts at `i` and stops at `hi`
/// at the latest.
pub open spec fn run_end(t: Seq<char>, i: int, hi: int, k: RunClass) -> int
    decreases hi - i,
{
    if i < hi && in_run(t[i], k) {
        run_end(t, i + 1, hi, k)
    } else {
        i
    }
}

pub proof fn lemma_run_end(t: Seq<char>, i: int, hi: int, k: RunClass)
    requires
        0 <= i <= hi <= t.len(),
    ensures
        i <= run_end(t, i, hi, k) <= hi,
        forall|m: int| i <= m < run_end(t, i, hi, k) ==> in_run(#[trigger] t[m], k),
        run_end(t, i, hi, k) < hi ==> !in_run(t[run_end(t, i, hi, k)], k),
    decreases hi - i,
{
    if i < hi && in_run(t[i], k) {
        lemma_run_end(t, i + 1, hi, k);
    }
}

/// Spans of the pieces of the word `t[i..j]` that is not a number:
/// punctuation runs and runs of other characters, in order.
pub open spec fn piece_spans(t: Seq<char>, i: int, j: int) -> Seq<(int, int)>
    decreases j - i,
{
    if i < j {
        let k = if is_punct(t[i]) {
            RunClass::Punct
        } else {
            RunClass::Plain
        };
        let e = run_end(t, i, j, k);
        if i < e <= j {
            seq![(i, e)] + piece_spans(t, e, j)
        } else {
            seq![]
        }
    } else {
        seq![]
    }
}

/// Spans of the segments of the word `t[i..j]`.
pub open spec fn word_spans(t: Seq<char>, i: int, j: int) -> Seq<(int, int)> {
    if is_number(t.subrange(i, j)) {
        seq![(i, j)]
    } else {
        piece_spans(t, i, j)
    }
}

/// Spans of the segments of `t[i..]`, where `i` starts a whitespace run or a
/// word.
pub open spec fn spans_from(t: Seq<char>, i: int) -> Seq<(int, int)>
    decreases t.len() - i,
{
    if 0 <= i < t.len() {
        let k = if is_space(t[i]) {
            RunClass::Space
        } else {
            RunClass::Word
        };
        let j = run_end(t, i, t.len() as int, k);
        if i < j <= t.len() {
            let here = if is_space(t[i]) {
                seq![(i, j)]
            } else {
                word_spans(t, i, j)
            };
            here + spans_from(t, j)
        } else {
            seq![]
        }
    } else {
        seq![]
    }
}

/// Spans (start, end) of the segments of `t`, in order.
pub open spec fn segment_spans(t: Seq<char>) -> Seq<(int, int)> {
    spans_from(t, 0)
}

pub open spec fn span_text(t: Seq<char>, sp: (int, int)) -> Seq<char> {
    t.subrange(sp.0, sp.1)
}

/// The segments of `t`.
pub open spec fn segments(t: Seq<char>) -> Seq<Seq<char>> {
    segment_spans(t).map_values(|sp: (int, int)| span_text(t, sp))
}

pub open spec fn spans_view(v: Seq<(usize, usize)>) -> Seq<(int, int)> {
    v.map_values(|p: (usize, usize)| (p.0 as int, p.1 as int))
}

fn in_run_exec(c: char, k: RunClass) -> (r: bool)
    ensures
        r == in_run(c, k),
{
    match k {
        RunClass::Space => space_char(c),
        RunClass::Word => !space_char(c),
        RunClass::Punct => punct_char(c),
        RunClass::Plain => !punct_char(c),
    }
}

fn run_end_exec(t: &[char], i: usize, hi: usize, k: RunClass) -> (r: usize)
    requires
        i <= hi <= t@.len(),
    ensures
        r == run_end(t@, i as int, hi as int, k),
{
    let mut j = i;
    while j < hi && in_run_exec(t[j], k)
        invariant
            i <= j <= hi <= t@.len(),
            run_end(t@, i as int, hi as int, k) == run_end(t@, j as int, hi as int, k),
        decreases hi - j,
    {
        j = j + 1;
    }
    j
}

proof fn lemma_spans_push(v: Seq<(usize, usize)>, p: (usize, usize))
    ensures
        spans_view(v.push(p)) == spans_view(v).push((p.0 as int, p.1 as int)),
{
    assert(spans_view(v.push(p)) =~= spans_view(v).push((p.0 as int, p.1 as int)));
}

/// Whether `t[i..j]` is a whole number.
pub fn number_at(t: &[char], i: usize, j: usize) -> (r: bool)
    requires
        i <= j <= t@.len(),
    ensures
        r == is_number(t@.subrange(i as int, j as int)),
{
    let ghost s = t@.subrange(i as int, j as int);
    if i == j {
        return false;
    }
    if !digit_char(t[i]) || !digit_char(t[j - 1]) {
        return false;
    }
    let mut m = i;
    while m < j
        invariant
            i <= m <= j <= t@.len(),
            s == t@.subrange(i as int, j as int),
            is_digit(s[0]),
            is_digit(s[s.len() - 1]),
            forall|q: int|
                0 <= q < m - i ==> is_digit(#[trigger] s[q]) || (is_number_separator(s[q])
                    && is_digit(s[q + 1])),
        decreases j - m,
    {
        let c = t[m];
        if !digit_char(c) {
            if !((c == '.' || c == ',') && m + 1 < j && digit_char(t[m + 1])) {
                assert(!(is_digit(s[m - i]) || (is_number_separator(s[m - i]) && is_digit(
                    s[m - i + 1],
                ))));
                return false;
            }
        }
        m = m + 1;
    }
    true
}

fn push_piece_spans(t: &[char], i: usize, j: usize, out: &mut Vec<(usize, usize)>)
    requires
        i <= j <= t@.len(),
    ensures
        spans_view(final(out)@) == spans_view(old(out)@) + piece_spans(t@, i as int, j as int),
{
    let mut p = i;
    while p < j
        invariant
            i <= p <= j <= t@.len(),
            spans_view(out@) + piece_spans(t@, p as int, j as int) == spans_view(old(out)@)
                + piece_spans(t@, i as int, j as int),
        decreases j - p,
    {
        let k = if punct_char(t[p]) {
            RunClass::Punct
        } else {
            RunClass::Plain
        };
        let e = run_end_exec(t, p, j, k);
        proof {
            lemma_run_end(t@, p as int, j as int, k);
            lemma_run_end(t@, p as int + 1, j as int, k);
            lemma_spans_push(out@, (p, e));
            assert(spans_view(out@) + piece_spans(t@, p as int, j as int) =~= spans_view(
                out@.push((p, e)),
            ) + piece_spans(t@, e as int, j as int));
        }
        out.push((p, e));
        p = e;
    }
    assert(piece_spans(t@, p as int, j as int) =~= Seq::<(int, int)>::empty());
    assert(spans_view(out@) =~= spans_view(out@) + piece_spans(t@, p as int, j as int));
}

/// Spans of the segments of `t`.
pub fn segment_spans_exec(t: &[char]) -> (v: Vec<(usize, usize)>)
    ensures
        spans_view(v@) == segment_spans(t@),
{
    let n = t.len();
    let mut out: Vec<(usize, usize)> = Vec::new();
    let mut i: usize = 0;
    assert(spans_view(out@) =~= Seq::<(int, int)>::empty());
    while i < n
        invariant
            i <= n == t@.len(),
            spans_view(out@) + spans_from(t@, i as int) == spans_from(t@, 0),
        decreases n - i,
    {
        let space = space_char(t[i]);
        let k = if space {
            RunClass::Space
        } else {
            RunClass::Word
        };
        let j = run_end_exec(t, i, n, k);
        proof {
            lemma_run_end(t@, i as int, n as int, k);
            lemma_run_end(t@, i as int + 1, n as int, k);
        }
        let ghost before = out@;
        if space {
            proof {
                lemma_spans_push(out@, (i, j));
            }
            out.push((i, j));
        } else if number_at(t, i, j) {
            proof {
                lemma_spans_push(out@, (i, j));
            }
            out.push((i, j));
        } else {
            push_piece_spans(t, i, j, &mut out);
        }
        assert(spans_view(out@) + spans_from(t@, j as int) =~= spans_view(before) + spans_from(
            t@,
            i as int,
        ));
        i = j;
    }
    assert(spans_from(t@, i as int) =~= Seq::<(int, int)>::empty());
    assert(spans_view(out@) =~= spans_view(out@) + spans_from(t@, i as int));
    out
}

} // verus!

verus! {

pub open spec fn span_texts(t: Seq<char>, sps: Seq<(int, int)>) -> Seq<Seq<char>> {
    sps.map_values(|sp: (int, int)| span_text(t, sp))
}

proof fn lemma_span_texts_concat(t: Seq<char>, a: Seq<(int, int)>, b: Seq<(int, int)>)
    ensures
        span_texts(t, a + b).flatten() == span_texts(t, a).flatten() + span_texts(t, b).flatten(),
{
    assert(span_texts(t, a + b) =~= span_texts(t, a) + span_texts(t, b));
    vstd::seq_lib::lemma_flatten_concat(span_texts(t, a), span_texts(t, b));
}

proof fn lemma_span_texts_single(t: Seq<char>, sp: (int, int))
    ensures
        span_texts(t, seq![sp]).flatten() == span_text(t, sp),
{
    let s = span_texts(t, seq![sp]);
    assert(s =~= seq![span_text(t, sp)]);
    s.lemma_flatten_one_element();
}

proof fn lemma_piece_spans_cover(t: Seq<char>, i: int, j: int)
    requires
        0 <= i <= j <= t.len(),
    ensures
        span_texts(t, piece_spans(t, i, j)).flatten() == t.subrange(i, j),
    decreases j - i,
{
    if i < j {
        let k = if is_punct(t[i]) {
            RunClass::Punct
        } else {
            RunClass::Plain
        };
        let e = run_end(t, i, j, k);
        lemma_run_end(t, i, j, k);
        lemma_run_end(t, i + 1, j, k);
        lemma_piece_spans_cover(t, e, j);
        lemma_span_texts_concat(t, seq![(i, e)], piece_spans(t, e, j));
        lemma_span_texts_single(t, (i, e));
        assert(t.subrange(i, e) + t.subrange(e, j) =~= t.subrange(i, j));
    } else {
        assert(span_texts(t, piece_spans(t, i, j)) =~= Seq::<Seq<char>>::empty());
        assert(t.subrange(i, j) =~= Seq::<char>::empty());
    }
}

proof fn lemma_spans_from_cover(t: Seq<char>, i: int)
    requires
        0 <= i <= t.len(),
    ensures
        span_texts(t, spans_from(t, i)).flatten() == t.subrange(i, t.len() as int),
    decreases t.len() - i,
{
    if i < t.len() {
        let k = if is_space(t[i]) {
            RunClass::Space
        } else {
            RunClass::Word
        };
        let j = run_end(t, i, t.len() as int, k);
        lemma_run_end(t, i, t.len() as int, k);
        lemma_run_end(t, i + 1, t.len() as int, k);
        let here = if is_space(t[i]) {
            seq![(i, j)]
        } else {
            word_spans(t, i, j)
        };
        if is_space(t[i]) || is_number(t.subrange(i, j)) {
            lemma_span_texts_single(t, (i, j));
        } else {
            lemma_piece_spans_cover(t, i, j);
        }
        lemma_spans_from_cover(t, j);
        lemma_span_texts_concat(t, here, spans_from(t, j));
        assert(t.subrange(i, j) + t.subrange(j, t.len() as int) =~= t.subrange(
            i,
            t.len() as int,
        ));
    } else {
        assert(span_texts(t, spans_from(t, i)) =~= Seq::<Seq<char>>::empty());
        assert(t.subrange(i, t.len() as int) =~= Seq::<char>::empty());
    }
}

/// Joining the segments of `t` in order gives `t` back.
pub proof fn lemma_segments_cover(t: Seq<char>)
    ensures
        segments(t).flatten() == t,
{
    lemma_spans_from_cover(t, 0);
    assert(t.subrange(0, t.len() as int) =~= t);
}

} // verus!

verus! {

/// Every span lies inside `[lo, hi)` and is non-empty.
pub open spec fn spans_within(sps: Seq<(int, int)>, lo: int, hi: int) -> bool {
    forall|k: int| 0 <= k < sps.len() ==> lo <= (#[trigger] sps[k]).0 < sps[k].1 <= hi
}

proof fn lemma_spans_within_concat(a: Seq<(int, int)>, b: Seq<(int, int)>, lo: int, hi: int)
    requires
        spans_within(a, lo, hi),
        spans_within(b, lo, hi),
    ensures
        spans_within(a + b, lo, hi),
{
    assert forall|k: int| 0 <= k < (a + b).len() implies lo <= (#[trigger] (a + b)[k]).0 < (a
        + b)[k].1 <= hi by {
        if k < a.len() {
            assert((a + b)[k] == a[k]);
        } else {
            assert((a + b)[k] == b[k - a.len()]);
        }
    }
}

pub proof fn lemma_piece_spans_within(t: Seq<char>, i: int, j: int)
    requires
        0 <= i <= j <= t.len(),
    ensures
        spans_within(piece_spans(t, i, j), i, j),
    decreases j - i,
{
    if i < j {
        let k = if is_punct(t[i]) {
            RunClass::Punct
        } else {
            RunClass::Plain
        };
        let e = run_end(t, i, j, k);
        lemma_run_end(t, i, j, k);
        lemma_run_end(t, i + 1, j, k);
        lemma_piece_spans_within(t, e, j);
        lemma_spans_within_concat(seq![(i, e)], piece_spans(t, e, j), i, j);
    }
}

pub proof fn lemma_spans_from_within(t: Seq<char>, i: int)
    requires
        0 <= i <= t.len(),
    ensures
        spans_within(spans_from(t, i), i, t.len() as int),
    decreases t.len() - i,
{
    if i < t.len() {
        let k = if is_space(t[i]) {
            RunClass::Space
        } else {
            RunClass::Word
        };
        let j = run_end(t, i, t.len() as int, k);
        lemma_run_end(t, i, t.len() as int, k);
        lemma_run_end(t, i + 1, t.len() as int, k);
        let here = if is_space(t[i]) {
            seq![(i, j)]
        } else {
            word_spans(t, i, j)
        };
        if !is_space(t[i]) && !is_number(t.subrange(i, j)) {
            lemma_piece_spans_within(t, i, j);
        }
        lemma_spans_from_within(t, j);
        lemma_spans_within_concat(here, spans_from(t, j), i, t.len() as int);
    }
}

} // verus!

verus! {

/// Counts the tokens in one segment by [`crate::estimate::segment_tokens`].
pub fn estimate_segment_tokens(
    segment: &str,
    language_configs: &[crate::language::LanguageConfig],
    default_chars_per_token: crate::language::CharsPerToken,
) -> (n: u64)
    ensures
        n == crate::estimate::segment_tokens(
            segment@,
            crate::language::rules_view(language_configs@),
            default_chars_per_token,
        ),
{
    let t = crate::text::chars_of(segment);
    let r = crate::estimate::segment_tokens_range(
        t.as_slice(),
        0,
        t.len(),
        language_configs,
        default_chars_per_token,
    );
    assert(t@.subrange(0, t@.len() as int) =~= segment@);
    r
}

/// Splits `text` into segments: whitespace runs, whole numbers, punctuation
/// runs and runs of other characters, in order, none empty.
pub fn split_segments(text: &str) -> (v: Vec<String>)
    ensures
        v@.map_values(|s: String| s@) == segments(text@),
{
    let t = crate::text::chars_of(text);
    let spans = segment_spans_exec(t.as_slice());
    proof {
        lemma_spans_from_within(t@, 0);
    }
    let mut out: Vec<String> = Vec::new();
    let mut k: usize = 0;
    while k < spans.len()
        invariant
            k <= spans@.len(),
            t@ == text@,
            spans_view(spans@) == segment_spans(t@),
            spans_within(segment_spans(t@), 0, t@.len() as int),
            out@.len() == k,
            forall|m: int| 0 <= m < k ==> (#[trigger] out@[m])@ == segments(t@)[m],
        decreases spans@.len() - k,
    {
        let (a, b) = spans[k];
        assert(segment_spans(t@)[k as int] == (a as int, b as int));
        let s = crate::text::string_of(t.as_slice(), a, b);
        out.push(s);
        k = k + 1;
    }
    assert(out@.map_values(|s: String| s@) =~= segments(text@));
    out
}

} // verus!

verus! {

/// The span `sp` of `t` is all whitespace or holds no whitespace.
pub open spec fn span_uniform(t: Seq<char>, sp: (int, int)) -> bool {
    ||| forall|m: int| sp.0 <= m < sp.1 ==> is_space(#[trigger] t[m])
    ||| forall|m: int| sp.0 <= m < sp.1 ==> !is_space(#[trigger] t[m])
}

pub open spec fn spans_uniform(t: Seq<char>, sps: Seq<(int, int)>) -> bool {
    forall|k: int| 0 <= k < sps.len() ==> span_uniform(t, #[trigger] sps[k])
}

proof fn lemma_spans_uniform_concat(t: Seq<char>, a: Seq<(int, int)>, b: Seq<(int, int)>)
    requires
        spans_uniform(t, a),
        spans_uniform(t, b),
    ensures
        spans_uniform(t, a + b),
{
    assert forall|k: int| 0 <= k < (a + b).len() implies span_uniform(t, #[trigger] (a + b)[k]) by {
        if k < a.len() {
            assert((a + b)[k] == a[k]);
        } else {
            assert((a + b)[k] == b[k - a.len()]);
        }
    }
}

pub proof fn lemma_spans_from_uniform(t: Seq<char>, i: int)
    requires
        0 <= i <= t.len(),
    ensures
        spans_uniform(t, spans_from(t, i)),
    decreases t.len() - i,
{
    if i < t.len() {
        let k = if is_space(t[i]) {
            RunClass::Space
        } else {
            RunClass::Word
        };
        let j = run_end(t, i, t.len() as int, k);
        lemma_run_end(t, i, t.len() as int, k);
        lemma_run_end(t, i + 1, t.len() as int, k);
        let here = if is_space(t[i]) {
            seq![(i, j)]
        } else {
            word_spans(t, i, j)
        };
        if is_space(t[i]) || is_number(t.subrange(i, j)) {
            assert(span_uniform(t, here[0]));
            assert(spans_uniform(t, here));
        } else {
            lemma_piece_spans_within(t, i, j);
            assert forall|q: int| 0 <= q < here.len() implies span_uniform(t, #[trigger] here[q]) by {
                assert(i <= here[q].0 && here[q].1 <= j);
                assert forall|m: int| here[q].0 <= m < here[q].1 implies !is_space(#[trigger] t[m]) by {
                    assert(in_run(t[m], RunClass::Word));
                }
            }
        }
        lemma_spans_from_uniform(t, j);
        lemma_spans_uniform_concat(t, here, spans_from(t, j));
    }
}

} // verus!

verus! {

/// The spans tile `[lo, hi)`: each starts where the one before ends, the
/// first at `lo` and the last ending at `hi`.
pub open spec fn spans_tile(sps: Seq<(int, int)>, lo: int, hi: int) -> bool {
    &&& sps.len() == 0 ==> lo == hi
    &&& sps.len() > 0 ==> sps[0].0 == lo && sps[sps.len() - 1].1 == hi
    &&& forall|k: int| 0 <= k < sps.len() - 1 ==> (#[trigger] sps[k]).1 == sps[k + 1].0
}

proof fn lemma_spans_tile_concat(a: Seq<(int, int)>, b: Seq<(int, int)>, lo: int, mid: int, hi: int)
    requires
        spans_tile(a, lo, mid),
        spans_tile(b, mid, hi),
    ensures
        spans_tile(a + b, lo, hi),
{
    let c = a + b;
    assert forall|k: int| 0 <= k < c.len() - 1 implies (#[trigger] c[k]).1 == c[k + 1].0 by {
        if k < a.len() - 1 {
            assert(c[k] == a[k] && c[k + 1] == a[k + 1]);
        } else if k == a.len() - 1 {
            assert(c[k] == a[k] && c[k + 1] == b[0]);
        } else {
            assert(c[k] == b[k - a.len()] && c[k + 1] == b[k - a.len() + 1]);
        }
    }
    if a.len() == 0 {
        assert(c =~= b);
    }
    if b.len() == 0 {
        assert(c =~= a);
    }
}

proof fn lemma_piece_spans_tile(t: Seq<char>, i: int, j: int)
    requires
        0 <= i <= j <= t.len(),
    ensures
        spans_tile(piece_spans(t, i, j), i, j),
    decreases j - i,
{
    if i < j {
        let k = if is_punct(t[i]) {
            RunClass::Punct
        } else {
            RunClass::Plain
        };
        let e = run_end(t, i, j, k);
        lemma_run_end(t, i, j, k);
        lemma_run_end(t, i + 1, j, k);
        lemma_piece_spans_tile(t, e, j);
        lemma_spans_tile_concat(seq![(i, e)], piece_spans(t, e, j), i, e, j);
    }
}

pub proof fn lemma_spans_from_tile(t: Seq<char>, i: int)
    requires
        0 <= i <= t.len(),
    ensures
        spans_tile(spans_from(t, i), i, t.len() as int),
    decreases t.len() - i,
{
    if i < t.len() {
        let k = if is_space(t[i]) {
            RunClass::Space
        } else {
            RunClass::Word
        };
        let j = run_end(t, i, t.len() as int, k);
        lemma_run_end(t, i, t.len() as int, k);
        lemma_run_end(t, i + 1, t.len() as int, k);
        let here = if is_space(t[i]) {
            seq![(i, j)]
        } else {
            word_spans(t, i, j)
        };
        if !is_space(t[i]) && !is_number(t.subrange(i, j)) {
            lemma_piece_spans_tile(t, i, j);
        }
        lemma_spans_from_tile(t, j);
        lemma_spans_tile_concat(here, spans_from(t, j), i, j, t.len() as int);
    }
}

/// The texts of spans that tile `[lo, hi)` join to `t[lo..hi]`.
pub proof fn lemma_tile_texts(t: Seq<char>, sps: Seq<(int, int)>, lo: int, hi: int)
    requires
        spans_tile(sps, lo, hi),
        spans_within(sps, 0, t.len() as int),
        0 <= lo <= hi <= t.len(),
    ensures
        span_texts(t, sps).flatten() == t.subrange(lo, hi),
    decreases sps.len(),
{
    if sps.len() == 0 {
        assert(span_texts(t, sps) =~= Seq::<Seq<char>>::empty());
        assert(t.subrange(lo, hi) =~= Seq::<char>::empty());
    } else {
        let rest = sps.drop_first();
        let mid = sps[0].1;
        lemma_tile_rest(t, sps, lo, hi);
        lemma_tile_texts(t, rest, mid, hi);
        assert(sps =~= seq![sps[0]] + rest);
        lemma_span_texts_concat(t, seq![sps[0]], rest);
        lemma_span_texts_single(t, sps[0]);
        assert(t.subrange(lo, mid) + t.subrange(mid, hi) =~= t.subrange(lo, hi));
    }
}

proof fn lemma_tile_rest(t: Seq<char>, sps: Seq<(int, int)>, lo: int, hi: int)
    requires
        sps.len() > 0,
        spans_tile(sps, lo, hi),
        spans_within(sps, 0, t.len() as int),
    ensures
        spans_tile(sps.drop_first(), sps[0].1, hi),
        spans_within(sps.drop_first(), 0, t.len() as int),
        lo < sps[0].1 <= hi,
{
    let rest = sps.drop_first();
    assert forall|k: int| 0 <= k < rest.len() - 1 implies (#[trigger] rest[k]).1 == rest[k + 1].0 by {
        assert(rest[k] == sps[k + 1] && rest[k + 1] == sps[k + 2]);
    }
    if rest.len() > 0 {
        assert(rest[0] == sps[1]);
        assert(sps[0].1 == sps[1].0);
        assert(rest[rest.len() - 1] == sps[sps.len() - 1]);
    }
    assert forall|k: int| 0 <= k < rest.len() implies 0 <= (#[trigger] rest[k]).0 < rest[k].1
        <= t.len() by {
        assert(rest[k] == sps[k + 1]);
    }
    assert(0 <= sps[0].0 < sps[0].1 <= t.len());
    lemma_tile_increasing(sps, 0, sps.len() - 1);
    if sps.len() > 1 {
        lemma_tile_increasing(sps, 1, sps.len() - 1);
        assert(sps[0].1 == sps[1].0);
    }
}

/// The segments `p..q` of `t`, joined, are the text between the start of
/// segment `p` and the end of segment `q - 1`.
pub proof fn lemma_segment_run_text(t: Seq<char>, p: int, q: int)
    requires
        0 <= p < q <= segment_spans(t).len(),
    ensures
        segments(t).subrange(p, q).flatten() == t.subrange(
            segment_spans(t)[p].0,
            segment_spans(t)[q - 1].1,
        ),
        0 <= segment_spans(t)[p].0 < segment_spans(t)[q - 1].1 <= t.len(),
{
    let sps = segment_spans(t);
    lemma_spans_from_tile(t, 0);
    lemma_spans_from_within(t, 0);
    let sub = sps.subrange(p, q);
    assert(spans_tile(sub, sps[p].0, sps[q - 1].1)) by {
        assert forall|k: int| 0 <= k < sub.len() - 1 implies (#[trigger] sub[k]).1 == sub[k
            + 1].0 by {
            assert(sub[k] == sps[p + k] && sub[k + 1] == sps[p + k + 1]);
        }
    }
    assert(spans_within(sub, 0, t.len() as int)) by {
        assert forall|k: int| 0 <= k < sub.len() implies 0 <= (#[trigger] sub[k]).0 < sub[k].1
            <= t.len() by {
            assert(sub[k] == sps[p + k]);
        }
    }
    assert(sps[p].0 < sps[p].1);
    if p < q - 1 {
        lemma_tile_increasing(sps, p, q - 1);
    }
    lemma_tile_texts(t, sub, sps[p].0, sps[q - 1].1);
    assert(segments(t).subrange(p, q) =~= span_texts(t, sub));
}

proof fn lemma_tile_increasing(sps: Seq<(int, int)>, p: int, q: int)
    requires
        0 <= p <= q < sps.len(),
        forall|k: int| 0 <= k < sps.len() - 1 ==> (#[trigger] sps[k]).1 == sps[k + 1].0,
        forall|k: int| 0 <= k < sps.len() ==> (#[trigger] sps[k]).0 < sps[k].1,
    ensures
        sps[p].0 < sps[q].1,
    decreases q - p,
{
    if p < q {
        lemma_tile_increasing(sps, p + 1, q);
        assert(sps[p].1 == sps[p + 1].0);
    }
}

} // verus!
