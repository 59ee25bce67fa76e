//! Properties that relate the library's functions to each other and hold of
//! every input.

use vstd::prelude::*;
use crate::estimate::{cap, segment_tokens, text_tokens, token_sum};
use crate::language::{CharsPerToken, LanguageRule};
use crate::patterns::{all_space, is_space};
use crate::segment::{
    lemma_segments_cover, lemma_spans_from_uniform, lemma_spans_from_within, segment_spans,
    segments, span_text, span_uniform,
};
use crate::slice::{
    extract_part, lemma_position_monotone, position_of, slice_parts, slice_spec,
};
use crate::split::{chunk_state, lemma_chunk_state_lo, seg_counts, split_chunks};
use crate::text::{encode_utf16, lemma_decode_encode, utf16_length, utf16_slice_spec};

verus! {

/// Joining the segments of a text in order gives the text back: the
/// splitter keeps every character and drops none.
pub proof fn law_segments_rejoin(t: Seq<char>)
    ensures
        segments(t).flatten() == t,
{
    lemma_segments_cover(t);
}

/// Every segment is non-empty, and is either whitespace only or holds no
/// whitespace at all.
pub proof fn law_segments_nonempty_and_uniform(t: Seq<char>)
    ensures
        forall|k: int|
            0 <= k < segments(t).len() ==> {
                &&& (#[trigger] segments(t)[k]).len() > 0
                &&& all_space(segments(t)[k]) || forall|m: int|
                    0 <= m < segments(t)[k].len() ==> !is_space(#[trigger] segments(t)[k][m])
            },
{
    lemma_spans_from_within(t, 0);
    lemma_spans_from_uniform(t, 0);
    assert forall|k: int| 0 <= k < segments(t).len() implies {
        &&& (#[trigger] segments(t)[k]).len() > 0
        &&& all_space(segments(t)[k]) || forall|m: int|
            0 <= m < segments(t)[k].len() ==> !is_space(#[trigger] segments(t)[k][m])
    } by {
        let sp = segment_spans(t)[k];
        let s = segments(t)[k];
        assert(s == span_text(t, sp));
        assert(span_uniform(t, sp));
        assert(0 <= sp.0 < sp.1 <= t.len());
        if forall|m: int| sp.0 <= m < sp.1 ==> is_space(#[trigger] t[m]) {
            assert forall|m: int| 0 <= m < s.len() implies #[trigger] is_space(s[m]) by {
                assert(s[m] == t[sp.0 + m]);
            }
        } else {
            assert forall|m: int| 0 <= m < s.len() implies !is_space(#[trigger] s[m]) by {
                assert(s[m] == t[sp.0 + m]);
            }
        }
    }
}

/// The empty text has no tokens.
pub proof fn law_empty_text_has_no_tokens(rules: Seq<LanguageRule>, rate: CharsPerToken)
    ensures
        text_tokens(Seq::<char>::empty(), rules, rate) == 0,
{
    assert(segments(Seq::<char>::empty()) =~= Seq::<Seq<char>>::empty());
}

/// A text made of whitespace only counts as no tokens.
pub proof fn law_whitespace_counts_zero(t: Seq<char>, rules: Seq<LanguageRule>, rate: CharsPerToken)
    requires
        all_space(t),
    ensures
        text_tokens(t, rules, rate) == 0,
{
    assert(segments(t).take(segments(t).len() as int) =~= segments(t));
    lemma_zero_sum(segments(t), t, rules, rate);
}

proof fn lemma_zero_sum(segs: Seq<Seq<char>>, t: Seq<char>, rules: Seq<LanguageRule>, rate: CharsPerToken)
    requires
        all_space(t),
        segs.len() <= segments(t).len(),
        segs == segments(t).take(segs.len() as int),
    ensures
        token_sum(segs, rules, rate) == 0,
    decreases segs.len(),
{
    if segs.len() > 0 {
        let k = segs.len() - 1;
        law_segments_nonempty_and_uniform(t);
        lemma_spans_from_within(t, 0);
        let sp = segment_spans(t)[k];
        let s = segments(t)[k];
        assert(s == span_text(t, sp));
        assert(s.len() > 0);
        assert(is_space(t[sp.0]));
        assert(s[0] == t[sp.0]);
        assert(all_space(s));
        assert(segs.last() == s);
        assert(segment_tokens(s, rules, rate) == 0);
        assert(segs.drop_last() =~= segments(t).take(k));
        lemma_zero_sum(segs.drop_last(), t, rules, rate);
    }
}

/// With a positive budget and no overlap, joining the chunks gives the text
/// back.
pub proof fn law_split_rejoins(
    t: Seq<char>,
    per_chunk: nat,
    rules: Seq<LanguageRule>,
    rate: CharsPerToken,
)
    requires
        per_chunk > 0,
    ensures
        split_chunks(t, per_chunk, 0, rules, rate).flatten() == t,
{
    if t.len() == 0 {
        assert(split_chunks(t, per_chunk, 0, rules, rate) =~= Seq::<Seq<char>>::empty());
        assert(t =~= Seq::<char>::empty());
    } else {
        let segs = segments(t);
        let counts = seg_counts(segs, rules, rate);
        let n = segs.len();
        lemma_chunks_cover(segs, counts, per_chunk, n);
        let s = chunk_state(segs, counts, per_chunk, 0, n);
        lemma_chunk_state_lo(segs, counts, per_chunk, 0, n);
        assert(segs.take(n as int) =~= segs);
        lemma_segments_cover(t);
        if s.lo < n {
            s.chunks.lemma_flatten_push(segs.subrange(s.lo, n as int).flatten());
        } else {
            assert(segs.subrange(s.lo, n as int) =~= Seq::<Seq<char>>::empty());
            assert(s.chunks.flatten() =~= s.chunks.flatten() + segs.subrange(
                s.lo,
                n as int,
            ).flatten());
        }
    }
}

proof fn lemma_chunks_cover(segs: Seq<Seq<char>>, counts: Seq<nat>, per_chunk: nat, k: nat)
    requires
        k <= segs.len(),
    ensures
        chunk_state(segs, counts, per_chunk, 0, k).chunks.flatten() + segs.subrange(
            chunk_state(segs, counts, per_chunk, 0, k).lo,
            k as int,
        ).flatten() == segs.take(k as int).flatten(),
    decreases k,
{
    lemma_chunk_state_lo(segs, counts, per_chunk, 0, k);
    if k == 0 {
        assert(segs.subrange(0, 0) =~= Seq::<Seq<char>>::empty());
        assert(segs.take(0) =~= Seq::<Seq<char>>::empty());
        assert(Seq::<Seq<char>>::empty().flatten() + Seq::<Seq<char>>::empty().flatten()
            =~= Seq::<Seq<char>>::empty().flatten());
    } else {
        let s = chunk_state(segs, counts, per_chunk, 0, (k - 1) as nat);
        lemma_chunks_cover(segs, counts, per_chunk, (k - 1) as nat);
        lemma_chunk_state_lo(segs, counts, per_chunk, 0, (k - 1) as nat);
        let cur = segs.subrange(s.lo, k - 1);
        assert(segs.subrange(s.lo, k as int) =~= cur.push(segs[k - 1]));
        cur.lemma_flatten_push(segs[k - 1]);
        assert(segs.take(k as int) =~= segs.take(k - 1).push(segs[k - 1]));
        segs.take(k - 1).lemma_flatten_push(segs[k - 1]);
        let c = cap(s.count + counts[k - 1]);
        if c >= per_chunk {
            let whole = segs.subrange(s.lo, k as int).flatten();
            s.chunks.lemma_flatten_push(whole);
            assert(segs.subrange(k as int, k as int) =~= Seq::<Seq<char>>::empty());
            assert(s.chunks.push(whole).flatten() + segs.subrange(k as int, k as int).flatten()
                =~= s.chunks.flatten() + whole);
        }
    }
}

/// The tokens before segment `k`, plus its own, are within the text's sum.
proof fn lemma_position_sum(segs: Seq<Seq<char>>, rules: Seq<LanguageRule>, rate: CharsPerToken, k: int)
    requires
        0 <= k <= segs.len(),
    ensures
        position_of(seg_counts(segs, rules, rate), k) == token_sum(segs.take(k), rules, rate),
    decreases k,
{
    if k > 0 {
        lemma_position_sum(segs, rules, rate, k - 1);
        assert(segs.take(k).drop_last() =~= segs.take(k - 1));
    } else {
        assert(segs.take(0) =~= Seq::<Seq<char>>::empty());
    }
}

proof fn lemma_slice_parts_whole(
    segs: Seq<Seq<char>>,
    counts: Seq<nat>,
    k: int,
    start: int,
    end: Option<int>,
)
    requires
        0 <= k <= segs.len(),
        k <= counts.len(),
        forall|j: int|
            0 <= j < k ==> start <= position_of(counts, j) && match end {
                None => true,
                Some(e) => position_of(counts, j) + counts[j] < e,
            },
    ensures
        slice_parts(segs, counts, k, start, end) == segs.take(k).flatten(),
    decreases k,
{
    if k > 0 {
        lemma_slice_parts_whole(segs, counts, k - 1, start, end);
        let pos = position_of(counts, k - 1);
        assert(start <= pos);
        assert(extract_part(segs[k - 1], pos, counts[k - 1] as int, start, end) == segs[k - 1]);
        assert(segs.take(k) =~= segs.take(k - 1).push(segs[k - 1]));
        segs.take(k - 1).lemma_flatten_push(segs[k - 1]);
    } else {
        assert(segs.take(0) =~= Seq::<Seq<char>>::empty());
    }
}

/// Slicing from position 0 with no end gives the whole text.
pub proof fn law_slice_whole_text(t: Seq<char>, rules: Seq<LanguageRule>, rate: CharsPerToken)
    ensures
        slice_spec(t, 0, None, rules, rate) == t,
{
    if t.len() == 0 {
        assert(t =~= Seq::<char>::empty());
    } else {
        let segs = segments(t);
        let counts = seg_counts(segs, rules, rate);
        assert forall|j: int| 0 <= j < segs.len() implies 0 <= position_of(counts, j) by {
            lemma_position_monotone(counts, 0, j);
        }
        lemma_slice_parts_whole(segs, counts, segs.len() as int, 0, None);
        assert(segs.take(segs.len() as int) =~= segs);
        lemma_segments_cover(t);
    }
}

/// An end past the estimate slices the whole text.
pub proof fn law_slice_end_past_total(
    t: Seq<char>,
    end: i64,
    rules: Seq<LanguageRule>,
    rate: CharsPerToken,
)
    requires
        text_tokens(t, rules, rate) < end,
    ensures
        slice_spec(t, 0, Some(end), rules, rate) == t,
{
    if t.len() == 0 {
        assert(t =~= Seq::<char>::empty());
    } else {
        let segs = segments(t);
        let counts = seg_counts(segs, rules, rate);
        let n = segs.len() as int;
        lemma_position_sum(segs, rules, rate, n);
        assert(segs.take(n) =~= segs);
        assert forall|j: int| 0 <= j < n implies 0 <= position_of(counts, j) && position_of(
            counts,
            j,
        ) + counts[j] < end by {
            lemma_position_monotone(counts, 0, j);
            lemma_position_monotone(counts, j + 1, n);
        }
        lemma_slice_parts_whole(segs, counts, n, 0, Some(end as int));
        lemma_segments_cover(t);
    }
}

proof fn lemma_slice_parts_none(
    segs: Seq<Seq<char>>,
    counts: Seq<nat>,
    k: int,
    start: int,
    end: Option<int>,
)
    requires
        0 <= k <= counts.len(),
        forall|j: int| 0 <= j < k ==> position_of(counts, j) + counts[j] < start,
    ensures
        slice_parts(segs, counts, k, start, end) == Seq::<char>::empty(),
    decreases k,
{
    if k > 0 {
        lemma_slice_parts_none(segs, counts, k - 1, start, end);
        assert(extract_part(
            segs[k - 1],
            position_of(counts, k - 1),
            counts[k - 1] as int,
            start,
            end,
        ) =~= Seq::<char>::empty());
        assert(slice_parts(segs, counts, k, start, end) =~= Seq::<char>::empty());
    }
}

/// A start past the estimate gives the empty string.
pub proof fn law_slice_start_past_total(
    t: Seq<char>,
    start: i64,
    end: Option<i64>,
    rules: Seq<LanguageRule>,
    rate: CharsPerToken,
)
    requires
        text_tokens(t, rules, rate) < start,
    ensures
        slice_spec(t, start, end, rules, rate) == Seq::<char>::empty(),
{
    if t.len() > 0 {
        let segs = segments(t);
        let counts = seg_counts(segs, rules, rate);
        let n = segs.len() as int;
        lemma_position_sum(segs, rules, rate, n);
        assert(segs.take(n) =~= segs);
        assert forall|j: int| 0 <= j < n implies position_of(counts, j) + counts[j] < start by {
            lemma_position_monotone(counts, j + 1, n);
        }
        lemma_slice_parts_none(segs, counts, n, start as int, crate::slice::resolve_end(
            end,
            text_tokens(t, rules, rate) as int,
        ));
    }
}

/// A start at or past a non-negative end gives the empty string.
pub proof fn law_slice_empty_range(
    t: Seq<char>,
    start: i64,
    end: i64,
    rules: Seq<LanguageRule>,
    rate: CharsPerToken,
)
    requires
        0 <= end <= start,
    ensures
        slice_spec(t, start, Some(end), rules, rate) == Seq::<char>::empty(),
{
}

/// A negative start at or below minus the estimate acts as a start of 0.
pub proof fn law_slice_negative_start_clamps(
    t: Seq<char>,
    start: i64,
    end: Option<i64>,
    rules: Seq<LanguageRule>,
    rate: CharsPerToken,
)
    requires
        start + text_tokens(t, rules, rate) <= 0,
    ensures
        slice_spec(t, start, end, rules, rate) == slice_spec(t, 0, end, rules, rate),
{
}

/// Slicing the whole UTF-16 range of a text gives the text back.
pub proof fn law_utf16_slice_whole(s: Seq<char>)
    ensures
        utf16_slice_spec(s, 0, utf16_length(s) as int) == s,
{
    lemma_decode_encode(s);
    let u = encode_utf16(s);
    assert(u.subrange(0, u.len() as int) =~= u);
}

} // verus!

verus! {

/// On text in the Basic Multilingual Plane, slicing by UTF-16 offsets is
/// slicing by characters: no character is ever cut in half.
pub proof fn law_utf16_slice_bmp(s: Seq<char>, a: int, b: int)
    requires
        crate::text::in_bmp(s),
        0 <= a <= b <= s.len(),
    ensures
        utf16_slice_spec(s, a, b) == s.subrange(a, b),
{
    crate::text::lemma_encode_bmp(s);
    let sub = s.subrange(a, b);
    assert(crate::text::in_bmp(sub)) by {
        assert forall|i: int| 0 <= i < sub.len() implies (#[trigger] sub[i] as u32) < 0x10000 by {
            assert(sub[i] == s[a + i]);
        }
    }
    crate::text::lemma_encode_bmp(sub);
    assert(encode_utf16(s).subrange(a, b) =~= encode_utf16(sub));
    lemma_decode_encode(sub);
    if a == b {
        assert(sub =~= Seq::<char>::empty());
    }
}

} // verus!

verus! {

/// `c` is a non-empty run of consecutive segments among the first `n`,
/// joined.
pub open spec fn is_segment_run(segs: Seq<Seq<char>>, c: Seq<char>, n: int) -> bool {
    exists|p: int, q: int| 0 <= p < q <= n && c == #[trigger] segs.subrange(p, q).flatten()
}

proof fn lemma_chunks_are_runs(
    segs: Seq<Seq<char>>,
    counts: Seq<nat>,
    per_chunk: nat,
    overlap: nat,
    k: nat,
)
    requires
        k <= segs.len(),
    ensures
        forall|i: int|
            0 <= i < chunk_state(segs, counts, per_chunk, overlap, k).chunks.len()
                ==> is_segment_run(
                segs,
                #[trigger] chunk_state(segs, counts, per_chunk, overlap, k).chunks[i],
                segs.len() as int,
            ),
    decreases k,
{
    if k > 0 {
        let s = chunk_state(segs, counts, per_chunk, overlap, (k - 1) as nat);
        lemma_chunks_are_runs(segs, counts, per_chunk, overlap, (k - 1) as nat);
        lemma_chunk_state_lo(segs, counts, per_chunk, overlap, (k - 1) as nat);
        let c = cap(s.count + counts[k - 1]);
        if c >= per_chunk {
            let whole = segs.subrange(s.lo, k as int).flatten();
            let chunks = s.chunks.push(whole);
            assert(is_segment_run(segs, whole, segs.len() as int));
            assert forall|i: int| 0 <= i < chunks.len() implies is_segment_run(
                segs,
                #[trigger] chunks[i],
                segs.len() as int,
            ) by {
                if i < s.chunks.len() {
                    assert(chunks[i] == s.chunks[i]);
                }
            }
        }
    }
}

/// Every chunk, with or without overlap, is a non-empty piece of the text
/// between two positions.
pub proof fn law_split_chunks_are_substrings(
    t: Seq<char>,
    per_chunk: nat,
    overlap: nat,
    rules: Seq<LanguageRule>,
    rate: CharsPerToken,
)
    ensures
        forall|i: int|
            0 <= i < split_chunks(t, per_chunk, overlap, rules, rate).len() ==> exists|a: int, b: int|
                0 <= a < b <= t.len() && #[trigger] split_chunks(
                    t,
                    per_chunk,
                    overlap,
                    rules,
                    rate,
                )[i] == t.subrange(a, b),
{
    if t.len() > 0 && per_chunk > 0 {
        let segs = segments(t);
        let counts = seg_counts(segs, rules, rate);
        let n = segs.len();
        let s = chunk_state(segs, counts, per_chunk, overlap, n);
        let out = split_chunks(t, per_chunk, overlap, rules, rate);
        lemma_chunks_are_runs(segs, counts, per_chunk, overlap, n);
        lemma_chunk_state_lo(segs, counts, per_chunk, overlap, n);
        assert forall|i: int| 0 <= i < out.len() implies exists|a: int, b: int|
            0 <= a < b <= t.len() && #[trigger] out[i] == t.subrange(a, b) by {
            let c = out[i];
            if i < s.chunks.len() {
                assert(c == s.chunks[i]);
                assert(is_segment_run(segs, c, n as int));
            } else {
                assert(s.lo < n);
                assert(c == segs.subrange(s.lo, n as int).flatten());
                assert(is_segment_run(segs, c, n as int));
            }
            let (p, q) = choose|p: int, q: int|
                0 <= p < q <= n && c == #[trigger] segs.subrange(p, q).flatten();
            crate::segment::lemma_segment_run_text(t, p, q);
            let sps = segment_spans(t);
            assert(c == t.subrange(sps[p].0, sps[q - 1].1));
        }
    } else {
        assert(split_chunks(t, per_chunk, overlap, rules, rate).len() == 0);
    }
}

} // verus!

verus! {

/// An empty text or a budget of 0 gives no chunks.
pub proof fn law_split_no_chunks(
    t: Seq<char>,
    per_chunk: nat,
    overlap: nat,
    rules: Seq<LanguageRule>,
    rate: CharsPerToken,
)
    requires
        t.len() == 0 || per_chunk == 0,
    ensures
        split_chunks(t, per_chunk, overlap, rules, rate) == Seq::<Seq<char>>::empty(),
{
}

} // verus!
