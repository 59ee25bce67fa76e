//! How slicing before and after one token position relate: on text in the
//! Basic Multilingual Plane, the slice before position `k` is a prefix of the
//! text, the slice from `k` is a suffix, and together they cover it.

use vstd::prelude::*;
use crate::language::{CharsPerToken, LanguageRule};
use crate::laws::{law_slice_whole_text, law_utf16_slice_bmp};
use crate::segment::{lemma_segments_cover, lemma_spans_from_within, segment_spans, segments, span_text};
use crate::slice::{extract_part, lemma_cut_bounds, position_of, slice_parts, slice_spec};
use crate::split::seg_counts;
use crate::text::{in_bmp, lemma_encode_bmp, utf16_length, utf16_slice_spec};

verus! {

proof fn lemma_floor_le_ceil(x: int, len: int, count: int)
    requires
        0 <= x,
        0 <= len,
        count > 0,
    ensures
        (x * len) / count <= (x * len + count - 1) / count,
        (count * len + count - 1) / count == len,
{
    assert((x * len) / count <= (x * len + count - 1) / count) by (nonlinear_arith)
        requires
            0 <= x,
            0 <= len,
            count > 0,
    ;
    assert((count * len + count - 1) / count == len) by (nonlinear_arith)
        requires
            0 <= len,
            count > 0,
    ;
}

/// One segment's part before position `k` and its part from `k`.
proof fn lemma_segment_parts(seg: Seq<char>, pos: int, count: int, k: int)
    requires
        in_bmp(seg),
        0 <= pos,
        0 <= count,
        0 <= k,
    ensures
        ({
            let pre = extract_part(seg, pos, count, 0, Some(k));
            let suf = extract_part(seg, pos, count, k, None);
            &&& pre.is_prefix_of(seg)
            &&& suf.is_suffix_of(seg)
            &&& pre.len() + suf.len() >= seg.len()
            &&& pos >= k ==> pre.len() == 0 && suf == seg
            &&& pos + count < k ==> pre == seg && suf.len() == 0
        }),
{
    let pre = extract_part(seg, pos, count, 0, Some(k));
    let suf = extract_part(seg, pos, count, k, None);
    let len = seg.len() as int;
    lemma_encode_bmp(seg);
    assert(utf16_length(seg) == len);
    if count > 0 && pos < k && k < pos + count {
        let x = k - pos;
        lemma_cut_bounds(x, x, len, count);
        lemma_floor_le_ceil(x, len, count);
        let cs = (x * len) / count;
        let ce = (x * len + count - 1) / count;
        law_utf16_slice_bmp(seg, 0, ce);
        law_utf16_slice_bmp(seg, cs, len);
        assert(pre == seg.subrange(0, ce));
        assert(suf == seg.subrange(cs, len));
        assert(pre.is_prefix_of(seg));
        assert(suf.is_suffix_of(seg));
    } else {
        assert(seg.subrange(0, len) =~= seg);
        assert(Seq::<char>::empty().is_prefix_of(seg));
        assert(Seq::<char>::empty().is_suffix_of(seg));
    }
}

proof fn lemma_segments_bmp(t: Seq<char>, j: int)
    requires
        in_bmp(t),
        0 <= j < segments(t).len(),
    ensures
        in_bmp(segments(t)[j]),
{
    lemma_spans_from_within(t, 0);
    let sp = segment_spans(t)[j];
    let s = segments(t)[j];
    assert(s == span_text(t, sp));
    assert forall|i: int| 0 <= i < s.len() implies (#[trigger] s[i] as u32) < 0x10000 by {
        assert(s[i] == t[sp.0 + i]);
    }
}

proof fn lemma_parts_prefix_suffix(t: Seq<char>, counts: Seq<nat>, k: int, j: int)
    requires
        in_bmp(t),
        counts.len() == segments(t).len(),
        0 <= k,
        0 <= j <= segments(t).len(),
    ensures
        ({
            let segs = segments(t);
            let a = slice_parts(segs, counts, j, 0, Some(k));
            let b = slice_parts(segs, counts, j, k, None);
            let f = segs.take(j).flatten();
            &&& a.is_prefix_of(f)
            &&& b.is_suffix_of(f)
            &&& a.len() + b.len() >= f.len()
            &&& position_of(counts, j) < k ==> a == f && b.len() == 0
        }),
    decreases j,
{
    let segs = segments(t);
    if j == 0 {
        assert(segs.take(0) =~= Seq::<Seq<char>>::empty());
        assert(Seq::<char>::empty().is_prefix_of(Seq::<char>::empty()));
        assert(Seq::<char>::empty().is_suffix_of(Seq::<char>::empty()));
    } else {
        lemma_parts_prefix_suffix(t, counts, k, j - 1);
        let a0 = slice_parts(segs, counts, j - 1, 0, Some(k));
        let b0 = slice_parts(segs, counts, j - 1, k, None);
        let f0 = segs.take(j - 1).flatten();
        let seg = segs[j - 1];
        let pos = position_of(counts, j - 1);
        let count = counts[j - 1] as int;
        crate::slice::lemma_position_monotone(counts, 0, j - 1);
        lemma_segments_bmp(t, j - 1);
        lemma_segment_parts(seg, pos, count, k);
        let pre = extract_part(seg, pos, count, 0, Some(k));
        let suf = extract_part(seg, pos, count, k, None);
        let a = a0 + pre;
        let b = b0 + suf;
        assert(segs.take(j) =~= segs.take(j - 1).push(seg));
        segs.take(j - 1).lemma_flatten_push(seg);
        let f = f0 + seg;
        assert(a.is_prefix_of(f)) by {
            if pos < k {
                assert(a0 == f0);
                assert(a =~= f.subrange(0, a.len() as int));
            } else {
                assert(pre.len() == 0);
                assert(a =~= a0);
                assert(a =~= f.subrange(0, a.len() as int));
            }
        }
        assert(b.is_suffix_of(f)) by {
            if pos < k {
                assert(b0.len() == 0);
                assert(b =~= suf);
                assert(b =~= f.subrange(f.len() - b.len(), f.len() as int));
            } else {
                assert(suf == seg);
                assert(b =~= f.subrange(f.len() - b.len(), f.len() as int));
            }
        }
        if position_of(counts, j) < k {
            assert(pos + count < k);
            assert(a =~= f);
        }
    }
}

/// On text in the Basic Multilingual Plane, the slice that ends at token
/// position `k` is a prefix of the text, the slice that starts at `k` is a
/// suffix, and the two cover the text: a segment cut at `k` may appear in
/// both, in part.
pub proof fn law_slice_prefix_suffix(
    t: Seq<char>,
    k: i64,
    rules: Seq<LanguageRule>,
    rate: CharsPerToken,
)
    requires
        in_bmp(t),
        k >= 0,
    ensures
        slice_spec(t, 0, Some(k), rules, rate).is_prefix_of(t),
        slice_spec(t, k, None, rules, rate).is_suffix_of(t),
        slice_spec(t, 0, Some(k), rules, rate).len() + slice_spec(t, k, None, rules, rate).len()
            >= t.len(),
{
    let p = slice_spec(t, 0, Some(k), rules, rate);
    let s = slice_spec(t, k, None, rules, rate);
    if t.len() == 0 {
        assert(p.is_prefix_of(t));
        assert(s.is_suffix_of(t));
    } else if k == 0 {
        law_slice_whole_text(t, rules, rate);
        assert(p.len() == 0);
        assert(p.is_prefix_of(t));
        assert(t.subrange(0, t.len() as int) =~= t);
        assert(s.is_suffix_of(t));
    } else {
        let segs = segments(t);
        let counts = seg_counts(segs, rules, rate);
        let n = segs.len() as int;
        assert(p == slice_parts(segs, counts, n, 0, Some(k as int)));
        assert(s == slice_parts(segs, counts, n, k as int, None));
        lemma_parts_prefix_suffix(t, counts, k as int, n);
        assert(segs.take(n) =~= segs);
        lemma_segments_cover(t);
    }
}

/// The parts of the first `k` segments, for a range `[s, e)` that lies
/// strictly inside segment `j`: nothing before `j`, then the cut of `j`.
proof fn lemma_parts_inside_one(
    segs: Seq<Seq<char>>,
    counts: Seq<nat>,
    k: int,
    j: int,
    s: int,
    e: int,
)
    requires
        0 <= j < segs.len(),
        counts.len() == segs.len(),
        0 <= k <= segs.len(),
        position_of(counts, j) < s < e < position_of(counts, j) + counts[j],
    ensures
        slice_parts(segs, counts, k, s, Some(e)) == if k <= j {
            Seq::<char>::empty()
        } else {
            extract_part(segs[j], position_of(counts, j), counts[j] as int, s, Some(e))
        },
    decreases k,
{
    if k > 0 {
        lemma_parts_inside_one(segs, counts, k - 1, j, s, e);
        let i = k - 1;
        let pos = position_of(counts, i);
        let part = extract_part(segs[i], pos, counts[i] as int, s, Some(e));
        if i < j {
            crate::slice::lemma_position_monotone(counts, i + 1, j);
            assert(part =~= Seq::<char>::empty());
        } else if i > j {
            crate::slice::lemma_position_monotone(counts, j + 1, i);
            assert(part =~= Seq::<char>::empty());
        }
        assert(slice_parts(segs, counts, k, s, Some(e)) =~= slice_parts(segs, counts, k - 1, s, Some(e))
            + part);
    }
}

/// A range `[s, e)` of token positions that lies strictly inside one segment
/// (of `count` tokens, starting at token `pos`, `len` UTF-16 units long) is
/// cut from that segment alone, in proportion: from unit
/// `floor((s - pos) * len / count)` to unit `ceil((e - pos) * len / count)`.
pub proof fn law_slice_inside_one_segment(
    t: Seq<char>,
    s: i64,
    e: i64,
    rules: Seq<LanguageRule>,
    rate: CharsPerToken,
    j: int,
)
    requires
        0 <= j < segments(t).len(),
        position_of(seg_counts(segments(t), rules, rate), j) < s,
        s < e,
        e < position_of(seg_counts(segments(t), rules, rate), j) + seg_counts(
            segments(t),
            rules,
            rate,
        )[j],
    ensures
        ({
            let seg = segments(t)[j];
            let pos = position_of(seg_counts(segments(t), rules, rate), j);
            let count = seg_counts(segments(t), rules, rate)[j] as int;
            let len = utf16_length(seg) as int;
            slice_spec(t, s, Some(e), rules, rate) == utf16_slice_spec(
                seg,
                ((s - pos) * len) / count,
                ((e - pos) * len + count - 1) / count,
            )
        }),
{
    let segs = segments(t);
    let counts = seg_counts(segs, rules, rate);
    let n = segs.len() as int;
    crate::slice::lemma_position_monotone(counts, 0, j);
    lemma_segments_cover(t);
    if t.len() == 0 {
        assert(segs.flatten() =~= Seq::<char>::empty());
        assert(segs.len() > 0);
        segs.lemma_flatten_length_ge_single_element_length(j);
        crate::laws::law_segments_nonempty_and_uniform(t);
    }
    lemma_parts_inside_one(segs, counts, n, j, s as int, e as int);
}

/// Segment `j` spans token positions `[pos, pos + count)` with `count > 0`.
spec fn spans_tokens(counts: Seq<nat>, j: int, pos: int, count: int) -> bool {
    pos == position_of(counts, j) && count == counts[j] && count > 0
}

/// Starting inside segment `j` rather than at its end adds, in front, the
/// tail of segment `j` from the proportional start cut.
proof fn lemma_parts_start_inside(
    segs: Seq<Seq<char>>,
    counts: Seq<nat>,
    k: int,
    j: int,
    s: int,
    end: Option<int>,
)
    requires
        0 <= j < segs.len(),
        counts.len() == segs.len(),
        0 <= k <= segs.len(),
        position_of(counts, j) < s < position_of(counts, j) + counts[j],
        match end {
            None => true,
            Some(e) => e >= position_of(counts, j) + counts[j],
        },
    ensures
        k <= j ==> slice_parts(segs, counts, k, s, end) == Seq::<char>::empty()
            && slice_parts(segs, counts, k, position_of(counts, j) + counts[j], end)
            == Seq::<char>::empty(),
        k > j ==> slice_parts(segs, counts, k, s, end) == {
            extract_part(segs[j], position_of(counts, j), counts[j] as int, s, end) + slice_parts(
                segs,
                counts,
                k,
                position_of(counts, j) + counts[j],
                end,
            )
        },
    decreases k,
{
    let s2 = position_of(counts, j) + counts[j];
    if k > 0 {
        lemma_parts_start_inside(segs, counts, k - 1, j, s, end);
        let i = k - 1;
        let pos = position_of(counts, i);
        let a = extract_part(segs[i], pos, counts[i] as int, s, end);
        let b = extract_part(segs[i], pos, counts[i] as int, s2, end);
        if i < j {
            crate::slice::lemma_position_monotone(counts, i + 1, j);
            assert(a =~= Seq::<char>::empty());
            assert(b =~= Seq::<char>::empty());
        } else if i > j {
            crate::slice::lemma_position_monotone(counts, j + 1, i);
            assert(a == b);
        } else {
            assert(b =~= Seq::<char>::empty());
        }
        assert(slice_parts(segs, counts, k, s, end) =~= slice_parts(segs, counts, k - 1, s, end)
            + a);
        assert(slice_parts(segs, counts, k, s2, end) =~= slice_parts(segs, counts, k - 1, s2, end)
            + b);
        if i > j {
            assert((extract_part(segs[j], position_of(counts, j), counts[j] as int, s, end)
                + slice_parts(segs, counts, k - 1, s2, end)) + a =~= extract_part(
                segs[j],
                position_of(counts, j),
                counts[j] as int,
                s,
                end,
            ) + (slice_parts(segs, counts, k - 1, s2, end) + b));
        } else if i == j {
            assert(slice_parts(segs, counts, k - 1, s, end) + a =~= a + slice_parts(
                segs,
                counts,
                k - 1,
                s2,
                end,
            ) + b);
        } else {
            assert(slice_parts(segs, counts, k, s, end) =~= Seq::<char>::empty());
            assert(slice_parts(segs, counts, k, s2, end) =~= Seq::<char>::empty());
        }
    }
}

/// A range that starts inside segment `j` (at token `s`, with `pos < s <
/// pos + count`) and reaches at least its end gives the tail of segment `j`
/// from UTF-16 unit `floor((s - pos) * len / count)`, followed by exactly what
/// the range starting at the segment's end gives.
pub proof fn law_slice_start_inside_segment(
    t: Seq<char>,
    s: i64,
    end: Option<i64>,
    rules: Seq<LanguageRule>,
    rate: CharsPerToken,
    j: int,
    s2: i64,
)
    requires
        0 <= j < segments(t).len(),
        position_of(seg_counts(segments(t), rules, rate), j) < s,
        s2 == position_of(seg_counts(segments(t), rules, rate), j) + seg_counts(
            segments(t),
            rules,
            rate,
        )[j],
        s < s2,
        match end {
            None => true,
            Some(e) => e >= s2,
        },
    ensures
        ({
            let seg = segments(t)[j];
            let pos = position_of(seg_counts(segments(t), rules, rate), j);
            let count = seg_counts(segments(t), rules, rate)[j] as int;
            let len = utf16_length(seg) as int;
            slice_spec(t, s, end, rules, rate) == utf16_slice_spec(
                seg,
                ((s - pos) * len) / count,
                len,
            ) + slice_spec(t, s2, end, rules, rate)
        }),
{
    let segs = segments(t);
    let counts = seg_counts(segs, rules, rate);
    let n = segs.len() as int;
    let pos = position_of(counts, j);
    let count = counts[j] as int;
    let seg = segs[j];
    let len = utf16_length(seg) as int;
    crate::slice::lemma_position_monotone(counts, 0, j);
    lemma_segments_cover(t);
    crate::laws::law_segments_nonempty_and_uniform(t);
    segs.lemma_flatten_length_ge_single_element_length(j);
    let re = match end {
        None => None::<int>,
        Some(e) => Some(e as int),
    };
    lemma_parts_start_inside(segs, counts, n, j, s as int, re);
    lemma_floor_le_ceil(s - pos, len, count);
    if end is Some {
        if end->0 == s2 {
            lemma_parts_empty_from(segs, counts, n, j, s2 as int);
        }
    }
}

/// From the end of segment `j` on, a range that ends there gives nothing.
proof fn lemma_parts_empty_from(segs: Seq<Seq<char>>, counts: Seq<nat>, k: int, j: int, e: int)
    requires
        0 <= j < segs.len(),
        counts.len() == segs.len(),
        0 <= k <= segs.len(),
        e == position_of(counts, j) + counts[j],
    ensures
        slice_parts(segs, counts, k, e, Some(e)) == Seq::<char>::empty(),
    decreases k,
{
    if k > 0 {
        lemma_parts_empty_from(segs, counts, k - 1, j, e);
        let i = k - 1;
        if i < j {
            crate::slice::lemma_position_monotone(counts, i + 1, j);
        } else if i > j {
            crate::slice::lemma_position_monotone(counts, j + 1, i);
        }
        assert(extract_part(segs[i], position_of(counts, i), counts[i] as int, e, Some(e))
            =~= Seq::<char>::empty());
        assert(slice_parts(segs, counts, k, e, Some(e)) =~= Seq::<char>::empty());
    }
}

/// Ending inside segment `j` rather than at its end replaces segment `j` by
/// its head up to the proportional end cut.
proof fn lemma_parts_end_inside(
    segs: Seq<Seq<char>>,
    counts: Seq<nat>,
    k: int,
    j: int,
    st: int,
    e: int,
)
    requires
        0 <= j < segs.len(),
        counts.len() == segs.len(),
        0 <= k <= segs.len(),
        0 <= st <= position_of(counts, j) < e < position_of(counts, j) + counts[j],
    ensures
        k <= j ==> slice_parts(segs, counts, k, st, Some(e)) == slice_parts(
            segs,
            counts,
            k,
            st,
            Some(position_of(counts, j) + counts[j]),
        ),
        k > j ==> slice_parts(segs, counts, k, st, Some(e)) == slice_parts(
            segs,
            counts,
            j,
            st,
            Some(position_of(counts, j) + counts[j]),
        ) + extract_part(segs[j], position_of(counts, j), counts[j] as int, st, Some(e)),
        k > j ==> slice_parts(
            segs,
            counts,
            k,
            st,
            Some(position_of(counts, j) + counts[j]),
        ) == slice_parts(segs, counts, j, st, Some(position_of(counts, j) + counts[j]))
            + segs[j],
    decreases k,
{
    let e2 = position_of(counts, j) + counts[j];
    if k > 0 {
        lemma_parts_end_inside(segs, counts, k - 1, j, st, e);
        let i = k - 1;
        let pos = position_of(counts, i);
        let a = extract_part(segs[i], pos, counts[i] as int, st, Some(e));
        let b = extract_part(segs[i], pos, counts[i] as int, st, Some(e2));
        crate::slice::lemma_position_monotone(counts, 0, i);
        if i < j {
            crate::slice::lemma_position_monotone(counts, i + 1, j);
            assert(a == b);
        } else if i > j {
            crate::slice::lemma_position_monotone(counts, j + 1, i);
            assert(a =~= Seq::<char>::empty());
            assert(b =~= Seq::<char>::empty());
        } else {
            assert(b == segs[j]);
        }
        assert(slice_parts(segs, counts, k, st, Some(e)) =~= slice_parts(
            segs,
            counts,
            k - 1,
            st,
            Some(e),
        ) + a);
        assert(slice_parts(segs, counts, k, st, Some(e2)) =~= slice_parts(
            segs,
            counts,
            k - 1,
            st,
            Some(e2),
        ) + b);
    }
}

/// A range that starts at or before segment `j` (at token `st >= 0`) and
/// ends inside it (at token `e`, with `pos < e < pos + count`) gives what
/// the range ending at the segment's end gives, with segment `j` cut down to
/// its head of `ceil((e - pos) * len / count)` UTF-16 units.
pub proof fn law_slice_end_inside_segment(
    t: Seq<char>,
    st: i64,
    e: i64,
    rules: Seq<LanguageRule>,
    rate: CharsPerToken,
    j: int,
    e2: i64,
)
    requires
        0 <= j < segments(t).len(),
        0 <= st <= position_of(seg_counts(segments(t), rules, rate), j),
        position_of(seg_counts(segments(t), rules, rate), j) < e,
        e2 == position_of(seg_counts(segments(t), rules, rate), j) + seg_counts(
            segments(t),
            rules,
            rate,
        )[j],
        e < e2,
    ensures
        exists|p: Seq<char>|
            slice_spec(t, st, Some(e2), rules, rate) == #[trigger] (p + segments(t)[j])
                && slice_spec(t, st, Some(e), rules, rate) == p + utf16_slice_spec(
                segments(t)[j],
                0,
                ((e - position_of(seg_counts(segments(t), rules, rate), j)) * utf16_length(
                    segments(t)[j],
                ) + seg_counts(segments(t), rules, rate)[j] - 1) / (seg_counts(
                    segments(t),
                    rules,
                    rate,
                )[j] as int),
            ),
{
    let segs = segments(t);
    let counts = seg_counts(segs, rules, rate);
    let n = segs.len() as int;
    let pos = position_of(counts, j);
    let count = counts[j] as int;
    let seg = segs[j];
    let len = utf16_length(seg) as int;
    crate::slice::lemma_position_monotone(counts, 0, j);
    lemma_segments_cover(t);
    crate::laws::law_segments_nonempty_and_uniform(t);
    segs.lemma_flatten_length_ge_single_element_length(j);
    lemma_parts_end_inside(segs, counts, n, j, st as int, e as int);
    let p = slice_parts(segs, counts, j, st as int, Some(e2 as int));
    assert(0 * len == 0);
    assert(slice_spec(t, st, Some(e2), rules, rate) == p + seg);
    assert(slice_spec(t, st, Some(e), rules, rate) == p + utf16_slice_spec(
        seg,
        0,
        ((e - pos) * len + count - 1) / count,
    ));
}

} // verus!
