//! Extracting a range of token positions from a text.

use vstd::prelude::*;
use crate::estimate::{lemma_segments_index, segment_tokens_range, text_tokens};
use crate::language::{rules_view, CharsPerToken, LanguageConfig, LanguageRule};
use crate::segment::{
    lemma_spans_from_within, segment_spans, segment_spans_exec, segments, spans_view,
    spans_within,
};
use crate::split::seg_counts;
use crate::text::{
    decode_utf16_range, encode_utf16, encode_utf16_into, utf16_length, utf16_slice_spec,
};

verus! {

/// A start position resolved against the total: a negative start counts
/// from the end and clamps at 0.
pub open spec fn resolve_start(start: int, total: int) -> int {
    if start < 0 {
        if total + start > 0 {
            total + start
        } else {
            0
        }
    } else {
        start
    }
}

/// An end position resolved against the total; `None` is no end.
pub open spec fn resolve_end(end: Option<i64>, total: int) -> Option<int> {
    match end {
        None => None,
        Some(e) => if e < 0 {
            Some(
                if total + e > 0 {
                    total + e
                } else {
                    0
                },
            )
        } else {
            Some(e as int)
        },
    }
}

/// `p` lies before the end `e`.
pub open spec fn before_end(p: int, e: Option<int>) -> bool {
    match e {
        None => true,
        Some(x) => p < x,
    }
}

/// The part of the segment `seg`, which covers token positions
/// `[pos, pos + count)`, that falls in `[start, end)`.
///
/// A segment of no tokens is kept whole when `pos` lies in the range. A
/// segment inside the range is kept whole; one that overlaps it in part is
/// cut in proportion to its UTF-16 length, the start rounded down and the
/// end rounded up, with exact integer arithmetic.
pub open spec fn extract_part(seg: Seq<char>, pos: int, count: int, start: int, end: Option<int>) -> Seq<char> {
    if count == 0 {
        if start <= pos && before_end(pos, end) {
            seg
        } else {
            seq![]
        }
    } else if !before_end(pos, end) || pos + count <= start {
        seq![]
    } else {
        let os = if start > pos {
            start - pos
        } else {
            0
        };
        let oe = match end {
            None => count,
            Some(e) => if e - pos < count {
                e - pos
            } else {
                count
            },
        };
        if os == 0 && oe == count {
            seg
        } else {
            let len = utf16_length(seg) as int;
            utf16_slice_spec(seg, (os * len) / count, (oe * len + count - 1) / count)
        }
    }
}

/// The token position at which segment `k` starts: the sum of the counts
/// before it.
pub open spec fn position_of(counts: Seq<nat>, k: int) -> int
    decreases k,
{
    if k <= 0 {
        0
    } else {
        position_of(counts, k - 1) + counts[k - 1]
    }
}

/// The parts of the first `k` segments that fall in `[start, end)`, joined.
pub open spec fn slice_parts(
    segs: Seq<Seq<char>>,
    counts: Seq<nat>,
    k: int,
    start: int,
    end: Option<int>,
) -> Seq<char>
    decreases k,
{
    if k <= 0 {
        seq![]
    } else {
        slice_parts(segs, counts, k - 1, start, end) + extract_part(
            segs[k - 1],
            position_of(counts, k - 1),
            counts[k - 1] as int,
            start,
            end,
        )
    }
}

/// The text that covers token positions `[start, end)` of `t`. Negative
/// positions count from the end of the estimate; no `end` means the end of
/// the text; a start at or past the end gives the empty string.
pub open spec fn slice_spec(
    t: Seq<char>,
    start: i64,
    end: Option<i64>,
    rules: Seq<LanguageRule>,
    rate: CharsPerToken,
) -> Seq<char> {
    let total = text_tokens(t, rules, rate) as int;
    let s = resolve_start(start as int, total);
    let e = resolve_end(end, total);
    if t.len() == 0 || !before_end(s, e) {
        seq![]
    } else {
        let segs = segments(t);
        slice_parts(segs, seg_counts(segs, rules, rate), segs.len() as int, s, e)
    }
}

pub proof fn lemma_cut_bounds(os: int, oe: int, len: int, count: int)
    requires
        0 <= os <= count,
        0 <= oe <= count,
        count > 0,
        0 <= len,
    ensures
        0 <= (os * len) / count <= len,
        0 <= (oe * len + count - 1) / count <= len,
{
    assert(0 <= (os * len) / count <= len) by (nonlinear_arith)
        requires
            0 <= os <= count,
            count > 0,
            0 <= len,
    ;
    assert(0 <= (oe * len + count - 1) / count <= len) by (nonlinear_arith)
        requires
            0 <= oe <= count,
            count > 0,
            0 <= len,
    ;
}

/// The part of the segment `t[a..b]` that falls in `[start, end)`, by
/// [`extract_part`].
fn extract_segment_part(
    t: &[char],
    a: usize,
    b: usize,
    pos: u128,
    count: u64,
    start: u128,
    end: Option<u128>,
) -> (r: String)
    requires
        a <= b <= t@.len(),
        pos + count <= u128::MAX,
        start <= u64::MAX,
    ensures
        r@ == extract_part(
            t@.subrange(a as int, b as int),
            pos as int,
            count as int,
            start as int,
            match end {
                None => None,
                Some(e) => Some(e as int),
            },
        ),
{
    let ghost seg = t@.subrange(a as int, b as int);
    let before = match end {
        None => true,
        Some(e) => pos < e,
    };
    if count == 0 {
        if start <= pos && before {
            return crate::text::string_of(t, a, b);
        } else {
            return String::new();
        }
    }
    let c = count as u128;
    if !before || pos + c <= start {
        return String::new();
    }
    let os: u128 = if start > pos {
        start - pos
    } else {
        0
    };
    let oe: u128 = match end {
        None => c,
        Some(e) => if e - pos < c {
            e - pos
        } else {
            c
        },
    };
    if os == 0 && oe == c {
        return crate::text::string_of(t, a, b);
    }
    let mut units: Vec<u16> = Vec::new();
    encode_utf16_into(t, a, b, &mut units);
    assert(units@ =~= encode_utf16(seg));
    let len = units.len() as u128;
    assert(os * len <= u64::MAX * usize::MAX) by (nonlinear_arith)
        requires
            os <= c,
            c <= u64::MAX,
            len <= usize::MAX,
    ;
    assert(oe * len <= u64::MAX * usize::MAX) by (nonlinear_arith)
        requires
            oe <= c,
            c <= u64::MAX,
            len <= usize::MAX,
    ;
    let cs = (os * len) / c;
    let ce = (oe * len + c - 1) / c;
    proof {
        lemma_cut_bounds(os as int, oe as int, len as int, c as int);
    }
    let cs = cs as usize;
    let ce = ce as usize;
    let n = units.len();
    let x = if cs < n {
        cs
    } else {
        n
    };
    let y = if ce < n {
        ce
    } else {
        n
    };
    if x >= y {
        return String::new();
    }
    decode_utf16_range(units.as_slice(), x, y)
}

} // verus!

verus! {

pub proof fn lemma_position_monotone(counts: Seq<nat>, j: int, k: int)
    requires
        0 <= j <= k,
    ensures
        position_of(counts, j) <= position_of(counts, k),
    decreases k - j,
{
    if j < k {
        lemma_position_monotone(counts, j, k - 1);
    }
}

proof fn lemma_slice_parts_past_end(
    segs: Seq<Seq<char>>,
    counts: Seq<nat>,
    k: int,
    n: int,
    s: int,
    x: int,
)
    requires
        0 <= k <= n,
        position_of(counts, k) >= x,
    ensures
        slice_parts(segs, counts, n, s, Some(x)) == slice_parts(segs, counts, k, s, Some(x)),
    decreases n - k,
{
    if k < n {
        lemma_slice_parts_past_end(segs, counts, k, n - 1, s, x);
        lemma_position_monotone(counts, k, n - 1);
        assert(extract_part(segs[n - 1], position_of(counts, n - 1), counts[n - 1] as int, s, Some(x))
            =~= Seq::<char>::empty());
        assert(slice_parts(segs, counts, n, s, Some(x)) =~= slice_parts(segs, counts, n - 1, s, Some(x)));
    }
}

/// The text covering token positions `[start, end)` of `t`, by
/// [`slice_spec`].
pub fn slice_chars(
    t: &[char],
    start: i64,
    end: Option<i64>,
    rules: &[LanguageConfig],
    rate: CharsPerToken,
) -> (r: String)
    ensures
        r@ == slice_spec(t@, start, end, rules_view(rules@), rate),
{
    if t.len() == 0 {
        return String::new();
    }
    let ghost total_spec = text_tokens(t@, rules_view(rules@), rate) as int;
    let needs_total = start < 0 || match end {
        Some(e) => e < 0,
        None => false,
    };
    let total: u64 = if needs_total {
        crate::estimate::text_tokens_exec(t, rules, rate)
    } else {
        0
    };
    let s: u128 = if start < 0 {
        let v = total as i128 + start as i128;
        if v > 0 {
            v as u128
        } else {
            0
        }
    } else {
        start as u128
    };
    let e: Option<u128> = match end {
        None => None,
        Some(x) => if x < 0 {
            let v = total as i128 + x as i128;
            Some(
                if v > 0 {
                    v as u128
                } else {
                    0
                },
            )
        } else {
            Some(x as u128)
        },
    };
    let ghost es: Option<int> = match e {
        None => None,
        Some(x) => Some(x as int),
    };
    assert(s == resolve_start(start as int, total_spec));
    assert(es == resolve_end(end, total_spec));
    match e {
        Some(x) => {
            if s >= x {
                return String::new();
            }
        },
        None => {},
    }
    let spans = segment_spans_exec(t);
    let ghost segs = segments(t@);
    let ghost counts = seg_counts(segs, rules_view(rules@), rate);
    proof {
        lemma_spans_from_within(t@, 0);
    }
    let n = spans.len();
    let mut out = String::new();
    let mut pos: u128 = 0;
    let mut k: usize = 0;
    while k < n
        invariant_except_break
            k <= n == spans@.len(),
            n <= usize::MAX,
            spans_view(spans@) == segment_spans(t@),
            spans_within(segment_spans(t@), 0, t@.len() as int),
            segs == segments(t@),
            segs.len() == n,
            counts == seg_counts(segs, rules_view(rules@), rate),
            s <= u64::MAX,
            pos == position_of(counts, k as int),
            pos <= k * 0xFFFF_FFFF_FFFF_FFFF,
            out@ == slice_parts(segs, counts, k as int, s as int, es),
            es == (match e {
                None => None,
                Some(x) => Some(x as int),
            }),
        ensures
            out@ == slice_parts(segs, counts, n as int, s as int, es),
        decreases n - k,
    {
        match e {
            Some(x) => {
                if pos >= x {
                    proof {
                        lemma_slice_parts_past_end(segs, counts, k as int, n as int, s as int, x as int);
                    }
                    break;
                }
            },
            None => {},
        }
        let (a, b) = spans[k];
        proof {
            assert(segment_spans(t@)[k as int] == (a as int, b as int));
            lemma_segments_index(t@, k as int);
        }
        let c = segment_tokens_range(t, a, b, rules, rate);
        assert(pos + c <= (k + 1) * 0xFFFF_FFFF_FFFF_FFFF);
        assert((k + 1) * 0xFFFF_FFFF_FFFF_FFFF <= 0xFFFF_FFFF_FFFF_FFFF * 0xFFFF_FFFF_FFFF_FFFF)
            by (nonlinear_arith)
            requires
                k + 1 <= n,
                n <= usize::MAX,
        ;
        let part = extract_segment_part(t, a, b, pos, c, s, e);
        out.append(part.as_str());
        pos = pos + c as u128;
        k = k + 1;
    }
    out
}

} // verus!
