//! Counting tokens: per segment, then over a whole text.

use vstd::prelude::*;
use crate::language::{
    rate_for, rate_for_range, rules_view, tokens_at_rate, tokens_at_rate_exec, CharsPerToken,
    LanguageConfig, LanguageRule,
};
use crate::patterns::{
    all_space, cjk_char, has_cjk, has_punct, is_cjk, is_number, is_punct, is_space, punct_char,
    space_char,
};
use crate::segment::{
    lemma_spans_from_within, number_at, segment_spans, segment_spans_exec, segments, span_text,
    spans_view, spans_within,
};
use crate::text::{encode_utf16, utf16_length};

verus! {

/// Segments at or below this UTF-16 length count as one token.
pub const SHORT_TOKEN_THRESHOLD: usize = 3;

/// Tokens in one segment. The rules apply in order and the first that fits
/// decides:
/// 1. whitespace only: 0;
/// 2. holds a CJK character: one token per code point;
/// 3. a whole number: 1;
/// 4. UTF-16 length at most 3: 1;
/// 5. holds punctuation: half the UTF-16 length, rounded up;
/// 6. otherwise the UTF-16 length over the rate of the first language rule
///    that recognizes the segment (else `rate`), rounded up and capped at
///    `u64::MAX`.
pub open spec fn segment_tokens(seg: Seq<char>, rules: Seq<LanguageRule>, rate: CharsPerToken) -> nat {
    let len = utf16_length(seg);
    if all_space(seg) {
        0
    } else if has_cjk(seg) {
        seg.len()
    } else if is_number(seg) {
        1
    } else if len <= 3 {
        1
    } else if has_punct(seg) {
        (len + 1) / 2
    } else {
        tokens_at_rate(len, rate_for(seg, rules, rate))
    }
}

/// The sum of the token counts of `segs`.
pub open spec fn token_sum(segs: Seq<Seq<char>>, rules: Seq<LanguageRule>, rate: CharsPerToken) -> nat
    decreases segs.len(),
{
    if segs.len() == 0 {
        0
    } else {
        token_sum(segs.drop_last(), rules, rate) + segment_tokens(segs.last(), rules, rate)
    }
}

/// `x`, capped at `u64::MAX`.
pub open spec fn cap(x: nat) -> nat {
    if x > u64::MAX {
        u64::MAX as nat
    } else {
        x
    }
}

/// The token estimate of `t`: the sum over its segments, capped at
/// `u64::MAX`.
pub open spec fn text_tokens(t: Seq<char>, rules: Seq<LanguageRule>, rate: CharsPerToken) -> nat {
    cap(token_sum(segments(t), rules, rate))
}

pub proof fn lemma_utf16_length_bound(s: Seq<char>)
    ensures
        s.len() <= utf16_length(s) <= 2 * s.len(),
    decreases s.len(),
{
    if s.len() > 0 {
        lemma_utf16_length_bound(s.drop_last());
    }
}

pub fn all_space_range(t: &[char], a: usize, b: usize) -> (r: bool)
    requires
        a <= b <= t@.len(),
    ensures
        r == all_space(t@.subrange(a as int, b as int)),
{
    let ghost s = t@.subrange(a as int, b as int);
    if a == b {
        return false;
    }
    let mut i = a;
    while i < b
        invariant
            a <= i <= b <= t@.len(),
            s == t@.subrange(a as int, b as int),
            forall|m: int| 0 <= m < i - a ==> #[trigger] is_space(s[m]),
        decreases b - i,
    {
        if !space_char(t[i]) {
            assert(!is_space(s[i - a]));
            return false;
        }
        i = i + 1;
    }
    true
}

pub fn has_cjk_range(t: &[char], a: usize, b: usize) -> (r: bool)
    requires
        a <= b <= t@.len(),
    ensures
        r == has_cjk(t@.subrange(a as int, b as int)),
{
    let ghost s = t@.subrange(a as int, b as int);
    let mut i = a;
    while i < b
        invariant
            a <= i <= b <= t@.len(),
            s == t@.subrange(a as int, b as int),
            forall|m: int| 0 <= m < i - a ==> !#[trigger] is_cjk(s[m]),
        decreases b - i,
    {
        if cjk_char(t[i]) {
            assert(is_cjk(s[i - a]));
            return true;
        }
        i = i + 1;
    }
    false
}

pub fn has_punct_range(t: &[char], a: usize, b: usize) -> (r: bool)
    requires
        a <= b <= t@.len(),
    ensures
        r == has_punct(t@.subrange(a as int, b as int)),
{
    let ghost s = t@.subrange(a as int, b as int);
    let mut i = a;
    while i < b
        invariant
            a <= i <= b <= t@.len(),
            s == t@.subrange(a as int, b as int),
            forall|m: int| 0 <= m < i - a ==> !#[trigger] is_punct(s[m]),
        decreases b - i,
    {
        if punct_char(t[i]) {
            assert(is_punct(s[i - a]));
            return true;
        }
        i = i + 1;
    }
    false
}

/// UTF-16 length of `t[a..b]`.
fn utf16_length_range(t: &[char], a: usize, b: usize) -> (n: u128)
    requires
        a <= b <= t@.len(),
    ensures
        n == utf16_length(t@.subrange(a as int, b as int)),
        n <= 2 * (b - a),
{
    let mut n: u128 = 0;
    let mut i = a;
    assert(encode_utf16(t@.subrange(a as int, a as int)) =~= Seq::<u16>::empty());
    while i < b
        invariant
            a <= i <= b <= t@.len(),
            n == utf16_length(t@.subrange(a as int, i as int)),
            n <= 2 * (i - a),
        decreases b - i,
    {
        let ghost s = t@.subrange(a as int, i + 1);
        proof {
            assert(s.drop_last() =~= t@.subrange(a as int, i as int));
        }
        if (t[i] as u32) < 0x10000 {
            n = n + 1;
        } else {
            n = n + 2;
        }
        i = i + 1;
    }
    n
}

/// Tokens in `t[a..b]`, by [`segment_tokens`].
pub fn segment_tokens_range(
    t: &[char],
    a: usize,
    b: usize,
    rules: &[LanguageConfig],
    rate: CharsPerToken,
) -> (n: u64)
    requires
        a <= b <= t@.len(),
    ensures
        n == segment_tokens(t@.subrange(a as int, b as int), rules_view(rules@), rate),
{
    if all_space_range(t, a, b) {
        return 0;
    }
    if has_cjk_range(t, a, b) {
        return (b - a) as u64;
    }
    if number_at(t, a, b) {
        return 1;
    }
    let len = utf16_length_range(t, a, b);
    if len <= SHORT_TOKEN_THRESHOLD as u128 {
        return 1;
    }
    if has_punct_range(t, a, b) {
        return ((len + 1) / 2) as u64;
    }
    let r = rate_for_range(t, a, b, rules, rate);
    tokens_at_rate_exec(len, r)
}

pub proof fn lemma_segments_index(t: Seq<char>, k: int)
    requires
        0 <= k < segment_spans(t).len(),
    ensures
        segments(t)[k] == span_text(t, segment_spans(t)[k]),
        segments(t).len() == segment_spans(t).len(),
{
}

/// The token estimate of `t`, by [`text_tokens`].
pub fn text_tokens_exec(t: &[char], rules: &[LanguageConfig], rate: CharsPerToken) -> (n: u64)
    ensures
        n == text_tokens(t@, rules_view(rules@), rate),
{
    let spans = segment_spans_exec(t);
    let ghost segs = segments(t@);
    proof {
        lemma_spans_from_within(t@, 0);
    }
    let mut acc: u64 = 0;
    let mut k: usize = 0;
    assert(segs.take(0) =~= Seq::<Seq<char>>::empty());
    while k < spans.len()
        invariant
            k <= spans@.len(),
            spans_view(spans@) == segment_spans(t@),
            segs == segments(t@),
            spans_within(segment_spans(t@), 0, t@.len() as int),
            acc == cap(token_sum(segs.take(k as int), rules_view(rules@), rate)),
        decreases spans@.len() - k,
    {
        let (a, b) = spans[k];
        proof {
            assert(segment_spans(t@)[k as int] == (a as int, b as int));
            lemma_segments_index(t@, k as int);
            assert(segs.take(k + 1).drop_last() =~= segs.take(k as int));
        }
        let n = segment_tokens_range(t, a, b, rules, rate);
        acc = acc.saturating_add(n);
        k = k + 1;
    }
    assert(segs.take(k as int) =~= segs);
    acc
}

} // verus!
