//! Joining two texts with a space: the space only merges into whitespace,
//! which counts no tokens, so the estimate of the joined text is the sum of
//! the two estimates.

use vstd::prelude::*;
use crate::estimate::{cap, segment_tokens, text_tokens, token_sum};
use crate::language::{CharsPerToken, LanguageRule};
use crate::patterns::{is_number, is_punct, is_space};
use crate::segment::{
    in_run, lemma_piece_spans_within, lemma_run_end, piece_spans, run_end, segment_spans,
    segments, span_text, spans_from, spans_within, word_spans, RunClass,
};

verus! {

/// The token counts of the spans `sps` of `t`, summed.
pub open spec fn span_tokens(t: Seq<char>, sps: Seq<(int, int)>, rules: Seq<LanguageRule>, rate: CharsPerToken) -> nat
    decreases sps.len(),
{
    if sps.len() == 0 {
        0
    } else {
        span_tokens(t, sps.drop_last(), rules, rate) + segment_tokens(
            span_text(t, sps.last()),
            rules,
            rate,
        )
    }
}

/// The spans `sps` moved `d` positions to the right.
pub open spec fn shift(sps: Seq<(int, int)>, d: int) -> Seq<(int, int)> {
    sps.map_values(|sp: (int, int)| (sp.0 + d, sp.1 + d))
}

proof fn lemma_token_sum_spans(t: Seq<char>, sps: Seq<(int, int)>, rules: Seq<LanguageRule>, rate: CharsPerToken)
    ensures
        token_sum(sps.map_values(|sp: (int, int)| span_text(t, sp)), rules, rate) == span_tokens(
            t,
            sps,
            rules,
            rate,
        ),
    decreases sps.len(),
{
    if sps.len() > 0 {
        let segs = sps.map_values(|sp: (int, int)| span_text(t, sp));
        assert(segs.drop_last() =~= sps.drop_last().map_values(|sp: (int, int)| span_text(t, sp)));
        lemma_token_sum_spans(t, sps.drop_last(), rules, rate);
    }
}

proof fn lemma_span_tokens_concat(
    t: Seq<char>,
    x: Seq<(int, int)>,
    y: Seq<(int, int)>,
    rules: Seq<LanguageRule>,
    rate: CharsPerToken,
)
    ensures
        span_tokens(t, x + y, rules, rate) == span_tokens(t, x, rules, rate) + span_tokens(
            t,
            y,
            rules,
            rate,
        ),
    decreases y.len(),
{
    if y.len() == 0 {
        assert(x + y =~= x);
    } else {
        assert((x + y).drop_last() =~= x + y.drop_last());
        lemma_span_tokens_concat(t, x, y.drop_last(), rules, rate);
    }
}

/// `t2` holds the characters of `t1[i..j]` at `d` positions further right.
pub open spec fn agree(t1: Seq<char>, t2: Seq<char>, i: int, j: int, d: int) -> bool {
    &&& 0 <= i <= j <= t1.len()
    &&& 0 <= i + d
    &&& j + d <= t2.len()
    &&& forall|x: int| i <= x < j ==> #[trigger] t1[x] == t2[x + d]
}

proof fn lemma_run_end_agree(t1: Seq<char>, t2: Seq<char>, i: int, hi: int, d: int, k: RunClass)
    requires
        agree(t1, t2, i, hi, d),
    ensures
        run_end(t2, i + d, hi + d, k) == run_end(t1, i, hi, k) + d,
    decreases hi - i,
{
    if i < hi {
        assert(t1[i] == t2[i + d]);
        if in_run(t1[i], k) {
            lemma_run_end_agree(t1, t2, i + 1, hi, d, k);
            assert(i + 1 + d == (i + d) + 1);
        }
    }
}

proof fn lemma_piece_spans_agree(t1: Seq<char>, t2: Seq<char>, i: int, j: int, d: int)
    requires
        agree(t1, t2, i, j, d),
    ensures
        piece_spans(t2, i + d, j + d) == shift(piece_spans(t1, i, j), d),
    decreases j - i,
{
    if i < j {
        assert(t1[i] == t2[i + d]);
        let k = if is_punct(t1[i]) {
            RunClass::Punct
        } else {
            RunClass::Plain
        };
        let e = run_end(t1, i, j, k);
        lemma_run_end_agree(t1, t2, i, j, d, k);
        lemma_run_end(t1, i, j, k);
        if i < e <= j {
            lemma_piece_spans_agree(t1, t2, e, j, d);
            assert(e + d - d == e);
            assert(shift(seq![(i, e)] + piece_spans(t1, e, j), d) =~= seq![(i + d, e + d)] + shift(
                piece_spans(t1, e, j),
                d,
            ));
        }
    } else {
        assert(shift(Seq::<(int, int)>::empty(), d) =~= Seq::<(int, int)>::empty());
    }
}

proof fn lemma_word_spans_agree(t1: Seq<char>, t2: Seq<char>, i: int, j: int, d: int)
    requires
        agree(t1, t2, i, j, d),
    ensures
        word_spans(t2, i + d, j + d) == shift(word_spans(t1, i, j), d),
        spans_within(word_spans(t1, i, j), i, j) || i == j,
{
    assert(t2.subrange(i + d, j + d) =~= t1.subrange(i, j));
    if is_number(t1.subrange(i, j)) {
        assert(shift(seq![(i, j)], d) =~= seq![(i + d, j + d)]);
        assert(t1.subrange(i, j).len() > 0);
    } else {
        lemma_piece_spans_agree(t1, t2, i, j, d);
        lemma_piece_spans_within(t1, i, j);
    }
}

proof fn lemma_span_tokens_agree(
    t1: Seq<char>,
    t2: Seq<char>,
    i: int,
    j: int,
    d: int,
    sps: Seq<(int, int)>,
    rules: Seq<LanguageRule>,
    rate: CharsPerToken,
)
    requires
        agree(t1, t2, i, j, d),
        spans_within(sps, i, j),
    ensures
        span_tokens(t2, shift(sps, d), rules, rate) == span_tokens(t1, sps, rules, rate),
    decreases sps.len(),
{
    if sps.len() > 0 {
        let sp = sps.last();
        assert(sp == sps[sps.len() - 1]);
        assert(shift(sps, d).drop_last() =~= shift(sps.drop_last(), d));
        assert(shift(sps, d).last() == (sp.0 + d, sp.1 + d));
        assert(span_text(t2, (sp.0 + d, sp.1 + d)) =~= span_text(t1, sp)) by {
            assert forall|x: int| 0 <= x < sp.1 - sp.0 implies span_text(t2, (sp.0 + d, sp.1 + d))[x]
                == span_text(t1, sp)[x] by {
                assert(t1[sp.0 + x] == t2[sp.0 + x + d]);
            }
        }
        assert(spans_within(sps.drop_last(), i, j)) by {
            assert forall|q: int| 0 <= q < sps.drop_last().len() implies i <= (
            #[trigger] sps.drop_last()[q]).0 < sps.drop_last()[q].1 <= j by {
                assert(sps.drop_last()[q] == sps[q]);
            }
        }
        lemma_span_tokens_agree(t1, t2, i, j, d, sps.drop_last(), rules, rate);
    } else {
        assert(shift(sps, d) =~= Seq::<(int, int)>::empty());
    }
}

/// A run that stops before `m` (or at a character of another class at `m`)
/// ends at the same place however far the bound reaches.
proof fn lemma_run_end_extend(t: Seq<char>, i: int, m: int, hi: int, k: RunClass)
    requires
        0 <= i <= m <= hi <= t.len(),
        run_end(t, i, m, k) < m || (m < hi && !in_run(t[m], k)) || m == hi,
    ensures
        run_end(t, i, hi, k) == run_end(t, i, m, k),
    decreases m - i,
{
    if i < m && in_run(t[i], k) {
        lemma_run_end_extend(t, i + 1, m, hi, k);
    }
}

/// A run whose characters before `m` are all of its class ends where the run
/// from `m` ends.
proof fn lemma_run_end_skip(t: Seq<char>, i: int, m: int, hi: int, k: RunClass)
    requires
        0 <= i <= m <= hi <= t.len(),
        forall|x: int| i <= x < m ==> in_run(#[trigger] t[x], k),
    ensures
        run_end(t, i, hi, k) == run_end(t, m, hi, k),
    decreases m - i,
{
    if i < m {
        assert(in_run(t[i], k));
        lemma_run_end_skip(t, i + 1, m, hi, k);
    }
}

/// The segments of `t[x + d..]` count as the segments of `u[x..]`, where `u`
/// is `t` without its first `d` characters.
proof fn lemma_shifted_tokens(
    t: Seq<char>,
    u: Seq<char>,
    d: int,
    x: int,
    rules: Seq<LanguageRule>,
    rate: CharsPerToken,
)
    requires
        0 <= d <= t.len(),
        u == t.skip(d),
        0 <= x <= u.len(),
    ensures
        span_tokens(t, spans_from(t, x + d), rules, rate) == span_tokens(
            u,
            spans_from(u, x),
            rules,
            rate,
        ),
    decreases u.len() - x,
{
    let lu = u.len() as int;
    let lt = t.len() as int;
    assert(lt == lu + d);
    assert(agree(u, t, x, lu, d)) by {
        assert forall|y: int| x <= y < lu implies #[trigger] u[y] == t[y + d] by {}
    }
    if x < lu {
        assert(u[x] == t[x + d]);
        let k = if is_space(u[x]) {
            RunClass::Space
        } else {
            RunClass::Word
        };
        let j = run_end(u, x, lu, k);
        lemma_run_end(u, x, lu, k);
        lemma_run_end(u, x + 1, lu, k);
        lemma_run_end_agree(u, t, x, lu, d, k);
        assert(run_end(t, x + d, lt, k) == j + d);
        let here_u = if is_space(u[x]) {
            seq![(x, j)]
        } else {
            word_spans(u, x, j)
        };
        let here_t = if is_space(u[x]) {
            seq![(x + d, j + d)]
        } else {
            word_spans(t, x + d, j + d)
        };
        assert(agree(u, t, x, j, d));
        if is_space(u[x]) {
            assert(shift(here_u, d) =~= here_t);
            assert(spans_within(here_u, x, j));
        } else {
            lemma_word_spans_agree(u, t, x, j, d);
        }
        lemma_span_tokens_agree(u, t, x, j, d, here_u, rules, rate);
        assert(spans_from(u, x) == here_u + spans_from(u, j));
        assert(spans_from(t, x + d) == here_t + spans_from(t, j + d));
        lemma_span_tokens_concat(u, here_u, spans_from(u, j), rules, rate);
        lemma_span_tokens_concat(t, here_t, spans_from(t, j + d), rules, rate);
        lemma_shifted_tokens(t, u, d, j, rules, rate);
    } else {
        assert(spans_from(u, x) =~= Seq::<(int, int)>::empty());
        assert(spans_from(t, x + d) =~= Seq::<(int, int)>::empty());
    }
}

/// A span of whitespace only counts no tokens.
proof fn lemma_space_span_tokens(t: Seq<char>, i: int, j: int, rules: Seq<LanguageRule>, rate: CharsPerToken)
    requires
        0 <= i < j <= t.len(),
        forall|x: int| i <= x < j ==> is_space(#[trigger] t[x]),
    ensures
        span_tokens(t, seq![(i, j)], rules, rate) == 0,
{
    let s = span_text(t, (i, j));
    assert forall|x: int| 0 <= x < s.len() implies #[trigger] is_space(s[x]) by {
        assert(s[x] == t[i + x]);
    }
    assert(crate::patterns::all_space(s));
    assert(segment_tokens(s, rules, rate) == 0);
    assert(seq![(i, j)].drop_last() =~= Seq::<(int, int)>::empty());
    assert(seq![(i, j)].last() == (i, j));
    assert(span_tokens(t, Seq::<(int, int)>::empty(), rules, rate) == 0);
}

/// In `t = a + " " + b`, the segments from position `i` of `a` on count as
/// those of `a` from `i`, plus those of `t` from the space on.
proof fn lemma_prefix_tokens(
    a: Seq<char>,
    b: Seq<char>,
    i: int,
    rules: Seq<LanguageRule>,
    rate: CharsPerToken,
)
    requires
        0 <= i <= a.len(),
    ensures
        ({
            let t = a + seq![' '] + b;
            span_tokens(t, spans_from(t, i), rules, rate) == span_tokens(
                a,
                spans_from(a, i),
                rules,
                rate,
            ) + span_tokens(t, spans_from(t, a.len() as int), rules, rate)
        }),
    decreases a.len() - i,
{
    let t = a + seq![' '] + b;
    let m = a.len() as int;
    let lt = t.len() as int;
    assert(t[m] == ' ');
    assert(is_space(t[m]));
    if i == m {
        assert(spans_from(a, m) =~= Seq::<(int, int)>::empty());
    } else {
        assert(agree(a, t, i, m, 0)) by {
            assert forall|x: int| i <= x < m implies #[trigger] a[x] == t[x + 0] by {}
        }
        assert(a[i] == t[i]);
        let k = if is_space(a[i]) {
            RunClass::Space
        } else {
            RunClass::Word
        };
        let ja = run_end(a, i, m, k);
        lemma_run_end(a, i, m, k);
        lemma_run_end(a, i + 1, m, k);
        lemma_run_end_agree(a, t, i, m, 0, k);
        assert(run_end(t, i, m, k) == ja);
        lemma_run_end(t, i, lt, k);
        lemma_run_end(t, i + 1, lt, k);
        if is_space(a[i]) && ja == m {
            lemma_run_end_skip(t, i, m, lt, k);
            let jm = run_end(t, m, lt, k);
            lemma_run_end(t, m, lt, k);
            lemma_run_end(t, m + 1, lt, k);
            assert(jm > m);
            assert(spans_from(a, i) == seq![(i, m)] + spans_from(a, m));
            assert(spans_from(a, m) =~= Seq::<(int, int)>::empty());
            assert(seq![(i, m)] + spans_from(a, m) =~= seq![(i, m)]);
            lemma_space_span_tokens(a, i, m, rules, rate);
            assert(spans_from(t, i) == seq![(i, jm)] + spans_from(t, jm));
            assert(spans_from(t, m) == seq![(m, jm)] + spans_from(t, jm));
            lemma_space_span_tokens(t, i, jm, rules, rate);
            lemma_space_span_tokens(t, m, jm, rules, rate);
            lemma_span_tokens_concat(t, seq![(i, jm)], spans_from(t, jm), rules, rate);
            lemma_span_tokens_concat(t, seq![(m, jm)], spans_from(t, jm), rules, rate);
        } else {
            lemma_run_end_extend(t, i, m, lt, k);
            assert(run_end(t, i, lt, k) == ja);
            let here_a = if is_space(a[i]) {
                seq![(i, ja)]
            } else {
                word_spans(a, i, ja)
            };
            let here_t = if is_space(a[i]) {
                seq![(i, ja)]
            } else {
                word_spans(t, i, ja)
            };
            assert(agree(a, t, i, ja, 0));
            if is_space(a[i]) {
                assert(spans_within(here_a, i, ja));
            } else {
                lemma_word_spans_agree(a, t, i, ja, 0);
            }
            assert(shift(here_a, 0) =~= here_a);
            assert(here_t == here_a);
            lemma_span_tokens_agree(a, t, i, ja, 0, here_a, rules, rate);
            assert(spans_from(a, i) == here_a + spans_from(a, ja));
            assert(spans_from(t, i) == here_t + spans_from(t, ja));
            lemma_span_tokens_concat(a, here_a, spans_from(a, ja), rules, rate);
            lemma_span_tokens_concat(t, here_t, spans_from(t, ja), rules, rate);
            lemma_prefix_tokens(a, b, ja, rules, rate);
        }
    }
}

/// In `t = a + " " + b`, the segments of `t` from the space on count as the
/// segments of `b`.
proof fn lemma_suffix_tokens(a: Seq<char>, b: Seq<char>, rules: Seq<LanguageRule>, rate: CharsPerToken)
    ensures
        ({
            let t = a + seq![' '] + b;
            span_tokens(t, spans_from(t, a.len() as int), rules, rate) == span_tokens(
                b,
                spans_from(b, 0),
                rules,
                rate,
            )
        }),
{
    let t = a + seq![' '] + b;
    let m = a.len() as int;
    let lt = t.len() as int;
    let lb = b.len() as int;
    let d = m + 1;
    assert(t[m] == ' ');
    assert(is_space(t[m]));
    assert(b =~= t.skip(d));
    assert(agree(b, t, 0, lb, d)) by {
        assert forall|x: int| 0 <= x < lb implies #[trigger] b[x] == t[x + d] by {}
    }
    let sp = RunClass::Space;
    lemma_run_end_skip(t, m, m + 1, lt, sp);
    let jm = run_end(t, m, lt, sp);
    lemma_run_end(t, m, lt, sp);
    lemma_run_end(t, m + 1, lt, sp);
    assert(spans_from(t, m) == seq![(m, jm)] + spans_from(t, jm));
    lemma_space_span_tokens(t, m, jm, rules, rate);
    lemma_span_tokens_concat(t, seq![(m, jm)], spans_from(t, jm), rules, rate);
    lemma_run_end_agree(b, t, 0, lb, d, sp);
    if lb > 0 && is_space(b[0]) {
        let jb = run_end(b, 0, lb, sp);
        lemma_run_end(b, 0, lb, sp);
        lemma_run_end(b, 1, lb, sp);
        assert(jm == jb + d);
        assert(spans_from(b, 0) == seq![(0, jb)] + spans_from(b, jb));
        lemma_space_span_tokens(b, 0, jb, rules, rate);
        lemma_span_tokens_concat(b, seq![(0, jb)], spans_from(b, jb), rules, rate);
        lemma_shifted_tokens(t, b, d, jb, rules, rate);
    } else {
        if lb > 0 {
            assert(t[m + 1] == b[0]);
        }
        assert(jm == d);
        lemma_shifted_tokens(t, b, d, 0, rules, rate);
    }
}

proof fn lemma_text_span_tokens(t: Seq<char>, rules: Seq<LanguageRule>, rate: CharsPerToken)
    ensures
        token_sum(segments(t), rules, rate) == span_tokens(t, segment_spans(t), rules, rate),
{
    lemma_token_sum_spans(t, segment_spans(t), rules, rate);
    assert(segments(t) =~= segment_spans(t).map_values(|sp: (int, int)| span_text(t, sp)));
}

/// Joining two texts with a space adds their estimates (capped at
/// `u64::MAX`): the space only merges into whitespace, which counts no
/// tokens, and the words on either side stay as they were.
pub proof fn law_join_with_space(a: Seq<char>, b: Seq<char>, rules: Seq<LanguageRule>, rate: CharsPerToken)
    ensures
        text_tokens(a + seq![' '] + b, rules, rate) == cap(
            text_tokens(a, rules, rate) + text_tokens(b, rules, rate),
        ),
{
    let t = a + seq![' '] + b;
    lemma_text_span_tokens(t, rules, rate);
    lemma_text_span_tokens(a, rules, rate);
    lemma_text_span_tokens(b, rules, rate);
    lemma_prefix_tokens(a, b, 0, rules, rate);
    lemma_suffix_tokens(a, b, rules, rate);
}

} // verus!
