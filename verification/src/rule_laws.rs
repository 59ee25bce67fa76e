//! What the segment rules say, over all inputs: the first matching language
//! rule decides a segment's rate; a segment that holds a character of the CJK
//! blocks counts one token per code point, wherever that character stands;
//! and the punctuation characters form segments of their own.

use vstd::prelude::*;
use crate::estimate::segment_tokens;
use crate::language::{rate_for, rule_matches, CharsPerToken, LanguageRule};
use crate::patterns::{all_space, has_cjk, is_cjk, is_number, is_punct, is_space};
use crate::segment::{
    in_run, lemma_run_end, lemma_spans_from_within, piece_spans, run_end, segment_spans,
    segments, span_text, spans_from, word_spans, RunClass,
};

verus! {

/// The first rule that recognizes a segment gives its rate, whatever the
/// rules after it say; when no rule recognizes it, the default applies.
pub proof fn law_first_matching_rule_wins(
    seg: Seq<char>,
    rules: Seq<LanguageRule>,
    default: CharsPerToken,
    i: int,
)
    requires
        0 <= i < rules.len(),
        rule_matches(rules[i], seg),
        forall|j: int| 0 <= j < i ==> !rule_matches(#[trigger] rules[j], seg),
    ensures
        rate_for(seg, rules, default) == rules[i].chars_per_token,
    decreases i,
{
    if i > 0 {
        assert(!rule_matches(rules[0], seg));
        let rest = rules.drop_first();
        assert forall|j: int| 0 <= j < i - 1 implies !rule_matches(#[trigger] rest[j], seg) by {
            assert(rest[j] == rules[j + 1]);
        }
        assert(rest[i - 1] == rules[i]);
        law_first_matching_rule_wins(seg, rest, default, i - 1);
    }
}

/// When no rule recognizes a segment, the default rate applies.
pub proof fn law_no_matching_rule_gives_default(
    seg: Seq<char>,
    rules: Seq<LanguageRule>,
    default: CharsPerToken,
)
    requires
        forall|j: int| 0 <= j < rules.len() ==> !rule_matches(#[trigger] rules[j], seg),
    ensures
        rate_for(seg, rules, default) == default,
    decreases rules.len(),
{
    if rules.len() > 0 {
        assert(!rule_matches(rules[0], seg));
        let rest = rules.drop_first();
        assert forall|j: int| 0 <= j < rest.len() implies !rule_matches(#[trigger] rest[j], seg) by {
            assert(rest[j] == rules[j + 1]);
        }
        law_no_matching_rule_gives_default(seg, rest, default);
    }
}

/// The CJK blocks, as the original lists them: Han (U+4E00 to U+9FFF and
/// extension A, U+3400 to U+4DBF), CJK symbols and punctuation, full and half
/// width forms, Katakana, the radicals, strokes, enclosed and compatibility
/// blocks, Hangul syllables, Jamo, compatibility Jamo and the Jamo
/// extensions. Hiragana is not among them.
pub open spec fn listed_cjk(c: char) -> bool {
    ||| ('\u{4E00}' <= c && c <= '\u{9FFF}')
    ||| ('\u{3400}' <= c && c <= '\u{4DBF}')
    ||| ('\u{3000}' <= c && c <= '\u{303F}')
    ||| ('\u{FF00}' <= c && c <= '\u{FFEF}')
    ||| ('\u{30A0}' <= c && c <= '\u{30FF}')
    ||| ('\u{2E80}' <= c && c <= '\u{2EFF}')
    ||| ('\u{31C0}' <= c && c <= '\u{31EF}')
    ||| ('\u{3200}' <= c && c <= '\u{32FF}')
    ||| ('\u{3300}' <= c && c <= '\u{33FF}')
    ||| ('\u{AC00}' <= c && c <= '\u{D7AF}')
    ||| ('\u{1100}' <= c && c <= '\u{11FF}')
    ||| ('\u{3130}' <= c && c <= '\u{318F}')
    ||| ('\u{A960}' <= c && c <= '\u{A97F}')
    ||| ('\u{D7B0}' <= c && c <= '\u{D7FF}')
}

/// The CJK rule fires on exactly the listed blocks: a segment holds a CJK
/// character when, and only when, one of its characters lies in them.
pub proof fn law_cjk_class(seg: Seq<char>)
    ensures
        has_cjk(seg) <==> exists|i: int| 0 <= i < seg.len() && listed_cjk(#[trigger] seg[i]),
{
    if has_cjk(seg) {
        let i = choose|i: int| 0 <= i < seg.len() && is_cjk(#[trigger] seg[i]);
        assert(listed_cjk(seg[i]));
    }
    if exists|i: int| 0 <= i < seg.len() && listed_cjk(#[trigger] seg[i]) {
        let i = choose|i: int| 0 <= i < seg.len() && listed_cjk(#[trigger] seg[i]);
        assert(is_cjk(seg[i]));
    }
}

/// A segment that is not all whitespace and holds, at any position, a
/// character of the CJK blocks (Han, the CJK symbols and punctuation, full
/// and half width forms, Katakana, the radicals and strokes, the enclosed and
/// compatibility blocks, Hangul syllables and Jamo) counts one token per code
/// point, whatever the rules and the rate.
pub proof fn law_cjk_counts_code_points(
    seg: Seq<char>,
    rules: Seq<LanguageRule>,
    rate: CharsPerToken,
    i: int,
)
    requires
        !all_space(seg),
        0 <= i < seg.len(),
        listed_cjk(seg[i]),
    ensures
        segment_tokens(seg, rules, rate) == seg.len(),
{
    assert(is_cjk(seg[i]));
    assert(has_cjk(seg));
}

/// The punctuation characters, as the original lists them:
/// . , ! ? ; ( ) { } [ ] < > : / \ | @ # $ % ^ & * + = ~ _ - and the backtick.
pub open spec fn listed_punctuation(c: char) -> bool {
    c == '.' || c == ',' || c == '!' || c == '?' || c == ';' || c == '(' || c == ')' || c == '{'
        || c == '}' || c == '[' || c == ']' || c == '<' || c == '>' || c == ':' || c == '/' || c
        == '\\' || c == '|' || c == '@' || c == '#' || c == '$' || c == '%' || c == '^' || c == '&'
        || c == '*' || c == '+' || c == '=' || c == '`' || c == '~' || c == '_' || c == '-'
}

/// The punctuation runs that segmentation cuts are made of exactly the
/// listed characters.
pub proof fn law_punctuation_class(c: char)
    ensures
        is_punct(c) <==> listed_punctuation(c),
{
}

/// The span `sp` of `t` is whitespace only, a whole number, punctuation
/// only, or free of punctuation.
pub open spec fn span_kind(t: Seq<char>, sp: (int, int)) -> bool {
    ||| forall|m: int| sp.0 <= m < sp.1 ==> is_space(#[trigger] t[m])
    ||| is_number(t.subrange(sp.0, sp.1))
    ||| forall|m: int| sp.0 <= m < sp.1 ==> is_punct(#[trigger] t[m])
    ||| forall|m: int| sp.0 <= m < sp.1 ==> !is_punct(#[trigger] t[m])
}

proof fn lemma_kinds_concat(t: Seq<char>, a: Seq<(int, int)>, b: Seq<(int, int)>)
    requires
        forall|k: int| 0 <= k < a.len() ==> span_kind(t, #[trigger] a[k]),
        forall|k: int| 0 <= k < b.len() ==> span_kind(t, #[trigger] b[k]),
    ensures
        forall|k: int| 0 <= k < (a + b).len() ==> span_kind(t, #[trigger] (a + b)[k]),
{
    assert forall|k: int| 0 <= k < (a + b).len() implies span_kind(t, #[trigger] (a + b)[k]) by {
        if k < a.len() {
            assert((a + b)[k] == a[k]);
        } else {
            assert((a + b)[k] == b[k - a.len()]);
        }
    }
}

proof fn lemma_piece_kinds(t: Seq<char>, i: int, j: int)
    requires
        0 <= i <= j <= t.len(),
    ensures
        forall|k: int|
            0 <= k < piece_spans(t, i, j).len() ==> span_kind(t, #[trigger] piece_spans(t, i, j)[k]),
    decreases j - i,
{
    if i < j {
        let k = if is_punct(t[i]) {
            RunClass::Punct
        } else {
            RunClass::Plain
        };
        let e = run_end(t, i, j, k);
        lemma_run_end(t, i, j, k);
        lemma_run_end(t, i + 1, j, k);
        lemma_piece_kinds(t, e, j);
        let first = seq![(i, e)];
        assert(span_kind(t, first[0])) by {
            assert forall|m: int| i <= m < e implies in_run(#[trigger] t[m], k) by {}
        }
        lemma_kinds_concat(t, first, piece_spans(t, e, j));
    }
}

proof fn lemma_spans_from_kinds(t: Seq<char>, i: int)
    requires
        0 <= i <= t.len(),
    ensures
        forall|k: int|
            0 <= k < spans_from(t, i).len() ==> span_kind(t, #[trigger] spans_from(t, i)[k]),
    decreases t.len() - i,
{
    if i < t.len() {
        let k = if is_space(t[i]) {
            RunClass::Space
        } else {
            RunClass::Word
        };
        let j = run_end(t, i, t.len() as int, k);
        lemma_run_end(t, i, t.len() as int, k);
        lemma_run_end(t, i + 1, t.len() as int, k);
        let here = if is_space(t[i]) {
            seq![(i, j)]
        } else {
            word_spans(t, i, j)
        };
        if is_space(t[i]) {
            assert(span_kind(t, here[0])) by {
                assert forall|m: int| i <= m < j implies is_space(#[trigger] t[m]) by {
                    assert(in_run(t[m], k));
                }
            }
        } else if is_number(t.subrange(i, j)) {
            assert(span_kind(t, here[0]));
        } else {
            lemma_piece_kinds(t, i, j);
        }
        lemma_spans_from_kinds(t, j);
        lemma_kinds_concat(t, here, spans_from(t, j));
    }
}

/// Punctuation stands apart: a segment that holds one of the listed
/// punctuation characters and is not a whole number is made of listed
/// punctuation only, so `user@example.com` splits at `@` and `.`.
pub proof fn law_punctuation_stands_apart(t: Seq<char>, k: int, m: int)
    requires
        0 <= k < segments(t).len(),
        0 <= m < segments(t)[k].len(),
        listed_punctuation(segments(t)[k][m]),
        !is_number(segments(t)[k]),
    ensures
        forall|x: int|
            0 <= x < segments(t)[k].len() ==> listed_punctuation(#[trigger] segments(t)[k][x]),
{
    lemma_spans_from_within(t, 0);
    lemma_spans_from_kinds(t, 0);
    let sp = segment_spans(t)[k];
    let s = segments(t)[k];
    assert(s == span_text(t, sp));
    assert(span_kind(t, sp));
    assert(s[m] == t[sp.0 + m]);
    assert(s == t.subrange(sp.0, sp.1));
    assert forall|x: int| 0 <= x < s.len() implies listed_punctuation(#[trigger] s[x]) by {
        assert(s[x] == t[sp.0 + x]);
    }
}

} // verus!
