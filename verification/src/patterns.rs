//! The character classes that drive segmentation and classification.
//!
//! Each class is a spec predicate on one character, with an executable twin
//! proved equal to it. The text-level predicates follow: whole-segment tests
//! (whitespace, numeric, alphanumeric) and containment tests (CJK,
//! punctuation).

use vstd::prelude::*;
use crate::estimate::{all_space_range, has_cjk_range, has_punct_range};
use crate::segment::number_at;
use crate::text::chars_of;

verus! {

/// Whitespace as ECMAScript `\s` defines it: tab, line feed, vertical tab,
/// form feed, carriage return, the space separators of category Zs, the line
/// and paragraph separators, and the byte-order mark U+FEFF. U+0085 is not
/// whitespace.
pub open spec fn is_space(c: char) -> bool {
    ||| ('\u{09}' <= c && c <= '\u{0D}')
    ||| c == ' '
    ||| c == '\u{A0}'
    ||| c == '\u{1680}'
    ||| ('\u{2000}' <= c && c <= '\u{200A}')
    ||| c == '\u{2028}'
    ||| c == '\u{2029}'
    ||| c == '\u{202F}'
    ||| c == '\u{205F}'
    ||| c == '\u{3000}'
    ||| c == '\u{FEFF}'
}

/// The punctuation class: `. , ! ? ; ( ) { } [ ] < > : / \ | @ # $ % ^ & * + = ` ~ _ -`.
pub open spec fn is_punct(c: char) -> bool {
    ||| c == '.' ||| c == ',' ||| c == '!' ||| c == '?' ||| c == ';'
    ||| c == '(' ||| c == ')' ||| c == '{' ||| c == '}' ||| c == '[' ||| c == ']'
    ||| c == '<' ||| c == '>' ||| c == ':' ||| c == '/' ||| c == '\\' ||| c == '|'
    ||| c == '@' ||| c == '#' ||| c == '$' ||| c == '%' ||| c == '^' ||| c == '&'
    ||| c == '*' ||| c == '+' ||| c == '=' ||| c == '`' ||| c == '~' ||| c == '_'
    ||| c == '-'
}

/// ASCII decimal digit.
pub open spec fn is_digit(c: char) -> bool {
    '0' <= c && c <= '9'
}

/// Decimal or thousands separator inside a number.
pub open spec fn is_number_separator(c: char) -> bool {
    c == '.' || c == ','
}

/// Basic Multilingual Plane blocks for Han, Katakana, Hangul and related
/// symbols. Hiragana (U+3040 to U+309F) is not in the class.
pub open spec fn is_cjk(c: char) -> bool {
    ||| ('\u{4E00}' <= c && c <= '\u{9FFF}')
    ||| ('\u{3400}' <= c && c <= '\u{4DBF}')
    ||| ('\u{3000}' <= c && c <= '\u{303F}')
    ||| ('\u{FF00}' <= c && c <= '\u{FFEF}')
    ||| ('\u{30A0}' <= c && c <= '\u{30FF}')
    ||| ('\u{2E80}' <= c && c <= '\u{2EFF}')
    ||| ('\u{31C0}' <= c && c <= '\u{31EF}')
    ||| ('\u{3200}' <= c && c <= '\u{32FF}')
    ||| ('\u{3300}' <= c && c <= '\u{33FF}')
    ||| ('\u{AC00}' <= c && c <= '\u{D7AF}')
    ||| ('\u{1100}' <= c && c <= '\u{11FF}')
    ||| ('\u{3130}' <= c && c <= '\u{318F}')
    ||| ('\u{A960}' <= c && c <= '\u{A97F}')
    ||| ('\u{D7B0}' <= c && c <= '\u{D7FF}')
}

/// ASCII letters and digits plus the Latin-1 letters U+00C0 to U+00FF, less
/// U+00D7 and U+00F7.
pub open spec fn is_alphanumeric(c: char) -> bool {
    ||| ('a' <= c && c <= 'z')
    ||| ('A' <= c && c <= 'Z')
    ||| ('0' <= c && c <= '9')
    ||| ('\u{C0}' <= c && c <= '\u{D6}')
    ||| ('\u{D8}' <= c && c <= '\u{F6}')
    ||| ('\u{F8}' <= c && c <= '\u{FF}')
}

/// A non-empty sequence made of whitespace only.
pub open spec fn all_space(s: Seq<char>) -> bool {
    s.len() > 0 && forall|i: int| 0 <= i < s.len() ==> #[trigger] is_space(s[i])
}

/// A sequence holding at least one CJK character.
pub open spec fn has_cjk(s: Seq<char>) -> bool {
    exists|i: int| 0 <= i < s.len() && #[trigger] is_cjk(s[i])
}

/// A sequence holding at least one punctuation character.
pub open spec fn has_punct(s: Seq<char>) -> bool {
    exists|i: int| 0 <= i < s.len() && #[trigger] is_punct(s[i])
}

/// A whole number: digits, optionally in groups joined by single `.` or `,`
/// separators (`123`, `3.14`, `1,000.50`).
pub open spec fn is_number(s: Seq<char>) -> bool {
    &&& s.len() > 0
    &&& is_digit(s[0])
    &&& is_digit(s[s.len() - 1])
    &&& forall|i: int|
        0 <= i < s.len() ==> is_digit(#[trigger] s[i]) || (is_number_separator(s[i]) && is_digit(
            s[i + 1],
        ))
}

/// A non-empty sequence of alphanumeric characters only.
pub open spec fn all_alphanumeric(s: Seq<char>) -> bool {
    s.len() > 0 && forall|i: int| 0 <= i < s.len() ==> #[trigger] is_alphanumeric(s[i])
}

pub fn space_char(c: char) -> (r: bool)
    ensures
        r == is_space(c),
{
    ('\u{09}' <= c && c <= '\u{0D}') || c == ' ' || c == '\u{A0}' || c == '\u{1680}' || ('\u{2000}'
        <= c && c <= '\u{200A}') || c == '\u{2028}' || c == '\u{2029}' || c == '\u{202F}' || c
        == '\u{205F}' || c == '\u{3000}' || c == '\u{FEFF}'
}

pub fn punct_char(c: char) -> (r: bool)
    ensures
        r == is_punct(c),
{
    c == '.' || c == ',' || c == '!' || c == '?' || c == ';' || c == '(' || c == ')' || c == '{'
        || c == '}' || c == '[' || c == ']' || c == '<' || c == '>' || c == ':' || c == '/' || c
        == '\\' || c == '|' || c == '@' || c == '#' || c == '$' || c == '%' || c == '^' || c == '&'
        || c == '*' || c == '+' || c == '=' || c == '`' || c == '~' || c == '_' || c == '-'
}

pub fn digit_char(c: char) -> (r: bool)
    ensures
        r == is_digit(c),
{
    '0' <= c && c <= '9'
}

pub fn cjk_char(c: char) -> (r: bool)
    ensures
        r == is_cjk(c),
{
    ('\u{4E00}' <= c && c <= '\u{9FFF}') || ('\u{3400}' <= c && c <= '\u{4DBF}') || ('\u{3000}'
        <= c && c <= '\u{303F}') || ('\u{FF00}' <= c && c <= '\u{FFEF}') || ('\u{30A0}' <= c && c
        <= '\u{30FF}') || ('\u{2E80}' <= c && c <= '\u{2EFF}') || ('\u{31C0}' <= c && c
        <= '\u{31EF}') || ('\u{3200}' <= c && c <= '\u{32FF}') || ('\u{3300}' <= c && c
        <= '\u{33FF}') || ('\u{AC00}' <= c && c <= '\u{D7AF}') || ('\u{1100}' <= c && c
        <= '\u{11FF}') || ('\u{3130}' <= c && c <= '\u{318F}') || ('\u{A960}' <= c && c
        <= '\u{A97F}') || ('\u{D7B0}' <= c && c <= '\u{D7FF}')
}

pub fn alphanumeric_char(c: char) -> (r: bool)
    ensures
        r == is_alphanumeric(c),
{
    ('a' <= c && c <= 'z') || ('A' <= c && c <= 'Z') || ('0' <= c && c <= '9') || ('\u{C0}' <= c
        && c <= '\u{D6}') || ('\u{D8}' <= c && c <= '\u{F6}') || ('\u{F8}' <= c && c <= '\u{FF}')
}

/// Whether `t[a..b]` is non-empty and alphanumeric throughout.
pub fn all_alphanumeric_range(t: &[char], a: usize, b: usize) -> (r: bool)
    requires
        a <= b <= t@.len(),
    ensures
        r == all_alphanumeric(t@.subrange(a as int, b as int)),
{
    let ghost s = t@.subrange(a as int, b as int);
    if a == b {
        return false;
    }
    let mut i = a;
    while i < b
        invariant
            a <= i <= b <= t@.len(),
            s == t@.subrange(a as int, b as int),
            forall|m: int| 0 <= m < i - a ==> #[trigger] is_alphanumeric(s[m]),
        decreases b - i,
    {
        if !alphanumeric_char(t[i]) {
            assert(!is_alphanumeric(s[i - a]));
            return false;
        }
        i = i + 1;
    }
    true
}

/// The whitespace test: whether `segment` is non-empty and whitespace
/// throughout.
pub fn whitespace(segment: &str) -> (r: bool)
    ensures
        r == all_space(segment@),
{
    let t = chars_of(segment);
    let r = all_space_range(t.as_slice(), 0, t.len());
    assert(t@.subrange(0, t@.len() as int) =~= segment@);
    r
}

/// The CJK test: whether `segment` holds a CJK character.
pub fn cjk(segment: &str) -> (r: bool)
    ensures
        r == has_cjk(segment@),
{
    let t = chars_of(segment);
    let r = has_cjk_range(t.as_slice(), 0, t.len());
    assert(t@.subrange(0, t@.len() as int) =~= segment@);
    r
}

/// The numeric test: whether `segment` is a whole number.
pub fn numeric(segment: &str) -> (r: bool)
    ensures
        r == is_number(segment@),
{
    let t = chars_of(segment);
    let r = number_at(t.as_slice(), 0, t.len());
    assert(t@.subrange(0, t@.len() as int) =~= segment@);
    r
}

/// The punctuation test: whether `segment` holds a punctuation character.
pub fn punctuation(segment: &str) -> (r: bool)
    ensures
        r == has_punct(segment@),
{
    let t = chars_of(segment);
    let r = has_punct_range(t.as_slice(), 0, t.len());
    assert(t@.subrange(0, t@.len() as int) =~= segment@);
    r
}

/// The alphanumeric test: whether `segment` is non-empty and alphanumeric
/// throughout.
pub fn alphanumeric(segment: &str) -> (r: bool)
    ensures
        r == all_alphanumeric(segment@),
{
    let t = chars_of(segment);
    let r = all_alphanumeric_range(t.as_slice(), 0, t.len());
    assert(t@.subrange(0, t@.len() as int) =~= segment@);
    r
}

} // verus!
