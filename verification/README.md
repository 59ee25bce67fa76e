# tokenx

Vocabulary-free estimation of how many tokens a language model reads in a
string, verified with Verus.

A text is cut into segments: maximal whitespace runs, and maximal words of
other characters. A word that is a whole number (`123`, `3.14`, `1,000.50`)
stays one segment; any other word is cut into maximal punctuation runs and
maximal runs of the remaining characters. Each segment gets a count by the
first rule that fits: whitespace 0; a CJK character, one per code point; a
whole number 1; UTF-16 length at most 3, 1; punctuation, half the length
rounded up; otherwise the length over the chars-per-token rate of the first
language rule that recognizes the segment (or the default rate of 6), rounded
up. The counts are summed, saturating at `u64::MAX`.

Whitespace is the ECMAScript `\s` set: it includes U+FEFF and excludes U+0085.
Lengths are UTF-16 code units.

Rates are exact ratios (`CharsPerToken { numerator, denominator }`): 3.5 is
`7 / 2`. Language rules are regexes compiled with the `regex` crate; the three
built-in rules (German, Romance and Slavic letters) are compiled case
insensitively, and a built-in pattern the regex crate refused would be left
out of the set.

## Layout

- `src/patterns.rs`: the character classes and the segment tests.
- `src/segment.rs`: segmentation, `split_segments`, `estimate_segment_tokens`.
- `src/text.rs`: UTF-16 encoding and decoding, `utf16_len`, `utf16_slice`.
- `src/language.rs`: rates, language rules, the regex boundary.
- `src/estimate.rs`: per-segment and whole-text counts.
- `src/options.rs`: option types and their defaults.
- `src/slice.rs`, `src/split.rs`: `slice_by_tokens`, `split_by_tokens`.
- `src/laws.rs`: properties proved of all inputs.
- `src/join_laws.rs`: joining two texts with a space adds their estimates.
- `src/slice_laws.rs`: the slices before and from one position are a prefix
  and a suffix that cover the text.
- `src/split_laws.rs`: where chunks open and close, with and without overlap.
- `app/`: conversion of `f64` rates to ratios.
