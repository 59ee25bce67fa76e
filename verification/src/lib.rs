//! Vocabulary-free token-count estimation for language-model input.
//!
//! A text is cut into segments (whitespace runs, whole numbers, punctuation
//! runs and other runs of characters), each segment gets a token count by a
//! few chars-per-token rules, and the counts are summed. Lengths are UTF-16
//! code units; the CJK rule counts code points.

pub mod estimate;
pub mod join_laws;
pub mod language;
pub mod laws;
pub mod options;
pub mod patterns;
pub mod rule_laws;
pub mod segment;
pub mod slice;
pub mod slice_laws;
pub mod split;
pub mod split_laws;
pub mod text;

pub use language::{default_language_configs, CharsPerToken, CompiledPattern, LanguageConfig, PatternError};
pub use options::{SplitByTokensOptions, TokenEstimationOptions};
pub use segment::{estimate_segment_tokens, split_segments};
pub use text::{char_count, utf16_len, utf16_slice};

use vstd::prelude::*;
use estimate::{text_tokens, text_tokens_exec};
use language::{default_rate, default_rules};
use options::{resolve, resolved_rate, resolved_rules};
use slice::{slice_chars, slice_spec};
use split::{overlap_of, split_chars, split_chunks};
use text::chars_of;

verus! {

/// Estimates the number of tokens in `text` with the built-in rules.
///
/// The empty string gives 0.
#[must_use]
pub fn estimate_token_count(text: &str) -> (n: u64)
    ensures
        n == text_tokens(text@, default_rules(), default_rate()),
{
    estimate_token_count_with(text, &TokenEstimationOptions::default())
}

/// Estimates the number of tokens in `text` with the given options.
#[must_use]
pub fn estimate_token_count_with(text: &str, options: &TokenEstimationOptions) -> (n: u64)
    ensures
        n == text_tokens(
            text@,
            resolved_rules(options.language_configs),
            resolved_rate(options.default_chars_per_token),
        ),
{
    let (rate, rules) = resolve(options.default_chars_per_token, &options.language_configs);
    let t = chars_of(text);
    text_tokens_exec(t.as_slice(), rules.as_slice(), rate)
}

/// The token estimate of `text`; a deprecated alias of
/// [`estimate_token_count`].
#[must_use]
pub fn approximate_token_size(text: &str) -> (n: u64)
    ensures
        n == text_tokens(text@, default_rules(), default_rate()),
{
    estimate_token_count(text)
}

/// Whether the estimate for `text` is at or below `token_limit`.
#[must_use]
pub fn is_within_token_limit(text: &str, token_limit: u64) -> (r: bool)
    ensures
        r == (text_tokens(text@, default_rules(), default_rate()) <= token_limit),
{
    is_within_token_limit_with(text, token_limit, &TokenEstimationOptions::default())
}

/// Whether the estimate for `text` under `options` is at or below
/// `token_limit`.
#[must_use]
pub fn is_within_token_limit_with(
    text: &str,
    token_limit: u64,
    options: &TokenEstimationOptions,
) -> (r: bool)
    ensures
        r == (text_tokens(
            text@,
            resolved_rules(options.language_configs),
            resolved_rate(options.default_chars_per_token),
        ) <= token_limit),
{
    estimate_token_count_with(text, options) <= token_limit
}

/// Extracts the text covering token positions `[start, end)`, like
/// `Array.slice`, with the built-in rules.
///
/// Negative `start` or `end` count from the end. An `end` of `None` slices to
/// the end of the text. A `start` at or past `end` gives the empty string. A
/// segment that the range covers in part is cut in proportion to its UTF-16
/// length; a lone surrogate left by such a cut becomes U+FFFD.
///
/// Positions and cuts are computed exactly, in integers: the cut into a
/// segment of `count` tokens and UTF-16 length `len`, `k` tokens in, is
/// `floor(k * len / count)` for a start and `ceil(k * len / count)` for an
/// end. A floating-point computation of the same proportion can land one
/// unit off where the quotient is not representable: `(1.0 / 49.0) * 49.0`
/// is just under 1, so it would keep one more character here.
#[must_use]
pub fn slice_by_tokens(text: &str, start: i64, end: Option<i64>) -> (r: String)
    ensures
        r@ == slice_spec(text@, start, end, default_rules(), default_rate()),
{
    slice_by_tokens_with(text, start, end, &TokenEstimationOptions::default())
}

/// Extracts a token range with the given options. See [`slice_by_tokens`].
#[must_use]
pub fn slice_by_tokens_with(
    text: &str,
    start: i64,
    end: Option<i64>,
    options: &TokenEstimationOptions,
) -> (r: String)
    ensures
        r@ == slice_spec(
            text@,
            start,
            end,
            resolved_rules(options.language_configs),
            resolved_rate(options.default_chars_per_token),
        ),
{
    let (rate, rules) = resolve(options.default_chars_per_token, &options.language_configs);
    let t = chars_of(text);
    slice_chars(t.as_slice(), start, end, rules.as_slice(), rate)
}

/// Splits `text` into chunks of up to `tokens_per_chunk` tokens each, with
/// the built-in rules.
///
/// A chunk can exceed the budget by its last segment, because a segment is
/// counted after it is placed. A budget of 0 gives no chunks. Joining the
/// chunks gives `text` back.
#[must_use]
pub fn split_by_tokens(text: &str, tokens_per_chunk: u64) -> (v: Vec<String>)
    ensures
        v@.map_values(|s: String| s@) == split_chunks(
            text@,
            tokens_per_chunk as nat,
            0,
            default_rules(),
            default_rate(),
        ),
{
    split_by_tokens_with(text, tokens_per_chunk, &SplitByTokensOptions::default())
}

/// Splits `text` into chunks with the given options, which may set an
/// overlap: the number of tokens that each chunk repeats from the end of the
/// one before.
#[must_use]
pub fn split_by_tokens_with(
    text: &str,
    tokens_per_chunk: u64,
    options: &SplitByTokensOptions,
) -> (v: Vec<String>)
    ensures
        v@.map_values(|s: String| s@) == split_chunks(
            text@,
            tokens_per_chunk as nat,
            overlap_of(options.overlap),
            resolved_rules(options.language_configs),
            resolved_rate(options.default_chars_per_token),
        ),
{
    let (rate, rules) = resolve(options.default_chars_per_token, &options.language_configs);
    let overlap: u64 = match options.overlap {
        Some(o) => if o > 0 {
            o as u64
        } else {
            0
        },
        None => 0,
    };
    let t = chars_of(text);
    split_chars(t.as_slice(), tokens_per_chunk, overlap, rules.as_slice(), rate)
}

} // verus!
