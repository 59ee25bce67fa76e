//! Options for estimation, slicing and splitting.

use vstd::prelude::*;
use crate::language::{
    default_chars_per_token, default_language_configs, default_rate, default_rules, rules_view,
    CharsPerToken, LanguageConfig, LanguageRule,
};

verus! {

/// Options for token estimation.
///
/// A `None` field takes the built-in default; a `Some` value is used as
/// given, including a zero rate.
#[derive(Clone, Debug)]
pub struct TokenEstimationOptions {
    /// Average characters per token when no language rule applies. `None`
    /// takes 6.
    pub default_chars_per_token: Option<CharsPerToken>,
    /// Language rules, tried in order. `None` takes the three built-in rules.
    pub language_configs: Option<Vec<LanguageConfig>>,
}

impl Default for TokenEstimationOptions {
    fn default() -> (r: TokenEstimationOptions)
        ensures
            r.default_chars_per_token is None,
            r.language_configs is None,
    {
        TokenEstimationOptions { default_chars_per_token: None, language_configs: None }
    }
}

/// Options for splitting by tokens: those of estimation, and the overlap
/// between chunks.
#[derive(Clone, Debug)]
pub struct SplitByTokensOptions {
    /// Average characters per token when no language rule applies. `None`
    /// takes 6.
    pub default_chars_per_token: Option<CharsPerToken>,
    /// Language rules, tried in order. `None` takes the three built-in rules.
    pub language_configs: Option<Vec<LanguageConfig>>,
    /// Tokens to repeat between consecutive chunks. `None`, zero and negative
    /// values mean none.
    pub overlap: Option<i64>,
}

impl Default for SplitByTokensOptions {
    fn default() -> (r: SplitByTokensOptions)
        ensures
            r.default_chars_per_token is None,
            r.language_configs is None,
            r.overlap is None,
    {
        SplitByTokensOptions { default_chars_per_token: None, language_configs: None, overlap: None }
    }
}

/// The rate that an option selects.
pub open spec fn resolved_rate(opt: Option<CharsPerToken>) -> CharsPerToken {
    match opt {
        Some(r) => r,
        None => default_rate(),
    }
}

/// The rules that an option selects.
pub open spec fn resolved_rules(opt: Option<Vec<LanguageConfig>>) -> Seq<LanguageRule> {
    match opt {
        Some(v) => rules_view(v@),
        None => default_rules(),
    }
}

/// Language rules, either borrowed from options or the built-in ones.
pub enum Rules<'a> {
    Given(&'a Vec<LanguageConfig>),
    Builtin(Vec<LanguageConfig>),
}

impl<'a> Rules<'a> {
    pub open spec fn rules(&self) -> Seq<LanguageRule> {
        match self {
            Rules::Given(v) => rules_view(v@),
            Rules::Builtin(v) => rules_view(v@),
        }
    }

    pub fn as_slice(&self) -> (s: &[LanguageConfig])
        ensures
            rules_view(s@) == self.rules(),
    {
        match self {
            Rules::Given(v) => v.as_slice(),
            Rules::Builtin(v) => v.as_slice(),
        }
    }
}

/// Resolves the chars-per-token and the language rules from options.
pub fn resolve<'a>(
    default_chars: Option<CharsPerToken>,
    language_configs: &'a Option<Vec<LanguageConfig>>,
) -> (r: (CharsPerToken, Rules<'a>))
    ensures
        r.0 == resolved_rate(default_chars),
        r.1.rules() == resolved_rules(*language_configs),
{
    let rate = match default_chars {
        Some(c) => c,
        None => default_chars_per_token(),
    };
    let rules = match language_configs {
        Some(v) => Rules::Given(v),
        None => Rules::Builtin(default_language_configs()),
    };
    (rate, rules)
}

} // verus!
