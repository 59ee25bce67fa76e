//! Language rules: a pattern that recognizes a language in a segment, and
//! the average number of characters per token for segments it recognizes.

use vstd::prelude::*;
use regex::{Regex, RegexBuilder};
use crate::text::string_of;

verus! {

/// An average number of characters per token, the exact ratio
/// `numerator / denominator`.
///
/// A zero denominator stands for a ratio that gives no tokens (an infinite
/// or undefined rate); a zero numerator over a non-zero denominator is the
/// rate zero, which gives the largest count for any non-empty segment.
#[derive(Clone, Copy, Debug, PartialEq, Eq, Structural)]
pub struct CharsPerToken {
    pub numerator: u64,
    pub denominator: u64,
}

impl CharsPerToken {
    /// The ratio `numerator / denominator`.
    pub fn new(numerator: u64, denominator: u64) -> (r: CharsPerToken)
        ensures
            r.numerator == numerator,
            r.denominator == denominator,
    {
        CharsPerToken { numerator, denominator }
    }

    /// The whole number `n`.
    pub fn whole(n: u64) -> (r: CharsPerToken)
        ensures
            r.numerator == n,
            r.denominator == 1,
    {
        CharsPerToken { numerator: n, denominator: 1 }
    }
}

/// The built-in average of characters per token when no language rule
/// applies: 6.
pub open spec fn default_rate() -> CharsPerToken {
    CharsPerToken { numerator: 6, denominator: 1 }
}

/// The built-in average of characters per token.
pub fn default_chars_per_token() -> (r: CharsPerToken)
    ensures
        r == default_rate(),
{
    CharsPerToken { numerator: 6, denominator: 1 }
}

/// Tokens for a segment of UTF-16 length `len` at rate `r`: the ceiling of
/// `len / r`, capped at `u64::MAX`.
pub open spec fn tokens_at_rate(len: nat, r: CharsPerToken) -> nat {
    if r.denominator == 0 {
        0
    } else if r.numerator == 0 {
        if len == 0 {
            0
        } else {
            u64::MAX as nat
        }
    } else {
        let q = (len * r.denominator + r.numerator - 1) / (r.numerator as int);
        if q > u64::MAX {
            u64::MAX as nat
        } else {
            q as nat
        }
    }
}

pub fn tokens_at_rate_exec(len: u128, r: CharsPerToken) -> (n: u64)
    ensures
        n == tokens_at_rate(len as nat, r),
{
    if r.denominator == 0 {
        0
    } else if r.numerator == 0 {
        if len == 0 {
            0
        } else {
            u64::MAX
        }
    } else {
        let num = r.numerator as u128;
        match len.checked_mul(r.denominator as u128) {
            Some(p) => {
                let q = p / num;
                let rem = p % num;
                proof {
                    lemma_ceil_div(p as int, num as int, q as int, rem as int);
                }
                if rem > 0 {
                    assert(num >= 2);
                    assert(q <= u128::MAX / 2) by (nonlinear_arith)
                        requires
                            q == p / num,
                            num >= 2,
                    ;
                }
                let c = if rem > 0 {
                    q + 1
                } else {
                    q
                };
                if c > u64::MAX as u128 {
                    u64::MAX
                } else {
                    c as u64
                }
            },
            None => {
                proof {
                    let big: int = len * r.denominator;
                    lemma_big_ceil_div(big, num as int);
                }
                u64::MAX
            },
        }
    }
}

proof fn lemma_ceil_div(p: int, n: int, q: int, r: int)
    requires
        n > 0,
        p >= 0,
        q == p / n,
        r == p % n,
    ensures
        (p + n - 1) / n == if r > 0 {
            q + 1
        } else {
            q
        },
{
    assert(p == n * q + r) by (nonlinear_arith)
        requires
            n > 0,
            q == p / n,
            r == p % n,
    ;
    assert(0 <= r < n);
    if r > 0 {
        assert((p + n - 1) / n == q + 1) by (nonlinear_arith)
            requires
                p == n * q + r,
                0 < r < n,
        ;
    } else {
        assert((p + n - 1) / n == q) by (nonlinear_arith)
            requires
                p == n * q,
                n > 0,
        ;
    }
}

proof fn lemma_big_ceil_div(big: int, n: int)
    requires
        big > u128::MAX,
        0 < n <= u64::MAX,
    ensures
        (big + n - 1) / n > u64::MAX,
{
    assert(n * 0x1_0000_0000_0000_0000 <= big) by (nonlinear_arith)
        requires
            big > u128::MAX,
            0 < n <= u64::MAX,
    ;
    assert((big + n - 1) / n >= 0x1_0000_0000_0000_0000) by (nonlinear_arith)
        requires
            n * 0x1_0000_0000_0000_0000 <= big,
            n > 0,
    ;
}

/// Names Regex compilation under the builder's defaults: whether
/// `RegexBuilder::new(pattern).case_insensitive(case_insensitive).build()`
/// succeeds.
pub uninterp spec fn regex_compiles(pattern: Seq<char>, case_insensitive: bool) -> bool;

/// Names Regex search: whether the regex compiled from `pattern` (with case
/// folding when `case_insensitive`) matches anywhere in `text`.
pub uninterp spec fn regex_finds(pattern: Seq<char>, case_insensitive: bool, text: Seq<char>) -> bool;

#[verifier::external_type_specification]
#[verifier::external_body]
pub struct ExRegex(Regex);

#[verifier::external_type_specification]
#[verifier::external_body]
pub struct ExRegexError(regex::Error);

/// A compiled regex together with the source and the case flag that it was
/// compiled from. Only [`compile_pattern`] and [`Clone`] build one.
#[derive(Debug)]
pub struct CompiledPattern {
    regex: Regex,
    source: String,
    case_insensitive: bool,
}

impl CompiledPattern {
    /// The pattern source.
    pub closed spec fn source(&self) -> Seq<char> {
        self.source@
    }

    /// Whether matching folds case.
    pub closed spec fn ignores_case(&self) -> bool {
        self.case_insensitive
    }
}

/// `Regex::clone`: a copy of the compiled regex. The copy matches as the
/// original does; nothing else is claimed, since the regex is opaque here.
#[verifier::external_body]
fn clone_regex(r: &Regex) -> Regex {
    r.clone()
}

impl Clone for CompiledPattern {
    fn clone(&self) -> (r: CompiledPattern)
        ensures
            r.source() == self.source(),
            r.ignores_case() == self.ignores_case(),
    {
        CompiledPattern {
            regex: clone_regex(&self.regex),
            source: self.source.clone(),
            case_insensitive: self.case_insensitive,
        }
    }
}

/// `RegexBuilder::new(pattern).case_insensitive(ci).build()`: compiles
/// `pattern`. The result is `Ok` exactly when the pattern compiles under the
/// builder's defaults, and then records the source and the flag beside the
/// compiled regex.
#[verifier::external_body]
fn compile_pattern(pattern: &str, case_insensitive: bool) -> (r: Result<
    CompiledPattern,
    regex::Error,
>)
    ensures
        r is Ok <==> regex_compiles(pattern@, case_insensitive),
        r matches Ok(p) ==> p.source() == pattern@ && p.ignores_case() == case_insensitive,
{
    match RegexBuilder::new(pattern).case_insensitive(case_insensitive).build() {
        Ok(regex) => Ok(CompiledPattern { regex, source: pattern.to_string(), case_insensitive }),
        Err(e) => Err(e),
    }
}

/// `Regex::is_match`: whether the compiled regex matches anywhere in `text`.
#[verifier::external_body]
fn pattern_finds(p: &CompiledPattern, text: &str) -> (r: bool)
    ensures
        r == regex_finds(p.source(), p.ignores_case(), text@),
{
    p.regex.is_match(text)
}

/// The message of a regex compilation error, through its `Display` impl.
#[verifier::external_body]
fn regex_error_message(e: &regex::Error) -> String {
    e.to_string()
}

/// A pattern that was refused when a language rule was built.
#[derive(Clone, Debug)]
pub struct PatternError {
    /// What the regex compiler reported.
    pub message: String,
}

/// The mathematical form of a [`LanguageConfig`]: the regex source, whether
/// it folds case, and the rate.
pub struct LanguageRule {
    pub source: Seq<char>,
    pub case_insensitive: bool,
    pub chars_per_token: CharsPerToken,
}

/// A language rule. When `pattern` matches anywhere in a segment, the
/// segment uses `average_chars_per_token` in place of the default.
#[derive(Debug)]
pub struct LanguageConfig {
    /// The regex that recognizes the language.
    pub pattern: CompiledPattern,
    /// Average characters per token for segments that the pattern matches.
    pub average_chars_per_token: CharsPerToken,
}

impl View for LanguageConfig {
    type V = LanguageRule;

    open spec fn view(&self) -> LanguageRule {
        LanguageRule {
            source: self.pattern.source(),
            case_insensitive: self.pattern.ignores_case(),
            chars_per_token: self.average_chars_per_token,
        }
    }
}

impl Clone for LanguageConfig {
    fn clone(&self) -> (r: LanguageConfig)
        ensures
            r@ == self@,
    {
        LanguageConfig {
            pattern: self.pattern.clone(),
            average_chars_per_token: self.average_chars_per_token,
        }
    }
}

pub open spec fn rules_view(v: Seq<LanguageConfig>) -> Seq<LanguageRule> {
    v.map_values(|c: LanguageConfig| c@)
}

/// Whether `rule` recognizes the segment `seg`: its regex matches anywhere in
/// it.
pub open spec fn rule_matches(rule: LanguageRule, seg: Seq<char>) -> bool {
    regex_finds(rule.source, rule.case_insensitive, seg)
}

/// The rate of the first rule that recognizes `seg`, else `default`.
pub open spec fn rate_for(seg: Seq<char>, rules: Seq<LanguageRule>, default: CharsPerToken) -> CharsPerToken
    decreases rules.len(),
{
    if rules.len() == 0 {
        default
    } else if rule_matches(rules[0], seg) {
        rules[0].chars_per_token
    } else {
        rate_for(seg, rules.drop_first(), default)
    }
}

impl LanguageConfig {
    /// Builds a rule from a regex source and a chars-per-token value. The
    /// pattern matches case sensitively.
    ///
    /// Fails when `pattern` is not a valid regex.
    pub fn new(pattern: &str, average_chars_per_token: CharsPerToken) -> (r: Result<
        LanguageConfig,
        PatternError,
    >)
        ensures
            r is Ok <==> regex_compiles(pattern@, false),
            r matches Ok(c) ==> c@ == (LanguageRule {
                source: pattern@,
                case_insensitive: false,
                chars_per_token: average_chars_per_token,
            }),
    {
        match compile_pattern(pattern, false) {
            Ok(p) => Ok(LanguageConfig { pattern: p, average_chars_per_token }),
            Err(e) => Err(PatternError { message: regex_error_message(&e) }),
        }
    }

    /// Builds a rule whose regex folds case, as a `/i` JavaScript regex does.
    ///
    /// Fails when `pattern` is not a valid regex.
    pub fn case_insensitive(pattern: &str, average_chars_per_token: CharsPerToken) -> (r: Result<
        LanguageConfig,
        PatternError,
    >)
        ensures
            r is Ok <==> regex_compiles(pattern@, true),
            r matches Ok(c) ==> c@ == (LanguageRule {
                source: pattern@,
                case_insensitive: true,
                chars_per_token: average_chars_per_token,
            }),
    {
        match compile_pattern(pattern, true) {
            Ok(p) => Ok(LanguageConfig { pattern: p, average_chars_per_token }),
            Err(e) => Err(PatternError { message: regex_error_message(&e) }),
        }
    }

    /// Whether this rule recognizes `t[a..b]`.
    pub fn matches_range(&self, t: &[char], a: usize, b: usize) -> (r: bool)
        requires
            a <= b <= t@.len(),
        ensures
            r == rule_matches(self@, t@.subrange(a as int, b as int)),
    {
        let s = string_of(t, a, b);
        pattern_finds(&self.pattern, s.as_str())
    }
}

/// The rate of the first rule in `rules` that recognizes `t[a..b]`, else
/// `default`.
pub fn rate_for_range(t: &[char], a: usize, b: usize, rules: &[LanguageConfig], default: CharsPerToken) -> (r: CharsPerToken)
    requires
        a <= b <= t@.len(),
    ensures
        r == rate_for(t@.subrange(a as int, b as int), rules_view(rules@), default),
{
    let ghost seg = t@.subrange(a as int, b as int);
    let mut i: usize = 0;
    assert(rules_view(rules@).skip(0) =~= rules_view(rules@));
    while i < rules.len()
        invariant
            i <= rules@.len(),
            a <= b <= t@.len(),
            seg == t@.subrange(a as int, b as int),
            rate_for(seg, rules_view(rules@), default) == rate_for(
                seg,
                rules_view(rules@).skip(i as int),
                default,
            ),
        decreases rules@.len() - i,
    {
        let ghost rest = rules_view(rules@).skip(i as int);
        assert(rest[0] == rules@[i as int]@);
        assert(rest.drop_first() =~= rules_view(rules@).skip(i + 1));
        if rules[i].matches_range(t, a, b) {
            return rules[i].average_chars_per_token;
        }
        i = i + 1;
    }
    assert(rules_view(rules@).skip(i as int) =~= Seq::<LanguageRule>::empty());
    default
}

} // verus!

verus! {

/// A rule of the built-in set, before its pattern is compiled: the source
/// folds case.
pub open spec fn builtin_rule(source: Seq<char>, numerator: u64, denominator: u64) -> LanguageRule {
    LanguageRule {
        source,
        case_insensitive: true,
        chars_per_token: CharsPerToken { numerator, denominator },
    }
}

/// The three built-in rules as written, in order: German and Romance at 3
/// characters per token, Slavic at 3.5.
pub open spec fn builtin_candidates() -> Seq<LanguageRule> {
    seq![
        builtin_rule("[äöüßẞ]"@, 3, 1),
        builtin_rule("[éèêëàâîïôûùüÿçœæáíóúñ]"@, 3, 1),
        builtin_rule("[ąćęłńóśźżěščřžýůúďťň]"@, 7, 2),
    ]
}

/// The rules of `rules` whose pattern compiles, in their order.
pub open spec fn compiled_rules(rules: Seq<LanguageRule>) -> Seq<LanguageRule>
    decreases rules.len(),
{
    if rules.len() == 0 {
        Seq::empty()
    } else {
        let init = compiled_rules(rules.drop_last());
        if regex_compiles(rules.last().source, rules.last().case_insensitive) {
            init.push(rules.last())
        } else {
            init
        }
    }
}

/// The built-in rules: those of [`builtin_candidates`] that compile. (The
/// regex crate accepts all three; a refused one would be left out.)
pub open spec fn default_rules() -> Seq<LanguageRule> {
    compiled_rules(builtin_candidates())
}

/// Compiles `pattern` case insensitively and, when it compiles, appends the
/// rule to `v`.
fn push_compiled(v: &mut Vec<LanguageConfig>, pattern: &str, rate: CharsPerToken)
    ensures
        rules_view(final(v)@) == if regex_compiles(pattern@, true) {
            rules_view(old(v)@).push(
                LanguageRule { source: pattern@, case_insensitive: true, chars_per_token: rate },
            )
        } else {
            rules_view(old(v)@)
        },
{
    match LanguageConfig::case_insensitive(pattern, rate) {
        Ok(c) => {
            let ghost r = c@;
            v.push(c);
            assert(rules_view(v@) =~= rules_view(old(v)@).push(r));
        },
        Err(_) => {},
    }
}

/// The three built-in language rules, each compiled case insensitively.
///
/// Order matters: the first rule that recognizes a segment wins. German and
/// the Romance set use 3 characters per token, the Slavic set 3.5.
pub fn default_language_configs() -> (v: Vec<LanguageConfig>)
    ensures
        rules_view(v@) == default_rules(),
{
    let mut v: Vec<LanguageConfig> = Vec::new();
    let ghost c = builtin_candidates();
    assert(c.drop_last().drop_last().drop_last() =~= Seq::<LanguageRule>::empty());
    assert(rules_view(v@) =~= compiled_rules(c.drop_last().drop_last().drop_last()));
    push_compiled(&mut v, "[äöüßẞ]", CharsPerToken { numerator: 3, denominator: 1 });
    assert(rules_view(v@) == compiled_rules(c.drop_last().drop_last()));
    push_compiled(&mut v, "[éèêëàâîïôûùüÿçœæáíóúñ]", CharsPerToken { numerator: 3, denominator: 1 });
    assert(rules_view(v@) == compiled_rules(c.drop_last()));
    push_compiled(&mut v, "[ąćęłńóśźżěščřžýůúďťň]", CharsPerToken { numerator: 7, denominator: 2 });
    v
}

} // verus!
