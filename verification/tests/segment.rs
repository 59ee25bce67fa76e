use tokenx::{
    default_language_configs, estimate_segment_tokens, split_segments, CharsPerToken,
};

fn est(segment: &str) -> u64 {
    estimate_segment_tokens(segment, &default_language_configs(), CharsPerToken::whole(6))
}

#[test]
fn segment_math_table() {
    let cases: &[(&str, u64)] = &[
        ("is", 1),
        ("a", 1),
        (",", 1),
        ("!!!", 1),
        ("!!!!", 2),
        ("::::", 2),
        ("12345", 1),
        ("3.14", 1),
        ("1,000.50", 1),
        ("Hello", 1),
        ("sentence", 2),
        ("道德經", 3),
        ("pünktlich", 3),
        ("français", 3),
        ("señor", 2),
        ("źdźbło", 2),
        ("příliš", 2),
    ];
    for (input, want) in cases {
        assert_eq!(est(input), *want, "segment {input:?}");
    }
}

#[test]
fn whitespace_segment_is_zero() {
    assert_eq!(est("   "), 0);
    assert_eq!(est("\t\n "), 0);
}

#[test]
fn uppercase_accents_match_language_rules() {
    assert_eq!(est("ÜBERGROSS"), (9.0_f64 / 3.0).ceil() as u64);
}

#[test]
fn split_keeps_delimiters() {
    let segs = split_segments("Hello, world!");
    assert_eq!(segs, vec!["Hello", ",", " ", "world", "!"]);
}

#[test]
fn split_drops_empty_pieces() {
    let segs = split_segments("  a  ");
    assert_eq!(segs, vec!["  ", "a", "  "]);
}

#[test]
fn built_in_rules_compile_and_fold_case() {
    assert_eq!(default_language_configs().len(), 3);
    // German rule at 3 chars per token: ceil(9 / 3).
    assert_eq!(est("ÄRGERLICH"), 3);
    assert_eq!(est("ärgerlich"), 3);
    // Slavic rule at 3.5: ceil(5 / 3.5).
    assert_eq!(est("ŁĄKAŁ"), 2);
    // No rule: the default 6, ceil(9 / 6).
    assert_eq!(est("Argerlich"), 2);
}
