use tokenx::patterns::{alphanumeric, cjk, numeric, punctuation, whitespace};
use tokenx::{
    char_count, estimate_segment_tokens, estimate_token_count, estimate_token_count_with,
    slice_by_tokens, split_by_tokens, split_by_tokens_with, split_segments, utf16_len,
    utf16_slice, CharsPerToken, LanguageConfig, SplitByTokensOptions, TokenEstimationOptions,
};

const SAMPLE: &str = "Der Preis: 3.14 € (netto) — naïve café, 東京タワー & ひらがな\t\u{1F600}x\r\n end.";

#[test]
fn segments_rejoin_to_the_text() {
    for text in ["", " ", SAMPLE, "a,,b  c", "1,000.50 and 2.5.6"] {
        assert_eq!(split_segments(text).concat(), text);
    }
}

#[test]
fn segments_are_nonempty_and_uniform() {
    for seg in split_segments(SAMPLE) {
        assert!(!seg.is_empty());
        let spaces = seg.chars().filter(|c| whitespace(&c.to_string())).count();
        assert!(spaces == 0 || spaces == seg.chars().count());
    }
}

#[test]
fn numbers_stay_whole_only_when_standalone() {
    assert_eq!(split_segments("pi 3.14 now"), vec!["pi", " ", "3.14", " ", "now"]);
    assert_eq!(split_segments("v3.14"), vec!["v3", ".", "14"]);
    assert_eq!(split_segments("3.14."), vec!["3", ".", "14", "."]);
}

#[test]
fn whitespace_only_text_has_no_tokens() {
    assert_eq!(estimate_token_count(" \t\n\u{3000}\u{FEFF}"), 0);
}

#[test]
fn split_without_overlap_rejoins() {
    for budget in 1..12 {
        assert_eq!(split_by_tokens(SAMPLE, budget).concat(), SAMPLE);
    }
    let opts = SplitByTokensOptions { overlap: Some(-3), ..Default::default() };
    assert_eq!(split_by_tokens_with(SAMPLE, 4, &opts), split_by_tokens(SAMPLE, 4));
}

#[test]
fn slice_whole_and_past_the_end() {
    let total = estimate_token_count(SAMPLE) as i64;
    assert_eq!(slice_by_tokens(SAMPLE, 0, None), SAMPLE);
    assert_eq!(slice_by_tokens(SAMPLE, 0, Some(total + 1)), SAMPLE);
    assert_eq!(slice_by_tokens(SAMPLE, total + 1, None), "");
    assert_eq!(slice_by_tokens(SAMPLE, -total, Some(4)), slice_by_tokens(SAMPLE, 0, Some(4)));
    assert_eq!(slice_by_tokens(SAMPLE, 7, Some(7)), "");
}

#[test]
fn utf16_lengths_and_slices() {
    assert_eq!(utf16_len("a\u{1F600}b"), 4);
    assert_eq!(char_count("a\u{1F600}b"), 3);
    assert_eq!(utf16_slice("a\u{1F600}b", 0, 4), "a\u{1F600}b");
    assert_eq!(utf16_slice("a\u{1F600}b", 1, 2), "\u{FFFD}");
    assert_eq!(utf16_slice("a\u{1F600}b", 2, 9), "\u{FFFD}b");
    assert_eq!(utf16_slice("abc", 2, 1), "");
    assert_eq!(utf16_slice(SAMPLE, 0, utf16_len(SAMPLE)), SAMPLE);
}

#[test]
fn segment_rules_in_order() {
    let rules: Vec<LanguageConfig> = vec![];
    let six = CharsPerToken::whole(6);
    assert_eq!(estimate_segment_tokens("", &rules, six), 1);
    assert_eq!(estimate_segment_tokens("カタカナ", &rules, six), 4);
    assert_eq!(estimate_segment_tokens("ひらがなひらがな", &rules, six), 2);
    assert_eq!(estimate_segment_tokens("a-b-c-d-e", &rules, six), 5);
    assert_eq!(estimate_segment_tokens("abcdefghijklm", &rules, six), 3);
    assert_eq!(estimate_segment_tokens("abcdefghijklm", &rules, CharsPerToken::new(13, 2)), 2);
}

#[test]
fn rate_edge_values() {
    let text = "hello world this is text";
    let infinite = TokenEstimationOptions {
        default_chars_per_token: Some(CharsPerToken::new(1, 0)),
        ..Default::default()
    };
    assert_eq!(estimate_token_count_with(text, &infinite), 1);
    let zero = TokenEstimationOptions {
        default_chars_per_token: Some(CharsPerToken::new(0, 5)),
        ..Default::default()
    };
    assert_eq!(estimate_token_count_with(text, &zero), u64::MAX);
}

#[test]
fn invalid_pattern_is_an_error() {
    assert!(LanguageConfig::new("(", CharsPerToken::whole(2)).is_err());
    assert!(LanguageConfig::case_insensitive("[a-", CharsPerToken::whole(2)).is_err());
    let err = LanguageConfig::new("(", CharsPerToken::whole(2)).unwrap_err();
    assert!(!err.message.is_empty());
}

#[test]
fn regex_rule_decides_the_rate() {
    let rules = vec![LanguageConfig::new("^wo", CharsPerToken::whole(1)).unwrap()];
    assert_eq!(estimate_segment_tokens("wonderful", &rules, CharsPerToken::whole(6)), 9);
    assert_eq!(estimate_segment_tokens("sunflower", &rules, CharsPerToken::whole(6)), 2);
}

#[test]
fn character_class_tests() {
    assert!(whitespace("\u{FEFF} \u{2028}"));
    assert!(!whitespace(""));
    assert!(!whitespace("\u{0085}"));
    assert!(cjk("aカ"));
    assert!(!cjk("ひらがな"));
    assert!(numeric("1,000.5"));
    assert!(!numeric("1,,0"));
    assert!(!numeric("1."));
    assert!(punctuation("a-b"));
    assert!(!punctuation("ab"));
    assert!(alphanumeric("Ñandú9"));
    assert!(!alphanumeric("a×b"));
}

#[test]
fn bmp_slices_follow_characters() {
    let text = "Trüffelfüllung über alles";
    let chars: Vec<char> = text.chars().collect();
    for a in 0..chars.len() {
        for b in a..=chars.len() {
            let expected: String = chars[a..b].iter().collect();
            assert_eq!(utf16_slice(text, a, b), expected);
        }
    }
}

#[test]
fn chunks_with_overlap_are_pieces_of_the_text() {
    for overlap in 0..6 {
        let opts = SplitByTokensOptions { overlap: Some(overlap), ..Default::default() };
        for chunk in split_by_tokens_with(SAMPLE, 3, &opts) {
            assert!(!chunk.is_empty());
            assert!(SAMPLE.contains(chunk.as_str()));
        }
    }
}
