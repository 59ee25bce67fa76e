use tokenx::language::default_chars_per_token;
use tokenx::{
    default_language_configs, estimate_segment_tokens, estimate_token_count, slice_by_tokens,
    split_by_tokens, split_by_tokens_with, split_segments, SplitByTokensOptions,
};

const BMP_TEXT: &str = "Der Preis: 3.14 € (netto) — naïve café, 東京タワー & ひらがな\tx\r\n end. \
Zażółć gęślą jaźń; 1,000.50 items... ok?";

fn segment_counts(text: &str) -> (Vec<String>, Vec<u64>) {
    let segs = split_segments(text);
    let configs = default_language_configs();
    let counts = segs
        .iter()
        .map(|s| estimate_segment_tokens(s, &configs, default_chars_per_token()))
        .collect();
    (segs, counts)
}

fn sum(counts: &[u64]) -> u64 {
    counts.iter().fold(0u64, |a, c| a.saturating_add(*c))
}

#[test]
fn joining_with_a_space_adds_the_estimates() {
    let parts = [
        "",
        " ",
        "Hello, world!",
        "trailing  ",
        "  leading",
        "12",
        "34.5",
        "東京タワー",
        "naïve café",
        "a.b",
        "\t\n",
    ];
    for a in parts {
        for b in parts {
            let joined = format!("{a} {b}");
            assert_eq!(
                estimate_token_count(&joined),
                estimate_token_count(a).saturating_add(estimate_token_count(b)),
                "{a:?} + {b:?}"
            );
        }
    }
}

#[test]
fn slice_before_and_from_a_position_cover_the_text() {
    let total = estimate_token_count(BMP_TEXT) as i64;
    for k in 0..=total + 1 {
        let p = slice_by_tokens(BMP_TEXT, 0, Some(k));
        let s = slice_by_tokens(BMP_TEXT, k, None);
        assert!(BMP_TEXT.starts_with(&p), "prefix at {k}");
        assert!(BMP_TEXT.ends_with(&s), "suffix at {k}");
        assert!(p.chars().count() + s.chars().count() >= BMP_TEXT.chars().count(), "cover at {k}");
    }
}

/// The segment range of each chunk, found by matching the chunks against the
/// segments: chunk `j` starts at `starts[j]`.
fn chunk_ends(segs: &[String], chunks: &[String], starts: &[usize]) -> Vec<usize> {
    let mut ends = Vec::new();
    for (j, chunk) in chunks.iter().enumerate() {
        let mut q = starts[j];
        let mut acc = String::new();
        while acc.len() < chunk.len() {
            acc.push_str(&segs[q]);
            q += 1;
        }
        assert_eq!(&acc, chunk);
        ends.push(q);
    }
    ends
}

#[test]
fn chunks_without_overlap_close_when_the_budget_is_reached() {
    let (segs, counts) = segment_counts(BMP_TEXT);
    for per in 1..15u64 {
        let chunks = split_by_tokens(BMP_TEXT, per);
        let mut starts = vec![0];
        let mut ends = Vec::new();
        for chunk in &chunks {
            let e = chunk_ends(&segs, std::slice::from_ref(chunk), &starts[starts.len() - 1..]);
            ends.push(e[0]);
            starts.push(e[0]);
        }
        assert_eq!(*ends.last().unwrap(), segs.len());
        for j in 0..chunks.len() {
            let (b0, b1) = (starts[j], ends[j]);
            assert!(b0 < b1);
            assert!(sum(&counts[b0..b1 - 1]) < per);
            if j + 1 < chunks.len() {
                assert!(sum(&counts[b0..b1]) >= per);
            }
        }
    }
}

#[test]
fn chunks_with_overlap_carry_the_shortest_suffix_that_reaches_it() {
    let (segs, counts) = segment_counts(BMP_TEXT);
    for per in 1..10u64 {
        for overlap in 1..6u64 {
            let opts = SplitByTokensOptions { overlap: Some(overlap as i64), ..Default::default() };
            let chunks = split_by_tokens_with(BMP_TEXT, per, &opts);
            let mut starts = vec![0usize];
            let mut ends = Vec::new();
            for j in 0..chunks.len() {
                let e = chunk_ends(&segs, &chunks[j..j + 1], &starts[j..j + 1])[0];
                ends.push(e);
                // The shortest suffix of segs[starts[j]..e] whose count reaches
                // the overlap, else the whole chunk.
                let mut r = e;
                while r > starts[j] && sum(&counts[r..e]) < overlap {
                    r -= 1;
                }
                starts.push(r);
            }
            assert_eq!(*ends.last().unwrap(), segs.len());
            let mut rebuilt = chunks[0].clone();
            for j in 0..chunks.len() - 1 {
                assert!(sum(&counts[starts[j]..ends[j]]) >= per);
                let carried: String = segs[starts[j + 1]..ends[j]].concat();
                assert!(chunks[j + 1].starts_with(&carried));
                rebuilt.push_str(&chunks[j + 1][carried.len()..]);
            }
            assert_eq!(rebuilt, BMP_TEXT);
        }
    }
}

#[test]
fn carried_segments_are_the_texts_own() {
    // The second chunk starts inside the word "a.1,5". Its carried part is
    // counted over the text's segments "5", " ", "b", " ", "c"; re-splitting
    // the chunk "1,5 b c" would read "1,5" as one number instead.
    let opts = SplitByTokensOptions { overlap: Some(3), ..Default::default() };
    assert_eq!(
        split_by_tokens_with("a.1,5 b c d", 5, &opts),
        vec!["a.1,5", "1,5 b c", "5 b c d"]
    );
}

#[test]
fn proportional_cut_is_exact() {
    let run: String = std::iter::repeat('東').take(49).collect();
    assert_eq!(estimate_token_count(&run), 49);
    // One token of 49 is one character of 49: the rest stays.
    assert_eq!(slice_by_tokens(&run, 1, None).chars().count(), 48);
    assert_eq!(slice_by_tokens(&run, 0, Some(1)).chars().count(), 1);
}
