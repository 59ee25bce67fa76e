//! Chunking text by a token budget.

use vstd::prelude::*;
use crate::estimate::{cap, segment_tokens, segment_tokens_range, lemma_segments_index};
use crate::language::{rules_view, CharsPerToken, LanguageConfig, LanguageRule};
use crate::segment::{
    lemma_spans_from_within, segment_spans, segment_spans_exec, segments, spans_view,
    spans_within,
};
use crate::text::push_char;

verus! {

/// The state of chunking after some segments: the chunks emitted so far, the
/// index of the first segment of the open chunk, and its token count.
pub struct ChunkState {
    pub chunks: Seq<Seq<char>>,
    pub lo: int,
    pub count: nat,
}

/// The token count of each segment.
pub open spec fn seg_counts(segs: Seq<Seq<char>>, rules: Seq<LanguageRule>, rate: CharsPerToken) -> Seq<nat> {
    segs.map_values(|s: Seq<char>| segment_tokens(s, rules, rate))
}

/// Walks back from segment `i` towards `lo`, adding counts, until `acc`
/// reaches `overlap`. Gives the first carried segment and the carried count.
pub open spec fn overlap_back(counts: Seq<nat>, overlap: nat, lo: int, i: int, acc: nat) -> (int, nat)
    decreases i - lo,
{
    if lo < i && acc < overlap {
        overlap_back(counts, overlap, lo, i - 1, cap(acc + counts[i - 1]))
    } else {
        (i, acc)
    }
}

/// The chunking state after the first `k` segments. A segment joins the open
/// chunk; once the chunk's count reaches `per_chunk`, the chunk is emitted
/// and the next one opens with the last segments that make up `overlap`
/// tokens (none when `overlap` is 0).
pub open spec fn chunk_state(
    segs: Seq<Seq<char>>,
    counts: Seq<nat>,
    per_chunk: nat,
    overlap: nat,
    k: nat,
) -> ChunkState
    decreases k,
{
    if k == 0 {
        ChunkState { chunks: seq![], lo: 0, count: 0 }
    } else {
        let s = chunk_state(segs, counts, per_chunk, overlap, (k - 1) as nat);
        let c = cap(s.count + counts[k - 1]);
        if c >= per_chunk {
            let chunks = s.chunks.push(segs.subrange(s.lo, k as int).flatten());
            if overlap > 0 {
                let back = overlap_back(counts, overlap, s.lo, k as int, 0);
                ChunkState { chunks, lo: back.0, count: back.1 }
            } else {
                ChunkState { chunks, lo: k as int, count: 0 }
            }
        } else {
            ChunkState { chunks: s.chunks, lo: s.lo, count: c }
        }
    }
}

/// The overlap that an option selects: its value when positive, else 0.
pub open spec fn overlap_of(opt: Option<i64>) -> nat {
    match opt {
        Some(o) => if o > 0 {
            o as nat
        } else {
            0
        },
        None => 0,
    }
}

/// The chunks of `t` for a budget of `per_chunk` tokens: none for an empty
/// text or a zero budget; else the emitted chunks, then the open chunk when
/// it holds a segment.
pub open spec fn split_chunks(
    t: Seq<char>,
    per_chunk: nat,
    overlap: nat,
    rules: Seq<LanguageRule>,
    rate: CharsPerToken,
) -> Seq<Seq<char>> {
    if t.len() == 0 || per_chunk == 0 {
        seq![]
    } else {
        let segs = segments(t);
        let n = segs.len();
        let s = chunk_state(segs, seg_counts(segs, rules, rate), per_chunk, overlap, n);
        if s.lo < n {
            s.chunks.push(segs.subrange(s.lo, n as int).flatten())
        } else {
            s.chunks
        }
    }
}

pub proof fn lemma_overlap_back(counts: Seq<nat>, overlap: nat, lo: int, i: int, acc: nat)
    requires
        lo <= i,
    ensures
        lo <= overlap_back(counts, overlap, lo, i, acc).0 <= i,
    decreases i - lo,
{
    if lo < i && acc < overlap {
        lemma_overlap_back(counts, overlap, lo, i - 1, cap(acc + counts[i - 1]));
    }
}

pub proof fn lemma_chunk_state_lo(
    segs: Seq<Seq<char>>,
    counts: Seq<nat>,
    per_chunk: nat,
    overlap: nat,
    k: nat,
)
    ensures
        0 <= chunk_state(segs, counts, per_chunk, overlap, k).lo <= k,
    decreases k,
{
    if k > 0 {
        let s = chunk_state(segs, counts, per_chunk, overlap, (k - 1) as nat);
        lemma_chunk_state_lo(segs, counts, per_chunk, overlap, (k - 1) as nat);
        lemma_overlap_back(counts, overlap, s.lo, k as int, 0);
    }
}

/// Appends the characters of `t[a..b]` to `s`.
fn append_range(s: &mut String, t: &[char], a: usize, b: usize)
    requires
        a <= b <= t@.len(),
    ensures
        final(s)@ == old(s)@ + t@.subrange(a as int, b as int),
{
    let mut i = a;
    assert(old(s)@ =~= old(s)@ + t@.subrange(a as int, a as int));
    while i < b
        invariant
            a <= i <= b <= t@.len(),
            s@ == old(s)@ + t@.subrange(a as int, i as int),
        decreases b - i,
    {
        push_char(s, t[i]);
        assert(t@.subrange(a as int, i + 1) =~= t@.subrange(a as int, i as int).push(t@[i as int]));
        i = i + 1;
    }
}

/// The concatenation of segments `lo..hi` of `t`.
fn join_segments(t: &[char], spans: &Vec<(usize, usize)>, lo: usize, hi: usize) -> (s: String)
    requires
        lo <= hi <= spans@.len(),
        spans_view(spans@) == segment_spans(t@),
        spans_within(segment_spans(t@), 0, t@.len() as int),
    ensures
        s@ == segments(t@).subrange(lo as int, hi as int).flatten(),
{
    let mut s = String::new();
    let mut j = lo;
    assert(segments(t@).subrange(lo as int, lo as int) =~= Seq::<Seq<char>>::empty());
    while j < hi
        invariant
            lo <= j <= hi <= spans@.len(),
            spans_view(spans@) == segment_spans(t@),
            spans_within(segment_spans(t@), 0, t@.len() as int),
            s@ == segments(t@).subrange(lo as int, j as int).flatten(),
        decreases hi - j,
    {
        let (a, b) = spans[j];
        proof {
            assert(segment_spans(t@)[j as int] == (a as int, b as int));
            lemma_segments_index(t@, j as int);
            let x = segments(t@).subrange(lo as int, j as int);
            assert(segments(t@).subrange(lo as int, j + 1) =~= x.push(segments(t@)[j as int]));
            x.lemma_flatten_push(segments(t@)[j as int]);
        }
        append_range(&mut s, t, a, b);
        j = j + 1;
    }
    s
}

/// The chunks of `t`, by [`split_chunks`].
pub fn split_chars(
    t: &[char],
    per_chunk: u64,
    overlap: u64,
    rules: &[LanguageConfig],
    rate: CharsPerToken,
) -> (v: Vec<String>)
    ensures
        v@.map_values(|s: String| s@) == split_chunks(
            t@,
            per_chunk as nat,
            overlap as nat,
            rules_view(rules@),
            rate,
        ),
{
    let mut chunks: Vec<String> = Vec::new();
    if t.len() == 0 || per_chunk == 0 {
        assert(chunks@.map_values(|s: String| s@) =~= Seq::<Seq<char>>::empty());
        return chunks;
    }
    let spans = segment_spans_exec(t);
    let ghost segs = segments(t@);
    let ghost counts = seg_counts(segs, rules_view(rules@), rate);
    proof {
        lemma_spans_from_within(t@, 0);
    }
    let n = spans.len();
    let mut seg_count: Vec<u64> = Vec::new();
    let mut lo: usize = 0;
    let mut count: u64 = 0;
    let mut k: usize = 0;
    assert(chunks@.map_values(|s: String| s@) =~= Seq::<Seq<char>>::empty());
    while k < n
        invariant
            k <= n == spans@.len(),
            spans_view(spans@) == segment_spans(t@),
            spans_within(segment_spans(t@), 0, t@.len() as int),
            segs == segments(t@),
            segs.len() == n,
            counts == seg_counts(segs, rules_view(rules@), rate),
            seg_count@.len() == k,
            forall|m: int| 0 <= m < k ==> seg_count@[m] == counts[m],
            chunks@.map_values(|s: String| s@) == chunk_state(
                segs,
                counts,
                per_chunk as nat,
                overlap as nat,
                k as nat,
            ).chunks,
            lo == chunk_state(segs, counts, per_chunk as nat, overlap as nat, k as nat).lo,
            count == chunk_state(segs, counts, per_chunk as nat, overlap as nat, k as nat).count,
        decreases n - k,
    {
        let ghost before = chunk_state(segs, counts, per_chunk as nat, overlap as nat, k as nat);
        proof {
            lemma_chunk_state_lo(segs, counts, per_chunk as nat, overlap as nat, k as nat);
        }
        let (a, b) = spans[k];
        proof {
            assert(segment_spans(t@)[k as int] == (a as int, b as int));
            lemma_segments_index(t@, k as int);
        }
        let c = segment_tokens_range(t, a, b, rules, rate);
        seg_count.push(c);
        count = count.saturating_add(c);
        if count >= per_chunk {
            let chunk = join_segments(t, &spans, lo, k + 1);
            let ghost old_chunks = chunks@;
            chunks.push(chunk);
            proof {
                assert(chunks@.map_values(|s: String| s@) =~= old_chunks.map_values(
                    |s: String| s@,
                ).push(segs.subrange(before.lo, k + 1).flatten()));
            }
            if overlap > 0 {
                let mut i = k + 1;
                let mut oc: u64 = 0;
                while i > lo && oc < overlap
                    invariant
                        lo <= i <= k + 1,
                        k < n,
                        seg_count@.len() == k + 1,
                        forall|m: int| 0 <= m < k + 1 ==> seg_count@[m] == counts[m],
                        overlap_back(counts, overlap as nat, lo as int, k + 1, 0) == overlap_back(
                            counts,
                            overlap as nat,
                            lo as int,
                            i as int,
                            oc as nat,
                        ),
                    decreases i,
                {
                    i = i - 1;
                    oc = oc.saturating_add(seg_count[i]);
                }
                lo = i;
                count = oc;
            } else {
                lo = k + 1;
                count = 0;
            }
        }
        k = k + 1;
    }
    proof {
        lemma_chunk_state_lo(segs, counts, per_chunk as nat, overlap as nat, n as nat);
    }
    if lo < n {
        let last = join_segments(t, &spans, lo, n);
        let ghost old_chunks = chunks@;
        chunks.push(last);
        assert(chunks@.map_values(|s: String| s@) =~= old_chunks.map_values(|s: String| s@).push(
            segs.subrange(lo as int, n as int).flatten(),
        ));
    }
    chunks
}

} // verus!
