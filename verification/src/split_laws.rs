//! How chunking lays a text out: where each chunk starts and ends among the
//! segments, what it carries over from the chunk before, and how the chunks
//! join back into the text.

use vstd::prelude::*;
use crate::estimate::cap;
use crate::language::{CharsPerToken, LanguageRule};
use crate::segment::{lemma_segments_cover, segments};
use crate::split::{
    chunk_state, lemma_overlap_back, overlap_back, seg_counts, split_chunks,
};

verus! {

/// The sum of `counts[p..q]`.
pub open spec fn count_sum(counts: Seq<nat>, p: int, q: int) -> nat
    decreases q - p,
{
    if p < q {
        count_sum(counts, p, q - 1) + counts[q - 1]
    } else {
        0
    }
}

proof fn lemma_count_sum_left(counts: Seq<nat>, p: int, q: int)
    requires
        p < q,
    ensures
        count_sum(counts, p, q) == counts[p] + count_sum(counts, p + 1, q),
    decreases q - p,
{
    if p + 1 < q {
        lemma_count_sum_left(counts, p, q - 1);
    } else {
        assert(count_sum(counts, p, p) == 0);
        assert(count_sum(counts, p + 1, q) == 0);
    }
}

proof fn lemma_count_sum_grows(counts: Seq<nat>, p: int, x: int, y: int)
    requires
        x <= y,
    ensures
        count_sum(counts, p, x) <= count_sum(counts, p, y),
    decreases y - x,
{
    if x < y {
        lemma_count_sum_grows(counts, p, x, y - 1);
    }
}

proof fn lemma_cap_add(x: nat, y: nat)
    ensures
        cap(cap(x) + y) == cap(x + y),
{
}

/// `r` starts what a chunk `segs[p..q]` carries into the next one under
/// `overlap`: nothing (`r == q`) when `overlap` is 0; else the shortest
/// suffix of the chunk whose count reaches `overlap`, or the whole chunk when
/// none does.
pub open spec fn carried_start(counts: Seq<nat>, overlap: nat, p: int, q: int, r: int) -> bool {
    if overlap == 0 {
        r == q
    } else {
        &&& p <= r <= q
        &&& cap(count_sum(counts, r, q)) >= overlap || r == p
        &&& forall|x: int| r < x <= q ==> cap(#[trigger] count_sum(counts, x, q)) < overlap
    }
}

proof fn lemma_overlap_back_carries(
    counts: Seq<nat>,
    overlap: nat,
    lo: int,
    i: int,
    q: int,
    acc: nat,
)
    requires
        overlap > 0,
        lo <= i <= q,
        acc == cap(count_sum(counts, i, q)),
        forall|x: int| i < x <= q ==> cap(#[trigger] count_sum(counts, x, q)) < overlap,
    ensures
        carried_start(counts, overlap, lo, q, overlap_back(counts, overlap, lo, i, acc).0),
        overlap_back(counts, overlap, lo, i, acc).1 == cap(
            count_sum(counts, overlap_back(counts, overlap, lo, i, acc).0, q),
        ),
    decreases i - lo,
{
    if lo < i && acc < overlap {
        lemma_count_sum_left(counts, i - 1, q);
        lemma_cap_add(count_sum(counts, i, q), counts[i - 1]);
        lemma_overlap_back_carries(counts, overlap, lo, i - 1, q, cap(acc + counts[i - 1]));
    }
}

/// Whether a chunk is emitted when segment `k - 1` joins the open chunk.
pub open spec fn emits(segs: Seq<Seq<char>>, counts: Seq<nat>, per_chunk: nat, overlap: nat, k: nat) -> bool {
    cap(chunk_state(segs, counts, per_chunk, overlap, (k - 1) as nat).count + counts[k - 1])
        >= per_chunk
}

/// The first segment of each chunk emitted within the first `k` segments.
pub open spec fn chunk_starts(segs: Seq<Seq<char>>, counts: Seq<nat>, per_chunk: nat, overlap: nat, k: nat) -> Seq<int>
    decreases k,
{
    if k == 0 {
        seq![]
    } else if emits(segs, counts, per_chunk, overlap, k) {
        chunk_starts(segs, counts, per_chunk, overlap, (k - 1) as nat).push(
            chunk_state(segs, counts, per_chunk, overlap, (k - 1) as nat).lo,
        )
    } else {
        chunk_starts(segs, counts, per_chunk, overlap, (k - 1) as nat)
    }
}

/// The end (one past the last segment) of each chunk emitted within the
/// first `k` segments.
pub open spec fn chunk_ends(segs: Seq<Seq<char>>, counts: Seq<nat>, per_chunk: nat, overlap: nat, k: nat) -> Seq<int>
    decreases k,
{
    if k == 0 {
        seq![]
    } else if emits(segs, counts, per_chunk, overlap, k) {
        chunk_ends(segs, counts, per_chunk, overlap, (k - 1) as nat).push(k as int)
    } else {
        chunk_ends(segs, counts, per_chunk, overlap, (k - 1) as nat)
    }
}

/// Where the chunk before chunk `j` ended (0 for the first).
pub open spec fn prev_end(ends: Seq<int>, j: int) -> int {
    if j == 0 {
        0
    } else {
        ends[j - 1]
    }
}

/// What holds of the chunking state after `k` segments.
#[verifier::opaque]
pub open spec fn chunking_invariant(
    segs: Seq<Seq<char>>,
    counts: Seq<nat>,
    per_chunk: nat,
    overlap: nat,
    k: nat,
) -> bool {
    let s = chunk_state(segs, counts, per_chunk, overlap, k);
    let st = chunk_starts(segs, counts, per_chunk, overlap, k);
    let en = chunk_ends(segs, counts, per_chunk, overlap, k);
    let m = s.chunks.len();
    &&& st.len() == m && en.len() == m
    &&& forall|j: int|
        0 <= j < m ==> {
            &&& 0 <= #[trigger] st[j] < en[j] <= k
            &&& s.chunks[j] == segs.subrange(st[j], en[j]).flatten()
            &&& cap(count_sum(counts, st[j], en[j])) >= per_chunk
            &&& forall|x: int|
                prev_end(en, j) < x < en[j] ==> cap(#[trigger] count_sum(counts, st[j], x))
                    < per_chunk
        }
    &&& m > 0 ==> st[0] == 0
    &&& m == 0 ==> s.lo == 0
    &&& forall|j: int|
        0 <= j < m - 1 ==> en[j] < en[j + 1] && carried_start(
            counts,
            overlap,
            #[trigger] st[j],
            en[j],
            st[j + 1],
        )
    &&& m > 0 ==> carried_start(counts, overlap, st[m - 1], en[m - 1], s.lo)
    &&& 0 <= s.lo <= k
    &&& s.count == cap(count_sum(counts, s.lo, k as int))
    &&& forall|x: int|
        prev_end(en, m as int) < x <= k ==> cap(#[trigger] count_sum(counts, s.lo, x)) < per_chunk
}

#[verifier::spinoff_prover]
#[verifier::rlimit(60)]
proof fn lemma_chunking_invariant(
    segs: Seq<Seq<char>>,
    counts: Seq<nat>,
    per_chunk: nat,
    overlap: nat,
    k: nat,
)
    requires
        per_chunk > 0,
        k <= segs.len(),
        counts.len() == segs.len(),
    ensures
        chunking_invariant(segs, counts, per_chunk, overlap, k),
    decreases k,
{
    reveal(chunking_invariant);
    if k > 0 {
        let k0 = (k - 1) as nat;
        lemma_chunking_invariant(segs, counts, per_chunk, overlap, k0);
        let s0 = chunk_state(segs, counts, per_chunk, overlap, k0);
        let st0 = chunk_starts(segs, counts, per_chunk, overlap, k0);
        let en0 = chunk_ends(segs, counts, per_chunk, overlap, k0);
        let m0 = s0.chunks.len() as int;
        let s = chunk_state(segs, counts, per_chunk, overlap, k);
        let st = chunk_starts(segs, counts, per_chunk, overlap, k);
        let en = chunk_ends(segs, counts, per_chunk, overlap, k);
        lemma_cap_add(count_sum(counts, s0.lo, k0 as int), counts[k - 1]);
        let c = cap(s0.count + counts[k - 1]);
        assert(c == cap(count_sum(counts, s0.lo, k as int)));
        if c >= per_chunk {
            assert(emits(segs, counts, per_chunk, overlap, k));
            assert(s.chunks == s0.chunks.push(segs.subrange(s0.lo, k as int).flatten()));
            assert(st == st0.push(s0.lo));
            assert(en == en0.push(k as int));
            if overlap > 0 {
                assert(count_sum(counts, k as int, k as int) == 0);
                lemma_overlap_back_carries(counts, overlap, s0.lo, k as int, k as int, 0);
                lemma_overlap_back(counts, overlap, s0.lo, k as int, 0);
            }
            assert forall|j: int| 0 <= j < m0 + 1 implies {
                &&& 0 <= #[trigger] st[j] < en[j] <= k
                &&& s.chunks[j] == segs.subrange(st[j], en[j]).flatten()
                &&& cap(count_sum(counts, st[j], en[j])) >= per_chunk
                &&& forall|x: int|
                    prev_end(en, j) < x < en[j] ==> cap(#[trigger] count_sum(counts, st[j], x))
                        < per_chunk
            } by {
                if j < m0 {
                    assert(st[j] == st0[j] && en[j] == en0[j] && s.chunks[j] == s0.chunks[j]);
                    assert(prev_end(en, j) == prev_end(en0, j));
                } else {
                    assert(st[j] == s0.lo && en[j] == k);
                    assert(prev_end(en, j) == prev_end(en0, m0));
                }
            }
            assert forall|j: int| 0 <= j < m0 implies en[j] < en[j + 1] && carried_start(
                counts,
                overlap,
                #[trigger] st[j],
                en[j],
                st[j + 1],
            ) by {
                assert(st[j] == st0[j] && en[j] == en0[j]);
                if j < m0 - 1 {
                    assert(st[j + 1] == st0[j + 1] && en[j + 1] == en0[j + 1]);
                } else {
                    assert(st[j + 1] == s0.lo && en[j + 1] == k);
                }
            }
            assert(prev_end(en, m0 + 1) == k);
        } else {
            assert(!emits(segs, counts, per_chunk, overlap, k));
            assert(st == st0 && en == en0 && s.chunks == s0.chunks);
            assert forall|x: int| prev_end(en, m0) < x <= k implies cap(
                #[trigger] count_sum(counts, s.lo, x),
            ) < per_chunk by {
                if x < k {
                    assert(prev_end(en, m0) == prev_end(en0, m0));
                }
            }
        }
    }
}

} // verus!

verus! {

/// What each chunk adds to the text: the segments from where the chunk
/// before it ended to where it ends.
pub open spec fn new_parts(segs: Seq<Seq<char>>, ends: Seq<int>) -> Seq<Seq<char>> {
    Seq::new((ends.len() - 1) as nat, |j: int| segs.subrange(ends[j], ends[j + 1]).flatten())
}

/// The chunks laid out over the segments: chunk `j` joins segments
/// `starts[j]..ends[j]`. The first chunk starts at segment 0 and the last
/// ends at the last segment. Each chunk but the last reached the budget, and
/// closed at the first segment at which it did; the next chunk starts with
/// what [`carried_start`] says it carries, followed by new segments.
pub open spec fn chunk_layout(
    segs: Seq<Seq<char>>,
    counts: Seq<nat>,
    per_chunk: nat,
    overlap: nat,
    chunks: Seq<Seq<char>>,
    starts: Seq<int>,
    ends: Seq<int>,
) -> bool {
    let m = chunks.len();
    &&& starts.len() == m && ends.len() == m && m > 0
    &&& starts[0] == 0 && ends[m - 1] == segs.len()
    &&& forall|j: int|
        0 <= j < m ==> {
            &&& 0 <= #[trigger] starts[j] < ends[j] <= segs.len()
            &&& chunks[j] == segs.subrange(starts[j], ends[j]).flatten()
            &&& forall|x: int|
                prev_end(ends, j) < x < ends[j] ==> cap(#[trigger] count_sum(counts, starts[j], x))
                    < per_chunk
        }
    &&& forall|j: int|
        0 <= j < m - 1 ==> {
            &&& ends[j] <= ends[j + 1]
            &&& cap(count_sum(counts, #[trigger] starts[j], ends[j])) >= per_chunk
            &&& carried_start(counts, overlap, starts[j], ends[j], starts[j + 1])
            &&& chunks[j + 1] == segs.subrange(starts[j + 1], ends[j]).flatten() + segs.subrange(
                ends[j],
                ends[j + 1],
            ).flatten()
        }
}

proof fn lemma_flatten_split(segs: Seq<Seq<char>>, a: int, b: int, c: int)
    requires
        0 <= a <= b <= c <= segs.len(),
    ensures
        segs.subrange(a, c).flatten() == segs.subrange(a, b).flatten() + segs.subrange(
            b,
            c,
        ).flatten(),
{
    assert(segs.subrange(a, c) =~= segs.subrange(a, b) + segs.subrange(b, c));
    vstd::seq_lib::lemma_flatten_concat(segs.subrange(a, b), segs.subrange(b, c));
}

proof fn lemma_new_parts_join(segs: Seq<Seq<char>>, ends: Seq<int>)
    requires
        ends.len() > 0,
        0 <= ends[0],
        ends[ends.len() - 1] <= segs.len(),
        forall|j: int| 0 <= j < ends.len() - 1 ==> #[trigger] ends[j] <= ends[j + 1],
    ensures
        new_parts(segs, ends).flatten() == segs.subrange(ends[0], ends[ends.len() - 1]).flatten(),
    decreases ends.len(),
{
    let l = ends.len();
    if l == 1 {
        assert(new_parts(segs, ends) =~= Seq::<Seq<char>>::empty());
        assert(segs.subrange(ends[0], ends[0]) =~= Seq::<Seq<char>>::empty());
    } else {
        let e = ends.drop_last();
        assert forall|j: int| 0 <= j < e.len() - 1 implies #[trigger] e[j] <= e[j + 1] by {
            assert(e[j] == ends[j] && e[j + 1] == ends[j + 1]);
        }
        assert(ends[l - 2] <= ends[l - 1]);
        assert forall|j: int| 0 <= j < l - 1 implies ends[0] <= #[trigger] ends[j] by {
            lemma_ends_grow(ends, 0, j);
        }
        lemma_new_parts_join(segs, e);
        let last = segs.subrange(ends[l - 2], ends[l - 1]).flatten();
        assert(new_parts(segs, ends) =~= new_parts(segs, e).push(last));
        new_parts(segs, e).lemma_flatten_push(last);
        lemma_flatten_split(segs, ends[0], ends[l - 2], ends[l - 1]);
    }
}

proof fn lemma_ends_grow(ends: Seq<int>, i: int, j: int)
    requires
        0 <= i <= j < ends.len(),
        forall|x: int| 0 <= x < ends.len() - 1 ==> #[trigger] ends[x] <= ends[x + 1],
    ensures
        ends[i] <= ends[j],
    decreases j - i,
{
    if i < j {
        lemma_ends_grow(ends, i, j - 1);
        assert(ends[j - 1] <= ends[j]);
    }
}

/// The chunks after all `segs.len()` segments: those emitted, then the open
/// chunk when it holds a segment.
pub open spec fn final_chunks(segs: Seq<Seq<char>>, counts: Seq<nat>, per_chunk: nat, overlap: nat) -> Seq<Seq<char>> {
    let n = segs.len();
    let s = chunk_state(segs, counts, per_chunk, overlap, n);
    if s.lo < n {
        s.chunks.push(segs.subrange(s.lo, n as int).flatten())
    } else {
        s.chunks
    }
}

/// The layout of the chunks of a non-empty list of segments, as the first
/// segment and the end of each chunk.
#[verifier::spinoff_prover]
#[verifier::rlimit(40)]
proof fn lemma_layout_segs(
    segs: Seq<Seq<char>>,
    counts: Seq<nat>,
    per_chunk: nat,
    overlap: nat,
) -> (r: (Seq<int>, Seq<int>))
    requires
        segs.len() > 0,
        counts.len() == segs.len(),
        per_chunk > 0,
    ensures
        chunk_layout(
            segs,
            counts,
            per_chunk,
            overlap,
            final_chunks(segs, counts, per_chunk, overlap),
            r.0,
            r.1,
        ),
{
    let n = segs.len();
    lemma_chunking_invariant(segs, counts, per_chunk, overlap, n);
    reveal(chunking_invariant);
    let s = chunk_state(segs, counts, per_chunk, overlap, n);
    let st = chunk_starts(segs, counts, per_chunk, overlap, n);
    let en = chunk_ends(segs, counts, per_chunk, overlap, n);
    let m0 = s.chunks.len() as int;
    let chunks = final_chunks(segs, counts, per_chunk, overlap);
    let (starts, ends) = if s.lo < n {
        (st.push(s.lo), en.push(n as int))
    } else {
        (st, en)
    };
    let m = chunks.len() as int;
    assert(starts.len() == m && ends.len() == m && m > 0);
    assert(starts[0] == 0 && ends[m - 1] == n);
    assert forall|j: int| 0 <= j < m implies {
        &&& 0 <= #[trigger] starts[j] < ends[j] <= segs.len()
        &&& chunks[j] == segs.subrange(starts[j], ends[j]).flatten()
        &&& forall|x: int|
            prev_end(ends, j) < x < ends[j] ==> cap(#[trigger] count_sum(counts, starts[j], x))
                < per_chunk
    } by {
        if j < m0 {
            assert(starts[j] == st[j] && ends[j] == en[j] && chunks[j] == s.chunks[j]);
            assert(prev_end(ends, j) == prev_end(en, j));
        } else {
            assert(starts[j] == s.lo && ends[j] == n);
            assert(prev_end(ends, j) == prev_end(en, m0));
        }
    }
    assert forall|j: int| 0 <= j < m - 1 implies {
        &&& ends[j] <= ends[j + 1]
        &&& cap(count_sum(counts, #[trigger] starts[j], ends[j])) >= per_chunk
        &&& carried_start(counts, overlap, starts[j], ends[j], starts[j + 1])
        &&& chunks[j + 1] == segs.subrange(starts[j + 1], ends[j]).flatten() + segs.subrange(
            ends[j],
            ends[j + 1],
        ).flatten()
    } by {
        assert(starts[j] == st[j] && ends[j] == en[j]);
        if j + 1 < m0 {
            assert(starts[j + 1] == st[j + 1] && ends[j + 1] == en[j + 1]);
        } else {
            assert(starts[j + 1] == s.lo && ends[j + 1] == n);
        }
        assert(starts[j + 1] <= ends[j]);
        lemma_flatten_split(segs, starts[j + 1], ends[j], ends[j + 1]);
    }
    (starts, ends)
}

/// The layout of the chunks of a non-empty text.
proof fn lemma_layout(
    t: Seq<char>,
    per_chunk: nat,
    overlap: nat,
    rules: Seq<LanguageRule>,
    rate: CharsPerToken,
) -> (r: (Seq<int>, Seq<int>))
    requires
        t.len() > 0,
        per_chunk > 0,
    ensures
        chunk_layout(
            segments(t),
            seg_counts(segments(t), rules, rate),
            per_chunk,
            overlap,
            split_chunks(t, per_chunk, overlap, rules, rate),
            r.0,
            r.1,
        ),
{
    let segs = segments(t);
    lemma_segments_cover(t);
    if segs.len() == 0 {
        assert(segs.flatten() =~= Seq::<char>::empty());
    }
    let counts = seg_counts(segs, rules, rate);
    assert(split_chunks(t, per_chunk, overlap, rules, rate) == final_chunks(
        segs,
        counts,
        per_chunk,
        overlap,
    ));
    lemma_layout_segs(segs, counts, per_chunk, overlap)
}

/// With or without overlap, the chunks of a non-empty text follow
/// [`chunk_layout`]: each chunk closes at the first segment at which its
/// count reaches the budget, and the next one opens with the segments that
/// [`carried_start`] says are carried over. Leaving out what each chunk
/// carries and joining the rest gives the text back.
pub proof fn law_split_layout(
    t: Seq<char>,
    per_chunk: nat,
    overlap: nat,
    rules: Seq<LanguageRule>,
    rate: CharsPerToken,
)
    requires
        t.len() > 0,
        per_chunk > 0,
    ensures
        exists|starts: Seq<int>, ends: Seq<int>|
            #[trigger] chunk_layout(
                segments(t),
                seg_counts(segments(t), rules, rate),
                per_chunk,
                overlap,
                split_chunks(t, per_chunk, overlap, rules, rate),
                starts,
                ends,
            ) && split_chunks(t, per_chunk, overlap, rules, rate)[0] + new_parts(
                segments(t),
                ends,
            ).flatten() == t,
{
    let segs = segments(t);
    let (starts, ends) = lemma_layout(t, per_chunk, overlap, rules, rate);
    let chunks = split_chunks(t, per_chunk, overlap, rules, rate);
    let m = chunks.len() as int;
    assert forall|j: int| 0 <= j < ends.len() - 1 implies #[trigger] ends[j] <= ends[j + 1] by {
        assert(0 <= starts[j]);
    }
    assert(0 <= starts[0]);
    lemma_new_parts_join(segs, ends);
    lemma_flatten_split(segs, 0, ends[0], segs.len() as int);
    assert(segs.subrange(0, segs.len() as int) =~= segs);
    lemma_segments_cover(t);
}

/// The boundaries between the chunks, for no overlap: `b[0] == 0`, the last
/// is the number of segments, and they increase.
pub open spec fn chunk_boundaries(
    segs: Seq<Seq<char>>,
    counts: Seq<nat>,
    per_chunk: nat,
    chunks: Seq<Seq<char>>,
    b: Seq<int>,
) -> bool {
    let m = chunks.len();
    &&& b.len() == m + 1
    &&& b[0] == 0 && b[m as int] == segs.len()
    &&& forall|j: int|
        0 <= j < m ==> {
            &&& #[trigger] b[j] < b[j + 1]
            &&& chunks[j] == segs.subrange(b[j], b[j + 1]).flatten()
            &&& cap(count_sum(counts, b[j], b[j + 1] - 1)) < per_chunk
        }
    &&& forall|j: int| 0 <= j < m - 1 ==> cap(count_sum(counts, #[trigger] b[j], b[j + 1])) >= per_chunk
}

/// Without overlap, the chunks of a non-empty text cut its segments at
/// increasing boundaries: a chunk's count without its last segment stays
/// under the budget, and every chunk but the last reaches it.
pub proof fn law_split_boundaries(
    t: Seq<char>,
    per_chunk: nat,
    rules: Seq<LanguageRule>,
    rate: CharsPerToken,
)
    requires
        t.len() > 0,
        per_chunk > 0,
    ensures
        exists|b: Seq<int>|
            #[trigger] chunk_boundaries(
                segments(t),
                seg_counts(segments(t), rules, rate),
                per_chunk,
                split_chunks(t, per_chunk, 0, rules, rate),
                b,
            ),
{
    let segs = segments(t);
    let counts = seg_counts(segs, rules, rate);
    let chunks = split_chunks(t, per_chunk, 0, rules, rate);
    let (starts, ends) = lemma_layout(t, per_chunk, 0, rules, rate);
    let m = chunks.len() as int;
    let b = seq![0int] + ends;
    assert forall|j: int| 0 <= j < m implies b[j] == starts[j] && prev_end(ends, j) == b[j] by {
        if j > 0 {
            assert(carried_start(counts, 0, starts[j - 1], ends[j - 1], starts[j]));
        }
    }
    assert forall|j: int| 0 <= j < m implies {
        &&& #[trigger] b[j] < b[j + 1]
        &&& chunks[j] == segs.subrange(b[j], b[j + 1]).flatten()
        &&& cap(count_sum(counts, b[j], b[j + 1] - 1)) < per_chunk
    } by {
        assert(b[j] == starts[j] && b[j + 1] == ends[j]);
        assert(0 <= starts[j] < ends[j]);
        if ends[j] - 1 == starts[j] {
            assert(count_sum(counts, b[j], b[j]) == 0);
        } else {
            assert(prev_end(ends, j) < ends[j] - 1 < ends[j]);
        }
    }
    assert forall|j: int| 0 <= j < m - 1 implies cap(count_sum(counts, #[trigger] b[j], b[j + 1]))
        >= per_chunk by {
        assert(b[j] == starts[j] && b[j + 1] == ends[j]);
    }
    assert(chunk_boundaries(segs, counts, per_chunk, chunks, b));
}

} // verus!
