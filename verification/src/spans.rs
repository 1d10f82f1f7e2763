//! Buffers cut into spans: the chunks an effect chain runs in, and those of an offline bounce.

use vstd::prelude::*;

use crate::ordered::{insert_ordered, strictly_increasing};

verus! {

/// Frames in one chunk of an offline bounce's mixdown.
pub const OFFLINE_CHUNK_FRAMES: usize = 2048;

/// The frames `start..end` of a buffer.
#[derive(Clone, Copy, Debug, PartialEq, Eq, Structural)]
pub struct Span {
    pub start: usize,
    pub end: usize,
}

/// The spans lie end to end, none of them empty, and cover frames `0..length`.
pub open spec fn tiles(spans: Seq<Span>, length: int) -> bool {
    &&& length == 0 <==> spans.len() == 0
    &&& spans.len() > 0 ==> spans[0].start == 0
    &&& spans.len() > 0 ==> spans.last().end == length
    &&& forall|i: int| 0 <= i < spans.len() ==> (#[trigger] spans[i]).start < spans[i].end
    &&& forall|i: int| 0 < i < spans.len() ==> spans[i - 1].end == (#[trigger] spans[i]).start
}

/// Whether some span starts at `frame`.
pub open spec fn starts_at(spans: Seq<Span>, frame: int) -> bool {
    exists|i: int| 0 <= i < spans.len() && (#[trigger] spans[i]).start == frame
}

/// Cuts a buffer of `frames` frames at every breakpoint that falls inside it. Without one there is
/// a single span; an empty buffer has none.
pub fn chain_chunks(breakpoints: &Vec<usize>, frames: usize) -> (chunks: Vec<Span>)
    ensures
        tiles(chunks@, frames as int),
        forall|v: usize|
            v < frames ==> (#[trigger] starts_at(chunks@, v as int) <==> v == 0
                || breakpoints@.contains(v)),
{
    let mut chunks: Vec<Span> = Vec::new();
    if frames == 0 {
        return chunks;
    }
    let mut cuts: Vec<usize> = Vec::new();
    insert_ordered(&mut cuts, 0);
    let mut i: usize = 0;
    while i < breakpoints.len()
        invariant
            i <= breakpoints@.len(),
            frames > 0,
            strictly_increasing(cuts@),
            forall|v: usize|
                #[trigger] cuts@.contains(v) <==> (v == 0 || v < frames && exists|k: int|
                    0 <= k < i && #[trigger] breakpoints@[k] == v),
        decreases breakpoints@.len() - i,
    {
        let at: usize = breakpoints[i];
        if at < frames {
            insert_ordered(&mut cuts, at);
        }
        assert forall|v: usize|
            #[trigger] cuts@.contains(v) <==> (v == 0 || v < frames && exists|k: int|
                0 <= k < i + 1 && #[trigger] breakpoints@[k] == v) by {
            assert(breakpoints@[i as int] == at);
        }
        i += 1;
    }
    let ghost c = cuts@;
    assert(c.contains(0));
    assert forall|k: int| 0 <= k < c.len() implies #[trigger] c[k] < frames by {
        assert(c.contains(c[k]));
    }
    assert(c[0] == 0);
    let mut k: usize = 0;
    while k < cuts.len()
        invariant
            k <= cuts@.len(),
            c == cuts@,
            chunks@.len() == k,
            forall|j: int|
                0 <= j < chunks@.len() ==> {
                    &&& (#[trigger] chunks@[j]).start == c[j]
                    &&& chunks@[j].end == (if j + 1 < c.len() {
                        c[j + 1]
                    } else {
                        frames
                    })
                },
        decreases cuts@.len() - k,
    {
        let end: usize = if k + 1 < cuts.len() {
            cuts[k + 1]
        } else {
            frames
        };
        chunks.push(Span { start: cuts[k], end });
        k += 1;
    }
    proof {
        assert forall|v: usize| v < frames implies (#[trigger] starts_at(chunks@, v as int) <==> v
            == 0 || breakpoints@.contains(v)) by {
            assert(c.contains(v) <==> (v == 0 || breakpoints@.contains(v)));
            if c.contains(v) {
                let j = choose|j: int| 0 <= j < c.len() && c[j] == v;
                assert(chunks@[j].start == v);
            }
            if starts_at(chunks@, v as int) {
                let j = choose|j: int| 0 <= j < chunks@.len() && (#[trigger] chunks@[j]).start == v;
                assert(c[j] == v);
            }
        }
    }
    chunks
}

/// The chunks an offline bounce of `total_samples` frames is mixed in: all of them full, but for
/// what is left over at the end.
pub fn offline_chunks(total_samples: usize) -> (chunks: Vec<Span>)
    ensures
        tiles(chunks@, total_samples as int),
        forall|i: int|
            0 <= i < chunks@.len() ==> {
                &&& (#[trigger] chunks@[i]).start == i * OFFLINE_CHUNK_FRAMES
                &&& chunks@[i].end - chunks@[i].start <= OFFLINE_CHUNK_FRAMES
                &&& i + 1 < chunks@.len() ==> chunks@[i].end - chunks@[i].start
                    == OFFLINE_CHUNK_FRAMES
            },
{
    let mut chunks: Vec<Span> = Vec::new();
    let mut start: usize = 0;
    while start < total_samples
        invariant
            start <= total_samples,
            start < total_samples ==> start == chunks@.len() * OFFLINE_CHUNK_FRAMES,
            start == total_samples && total_samples > 0 ==> chunks@.len() > 0,
            start == 0 <==> chunks@.len() == 0,
            chunks@.len() > 0 ==> chunks@[0].start == 0 && chunks@.last().end == start,
            forall|i: int|
                0 <= i < chunks@.len() ==> {
                    &&& (#[trigger] chunks@[i]).start == i * OFFLINE_CHUNK_FRAMES
                    &&& chunks@[i].start < chunks@[i].end
                    &&& chunks@[i].end - chunks@[i].start <= OFFLINE_CHUNK_FRAMES
                    &&& (i + 1 < chunks@.len() || start < total_samples) ==> chunks@[i].end
                        - chunks@[i].start == OFFLINE_CHUNK_FRAMES
                },
            forall|i: int|
                0 < i < chunks@.len() ==> chunks@[i - 1].end == (#[trigger] chunks@[i]).start,
        decreases total_samples - start,
    {
        let left: usize = total_samples - start;
        let length: usize = if left < OFFLINE_CHUNK_FRAMES {
            left
        } else {
            OFFLINE_CHUNK_FRAMES
        };
        chunks.push(Span { start, end: start + length });
        start = start + length;
    }
    chunks
}

proof fn lemma_spans_rise(spans: Seq<Span>, length: int, i: int, j: int)
    requires
        tiles(spans, length),
        0 <= i < j < spans.len(),
    ensures
        spans[i].end <= spans[j].start,
    decreases j - i,
{
    if i + 1 < j {
        lemma_spans_rise(spans, length, i, j - 1);
        assert(spans[j - 1].end == spans[j].start);
        assert(spans[j - 1].start < spans[j - 1].end);
    } else {
        assert(spans[j - 1].end == spans[j].start);
    }
}

proof fn lemma_some_span_holds(spans: Seq<Span>, length: int, frame: int, n: nat) -> (i: int)
    requires
        tiles(spans, length),
        0 < n <= spans.len(),
        0 <= frame < spans[n - 1].end,
    ensures
        0 <= i < n,
        spans[i].start <= frame < spans[i].end,
    decreases n,
{
    if spans[n - 1].start <= frame {
        n - 1
    } else {
        if n > 1 {
            assert(spans[n - 2].end == spans[n - 1].start);
            lemma_some_span_holds(spans, length, frame, (n - 1) as nat)
        } else {
            0
        }
    }
}

/// However a buffer is cut, each of its frames lies in exactly one span: none is processed twice
/// or left out.
pub proof fn law_each_frame_is_in_exactly_one_span(spans: Seq<Span>, length: int, frame: int)
    requires
        tiles(spans, length),
        0 <= frame < length,
    ensures
        exists|i: int|
            0 <= i < spans.len() && (#[trigger] spans[i]).start <= frame < spans[i].end,
        forall|i: int, j: int|
            0 <= i < spans.len() && 0 <= j < spans.len() && (#[trigger] spans[i]).start <= frame
                < spans[i].end && (#[trigger] spans[j]).start <= frame < spans[j].end ==> i == j,
{
    let i = lemma_some_span_holds(spans, length, frame, spans.len());
    assert(spans[i].start <= frame < spans[i].end);
    assert forall|i: int, j: int|
        0 <= i < spans.len() && 0 <= j < spans.len() && (#[trigger] spans[i]).start <= frame
            < spans[i].end && (#[trigger] spans[j]).start <= frame < spans[j].end implies i == j by {
        if i < j {
            lemma_spans_rise(spans, length, i, j);
        } else if j < i {
            lemma_spans_rise(spans, length, j, i);
        }
    }
}

/// A span starts where its first frame lies, and nowhere else.
pub proof fn law_spans_start_at_their_first_frames(spans: Seq<Span>, frame: int)
    ensures
        forall|i: int|
            0 <= i < spans.len() && (#[trigger] spans[i]).start == frame ==> starts_at(spans, frame),
        (forall|i: int| 0 <= i < spans.len() ==> (#[trigger] spans[i]).start != frame)
            ==> !starts_at(spans, frame),
{
}

} // verus!
