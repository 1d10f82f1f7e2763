//! The tempo map: the tempo in effect at a tick, and the stretches of constant tempo.

use vstd::prelude::*;

use crate::model::{Song, TempoPoint};
use crate::number::Real32;
use crate::ordered::{insert_ordered, strictly_increasing};

verus! {

/// Of the first `n` tempo points, the index of the one in effect at `tick`: the latest that does
/// not lie after it.
pub open spec fn tempo_index(points: Seq<TempoPoint>, n: nat, tick: int) -> Option<int>
    decreases n,
{
    if n == 0 {
        None
    } else {
        let earlier = tempo_index(points, (n - 1) as nat, tick);
        let point = points[n - 1];
        if point.tick <= tick && (earlier matches Some(i) ==> points[i].tick <= point.tick) {
            Some(n - 1)
        } else {
            earlier
        }
    }
}

/// The tempo in effect at `tick`.
pub open spec fn tempo_at(song: Song, tick: int) -> Real32 {
    match tempo_index(song.tempo_map@, song.tempo_map@.len(), tick) {
        Some(i) => song.tempo_map@[i].bpm,
        None => song.bpm,
    }
}

proof fn lemma_tempo_index(points: Seq<TempoPoint>, n: nat, tick: int)
    requires
        n <= points.len(),
    ensures
        tempo_index(points, n, tick) matches Some(i) ==> 0 <= i < n && points[i].tick <= tick,
        forall|j: int|
            0 <= j < n && (#[trigger] points[j]).tick <= tick ==> (tempo_index(
                points,
                n,
                tick,
            ) matches Some(i) && points[j].tick <= points[i].tick),
    decreases n,
{
    if n > 0 {
        lemma_tempo_index(points, (n - 1) as nat, tick);
    }
}

impl Song {
    /// The tempo in effect at `tick`: that of the latest tempo point at or before it, or the
    /// song's own tempo where there is none.
    pub fn bpm_at(&self, tick: usize) -> (bpm: Real32)
        ensures
            bpm == tempo_at(*self, tick as int),
    {
        let points = &self.tempo_map;
        let mut bpm: Real32 = self.bpm;
        let mut found: bool = false;
        let mut found_tick: usize = 0;
        let mut i: usize = 0;
        while i < points.len()
            invariant
                points == self.tempo_map,
                i <= points@.len(),
                match tempo_index(points@, i as nat, tick as int) {
                    Some(k) => found && 0 <= k < i && found_tick == points@[k].tick && bpm
                        == points@[k].bpm,
                    None => !found && bpm == self.bpm,
                },
            decreases points@.len() - i,
        {
            let point = points[i];
            if point.tick <= tick && (!found || found_tick <= point.tick) {
                bpm = point.bpm;
                found = true;
                found_tick = point.tick;
            }
            i += 1;
        }
        bpm
    }
}

/// A stretch of ticks over which the tempo does not change.
#[derive(Clone, Copy, Debug, PartialEq, Eq, Structural)]
pub struct TempoSegment {
    pub start_tick: usize,
    pub end_tick: usize,
    pub bpm: Real32,
}

/// Whether a tick bounds a constant-tempo stretch of the span: its start, its end, or a tempo
/// point inside it.
pub open spec fn tempo_boundary(song: Song, span_ticks: int, tick: int) -> bool {
    ||| tick == 0
    ||| tick == span_ticks
    ||| tick < span_ticks && tempo_point_at(song, tick)
}

/// The stretches lie end to end, none of them empty, and cover ticks `0..span_ticks`.
pub open spec fn covers(segments: Seq<TempoSegment>, span_ticks: int) -> bool {
    &&& span_ticks == 0 <==> segments.len() == 0
    &&& segments.len() > 0 ==> segments[0].start_tick == 0
    &&& segments.len() > 0 ==> segments.last().end_tick == span_ticks
    &&& forall|i: int|
        0 <= i < segments.len() ==> (#[trigger] segments[i]).start_tick < segments[i].end_tick
    &&& forall|i: int|
        0 < i < segments.len() ==> segments[i - 1].end_tick == (#[trigger] segments[i]).start_tick
}

/// Whether some tempo point lies on `tick`.
pub open spec fn tempo_point_at(song: Song, tick: int) -> bool {
    exists|i: int| 0 <= i < song.tempo_map@.len() && (#[trigger] song.tempo_map@[i]).tick == tick
}

/// Every stretch after the first starts at a tempo point, none has a point inside it, and each
/// carries the tempo in effect where it starts.
pub open spec fn breaks_at_tempo_points(song: Song, segments: Seq<TempoSegment>) -> bool {
    &&& forall|i: int|
        0 < i < segments.len() ==> tempo_point_at(song, (#[trigger] segments[i]).start_tick as int)
    &&& forall|i: int, tick: int|
        0 <= i < segments.len() && (#[trigger] segments[i]).start_tick < tick < segments[i].end_tick
            ==> !(#[trigger] tempo_point_at(song, tick))
    &&& forall|i: int|
        0 <= i < segments.len() ==> (#[trigger] segments[i]).bpm == tempo_at(
            song,
            segments[i].start_tick as int,
        )
}

/// The boundaries of a span's constant-tempo stretches, in order.
pub fn tempo_boundaries(song: &Song, span_ticks: usize) -> (boundaries: Vec<usize>)
    ensures
        strictly_increasing(boundaries@),
        forall|v: usize|
            boundaries@.contains(v) <==> tempo_boundary(*song, span_ticks as int, v as int),
{
    let mut boundaries: Vec<usize> = Vec::new();
    insert_ordered(&mut boundaries, 0);
    insert_ordered(&mut boundaries, span_ticks);
    let mut i: usize = 0;
    while i < song.tempo_map.len()
        invariant
            i <= song.tempo_map@.len(),
            strictly_increasing(boundaries@),
            forall|v: usize|
                boundaries@.contains(v) <==> (v == 0 || v == span_ticks || v < span_ticks
                    && exists|k: int| 0 <= k < i && (#[trigger] song.tempo_map@[k]).tick == v),
        decreases song.tempo_map@.len() - i,
    {
        let tick: usize = song.tempo_map[i].tick;
        if tick < span_ticks {
            insert_ordered(&mut boundaries, tick);
        }
        assert forall|v: usize|
            boundaries@.contains(v) <==> (v == 0 || v == span_ticks || v < span_ticks && exists|
                k: int,
            |
                0 <= k < i + 1 && (#[trigger] song.tempo_map@[k]).tick == v) by {
            assert(song.tempo_map@[i as int].tick == tick);
        }
        i += 1;
    }
    boundaries
}

/// The constant-tempo stretches of ticks `0..span_ticks`, in order. A span's duration is the sum
/// of theirs.
pub fn tempo_segments(song: &Song, span_ticks: usize) -> (segments: Vec<TempoSegment>)
    ensures
        covers(segments@, span_ticks as int),
        breaks_at_tempo_points(*song, segments@),
{
    let boundaries = tempo_boundaries(song, span_ticks);
    let ghost b = boundaries@;
    assert(b.contains(0)) by {
        assert(tempo_boundary(*song, span_ticks as int, 0));
    }
    assert(b.contains(span_ticks)) by {
        assert(tempo_boundary(*song, span_ticks as int, span_ticks as int));
    }
    assert forall|i: int| 0 <= i < b.len() implies #[trigger] b[i] <= span_ticks by {
        assert(b.contains(b[i]));
    }
    assert(b[0] == 0 && b.last() == span_ticks);
    let mut segments: Vec<TempoSegment> = Vec::new();
    let mut i: usize = 1;
    while i < boundaries.len()
        invariant
            1 <= i <= b.len(),
            b == boundaries@,
            segments@.len() == i - 1,
            forall|k: int|
                0 <= k < segments@.len() ==> {
                    &&& (#[trigger] segments@[k]).start_tick == b[k]
                    &&& segments@[k].end_tick == b[k + 1]
                    &&& segments@[k].bpm == tempo_at(*song, b[k] as int)
                },
        decreases b.len() - i,
    {
        let start_tick: usize = boundaries[i - 1];
        let bpm = song.bpm_at(start_tick);
        segments.push(TempoSegment { start_tick, end_tick: boundaries[i], bpm });
        i += 1;
    }
    proof {
        assert forall|k: int| 0 < k < segments@.len() implies tempo_point_at(
            *song,
            (#[trigger] segments@[k]).start_tick as int,
        ) by {
            assert(b.contains(b[k]));
            assert(b[0] < b[k] < b[b.len() - 1]);
        }
        assert forall|k: int, tick: int|
            0 <= k < segments@.len() && (#[trigger] segments@[k]).start_tick < tick
                < segments@[k].end_tick implies !(#[trigger] tempo_point_at(*song, tick)) by {
            if tempo_point_at(*song, tick) {
                assert(tempo_boundary(*song, span_ticks as int, tick as usize as int));
                assert(b.contains(tick as usize));
                let j = choose|j: int| 0 <= j < b.len() && b[j] == tick as usize;
                assert(b[k] < b[j] < b[k + 1]);
                assert(false);
            }
        }
    }
    segments
}

/// Within a stretch the tempo never changes: at each of its ticks the tempo in effect is the one
/// the stretch carries.
pub proof fn law_tempo_is_constant_in_a_segment(
    song: Song,
    segments: Seq<TempoSegment>,
    i: int,
    tick: int,
)
    requires
        breaks_at_tempo_points(song, segments),
        0 <= i < segments.len(),
        segments[i].start_tick <= tick < segments[i].end_tick,
    ensures
        tempo_at(song, tick) == segments[i].bpm,
{
    let points = song.tempo_map@;
    let start = segments[i].start_tick as int;
    assert forall|j: int| 0 <= j < points.len() implies ((#[trigger] points[j]).tick <= tick
        <==> points[j].tick <= start) by {
        if start < points[j].tick <= tick {
            assert(tempo_point_at(song, points[j].tick as int));
        }
    }
    lemma_same_tempo_index(points, points.len(), start, tick);
}

proof fn lemma_same_tempo_index(points: Seq<TempoPoint>, n: nat, a: int, b: int)
    requires
        n <= points.len(),
        forall|j: int|
            0 <= j < points.len() ==> ((#[trigger] points[j]).tick <= a <==> points[j].tick <= b),
    ensures
        tempo_index(points, n, a) == tempo_index(points, n, b),
    decreases n,
{
    if n > 0 {
        lemma_same_tempo_index(points, (n - 1) as nat, a, b);
    }
}

/// How many ticks the first `n` stretches last in all.
pub open spec fn ticks_in(segments: Seq<TempoSegment>, n: nat) -> int
    decreases n,
{
    if n == 0 {
        0
    } else {
        ticks_in(segments, (n - 1) as nat) + segments[n - 1].end_tick - segments[n - 1].start_tick
    }
}

/// Together the stretches last exactly as long as the span: no tick is counted twice or left out.
pub proof fn law_segments_add_up_to_the_span(segments: Seq<TempoSegment>, span_ticks: int)
    requires
        covers(segments, span_ticks),
    ensures
        ticks_in(segments, segments.len()) == span_ticks,
{
    if segments.len() > 0 {
        lemma_ticks_in(segments, span_ticks, segments.len());
    }
}

proof fn lemma_ticks_in(segments: Seq<TempoSegment>, span_ticks: int, n: nat)
    requires
        covers(segments, span_ticks),
        0 < n <= segments.len(),
    ensures
        ticks_in(segments, n) == segments[n - 1].end_tick,
    decreases n,
{
    if n > 1 {
        lemma_ticks_in(segments, span_ticks, (n - 1) as nat);
        assert(segments[n - 2].end_tick == segments[n - 1].start_tick);
    } else {
        assert(ticks_in(segments, 0) == 0);
    }
}

/// The weight of the first `n` stretches, where a tick at a given tempo weighs what `weight` says.
pub open spec fn weight_of_segments(
    segments: Seq<TempoSegment>,
    weight: spec_fn(Real32) -> int,
    n: nat,
) -> int
    decreases n,
{
    if n == 0 {
        0
    } else {
        weight_of_segments(segments, weight, (n - 1) as nat) + (segments[n - 1].end_tick
            - segments[n - 1].start_tick) * weight(segments[n - 1].bpm)
    }
}

/// The weight of the song's first `n` ticks, each at the tempo in effect there.
pub open spec fn weight_of_ticks(song: Song, weight: spec_fn(Real32) -> int, n: nat) -> int
    decreases n,
{
    if n == 0 {
        0
    } else {
        weight_of_ticks(song, weight, (n - 1) as nat) + weight(tempo_at(song, n - 1))
    }
}

/// Whatever a tick lasts at each tempo, the stretches last as long together as the ticks of the span
/// do one by one: no tick is counted at a tempo other than its own.
pub proof fn law_segments_weigh_what_their_ticks_do(
    song: Song,
    segments: Seq<TempoSegment>,
    span_ticks: nat,
    weight: spec_fn(Real32) -> int,
)
    requires
        covers(segments, span_ticks as int),
        breaks_at_tempo_points(song, segments),
    ensures
        weight_of_segments(segments, weight, segments.len()) == weight_of_ticks(
            song,
            weight,
            span_ticks,
        ),
{
    if segments.len() > 0 {
        lemma_weight_of_segments(song, segments, span_ticks, weight, segments.len());
    }
}

proof fn lemma_weight_of_segments(
    song: Song,
    segments: Seq<TempoSegment>,
    span_ticks: nat,
    weight: spec_fn(Real32) -> int,
    n: nat,
)
    requires
        covers(segments, span_ticks as int),
        breaks_at_tempo_points(song, segments),
        0 < n <= segments.len(),
    ensures
        weight_of_segments(segments, weight, n) == weight_of_ticks(
            song,
            weight,
            segments[n - 1].end_tick as nat,
        ),
    decreases n,
{
    let last = segments[n - 1];
    if n > 1 {
        lemma_weight_of_segments(song, segments, span_ticks, weight, (n - 1) as nat);
        assert(segments[n - 2].end_tick == last.start_tick);
    } else {
        assert(weight_of_segments(segments, weight, 0) == 0);
        assert(weight_of_ticks(song, weight, 0) == 0);
    }
    lemma_weight_within_a_segment(song, segments, weight, n - 1, last.end_tick as nat);
}

proof fn lemma_weight_within_a_segment(
    song: Song,
    segments: Seq<TempoSegment>,
    weight: spec_fn(Real32) -> int,
    i: int,
    tick: nat,
)
    requires
        breaks_at_tempo_points(song, segments),
        0 <= i < segments.len(),
        segments[i].start_tick <= tick <= segments[i].end_tick,
    ensures
        weight_of_ticks(song, weight, tick) == weight_of_ticks(
            song,
            weight,
            segments[i].start_tick as nat,
        ) + (tick - segments[i].start_tick) * weight(segments[i].bpm),
    decreases tick,
{
    let start = segments[i].start_tick;
    let w = weight(segments[i].bpm);
    if tick > start {
        lemma_weight_within_a_segment(song, segments, weight, i, (tick - 1) as nat);
        law_tempo_is_constant_in_a_segment(song, segments, i, tick - 1);
        assert((tick - start) * w == (tick - 1 - start) * w + w) by (nonlinear_arith);
    } else {
        assert((tick - start) * w == 0) by (nonlinear_arith)
            requires
                tick == start,
        ;
    }
}

/// A tempo change takes effect exactly at the tick its point is placed on: from the latest point
/// at or before a tick, whatever lies after it makes no difference.
pub proof fn law_latest_tempo_point_governs(song: Song, i: int, tick: int)
    requires
        0 <= i < song.tempo_map@.len(),
        song.tempo_map@[i].tick <= tick,
        forall|j: int|
            0 <= j < song.tempo_map@.len() && j != i && (#[trigger] song.tempo_map@[j]).tick <= tick
                ==> song.tempo_map@[j].tick < song.tempo_map@[i].tick,
    ensures
        tempo_at(song, tick) == song.tempo_map@[i].bpm,
{
    let points = song.tempo_map@;
    lemma_tempo_index(points, points.len(), tick);
    assert(points[i].tick <= tick);
    let k = tempo_index(points, points.len(), tick)->0;
    if k != i {
        assert(points[k].tick <= tick);
    }
}

/// Before the first tempo point the song's own tempo is in effect.
pub proof fn law_without_a_point_the_songs_tempo_governs(song: Song, tick: int)
    requires
        forall|i: int|
            0 <= i < song.tempo_map@.len() ==> (#[trigger] song.tempo_map@[i]).tick > tick,
    ensures
        tempo_at(song, tick) == song.bpm,
{
    lemma_tempo_index(song.tempo_map@, song.tempo_map@.len(), tick);
}

/// Where the boundaries of a span's stretches lie: at its start, at its end, and at each tempo point
/// in between.
pub proof fn law_a_span_is_cut_at_its_tempo_points(song: Song, span_ticks: int, tick: int)
    requires
        0 <= tick,
    ensures
        tempo_boundary(song, span_ticks, 0),
        tempo_boundary(song, span_ticks, span_ticks),
        forall|i: int|
            0 <= i < song.tempo_map@.len() && (#[trigger] song.tempo_map@[i]).tick < span_ticks
                ==> tempo_boundary(song, span_ticks, song.tempo_map@[i].tick as int),
        0 < tick && tick != span_ticks && (tick > span_ticks || forall|i: int|
            0 <= i < song.tempo_map@.len() ==> (#[trigger] song.tempo_map@[i]).tick != tick)
            ==> !tempo_boundary(song, span_ticks, tick),
{
    assert forall|i: int|
        0 <= i < song.tempo_map@.len() && (#[trigger] song.tempo_map@[i]).tick
            < span_ticks implies tempo_boundary(song, span_ticks, song.tempo_map@[i].tick as int) by {
        assert(tempo_point_at(song, song.tempo_map@[i].tick as int));
    }
}

} // verus!
