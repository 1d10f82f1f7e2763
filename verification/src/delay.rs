//! Plugin delay compensation: how long each track is held back, and the line that holds it.

use std::collections::VecDeque;

use vstd::prelude::*;

use crate::model::{Track, TrackOutput};
use crate::number::Real32;

verus! {

/// A pair of sample queues, one per channel, that hold a stereo signal back by a number of frames.
pub struct DelayLine {
    buffer_l: VecDeque<Real32>,
    buffer_r: VecDeque<Real32>,
}

/// What a [`DelayLine`] still holds, oldest frame first.
#[verifier::ext_equal]
pub struct DelayView {
    pub left: Seq<Real32>,
    pub right: Seq<Real32>,
}

impl View for DelayLine {
    type V = DelayView;

    closed spec fn view(&self) -> DelayView {
        DelayView { left: self.buffer_l@, right: self.buffer_r@ }
    }
}

impl DelayView {
    /// Both channels hold equally many frames.
    pub open spec fn wf(self) -> bool {
        self.left.len() == self.right.len()
    }
}

/// The silent sample.
pub open spec fn zero_sample() -> Real32 {
    Real32 { bits: 0 }
}

/// A queue brought to `delay` frames: silence is added behind it, or its oldest frames are dropped.
pub open spec fn settled(queue: Seq<Real32>, delay: nat) -> Seq<Real32> {
    if queue.len() < delay {
        queue + Seq::new((delay - queue.len()) as nat, |i: int| zero_sample())
    } else {
        queue.skip(queue.len() - delay)
    }
}

/// What comes out of a queue while `input` goes in behind it.
pub open spec fn emitted(queue: Seq<Real32>, input: Seq<Real32>) -> Seq<Real32> {
    (queue + input).take(input.len() as int)
}

/// What a queue still holds once `input` has gone in behind it and as much has come out.
pub open spec fn kept(queue: Seq<Real32>, input: Seq<Real32>) -> Seq<Real32> {
    (queue + input).skip(input.len() as int)
}

impl DelayLine {
    /// A line that holds nothing.
    pub fn new() -> (line: Self)
        ensures
            line@.wf(),
            line@ == (DelayView { left: Seq::empty(), right: Seq::empty() }),
    {
        DelayLine { buffer_l: VecDeque::new(), buffer_r: VecDeque::new() }
    }

    /// Runs the frames of `l`, and as many of `r`, through the line, in place, so that they come
    /// out `delay_samples` frames late. A changed delay first adds silence or drops the oldest
    /// frames.
    pub fn process(&mut self, l: &mut [Real32], r: &mut [Real32], delay_samples: usize)
        requires
            old(self)@.wf(),
            old(l)@.len() <= old(r)@.len(),
        ensures
            final(self)@.wf(),
            final(l)@ == emitted(settled(old(self)@.left, delay_samples as nat), old(l)@),
            final(r)@ == emitted(
                settled(old(self)@.right, delay_samples as nat),
                old(r)@.take(old(l)@.len() as int),
            ) + old(r)@.skip(old(l)@.len() as int),
            final(self)@.left == kept(settled(old(self)@.left, delay_samples as nat), old(l)@),
            final(self)@.right == kept(
                settled(old(self)@.right, delay_samples as nat),
                old(r)@.take(old(l)@.len() as int),
            ),
    {
        let ghost left0 = self.buffer_l@;
        let ghost right0 = self.buffer_r@;
        while self.buffer_l.len() < delay_samples
            invariant
                self.buffer_l@.len() == self.buffer_r@.len(),
                left0.len() == right0.len(),
                self.buffer_l@.len() <= delay_samples || self.buffer_l@ == left0 && self.buffer_r@
                    == right0,
                self.buffer_l@.len() >= left0.len(),
                self.buffer_l@ == left0 + Seq::new(
                    (self.buffer_l@.len() - left0.len()) as nat,
                    |i: int| zero_sample(),
                ),
                self.buffer_r@ == right0 + Seq::new(
                    (self.buffer_r@.len() - right0.len()) as nat,
                    |i: int| zero_sample(),
                ),
            decreases delay_samples - self.buffer_l@.len(),
        {
            self.buffer_l.push_back(Real32 { bits: 0 });
            self.buffer_r.push_back(Real32 { bits: 0 });
            assert(self.buffer_l@ =~= left0 + Seq::new(
                (self.buffer_l@.len() - left0.len()) as nat,
                |i: int| zero_sample(),
            ));
            assert(self.buffer_r@ =~= right0 + Seq::new(
                (self.buffer_r@.len() - right0.len()) as nat,
                |i: int| zero_sample(),
            ));
        }
        assert(left0.len() > delay_samples ==> self.buffer_l@ =~= left0 && self.buffer_r@ =~= right0);
        let ghost left1 = self.buffer_l@;
        let ghost right1 = self.buffer_r@;
        while self.buffer_l.len() > delay_samples
            invariant
                self.buffer_l@.len() == self.buffer_r@.len(),
                left1.len() == right1.len(),
                self.buffer_l@.len() <= left1.len(),
                self.buffer_l@.len() >= delay_samples,
                self.buffer_l@ == left1.skip(left1.len() - self.buffer_l@.len()),
                self.buffer_r@ == right1.skip(right1.len() - self.buffer_r@.len()),
            decreases self.buffer_l@.len(),
        {
            let _ = self.buffer_l.pop_front();
            let _ = self.buffer_r.pop_front();
            assert(self.buffer_l@ =~= left1.skip(left1.len() - self.buffer_l@.len()));
            assert(self.buffer_r@ =~= right1.skip(right1.len() - self.buffer_r@.len()));
        }
        let ghost left = self.buffer_l@;
        let ghost right = self.buffer_r@;
        assert(left =~= settled(left0, delay_samples as nat));
        assert(right =~= settled(right0, delay_samples as nat));
        let ghost in_l = l@;
        let ghost all_r = r@;
        let ghost in_r = r@.take(l@.len() as int);
        let frames: usize = l.len();
        let mut i: usize = 0;
        while i < frames
            invariant
                i <= frames,
                frames == in_l.len(),
                frames == in_r.len(),
                l@.len() == frames,
                r@.len() == all_r.len(),
                frames <= all_r.len(),
                in_r == all_r.take(frames as int),
                left.len() == right.len(),
                left.len() == delay_samples,
                self.buffer_l@ == (left + in_l).subrange(i as int, i + left.len()),
                self.buffer_r@ == (right + in_r).subrange(i as int, i + right.len()),
                forall|k: int|
                    0 <= k < frames ==> #[trigger] l@[k] == (if k < i {
                        (left + in_l)[k]
                    } else {
                        in_l[k]
                    }),
                forall|k: int|
                    0 <= k < all_r.len() ==> #[trigger] r@[k] == (if k < i {
                        (right + in_r)[k]
                    } else {
                        all_r[k]
                    }),
            decreases frames - i,
        {
            self.buffer_l.push_back(l[i]);
            self.buffer_r.push_back(r[i]);
            assert(self.buffer_l@ =~= (left + in_l).subrange(i as int, i + left.len() + 1));
            assert(self.buffer_r@ =~= (right + in_r).subrange(i as int, i + right.len() + 1));
            l[i] = self.buffer_l.pop_front().unwrap_or(Real32 { bits: 0 });
            r[i] = self.buffer_r.pop_front().unwrap_or(Real32 { bits: 0 });
            assert(self.buffer_l@ =~= (left + in_l).subrange(i + 1, i + 1 + left.len()));
            assert(self.buffer_r@ =~= (right + in_r).subrange(i + 1, i + 1 + right.len()));
            i += 1;
        }
        assert(l@ =~= emitted(left, in_l));
        assert(r@ =~= emitted(right, in_r) + all_r.skip(frames as int));
        assert(self.buffer_l@ =~= kept(left, in_l));
        assert(self.buffer_r@ =~= kept(right, in_r));
    }
}

/// Without a delay the line passes its input through unchanged.
pub proof fn law_no_delay_is_the_identity(queue: Seq<Real32>, input: Seq<Real32>)
    ensures
        emitted(settled(queue, 0), input) == input,
        kept(settled(queue, 0), input).len() == 0,
{
    assert(settled(queue, 0) =~= Seq::empty());
    assert(Seq::empty() + input =~= input);
    assert(emitted(settled(queue, 0), input) =~= input);
}

/// A fresh line holds its input back by exactly `delay` frames: silence comes out first, and then
/// every frame in order.
pub proof fn law_input_comes_out_late_by_the_delay(input: Seq<Real32>, delay: nat, i: int)
    requires
        0 <= i < input.len(),
    ensures
        emitted(settled(Seq::empty(), delay), input)[i] == (if i < delay {
            zero_sample()
        } else {
            input[i - delay]
        }),
{
}

/// While the delay stays the same, it makes no difference how the signal is cut into buffers:
/// two buffers in a row give what both give together.
pub proof fn law_buffers_may_be_cut_anywhere(
    queue: Seq<Real32>,
    delay: nat,
    first: Seq<Real32>,
    second: Seq<Real32>,
)
    ensures
        ({
            let start = settled(queue, delay);
            let between = settled(kept(start, first), delay);
            &&& emitted(start, first) + emitted(between, second) == emitted(start, first + second)
            &&& kept(between, second) == kept(start, first + second)
        }),
{
    let start = settled(queue, delay);
    let between = settled(kept(start, first), delay);
    assert(start.len() == delay);
    assert(between =~= kept(start, first));
    assert(emitted(start, first) + emitted(between, second) =~= emitted(start, first + second));
    assert(kept(between, second) =~= kept(start, first + second));
}

/// The line always holds exactly as many frames as the delay it last worked with.
pub proof fn law_line_holds_its_delay(queue: Seq<Real32>, delay: nat, input: Seq<Real32>)
    ensures
        kept(settled(queue, delay), input).len() == delay,
{
}

/// The latency of a track's path to the master bus: its own chain's, and its submix bus's where
/// it has one. A chain that is not listed has none.
pub open spec fn path_latency(
    track: Track,
    i: int,
    track_latency: Seq<u32>,
    submix_latency: Seq<u32>,
) -> int {
    let own = if i < track_latency.len() {
        track_latency[i] as int
    } else {
        0
    };
    let submix = match track.output {
        TrackOutput::Submix(index) => if index < submix_latency.len() {
            submix_latency[index as int] as int
        } else {
            0
        },
        TrackOutput::Master => 0,
    };
    own + submix
}

/// The longest path latency among the first `n` tracks.
pub open spec fn slowest_path(
    tracks: Seq<Track>,
    track_latency: Seq<u32>,
    submix_latency: Seq<u32>,
    n: nat,
) -> int
    decreases n,
{
    if n == 0 {
        0
    } else {
        let earlier = slowest_path(tracks, track_latency, submix_latency, (n - 1) as nat);
        let latency = path_latency(tracks[n - 1], n - 1, track_latency, submix_latency);
        if earlier < latency {
            latency
        } else {
            earlier
        }
    }
}

/// Whether `delays` holds, for each track, how much shorter its path is than the slowest.
pub open spec fn compensates(
    tracks: Seq<Track>,
    track_latency: Seq<u32>,
    submix_latency: Seq<u32>,
    delays: Seq<u32>,
) -> bool {
    &&& delays.len() == tracks.len()
    &&& forall|i: int|
        0 <= i < tracks.len() ==> #[trigger] delays[i] == slowest_path(
            tracks,
            track_latency,
            submix_latency,
            tracks.len(),
        ) - path_latency(tracks[i], i, track_latency, submix_latency)
}

/// How many frames each track is to be held back so that every path to the master bus is as long
/// as the slowest.
pub fn pdc_delay_samples_per_track(
    tracks: &Vec<Track>,
    track_latency: &Vec<u32>,
    submix_latency: &Vec<u32>,
) -> (delays: Vec<u32>)
    requires
        forall|i: int|
            0 <= i < tracks@.len() ==> path_latency(
                #[trigger] tracks@[i],
                i,
                track_latency@,
                submix_latency@,
            ) <= u32::MAX,
    ensures
        compensates(tracks@, track_latency@, submix_latency@, delays@),
{
    let mut latencies: Vec<u32> = Vec::new();
    let mut slowest: u32 = 0;
    let mut i: usize = 0;
    while i < tracks.len()
        invariant
            i <= tracks@.len(),
            latencies@.len() == i,
            slowest == slowest_path(tracks@, track_latency@, submix_latency@, i as nat),
            forall|k: int|
                0 <= k < i ==> #[trigger] latencies@[k] == path_latency(
                    tracks@[k],
                    k,
                    track_latency@,
                    submix_latency@,
                ) && latencies@[k] <= slowest,
            forall|k: int|
                0 <= k < tracks@.len() ==> path_latency(
                    #[trigger] tracks@[k],
                    k,
                    track_latency@,
                    submix_latency@,
                ) <= u32::MAX,
        decreases tracks@.len() - i,
    {
        assert(path_latency(tracks@[i as int], i as int, track_latency@, submix_latency@)
            <= u32::MAX);
        let own: u32 = if i < track_latency.len() {
            track_latency[i]
        } else {
            0
        };
        let submix: u32 = match tracks[i].output {
            TrackOutput::Submix(index) => if index < submix_latency.len() {
                submix_latency[index]
            } else {
                0
            },
            TrackOutput::Master => 0,
        };
        let latency: u32 = own + submix;
        latencies.push(latency);
        if slowest < latency {
            slowest = latency;
        }
        i += 1;
    }
    let mut delays: Vec<u32> = Vec::new();
    let mut i: usize = 0;
    while i < latencies.len()
        invariant
            i <= latencies@.len(),
            delays@.len() == i,
            forall|k: int| 0 <= k < latencies@.len() ==> #[trigger] latencies@[k] <= slowest,
            forall|k: int| 0 <= k < i ==> #[trigger] delays@[k] == slowest - latencies@[k],
        decreases latencies@.len() - i,
    {
        delays.push(slowest - latencies[i]);
        i += 1;
    }
    delays
}

proof fn lemma_slowest_path(
    tracks: Seq<Track>,
    track_latency: Seq<u32>,
    submix_latency: Seq<u32>,
    n: nat,
)
    requires
        n <= tracks.len(),
    ensures
        forall|i: int|
            0 <= i < n ==> path_latency(#[trigger] tracks[i], i, track_latency, submix_latency)
                <= slowest_path(tracks, track_latency, submix_latency, n),
        n > 0 ==> exists|i: int|
            0 <= i < n && path_latency(#[trigger] tracks[i], i, track_latency, submix_latency)
                == slowest_path(tracks, track_latency, submix_latency, n),
    decreases n,
{
    if n > 0 {
        lemma_slowest_path(tracks, track_latency, submix_latency, (n - 1) as nat);
        let last = tracks[n - 1];
        assert(path_latency(last, n - 1, track_latency, submix_latency) <= slowest_path(
            tracks,
            track_latency,
            submix_latency,
            n,
        ));
        if n == 1 {
            assert(slowest_path(tracks, track_latency, submix_latency, 0) == 0);
        }
    }
}

/// Compensation lines all tracks up: latency and delay add up to the same for any two of them.
pub proof fn law_compensated_paths_are_equally_long(
    tracks: Seq<Track>,
    track_latency: Seq<u32>,
    submix_latency: Seq<u32>,
    delays: Seq<u32>,
    i: int,
    j: int,
)
    requires
        compensates(tracks, track_latency, submix_latency, delays),
        0 <= i < tracks.len(),
        0 <= j < tracks.len(),
    ensures
        path_latency(tracks[i], i, track_latency, submix_latency) + delays[i] == path_latency(
            tracks[j],
            j,
            track_latency,
            submix_latency,
        ) + delays[j],
{
}

/// Nothing is held back more than it has to be: the slowest track is not held back at all.
pub proof fn law_slowest_track_is_not_delayed(
    tracks: Seq<Track>,
    track_latency: Seq<u32>,
    submix_latency: Seq<u32>,
    delays: Seq<u32>,
)
    requires
        compensates(tracks, track_latency, submix_latency, delays),
        tracks.len() > 0,
    ensures
        exists|i: int| 0 <= i < tracks.len() && #[trigger] delays[i] == 0,
{
    lemma_slowest_path(tracks, track_latency, submix_latency, tracks.len());
    let i = choose|i: int|
        0 <= i < tracks.len() && path_latency(
            #[trigger] tracks[i],
            i,
            track_latency,
            submix_latency,
        ) == slowest_path(tracks, track_latency, submix_latency, tracks.len());
    assert(delays[i] == 0);
}

/// A change of the delay keeps the newest frames: a longer one puts silence behind what the line
/// holds, a shorter one drops the oldest frames.
pub proof fn law_a_changed_delay_keeps_the_newest_frames(queue: Seq<Real32>, delay: nat, i: int)
    requires
        0 <= i < delay,
    ensures
        settled(queue, delay).len() == delay,
        queue.len() <= delay && i < queue.len() ==> settled(queue, delay)[i] == queue[i],
        queue.len() <= delay && i >= queue.len() ==> settled(queue, delay)[i].bits == 0,
        queue.len() > delay ==> settled(queue, delay)[i] == queue[queue.len() - delay + i],
{
}

/// What goes in comes out in order and unchanged, behind what the line held before, and what has not
/// come out yet is still held.
pub proof fn law_frames_come_out_in_order(queue: Seq<Real32>, input: Seq<Real32>, i: int)
    requires
        0 <= i < queue.len() + input.len(),
    ensures
        ({
            let frame = if i < queue.len() {
                queue[i]
            } else {
                input[i - queue.len()]
            };
            &&& emitted(queue, input).len() == input.len()
            &&& kept(queue, input).len() == queue.len()
            &&& i < input.len() ==> emitted(queue, input)[i] == frame
            &&& i >= input.len() ==> kept(queue, input)[i - input.len()] == frame
        }),
{
}

/// Compensation in full: a track's own chain, its submix bus's chain and its delay add up to the same
/// for any two tracks. A chain that is not listed counts for nothing.
pub proof fn law_chain_and_bus_and_delay_add_up_alike(
    tracks: Seq<Track>,
    track_latency: Seq<u32>,
    submix_latency: Seq<u32>,
    delays: Seq<u32>,
    i: int,
    j: int,
)
    requires
        compensates(tracks, track_latency, submix_latency, delays),
        0 <= i < tracks.len(),
        0 <= j < tracks.len(),
    ensures
        ({
            let own = |t: int|
                if t < track_latency.len() {
                    track_latency[t] as int
                } else {
                    0
                };
            let bus = |t: int|
                match tracks[t].output {
                    TrackOutput::Master => 0int,
                    TrackOutput::Submix(s) => if s < submix_latency.len() {
                        submix_latency[s as int] as int
                    } else {
                        0
                    },
                };
            own(i) + bus(i) + delays[i] == own(j) + bus(j) + delays[j]
        }),
{
    law_compensated_paths_are_equally_long(tracks, track_latency, submix_latency, delays, i, j);
}

} // verus!
