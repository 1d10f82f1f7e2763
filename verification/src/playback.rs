//! The decisions of an audio callback and of a bounce, around the rendering itself.

use vstd::prelude::*;

use crate::model::Song;
use crate::number::Real32;
use crate::sequencer::{rewound, Sequencer};
use crate::tempo::{
    breaks_at_tempo_points, covers, law_segments_weigh_what_their_ticks_do, tempo_at,
    weight_of_segments, weight_of_ticks, TempoSegment,
};
use crate::timeline::arrangement_length;
use crate::transport::{Transport, TransportView};

verus! {

/// What a callback does with its buffer.
#[derive(Clone, Copy, Debug, PartialEq, Eq, Structural)]
pub enum CallbackAction {
    /// Render the song into it.
    Render,
    /// Leave it as it is: playback is on, but there has been no song to read yet.
    Abandon,
    /// Leave it silent and rewind the sequencer to the start.
    Rewind,
}

impl CallbackAction {
    /// Whether tracks, sends and submix buses are mixed into the buffer.
    pub open spec fn song_is_mixed(self) -> bool {
        self is Render
    }

    /// Whether the master chain runs over the buffer. It does even after a stop, so that a delay or
    /// reverb tail rings out.
    pub open spec fn master_runs(self) -> bool {
        !(self is Abandon)
    }

    /// Whether tracks, sends and submix buses are mixed into the buffer.
    pub fn mixes_song(self) -> (r: bool)
        ensures
            r == self.song_is_mixed(),
    {
        match self {
            CallbackAction::Render => true,
            CallbackAction::Abandon => false,
            CallbackAction::Rewind => false,
        }
    }

    /// Whether the master chain runs over the buffer.
    pub fn runs_master(self) -> (r: bool)
        ensures
            r == self.master_runs(),
    {
        match self {
            CallbackAction::Render => true,
            CallbackAction::Abandon => false,
            CallbackAction::Rewind => true,
        }
    }
}

/// What a callback does, and whether every meter starts over before it.
#[derive(Clone, Copy, Debug, PartialEq, Eq, Structural)]
pub struct CallbackPlan {
    pub reset_meters: bool,
    pub action: CallbackAction,
}

/// Whether the previous callback was playing.
#[derive(Clone, Copy, Debug, PartialEq, Eq, Structural)]
pub struct CallbackState {
    pub was_playing: bool,
}

/// What a callback does, given whether the one before it was playing.
pub open spec fn planned(was_playing: bool, is_playing: bool, has_snapshot: bool) -> CallbackPlan {
    CallbackPlan {
        reset_meters: was_playing && !is_playing,
        action: if !is_playing {
            CallbackAction::Rewind
        } else if has_snapshot {
            CallbackAction::Render
        } else {
            CallbackAction::Abandon
        },
    }
}

/// One channel of a stereo signal.
#[derive(Clone, Copy, Debug, PartialEq, Eq, Structural)]
pub enum Side {
    Left,
    Right,
}

impl CallbackState {
    /// The state before the first callback.
    pub fn new() -> (state: Self)
        ensures
            !state.was_playing,
    {
        CallbackState { was_playing: false }
    }

    /// What the next callback does. Meters start over exactly when playback has just stopped:
    /// loudness is measured from one start to the next.
    pub fn begin(&mut self, is_playing: bool, has_snapshot: bool) -> (plan: CallbackPlan)
        ensures
            final(self).was_playing == is_playing,
            plan == planned(old(self).was_playing, is_playing, has_snapshot),
    {
        let reset_meters: bool = self.was_playing && !is_playing;
        self.was_playing = is_playing;
        let action = if !is_playing {
            CallbackAction::Rewind
        } else if has_snapshot {
            CallbackAction::Render
        } else {
            CallbackAction::Abandon
        };
        CallbackPlan { reset_meters, action }
    }
}

/// Begins a callback: decides what it does, and while playback is stopped rewinds the sequencer and
/// publishes tick zero. A callback that plays leaves both alone.
pub fn begin_callback(
    state: &mut CallbackState,
    sequencer: &mut Sequencer,
    transport: &mut Transport,
    has_snapshot: bool,
) -> (plan: CallbackPlan)
    ensures
        final(state).was_playing == old(transport)@.playing,
        plan == planned(old(state).was_playing, old(transport)@.playing, has_snapshot),
        final(sequencer)@ == (if old(transport)@.playing {
            old(sequencer)@
        } else {
            rewound(old(sequencer)@)
        }),
        final(transport)@ == (if old(transport)@.playing {
            old(transport)@
        } else {
            TransportView { current_tick: 0, ..old(transport)@ }
        }),
{
    let is_playing: bool = transport.is_playing();
    if !is_playing {
        sequencer.reset_position();
        transport.set_current_tick(0);
    }
    state.begin(is_playing, has_snapshot)
}

/// Publishes the tick that a rendered buffer has come to.
pub fn publish_tick(sequencer: &Sequencer, transport: &mut Transport)
    ensures
        final(transport)@ == (TransportView {
            current_tick: sequencer@.last_triggered_tick,
            ..old(transport)@
        }),
{
    transport.set_current_tick(sequencer.current_tick());
}

/// A stopped callback lets no track, send or submix bus into its buffer, but runs the master chain
/// over the silence, whatever came before it.
pub proof fn law_a_stopped_callback_is_silent_but_for_tails(was_playing: bool, has_snapshot: bool)
    ensures
        !planned(was_playing, false, has_snapshot).action.song_is_mixed(),
        planned(was_playing, false, has_snapshot).action.master_runs(),
{
}

/// What a device channel plays: the first one the left side, every other one the right.
pub fn side_of_channel(channel: usize) -> (side: Side)
    ensures
        side == if channel == 0 {
            Side::Left
        } else {
            Side::Right
        },
{
    if channel == 0 {
        Side::Left
    } else {
        Side::Right
    }
}

/// How many times a bounce goes through the arrangement: at least once.
pub open spec fn loops_bounced(loops: u32) -> u32 {
    if loops > 1 {
        loops
    } else {
        1
    }
}

/// How many times a bounce goes through the arrangement: at least once.
pub fn bounce_loops(loops: u32) -> (count: u32)
    ensures
        count == loops_bounced(loops),
{
    if loops > 1 {
        loops
    } else {
        1
    }
}

/// What the first `n` ticks that fire weigh, where a tick at a given tempo weighs what `weight` says.
/// The clock goes round the arrangement.
pub open spec fn weight_of_firings(song: Song, weight: spec_fn(Real32) -> int, n: nat) -> int
    decreases n,
{
    if n == 0 {
        0
    } else {
        weight_of_firings(song, weight, (n - 1) as nat) + weight(
            tempo_at(song, (n - 1) % arrangement_length(song)),
        )
    }
}

proof fn lemma_weight_of_firings(
    song: Song,
    weight: spec_fn(Real32) -> int,
    cycles: nat,
    rest: nat,
)
    requires
        rest <= arrangement_length(song),
    ensures
        weight_of_firings(song, weight, (cycles * arrangement_length(song) + rest) as nat) == cycles
            * weight_of_ticks(song, weight, arrangement_length(song) as nat) + weight_of_ticks(
            song,
            weight,
            rest,
        ),
    decreases cycles, rest,
{
    let length = arrangement_length(song);
    let whole = weight_of_ticks(song, weight, length as nat);
    assert(cycles * length >= 0) by (nonlinear_arith)
        requires
            length > 0,
    ;
    if rest > 0 {
        lemma_weight_of_firings(song, weight, cycles, (rest - 1) as nat);
        assert((cycles * length + rest - 1) % length == rest - 1) by {
            vstd::arithmetic::div_mod::lemma_mod_multiples_vanish(
                cycles as int,
                rest - 1,
                length,
            );
            vstd::arithmetic::mul::lemma_mul_is_commutative(cycles as int, length);
            vstd::arithmetic::div_mod::lemma_small_mod((rest - 1) as nat, length as nat);
        }
    } else if cycles > 0 {
        lemma_weight_of_firings(song, weight, (cycles - 1) as nat, length as nat);
        assert((cycles - 1) * length + length == cycles * length) by (nonlinear_arith);
        assert((cycles - 1) * whole + whole == cycles * whole) by (nonlinear_arith);
    } else {
        assert(0 * length == 0 && 0 * whole == 0) by (nonlinear_arith);
    }
}

/// A bounce lasts as long as the ticks it fires. Whatever a tick lasts at each tempo, the ticks of
/// all its loops together last as long as the arrangement's stretches of constant tempo do, once
/// for each loop, and a bounce of no loops lasts as long as a bounce of one.
pub proof fn law_a_bounce_lasts_its_loops(
    song: Song,
    segments: Seq<TempoSegment>,
    weight: spec_fn(Real32) -> int,
    loops: u32,
)
    requires
        covers(segments, arrangement_length(song)),
        breaks_at_tempo_points(song, segments),
    ensures
        weight_of_firings(
            song,
            weight,
            (loops_bounced(loops) * arrangement_length(song)) as nat,
        ) == loops_bounced(loops) * weight_of_segments(segments, weight, segments.len()),
        loops_bounced(0) == loops_bounced(1),
{
    law_segments_weigh_what_their_ticks_do(
        song,
        segments,
        arrangement_length(song) as nat,
        weight,
    );
    lemma_weight_of_firings(song, weight, loops_bounced(loops) as nat, 0);
}

/// Whether a track can be baked down: it has to exist, and the arrangement has to last.
pub fn can_bounce_track(song: &Song, track_index: usize, total_samples: usize) -> (r: bool)
    ensures
        r == (track_index < song.tracks@.len() && total_samples > 0),
{
    track_index < song.tracks.len() && total_samples > 0
}

/// A callback renders while it plays and has a song, leaves the buffer alone while it plays without
/// one, and rewinds while it is stopped. Meters start over on the first callback after playing.
pub proof fn law_a_callback_does_one_thing(was_playing: bool, is_playing: bool, has_snapshot: bool)
    ensures
        ({
            let plan = planned(was_playing, is_playing, has_snapshot);
            &&& plan.action == CallbackAction::Render <==> is_playing && has_snapshot
            &&& plan.action == CallbackAction::Abandon <==> is_playing && !has_snapshot
            &&& plan.action == CallbackAction::Rewind <==> !is_playing
            &&& plan.reset_meters <==> was_playing && !is_playing
            &&& plan.action.song_is_mixed() <==> is_playing && has_snapshot
            &&& plan.action.master_runs() <==> !is_playing || has_snapshot
        }),
{
}

/// A bounce goes through the arrangement as often as it is asked to, and once if it is asked for no
/// loop at all.
pub proof fn law_a_bounce_goes_round_as_often_as_asked(loops: u32)
    ensures
        loops >= 1 ==> loops_bounced(loops) == loops,
        loops == 0 ==> loops_bounced(loops) == 1,
{
}

} // verus!
