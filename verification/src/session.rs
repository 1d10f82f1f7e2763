//! The session grid's slots: their states, the rules a host supplies for them, and the log of a
//! captured performance.

use std::sync::Arc;

use vstd::prelude::*;

use crate::model::{
    FollowAction, FollowActionConfig, LaunchIntent, LaunchMode, SessionClip, SessionQuantize,
};

verus! {

/// What a slot of the session grid is doing.
#[derive(Clone, Copy, Debug, PartialEq, Eq, Structural)]
pub enum SlotState {
    Stopped,
    /// Waiting to start at `launch_tick`.
    Queued { launch_tick: usize },
    Playing { local_tick: usize, loop_count: u32 },
    /// Still sounding, and waiting to stop at `stop_tick`.
    QueuedStop { local_tick: usize, loop_count: u32, stop_tick: usize },
}

impl SlotState {
    /// How far into its clip a sounding slot is; `None` for a slot that is silent.
    pub open spec fn position(self) -> Option<usize> {
        match self {
            SlotState::Playing { local_tick, .. } => Some(local_tick),
            SlotState::QueuedStop { local_tick, .. } => Some(local_tick),
            SlotState::Stopped => None,
            SlotState::Queued { .. } => None,
        }
    }

    /// Whether the slot is heard: playing, or winding down to a queued stop.
    pub open spec fn sounding(self) -> bool {
        self.position() is Some
    }

    /// How far into its clip the slot is, if it is heard.
    pub fn local_tick(self) -> (r: Option<usize>)
        ensures
            r == self.position(),
    {
        match self {
            SlotState::Playing { local_tick, .. } => Some(local_tick),
            SlotState::QueuedStop { local_tick, .. } => Some(local_tick),
            SlotState::Stopped => None,
            SlotState::Queued { .. } => None,
        }
    }
}

/// Whether a slot went from silent to sounding.
pub open spec fn started(before: SlotState, after: SlotState) -> bool {
    !before.sounding() && after.sounding()
}

/// Whether a playing slot's loop count went up.
pub open spec fn looped(before: SlotState, after: SlotState) -> bool {
    before matches SlotState::Playing { loop_count: earlier, .. } && after matches SlotState::Playing {
        loop_count: later,
        ..
    } && earlier < later
}

/// Whether a slot just started to sound.
pub fn just_started_playing(before: SlotState, after: SlotState) -> (r: bool)
    ensures
        r == started(before, after),
{
    before.local_tick().is_none() && after.local_tick().is_some()
}

/// Whether a playing slot just came to the end of its clip and began again.
pub fn just_completed_a_loop(before: SlotState, after: SlotState) -> (r: bool)
    ensures
        r == looped(before, after),
{
    match (before, after) {
        (
            SlotState::Playing { loop_count: earlier, .. },
            SlotState::Playing { loop_count: later, .. },
        ) => earlier < later,
        _ => false,
    }
}

/// The session rules: how a click, a held pad or the passing of a tick changes a slot, and what
/// follows a clip that has looped. The grid asks them and acts on whatever they answer.
pub trait SlotRules {
    /// How many ticks a launch quantize comes to in the song as it is now.
    fn quantize_ticks(&self, quantize: SessionQuantize) -> usize;

    /// The state a click leads to.
    fn apply_launch_request(
        &self,
        state: SlotState,
        intent: LaunchIntent,
        mode: LaunchMode,
        tick_now: usize,
        quantize_ticks: usize,
    ) -> SlotState;

    /// The state a held (or released) pad leads to, and whether the clip is to start afresh.
    fn advance_held_slot(
        &self,
        state: SlotState,
        held: bool,
        mode: LaunchMode,
        tick_now: usize,
        quantize_ticks: usize,
    ) -> (SlotState, bool);

    /// The state one tick later, for a clip that repeats every `loop_length_ticks`.
    fn advance_slot(
        &self,
        state: SlotState,
        tick_now: usize,
        loop_length_ticks: usize,
    ) -> SlotState;

    /// How long a clip runs before it repeats, at the tempo in effect at `tick_now`.
    fn loop_length_ticks(&self, clip: &SessionClip, tick_now: usize) -> usize;

    /// What to do once a clip has looped `loop_count` times.
    fn resolve_follow_action(
        &self,
        loop_count: u32,
        config: FollowActionConfig,
        seed: u64,
    ) -> Option<FollowAction>;

    /// The slot a follow action leads to.
    fn follow_action_target(
        &self,
        action: FollowAction,
        slot_index: usize,
        slot_count: usize,
        seed: u64,
    ) -> Option<usize>;
}

/// A seed for the session rules' choices. It mixes the tick with the track, the slot and the loop
/// count, so that two slots, or two loops of one, do not roll the same.
pub open spec fn follow_seed(tick_now: usize, track_index: usize, slot_index: usize, loop_count: u32)
    -> u64 {
    (tick_now as u64) ^ ((track_index as u64) << 40) ^ ((slot_index as u64) << 24) ^ ((
    loop_count as u64) << 8)
}

/// The seed of the choice a slot makes at the end of a loop.
pub fn follow_action_seed(
    tick_now: usize,
    track_index: usize,
    slot_index: usize,
    loop_count: u32,
) -> (seed: u64)
    ensures
        seed == follow_seed(tick_now, track_index, slot_index, loop_count),
{
    (tick_now as u64) ^ ((track_index as u64) << 40) ^ ((slot_index as u64) << 24) ^ ((
    loop_count as u64) << 8)
}

/// Two slots of a track that come to the end of as many loops on the same tick do not roll the same.
pub proof fn law_two_slots_get_different_seeds(
    tick_now: usize,
    track_index: usize,
    slot_a: usize,
    slot_b: usize,
    loop_count: u32,
)
    requires
        slot_a != slot_b,
        slot_a < 0x100_0000_0000,
        slot_b < 0x100_0000_0000,
    ensures
        follow_seed(tick_now, track_index, slot_a, loop_count) != follow_seed(
            tick_now,
            track_index,
            slot_b,
            loop_count,
        ),
{
    let (tick, track, count) = (tick_now as u64, track_index as u64, loop_count as u64);
    let (a, b) = (slot_a as u64, slot_b as u64);
    assert((tick ^ (track << 40) ^ (a << 24) ^ (count << 8)) != (tick ^ (track << 40) ^ (b << 24) ^ (
    count << 8))) by (bit_vector)
        requires
            a != b,
            a < 0x100_0000_0000,
            b < 0x100_0000_0000,
    ;
}

/// Two loops of one slot do not roll the same, even at the same tick.
pub proof fn law_two_loops_get_different_seeds(
    tick_now: usize,
    track_index: usize,
    slot_index: usize,
    loops_a: u32,
    loops_b: u32,
)
    requires
        loops_a != loops_b,
    ensures
        follow_seed(tick_now, track_index, slot_index, loops_a) != follow_seed(
            tick_now,
            track_index,
            slot_index,
            loops_b,
        ),
{
    let (tick, track, slot) = (tick_now as u64, track_index as u64, slot_index as u64);
    assert((tick ^ (track << 40) ^ (slot << 24) ^ ((loops_a as u64) << 8)) != (tick ^ (track << 40) ^ (
    slot << 24) ^ ((loops_b as u64) << 8))) by (bit_vector)
        requires
            loops_a != loops_b,
    ;
}

/// One launch or stop of a captured performance.
pub struct CaptureEvent {
    /// Ticks since capturing was armed.
    pub relative_tick: usize,
    pub track_index: usize,
    pub kind: CaptureEventKind,
}

/// A launch carries the clip as it was then, so that later edits do not change what was captured.
pub enum CaptureEventKind {
    Started { clip: Arc<SessionClip> },
    Stopped,
}

/// A slot is heard while it plays and while it winds down to a queued stop, at the place it has
/// reached; a stopped slot, and one that waits to start, is not.
pub proof fn law_a_slot_is_heard_until_it_has_stopped(
    local_tick: usize,
    loop_count: u32,
    at_tick: usize,
)
    ensures
        (SlotState::Playing { local_tick, loop_count }).position() == Some(local_tick),
        (SlotState::QueuedStop { local_tick, loop_count, stop_tick: at_tick }).position() == Some(
            local_tick,
        ),
        (SlotState::Queued { launch_tick: at_tick }).position() is None,
        SlotState::Stopped.position() is None,
        forall|state: SlotState| #[trigger] state.sounding() <==> state.position() is Some,
{
}

/// A slot starts when it comes to be heard: it is heard after, and was not before.
pub proof fn law_a_slot_starts_when_it_comes_to_be_heard(before: SlotState, after: SlotState)
    ensures
        started(before, after) <==> before.position() is None && after.position() is Some,
{
}

/// A loop is completed when a slot that goes on playing has counted one more of them. A slot that is
/// winding down, waiting or stopped completes none.
pub proof fn law_a_loop_is_completed_when_it_is_counted(before: SlotState, after: SlotState)
    ensures
        looped(before, after) <==> match (before, after) {
            (
                SlotState::Playing { loop_count: earlier, .. },
                SlotState::Playing { loop_count: later, .. },
            ) => later > earlier,
            _ => false,
        },
{
}

/// A seed changes with the tick, bit for bit, whatever the track, the slot and the loop count; with
/// all of those at zero it is the tick.
pub proof fn law_seeds_follow_the_tick(
    a: usize,
    b: usize,
    track_index: usize,
    slot_index: usize,
    loop_count: u32,
)
    ensures
        follow_seed(a, track_index, slot_index, loop_count) ^ follow_seed(
            b,
            track_index,
            slot_index,
            loop_count,
        ) == (a as u64) ^ (b as u64),
        follow_seed(a, 0, 0, 0) == a as u64,
{
    let (x, y) = (a as u64, b as u64);
    let (track, slot, count) = (track_index as u64, slot_index as u64, loop_count as u64);
    assert((x ^ (track << 40) ^ (slot << 24) ^ (count << 8)) ^ (y ^ (track << 40) ^ (slot << 24) ^ (
    count << 8)) == x ^ y) by (bit_vector);
    assert(x ^ (0u64 << 40) ^ (0u64 << 24) ^ (0u64 << 8) == x) by (bit_vector);
}

/// Two tracks whose slots come to the end of as many loops on the same tick do not roll the same.
pub proof fn law_two_tracks_get_different_seeds(
    tick_now: usize,
    track_a: usize,
    track_b: usize,
    slot_index: usize,
    loop_count: u32,
)
    requires
        track_a != track_b,
        track_a < 0x100_0000,
        track_b < 0x100_0000,
    ensures
        follow_seed(tick_now, track_a, slot_index, loop_count) != follow_seed(
            tick_now,
            track_b,
            slot_index,
            loop_count,
        ),
{
    let (tick, slot, count) = (tick_now as u64, slot_index as u64, loop_count as u64);
    let (a, b) = (track_a as u64, track_b as u64);
    assert((tick ^ (a << 40) ^ (slot << 24) ^ (count << 8)) != (tick ^ (b << 40) ^ (slot << 24) ^ (
    count << 8))) by (bit_vector)
        requires
            a != b,
            a < 0x100_0000,
            b < 0x100_0000,
    ;
}

} // verus!
