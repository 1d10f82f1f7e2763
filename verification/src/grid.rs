//! One tick of the session grid.
//!
//! A track's slots are visited in order: each takes in its latest click or held pad, advances by a
//! tick, stops its siblings if it starts, and triggers its content. Slots whose clip has looped
//! often enough are then followed up.

use std::sync::Arc;

use vstd::prelude::*;

use crate::model::{
    FollowAction, LaunchIntent, LaunchMode, SessionClip, SessionClipContent, SessionLaunchRequest,
    SessionQuantize, TakeFolder, Track,
};
use crate::session::{
    follow_action_seed, follow_seed, just_completed_a_loop, just_started_playing, looped, started,
    CaptureEvent, CaptureEventKind, SlotRules, SlotState,
};
use crate::trigger::{
    called_for, content_triggers, law_content_triggers_what_it_calls_for, trigger_content,
    ContentSource, TrackVoices, Trigger, SAMPLE_VOICE_COUNT, VOICE_COUNT,
};

verus! {

/// What sets a follow action's seed apart from the seed of the loop that led to it.
pub const FOLLOW_UP_SALT: u64 = 0x5EED;

/// What is the same for every slot of a track during one tick.
#[derive(Clone, Copy, Debug, PartialEq, Eq, Structural)]
pub struct TickContext {
    pub track_index: usize,
    pub tick_now: usize,
    /// The grid-wide launch quantize.
    pub quantize_ticks: usize,
    pub capturing: bool,
    pub capture_tick: usize,
}

/// One track's slots, each with the last click it has taken in and the sample voice (if any) that
/// loops its audio.
pub struct TrackGrid {
    pub states: Vec<SlotState>,
    pub seen: Vec<u64>,
    pub audio_voice: Vec<Option<usize>>,
}

/// One track of the grid while a tick works on it, with what the tick has set off and logged.
pub struct TrackRun {
    pub grid: TrackGrid,
    pub voices: TrackVoices,
    pub triggers: Vec<Trigger>,
    pub log: Vec<CaptureEvent>,
}

/// A [`TrackGrid`] as the contracts speak of it.
#[verifier::ext_equal]
pub struct GridView {
    pub states: Seq<SlotState>,
    pub seen: Seq<u64>,
    pub audio_voice: Seq<Option<usize>>,
}

/// A [`TrackRun`] as the contracts speak of it.
#[verifier::ext_equal]
pub struct RunView {
    pub states: Seq<SlotState>,
    pub seen: Seq<u64>,
    pub audio_voice: Seq<Option<usize>>,
    pub voices: TrackVoices,
    pub triggers: Seq<Trigger>,
    pub log: Seq<CaptureEvent>,
}

impl View for TrackGrid {
    type V = GridView;

    open spec fn view(&self) -> GridView {
        GridView {
            states: self.states@,
            seen: self.seen@,
            audio_voice: self.audio_voice@,
        }
    }
}

impl View for TrackRun {
    type V = RunView;

    open spec fn view(&self) -> RunView {
        RunView {
            states: self.grid.states@,
            seen: self.grid.seen@,
            audio_voice: self.grid.audio_voice@,
            voices: self.voices,
            triggers: self.triggers@,
            log: self.log@,
        }
    }
}

/// A row cut or filled up with `fill` to `count` entries.
pub open spec fn resized<T>(row: Seq<T>, count: nat, fill: T) -> Seq<T> {
    Seq::new(
        count,
        |i: int|
            if i < row.len() {
                row[i]
            } else {
                fill
            },
    )
}

fn resize_row<T: Copy>(row: &mut Vec<T>, count: usize, fill: T)
    ensures
        final(row)@ == resized(old(row)@, count as nat, fill),
{
    let ghost before = row@;
    row.truncate(count);
    while row.len() < count
        invariant
            row@.len() <= count,
            forall|i: int|
                0 <= i < row@.len() ==> #[trigger] row@[i] == (if i < before.len() {
                    before[i]
                } else {
                    fill
                }),
            row@.len() < count ==> row@.len() >= before.len(),
        decreases count - row@.len(),
    {
        row.push(fill);
    }
    assert(row@ =~= resized(before, count as nat, fill));
}

impl GridView {
    /// The three rows have one entry per slot, and every audio voice exists.
    pub open spec fn wf(self, slot_count: nat) -> bool {
        &&& self.states.len() == slot_count
        &&& self.seen.len() == slot_count
        &&& self.audio_voice.len() == slot_count
        &&& forall|i: int|
            0 <= i < slot_count ==> ((#[trigger] self.audio_voice[i]) matches Some(voice) ==> voice
                < SAMPLE_VOICE_COUNT)
    }

    /// The grid once it has `slot_count` slots: new ones are stopped and have seen no click.
    pub open spec fn resized(self, slot_count: nat) -> GridView {
        GridView {
            states: resized(self.states, slot_count, SlotState::Stopped),
            seen: resized(self.seen, slot_count, 0),
            audio_voice: resized(self.audio_voice, slot_count, None),
        }
    }
}

impl TrackGrid {
    /// A track with no slots yet.
    pub fn new() -> (grid: Self)
        ensures
            grid@.wf(0),
    {
        TrackGrid { states: Vec::new(), seen: Vec::new(), audio_voice: Vec::new() }
    }

    /// Gives the track `slot_count` slots. Those it keeps stay as they are.
    pub fn resize(&mut self, slot_count: usize)
        ensures
            final(self)@ == old(self)@.resized(slot_count as nat),
    {
        resize_row(&mut self.states, slot_count, SlotState::Stopped);
        resize_row(&mut self.seen, slot_count, 0);
        resize_row(&mut self.audio_voice, slot_count, None);
    }
}

impl RunView {
    /// The grid part of the run.
    pub open spec fn grid(self) -> GridView {
        GridView { states: self.states, seen: self.seen, audio_voice: self.audio_voice }
    }

    /// The rows match the slot count, and every voice exists.
    pub open spec fn wf(self, slot_count: nat) -> bool {
        self.grid().wf(slot_count) && self.voices.wf()
    }

    /// After silencing the voice (if any) that loops a slot's audio.
    pub open spec fn cut(self, track_index: usize, slot: int) -> RunView {
        match self.audio_voice[slot] {
            Some(voice) => RunView {
                audio_voice: self.audio_voice.update(slot, None),
                triggers: self.triggers.push(Trigger::Cut { track: track_index, voice }),
                ..self
            },
            None => self,
        }
    }

    /// After logging a launch or stop, if the performance is being captured.
    pub open spec fn logged(self, context: TickContext, kind: CaptureEventKind) -> RunView {
        if context.capturing {
            RunView {
                log: self.log.push(
                    CaptureEvent {
                        relative_tick: context.capture_tick,
                        track_index: context.track_index,
                        kind,
                    },
                ),
                ..self
            }
        } else {
            self
        }
    }

    /// After a slot is stopped: its audio is silenced, and the stop is logged if it was heard.
    pub open spec fn slot_stopped(self, context: TickContext, slot: int) -> RunView {
        let hushed = RunView {
            states: self.states.update(slot, SlotState::Stopped),
            ..self
        }.cut(context.track_index, slot);
        if self.states[slot].sounding() {
            hushed.logged(context, CaptureEventKind::Stopped)
        } else {
            hushed
        }
    }

    /// After the first `n` slots, all but `keep`, are stopped, whether they were heard or waiting.
    pub open spec fn others_stopped(self, context: TickContext, keep: int, n: nat) -> RunView
        decreases n,
    {
        if n == 0 {
            self
        } else {
            let earlier = self.others_stopped(context, keep, (n - 1) as nat);
            if n - 1 == keep {
                earlier
            } else {
                earlier.slot_stopped(context, n - 1)
            }
        }
    }

    /// After a looping sample voice is set off for a slot. A voice that looped its audio so far is
    /// cut first, so that no loop is left without a slot.
    pub open spec fn looped_afresh(self, track_index: usize, slot: usize, trigger: Trigger)
        -> RunView {
        let free = self.cut(track_index, slot as int);
        RunView {
            triggers: free.triggers.push(trigger),
            audio_voice: free.audio_voice.update(slot as int, Some(free.voices.next_sample_voice)),
            voices: free.voices.after_sample(),
            ..free
        }
    }

    /// After triggering what a slot's clip has `local_tick` ticks in. Steps and notes are looked
    /// for at every tick; audio and recordings loop by themselves, so they are set off only when
    /// the slot starts afresh. A loop left over from audio that steps or notes have replaced is cut.
    pub open spec fn content(
        self,
        track_index: usize,
        track: Track,
        slot: usize,
        clip: Arc<SessionClip>,
        local_tick: usize,
        fresh: bool,
    ) -> RunView {
        match clip.content {
            SessionClipContent::Region { content, .. } => {
                let (added, voices) = content_triggers(
                    self.voices,
                    track_index,
                    ContentSource::Slot(slot),
                    track,
                    content,
                    local_tick as int,
                );
                let free = self.cut(track_index, slot as int);
                RunView { triggers: free.triggers + added, voices, ..free }
            },
            SessionClipContent::Audio(audio) => if fresh && audio.buffer is Some {
                let voice = self.voices.next_sample_voice;
                self.looped_afresh(
                    track_index,
                    slot,
                    Trigger::SlotAudio { track: track_index, slot, voice, local_tick },
                )
            } else {
                self
            },
            SessionClipContent::Recording(folder) => if fresh && active_take(folder) is Some {
                let take = active_take(folder)->0;
                let voice = self.voices.next_sample_voice;
                self.looped_afresh(
                    track_index,
                    slot,
                    Trigger::SlotTake { track: track_index, slot, take, voice, local_tick },
                )
            } else {
                self
            },
        }
    }
}

/// The take a session recording plays: the one its first comp segment picks, or the first take
/// where it has no segment; none if there is no such take or its audio is not loaded.
pub open spec fn active_take(folder: TakeFolder) -> Option<usize> {
    let take = if folder.comp@.len() > 0 {
        folder.comp@[0].take_index
    } else {
        0
    };
    if take < folder.takes@.len() && folder.takes@[take as int].buffer is Some {
        Some(take)
    } else {
        None
    }
}

/// Where the first sounding slot at or after `from`, other than `exclude`, is in its clip.
pub open spec fn sibling_position(states: Seq<SlotState>, exclude: int, from: nat) -> Option<usize>
    decreases states.len() - from,
{
    if from >= states.len() {
        None
    } else if from != exclude && states[from as int].sounding() {
        states[from as int].position()
    } else {
        sibling_position(states, exclude, from + 1)
    }
}

/// The position of whatever other slot of a track is sounding, if any.
pub fn playing_sibling_local_tick(states: &Vec<SlotState>, exclude_slot_index: usize) -> (position:
    Option<usize>)
    ensures
        position == sibling_position(states@, exclude_slot_index as int, 0),
{
    let mut i: usize = 0;
    while i < states.len()
        invariant
            i <= states@.len(),
            sibling_position(states@, exclude_slot_index as int, 0) == sibling_position(
                states@,
                exclude_slot_index as int,
                i as nat,
            ),
        decreases states@.len() - i,
    {
        if i != exclude_slot_index {
            let position: Option<usize> = states[i].local_tick();
            if position.is_some() {
                return position;
            }
        }
        i += 1;
    }
    None
}

impl TrackRun {
    /// Silences the voice (if any) that loops a slot's audio. A looping voice never stops by
    /// itself, so every way of stopping a slot comes through here.
    pub fn stop_session_slot_audio(&mut self, track_index: usize, slot_index: usize)
        requires
            slot_index < old(self)@.audio_voice.len(),
        ensures
            final(self)@ == old(self)@.cut(track_index, slot_index as int),
    {
        if let Some(voice) = self.grid.audio_voice[slot_index] {
            self.grid.audio_voice[slot_index] = None;
            self.triggers.push(Trigger::Cut { track: track_index, voice });
        }
    }

    /// Logs a launch or stop, if the performance is being captured.
    fn log_event(&mut self, context: TickContext, kind: CaptureEventKind)
        ensures
            final(self)@ == old(self)@.logged(context, kind),
    {
        if context.capturing {
            self.log.push(
                CaptureEvent {
                    relative_tick: context.capture_tick,
                    track_index: context.track_index,
                    kind,
                },
            );
        }
    }

    /// Stops a slot: its audio is silenced, and the stop is logged if it was heard.
    pub fn stop_slot(&mut self, context: TickContext, slot_index: usize)
        requires
            slot_index < old(self)@.states.len(),
            old(self)@.audio_voice.len() == old(self)@.states.len(),
        ensures
            final(self)@ == old(self)@.slot_stopped(context, slot_index as int),
            final(self)@.states.len() == old(self)@.states.len(),
            final(self)@.audio_voice.len() == old(self)@.audio_voice.len(),
    {
        let was_heard: bool = self.grid.states[slot_index].local_tick().is_some();
        self.grid.states[slot_index] = SlotState::Stopped;
        self.stop_session_slot_audio(context.track_index, slot_index);
        if was_heard {
            self.log_event(context, CaptureEventKind::Stopped);
        }
    }

    /// Stops every slot of the track but one: a track plays at most one clip at a time, so
    /// launching one stops whatever else was playing or queued.
    pub fn stop_other_session_slots(&mut self, context: TickContext, keep_slot_index: usize)
        requires
            old(self)@.audio_voice.len() == old(self)@.states.len(),
        ensures
            final(self)@ == old(self)@.others_stopped(
                context,
                keep_slot_index as int,
                old(self)@.states.len(),
            ),
            final(self)@.states.len() == old(self)@.states.len(),
            final(self)@.audio_voice.len() == old(self)@.audio_voice.len(),
    {
        let ghost before = self@;
        let count: usize = self.grid.states.len();
        let mut i: usize = 0;
        while i < count
            invariant
                i <= count,
                count == before.states.len(),
                self@.states.len() == count,
                self@.audio_voice.len() == count,
                self@ == before.others_stopped(context, keep_slot_index as int, i as nat),
            decreases count - i,
        {
            if i != keep_slot_index {
                self.stop_slot(context, i);
            }
            i += 1;
        }
    }

    /// Sets off a looping sample voice for a slot, in place of the one (if any) that looped its
    /// audio so far.
    fn loop_afresh(&mut self, track_index: usize, slot_index: usize, take: Option<usize>, local_tick:
        usize)
        requires
            old(self)@.voices.wf(),
            slot_index < old(self)@.audio_voice.len(),
        ensures
            final(self)@.voices.wf(),
            final(self)@ == old(self)@.looped_afresh(
                track_index,
                slot_index,
                ({
                    let voice = old(self)@.voices.next_sample_voice;
                    match take {
                        Some(take) => Trigger::SlotTake {
                            track: track_index,
                            slot: slot_index,
                            take,
                            voice,
                            local_tick,
                        },
                        None => Trigger::SlotAudio {
                            track: track_index,
                            slot: slot_index,
                            voice,
                            local_tick,
                        },
                    }
                }),
            ),
    {
        self.stop_session_slot_audio(track_index, slot_index);
        let voice: usize = self.voices.take_sample();
        let trigger = match take {
            Some(take) => Trigger::SlotTake {
                track: track_index,
                slot: slot_index,
                take,
                voice,
                local_tick,
            },
            None => Trigger::SlotAudio { track: track_index, slot: slot_index, voice, local_tick },
        };
        self.triggers.push(trigger);
        self.grid.audio_voice[slot_index] = Some(voice);
    }

    /// Triggers what `clip` has `local_tick` ticks in.
    pub fn trigger_session_slot_content(
        &mut self,
        track_index: usize,
        track: &Track,
        slot_index: usize,
        clip: &Arc<SessionClip>,
        local_tick: usize,
        fresh_start: bool,
    )
        requires
            old(self)@.voices.wf(),
            slot_index < old(self)@.audio_voice.len(),
        ensures
            final(self)@.voices.wf(),
            final(self)@ == old(self)@.content(
                track_index,
                *track,
                slot_index,
                *clip,
                local_tick,
                fresh_start,
            ),
    {
        match &clip.content {
            SessionClipContent::Region { content, .. } => {
                self.stop_session_slot_audio(track_index, slot_index);
                trigger_content(
                    &mut self.voices,
                    track_index,
                    ContentSource::Slot(slot_index),
                    track,
                    content,
                    local_tick,
                    &mut self.triggers,
                );
            },
            SessionClipContent::Audio(audio) => {
                if fresh_start && audio.buffer.is_some() {
                    self.loop_afresh(track_index, slot_index, None, local_tick);
                }
            },
            SessionClipContent::Recording(folder) => {
                if fresh_start {
                    let take: usize = if folder.comp.len() > 0 {
                        folder.comp[0].take_index
                    } else {
                        0
                    };
                    if take < folder.takes.len() && folder.takes[take].buffer.is_some() {
                        self.loop_afresh(track_index, slot_index, Some(take), local_tick);
                    }
                }
            },
        }
    }
}

/// How a slot moves on with a tick: whether it starts, whether it stops (both, where it starts over),
/// whether its loop is set off afresh, and the state it comes to.
#[derive(Clone, Copy, Debug, PartialEq, Eq, Structural)]
pub struct SlotMove {
    pub begins: bool,
    pub ends: bool,
    pub fresh: bool,
    pub after: SlotState,
}

/// What the session rules answered about one slot during one tick. An answer counts only where
/// the question was asked.
pub struct SlotAnswer {
    pub quantize_ticks: usize,
    pub held: (SlotState, bool),
    pub clicked: SlotState,
    pub loop_length_ticks: usize,
    pub advanced: SlotState,
    pub follow_action: Option<FollowAction>,
}

/// A slot whose clip has looped often enough, with what is to follow.
#[derive(Clone, Copy, Debug, PartialEq, Eq, Structural)]
pub struct PendingFollowAction {
    pub slot_index: usize,
    pub action: FollowAction,
    pub loop_count: u32,
}

/// The latest click on a slot, if there has been one.
pub open spec fn request_of(track: Track, slot: int) -> Option<SessionLaunchRequest> {
    if 0 <= slot < track.session_launch_requests@.len() {
        Some(track.session_launch_requests@[slot])
    } else {
        None
    }
}

/// Whether a launch mode follows the held pad rather than clicks.
pub open spec fn follows_hold(mode: LaunchMode) -> bool {
    mode is Gate || mode is Repeat
}

/// Whether a slot's pad is held down.
pub open spec fn pad_held(track: Track, slot: int) -> bool {
    request_of(track, slot) matches Some(request) && request.held
}

/// The ticks a click on a clip snaps forward to: those of its own launch quantize, which the
/// session rules count in the song as it is now, or else the grid's.
pub open spec fn quantize_of(context: TickContext, clip: Arc<SessionClip>, a: SlotAnswer) -> usize {
    match clip.quantize_override {
        Some(SessionQuantize::Immediate) => 0,
        Some(_) => a.quantize_ticks,
        None => context.quantize_ticks,
    }
}

impl RunView {
    /// Whether a slot has a click that it has not taken in yet.
    pub open spec fn fresh_click(self, track: Track, slot: int) -> bool {
        request_of(track, slot) matches Some(request) && request.generation != self.seen[slot]
    }

    /// The clicks taken in once a slot has looked at its latest one.
    pub open spec fn seen_after(self, track: Track, slot: int) -> Seq<u64> {
        if self.fresh_click(track, slot) {
            self.seen.update(slot, (request_of(track, slot)->0).generation)
        } else {
            self.seen
        }
    }

    /// A slot's state once its click or held pad is taken in. An explicit stop always works, even
    /// on a slot that follows the pad.
    pub open spec fn launched(self, track: Track, slot: int, clip: Arc<SessionClip>, a: SlotAnswer)
        -> SlotState {
        if follows_hold(clip.launch_mode) {
            if self.fresh_click(track, slot) && (request_of(track, slot)->0).intent
                == LaunchIntent::Stop {
                SlotState::Stopped
            } else {
                a.held.0
            }
        } else if self.fresh_click(track, slot) {
            a.clicked
        } else {
            self.states[slot]
        }
    }

    /// Whether a slot starts with the tick, or starts over: it is heard after it, and was not heard
    /// all along.
    pub open spec fn begins(self, track: Track, slot: int, clip: Arc<SessionClip>, a: SlotAnswer)
        -> bool {
        ||| started(self.states[slot], a.advanced)
        ||| started(self.launched(track, slot, clip, a), a.advanced)
    }

    /// Whether a slot that was heard stops with the tick, by itself or by a click, even if only to
    /// start over.
    pub open spec fn ends(self, track: Track, slot: int, clip: Arc<SessionClip>, a: SlotAnswer)
        -> bool {
        &&& self.states[slot].sounding()
        &&& !self.launched(track, slot, clip, a).sounding() || !a.advanced.sounding()
    }

    /// A slot's state after the tick. A legato clip that starts joins the position its sounding
    /// sibling has reached.
    pub open spec fn settled(self, track: Track, slot: int, clip: Arc<SessionClip>, a: SlotAnswer)
        -> SlotState {
        let sibling = sibling_position(self.states, slot, 0);
        if self.begins(track, slot, clip, a) && clip.legato && sibling is Some {
            let length: usize = if a.loop_length_ticks > 1 {
                a.loop_length_ticks
            } else {
                1
            };
            SlotState::Playing { local_tick: (sibling->0 % length), loop_count: 0 }
        } else {
            a.advanced
        }
    }

    /// After one slot has been visited, given what the session rules answered about it.
    pub open spec fn visited(
        self,
        context: TickContext,
        track: Track,
        slot: usize,
        clip: Arc<SessionClip>,
        a: SlotAnswer,
    ) -> RunView {
        let begins = self.begins(track, slot as int, clip, a);
        RunView { seen: self.seen_after(track, slot as int), ..self }.moved_on(
            context,
            track,
            slot,
            clip,
            SlotMove {
                begins,
                ends: self.ends(track, slot as int, clip, a),
                fresh: begins || (follows_hold(clip.launch_mode) && a.held.1),
                after: self.settled(track, slot as int, clip, a),
            },
        )
    }

    /// After a slot has moved on by a tick. Where it starts, every other slot stops; where it or
    /// they stop, that is logged before the start is; and what it has to play there is set off.
    pub open spec fn moved_on(
        self,
        context: TickContext,
        track: Track,
        slot: usize,
        clip: Arc<SessionClip>,
        step: SlotMove,
    ) -> RunView {
        let alone = if step.begins {
            self.others_stopped(context, slot as int, self.states.len())
        } else {
            self
        };
        let hushed = if step.ends {
            alone.slot_stopped(context, slot as int)
        } else {
            alone
        };
        let placed = RunView { states: hushed.states.update(slot as int, step.after), ..hushed };
        let logged = if step.begins {
            placed.logged(context, CaptureEventKind::Started { clip })
        } else {
            placed
        };
        match step.after.position() {
            Some(local_tick) => logged.content(
                context.track_index,
                track,
                slot,
                clip,
                local_tick,
                step.fresh,
            ),
            None => logged,
        }
    }

    /// What is to follow a slot that has just been visited, if its clip has come to the end of a
    /// loop and the session rules have an action for it.
    pub open spec fn pending(
        self,
        track: Track,
        slot: usize,
        clip: Arc<SessionClip>,
        a: SlotAnswer,
    ) -> Seq<PendingFollowAction> {
        let before = self.launched(track, slot as int, clip, a);
        let after = self.settled(track, slot as int, clip, a);
        if looped(before, after) && a.follow_action is Some && a.follow_action->0
            != FollowAction::Nothing {
            seq![
                PendingFollowAction {
                    slot_index: slot,
                    action: a.follow_action->0,
                    loop_count: after->Playing_loop_count,
                },
            ]
        } else {
            Seq::empty()
        }
    }
}

/// Whether `a` holds what the session rules answer about a slot.
pub open spec fn answered<R: SlotRules>(
    rules: &R,
    context: TickContext,
    track: Track,
    run: RunView,
    slot: usize,
    clip: Arc<SessionClip>,
    a: SlotAnswer,
) -> bool {
    let state = run.states[slot as int];
    let mode = clip.launch_mode;
    let quantize = quantize_of(context, clip, a);
    let before = run.launched(track, slot as int, clip, a);
    let after = run.settled(track, slot as int, clip, a);
    &&& match clip.quantize_override {
        Some(SessionQuantize::Custom(choice)) => call_ensures(
            R::quantize_ticks,
            (rules, SessionQuantize::Custom(choice)),
            a.quantize_ticks,
        ),
        _ => true,
    }
    &&& follows_hold(mode) ==> call_ensures(
        R::advance_held_slot,
        (rules, state, pad_held(track, slot as int), mode, context.tick_now, quantize),
        a.held,
    )
    &&& !follows_hold(mode) && run.fresh_click(track, slot as int) ==> call_ensures(
        R::apply_launch_request,
        (
            rules,
            state,
            (request_of(track, slot as int)->0).intent,
            mode,
            context.tick_now,
            quantize,
        ),
        a.clicked,
    )
    &&& call_ensures(R::loop_length_ticks, (rules, &*clip, context.tick_now), a.loop_length_ticks)
    &&& call_ensures(
        R::advance_slot,
        (rules, before, context.tick_now, a.loop_length_ticks),
        a.advanced,
    )
    &&& looped(before, after) ==> call_ensures(
        R::resolve_follow_action,
        (
            rules,
            after->Playing_loop_count,
            clip.follow_action,
            follow_seed(
                context.tick_now,
                context.track_index,
                slot,
                after->Playing_loop_count,
            ),
        ),
        a.follow_action,
    )
}

pub(crate) proof fn lemma_others_stopped_keeps_the_rest(
    run: RunView,
    context: TickContext,
    keep: int,
    n: nat,
)
    requires
        n <= run.states.len(),
        run.audio_voice.len() == run.states.len(),
    ensures
        ({
            let after = run.others_stopped(context, keep, n);
            &&& after.states.len() == run.states.len()
            &&& after.audio_voice.len() == run.audio_voice.len()
            &&& after.seen == run.seen
            &&& after.voices == run.voices
            &&& forall|i: int|
                0 <= i < run.states.len() ==> #[trigger] after.states[i] == (if i < n && i != keep {
                    SlotState::Stopped
                } else {
                    run.states[i]
                })
            &&& forall|i: int|
                0 <= i < run.states.len() ==> #[trigger] after.audio_voice[i] == (if i < n && i
                    != keep {
                    None
                } else {
                    run.audio_voice[i]
                })
        }),
    decreases n,
{
    if n > 0 {
        lemma_others_stopped_keeps_the_rest(run, context, keep, (n - 1) as nat);
    }
}

impl TrackRun {
    /// Moves a slot on by a tick, and triggers what it has there.
    fn move_slot(
        &mut self,
        context: TickContext,
        track: &Track,
        slot: usize,
        clip: &Arc<SessionClip>,
        step: SlotMove,
    )
        requires
            slot < old(self)@.states.len(),
            old(self)@.wf(old(self)@.states.len()),
        ensures
            final(self)@.wf(old(self)@.states.len()),
            final(self)@ == old(self)@.moved_on(context, *track, slot, *clip, step),
    {
        proof {
            lemma_others_stopped_keeps_the_rest(self@, context, slot as int, self@.states.len());
        }
        if step.begins {
            self.stop_other_session_slots(context, slot);
        }
        if step.ends {
            self.stop_slot(context, slot);
        }
        self.grid.states[slot] = step.after;
        if step.begins {
            self.log_event(context, CaptureEventKind::Started { clip: clip.clone() });
        }
        if let Some(local_tick) = step.after.local_tick() {
            self.trigger_session_slot_content(
                context.track_index,
                track,
                slot,
                clip,
                local_tick,
                step.fresh,
            );
        }
    }

    /// Visits one slot that holds a clip: takes in its click or held pad, advances it by a tick,
    /// and triggers what it has there.
    pub fn visit_slot<R: SlotRules>(
        &mut self,
        rules: &R,
        context: TickContext,
        track: &Track,
        slot: usize,
        clip: &Arc<SessionClip>,
    ) -> (pending: Option<PendingFollowAction>)
        requires
            slot < old(self)@.states.len(),
            old(self)@.wf(old(self)@.states.len()),
        ensures
            final(self)@.wf(old(self)@.states.len()),
            exists|a: SlotAnswer|
                {
                    &&& #[trigger] answered(
                        rules,
                        context,
                        *track,
                        old(self)@,
                        slot,
                        *clip,
                        a,
                    )
                    &&& final(self)@ == old(self)@.visited(context, *track, slot, *clip, a)
                    &&& pending is Some <==> old(self)@.pending(*track, slot, *clip, a).len() > 0
                    &&& pending matches Some(p) ==> old(self)@.pending(*track, slot, *clip, a)
                        == seq![p]
                },
    {
        let ghost run0 = self@;
        let ghost mut quantize_answer: usize = 0;
        let quantize_ticks: usize = match clip.quantize_override {
            Some(SessionQuantize::Immediate) => 0,
            Some(chosen) => {
                let ticks: usize = rules.quantize_ticks(chosen);
                proof {
                    quantize_answer = ticks;
                }
                ticks
            },
            None => context.quantize_ticks,
        };
        let mode = clip.launch_mode;
        let was = self.grid.states[slot];
        let mut state = was;
        let mut forced_retrigger: bool = false;
        let ghost mut held_answer: (SlotState, bool) = (state, false);
        let ghost mut clicked_answer: SlotState = state;
        let has_request: bool = slot < track.session_launch_requests.len();
        if mode == LaunchMode::Gate || mode == LaunchMode::Repeat {
            let held: bool = has_request && track.session_launch_requests[slot].held;
            let (new_state, force) = rules.advance_held_slot(
                state,
                held,
                mode,
                context.tick_now,
                quantize_ticks,
            );
            proof {
                held_answer = (new_state, force);
            }
            state = new_state;
            forced_retrigger = force;
            if has_request {
                let request = track.session_launch_requests[slot];
                if request.generation != self.grid.seen[slot] {
                    self.grid.seen[slot] = request.generation;
                    if request.intent == LaunchIntent::Stop {
                        state = SlotState::Stopped;
                    }
                }
            }
        } else if has_request {
            let request = track.session_launch_requests[slot];
            if request.generation != self.grid.seen[slot] {
                self.grid.seen[slot] = request.generation;
                let clicked = rules.apply_launch_request(
                    state,
                    request.intent,
                    mode,
                    context.tick_now,
                    quantize_ticks,
                );
                proof {
                    clicked_answer = clicked;
                }
                state = clicked;
            }
        }
        let loop_length_ticks: usize = rules.loop_length_ticks(&**clip, context.tick_now);
        let before = state;
        let advanced = rules.advance_slot(before, context.tick_now, loop_length_ticks);
        let ghost a1 = SlotAnswer {
            quantize_ticks: quantize_answer,
            held: held_answer,
            clicked: clicked_answer,
            loop_length_ticks,
            advanced,
            follow_action: None,
        };
        assert(before == run0.launched(*track, slot as int, *clip, a1));
        assert(self@ == (RunView { seen: run0.seen_after(*track, slot as int), ..run0 }));
        let mut after = advanced;
        let begins: bool = just_started_playing(was, advanced) || just_started_playing(
            before,
            advanced,
        );
        let ends: bool = was.local_tick().is_some() && (before.local_tick().is_none()
            || advanced.local_tick().is_none());
        if begins {
            if clip.legato {
                if let Some(position) = playing_sibling_local_tick(&self.grid.states, slot) {
                    let length: usize = if loop_length_ticks > 1 {
                        loop_length_ticks
                    } else {
                        1
                    };
                    after = SlotState::Playing { local_tick: position % length, loop_count: 0 };
                }
            }
        }
        assert(after == run0.settled(*track, slot as int, *clip, a1));
        let step = SlotMove { begins, ends, fresh: begins || forced_retrigger, after };
        self.move_slot(context, track, slot, clip, step);
        let mut pending: Option<PendingFollowAction> = None;
        let ghost mut follow_answer: Option<FollowAction> = None;
        if let SlotState::Playing { loop_count, .. } = after {
            if just_completed_a_loop(before, after) {
                let seed: u64 = follow_action_seed(
                    context.tick_now,
                    context.track_index,
                    slot,
                    loop_count,
                );
                let follow = rules.resolve_follow_action(loop_count, clip.follow_action, seed);
                proof {
                    follow_answer = follow;
                }
                if let Some(action) = follow {
                    if action != FollowAction::Nothing {
                        pending = Some(PendingFollowAction { slot_index: slot, action, loop_count });
                    }
                }
            }
        }
        proof {
            let a = SlotAnswer { follow_action: follow_answer, ..a1 };
            assert(run0.launched(*track, slot as int, *clip, a) == before);
            assert(run0.settled(*track, slot as int, *clip, a) == after);
            assert(self@ == run0.visited(context, *track, slot, *clip, a));
            assert(answered(rules, context, *track, run0, slot, *clip, a));
        }
        pending
    }
}

/// What the session rules decided about one track during one tick: their answers slot by slot,
/// and the target of each follow action in turn.
pub struct TrackDecisions {
    pub answers: Seq<SlotAnswer>,
    pub targets: Seq<Option<usize>>,
}

impl RunView {
    /// After the first `n` slots have been visited, with what is to follow. A slot without a clip
    /// is passed over, but for a loop left over from a clip that it held.
    pub open spec fn after_visits(
        self,
        context: TickContext,
        track: Track,
        answers: Seq<SlotAnswer>,
        n: nat,
    ) -> (RunView, Seq<PendingFollowAction>)
        decreases n,
    {
        if n == 0 {
            (self, Seq::empty())
        } else {
            let (run, pending) = self.after_visits(context, track, answers, (n - 1) as nat);
            match track.session_clips@[n - 1] {
                Some(clip) => (
                    run.visited(context, track, (n - 1) as usize, clip, answers[n - 1]),
                    pending + run.pending(track, (n - 1) as usize, clip, answers[n - 1]),
                ),
                None => (run.cut(context.track_index, n - 1), pending),
            }
        }
    }

    /// After a follow action: its slot stops, and the target slot (if there is one, and it holds a
    /// clip) starts from the top within the same tick, alone on its track. A slot that another has
    /// stopped in the meantime is not followed up.
    pub open spec fn followed(
        self,
        context: TickContext,
        track: Track,
        pending: PendingFollowAction,
        target: Option<usize>,
    ) -> RunView {
        let slot = pending.slot_index as int;
        if !self.states[slot].sounding() {
            self
        } else {
            let stopped = self.slot_stopped(context, slot);
            match target {
                Some(t) => if t < track.session_clips@.len() && track.session_clips@[t as int]
                    is Some {
                    stopped.handed_over(context, track, t, track.session_clips@[t as int]->0)
                } else {
                    stopped
                },
                None => stopped,
            }
        }
    }

    /// After a slot is started from the top, alone on its track.
    pub open spec fn handed_over(
        self,
        context: TickContext,
        track: Track,
        t: usize,
        clip: Arc<SessionClip>,
    ) -> RunView {
        let alone = self.others_stopped(context, t as int, self.states.len()).slot_stopped(
            context,
            t as int,
        );
        RunView {
            states: alone.states.update(
                t as int,
                SlotState::Playing { local_tick: 0, loop_count: 0 },
            ),
            ..alone
        }.logged(context, CaptureEventKind::Started { clip }).content(
            context.track_index,
            track,
            t,
            clip,
            0,
            true,
        )
    }

    /// After the first `n` follow actions.
    pub open spec fn after_follow_actions(
        self,
        context: TickContext,
        track: Track,
        pending: Seq<PendingFollowAction>,
        targets: Seq<Option<usize>>,
        n: nat,
    ) -> RunView
        decreases n,
    {
        if n == 0 {
            self
        } else {
            self.after_follow_actions(context, track, pending, targets, (n - 1) as nat).followed(
                context,
                track,
                pending[n - 1],
                targets[n - 1],
            )
        }
    }

    /// After one tick of the whole track, given what the session rules decided.
    pub open spec fn advanced(self, context: TickContext, track: Track, d: TrackDecisions)
        -> RunView {
        let (run, pending) = self.after_visits(
            context,
            track,
            d.answers,
            track.session_clips@.len(),
        );
        run.after_follow_actions(context, track, pending, d.targets, pending.len())
    }
}

/// Whether `answers` holds what the session rules answer about the first `n` slots.
pub open spec fn all_answered<R: SlotRules>(
    rules: &R,
    context: TickContext,
    track: Track,
    run: RunView,
    answers: Seq<SlotAnswer>,
    n: nat,
) -> bool {
    forall|i: int|
        0 <= i < n && (#[trigger] track.session_clips@[i]) is Some ==> answered(
            rules,
            context,
            track,
            run.after_visits(context, track, answers, i as nat).0,
            i as usize,
            track.session_clips@[i]->0,
            answers[i],
        )
}

/// Whether `target` is what the session rules answer about where a follow action leads.
pub open spec fn targeted<R: SlotRules>(
    rules: &R,
    context: TickContext,
    track: Track,
    pending: PendingFollowAction,
    target: Option<usize>,
) -> bool {
    call_ensures(
        R::follow_action_target,
        (
            rules,
            pending.action,
            pending.slot_index,
            track.session_clips.len(),
            follow_seed(
                context.tick_now,
                context.track_index,
                pending.slot_index,
                pending.loop_count,
            ) ^ FOLLOW_UP_SALT,
        ),
        target,
    )
}

/// Whether `d` holds what the session rules decide about a track.
pub open spec fn decided<R: SlotRules>(
    rules: &R,
    context: TickContext,
    track: Track,
    run: RunView,
    d: TrackDecisions,
) -> bool {
    let pending = run.after_visits(context, track, d.answers, track.session_clips@.len()).1;
    &&& d.answers.len() == track.session_clips@.len()
    &&& all_answered(rules, context, track, run, d.answers, track.session_clips@.len())
    &&& d.targets.len() == pending.len()
    &&& forall|i: int|
        0 <= i < pending.len() ==> targeted(
            rules,
            context,
            track,
            #[trigger] pending[i],
            d.targets[i],
        )
}

/// What comes before depends on no later answer.
proof fn lemma_visits_prefix(
    run: RunView,
    context: TickContext,
    track: Track,
    a: Seq<SlotAnswer>,
    b: Seq<SlotAnswer>,
    n: nat,
)
    requires
        forall|i: int| 0 <= i < n ==> a[i] == b[i],
    ensures
        run.after_visits(context, track, a, n) == run.after_visits(context, track, b, n),
    decreases n,
{
    if n > 0 {
        lemma_visits_prefix(run, context, track, a, b, (n - 1) as nat);
    }
}

proof fn lemma_targets_prefix(
    run: RunView,
    context: TickContext,
    track: Track,
    pending: Seq<PendingFollowAction>,
    a: Seq<Option<usize>>,
    b: Seq<Option<usize>>,
    n: nat,
)
    requires
        forall|i: int| 0 <= i < n ==> a[i] == b[i],
    ensures
        run.after_follow_actions(context, track, pending, a, n) == run.after_follow_actions(
            context,
            track,
            pending,
            b,
            n,
        ),
    decreases n,
{
    if n > 0 {
        lemma_targets_prefix(run, context, track, pending, a, b, (n - 1) as nat);
    }
}

impl TrackRun {
    /// Carries out a follow action.
    pub fn follow_up(
        &mut self,
        context: TickContext,
        track: &Track,
        pending: PendingFollowAction,
        target: Option<usize>,
    )
        requires
            old(self)@.wf(track.session_clips@.len()),
            pending.slot_index < track.session_clips@.len(),
        ensures
            final(self)@.wf(track.session_clips@.len()),
            final(self)@ == old(self)@.followed(context, *track, pending, target),
    {
        let slot: usize = pending.slot_index;
        if self.grid.states[slot].local_tick().is_none() {
            return ;
        }
        self.stop_slot(context, slot);
        if let Some(target_index) = target {
            if target_index < track.session_clips.len() {
                if let Some(clip) = &track.session_clips[target_index] {
                    proof {
                        lemma_others_stopped_keeps_the_rest(
                            self@,
                            context,
                            target_index as int,
                            self@.states.len(),
                        );
                    }
                    self.stop_other_session_slots(context, target_index);
                    self.stop_slot(context, target_index);
                    self.grid.states[target_index] = SlotState::Playing {
                        local_tick: 0,
                        loop_count: 0,
                    };
                    self.log_event(context, CaptureEventKind::Started { clip: clip.clone() });
                    self.trigger_session_slot_content(
                        context.track_index,
                        track,
                        target_index,
                        clip,
                        0,
                        true,
                    );
                }
            }
        }
    }

    /// Takes a track's slots through one tick.
    pub fn advance_track<R: SlotRules>(&mut self, rules: &R, context: TickContext, track: &Track)
        requires
            old(self)@.wf(track.session_clips@.len()),
        ensures
            final(self)@.wf(track.session_clips@.len()),
            exists|d: TrackDecisions|
                #[trigger] decided(rules, context, *track, old(self)@, d) && final(self)@ == old(
                    self,
                )@.advanced(context, *track, d),
    {
        let ghost run0 = self@;
        let slot_count: usize = track.session_clips.len();
        let mut pending: Vec<PendingFollowAction> = Vec::new();
        let ghost mut answers: Seq<SlotAnswer> = Seq::empty();
        let mut slot: usize = 0;
        while slot < slot_count
            invariant
                slot <= slot_count,
                slot_count == track.session_clips@.len(),
                self@.wf(slot_count as nat),
                answers.len() == slot,
                (self@, pending@) == run0.after_visits(context, *track, answers, slot as nat),
                all_answered(rules, context, *track, run0, answers, slot as nat),
                forall|i: int|
                    0 <= i < pending@.len() ==> (#[trigger] pending@[i]).slot_index < slot_count,
            decreases slot_count - slot,
        {
            let ghost run = self@;
            let ghost earlier = pending@;
            let ghost mut answer: SlotAnswer = SlotAnswer {
                quantize_ticks: 0,
                held: (SlotState::Stopped, false),
                clicked: SlotState::Stopped,
                loop_length_ticks: 0,
                advanced: SlotState::Stopped,
                follow_action: None,
            };
            if let Some(clip) = &track.session_clips[slot] {
                let follow = self.visit_slot(rules, context, track, slot, clip);
                proof {
                    answer = choose|a: SlotAnswer|
                        {
                            &&& #[trigger] answered(rules, context, *track, run, slot, *clip, a)
                            &&& self@ == run.visited(context, *track, slot, *clip, a)
                            &&& run.pending(*track, slot, *clip, a) == (match follow {
                                Some(p) => seq![p],
                                None => Seq::empty(),
                            })
                        };
                }
                if let Some(p) = follow {
                    assert(run.pending(*track, slot, *clip, answer)[0] == p);
                    pending.push(p);
                    assert(pending@ =~= earlier + seq![p]);
                } else {
                    assert(pending@ =~= earlier + Seq::<PendingFollowAction>::empty());
                }
            } else {
                self.stop_session_slot_audio(context.track_index, slot);
            }
            proof {
                let extended = answers.push(answer);
                lemma_visits_prefix(run0, context, *track, answers, extended, slot as nat);
                assert forall|i: int|
                    0 <= i < slot + 1 && (#[trigger] track.session_clips@[i]) is Some implies answered(
                    rules,
                    context,
                    *track,
                    run0.after_visits(context, *track, extended, i as nat).0,
                    i as usize,
                    track.session_clips@[i]->0,
                    extended[i],
                ) by {
                    lemma_visits_prefix(run0, context, *track, answers, extended, i as nat);
                }
                answers = extended;
            }
            slot += 1;
        }
        let ghost visited = self@;
        let ghost all_pending = pending@;
        let ghost mut targets: Seq<Option<usize>> = Seq::empty();
        let mut i: usize = 0;
        while i < pending.len()
            invariant
                i <= pending@.len(),
                pending@ == all_pending,
                slot_count == track.session_clips@.len(),
                self@.wf(slot_count as nat),
                targets.len() == i,
                self@ == visited.after_follow_actions(
                    context,
                    *track,
                    all_pending,
                    targets,
                    i as nat,
                ),
                forall|k: int|
                    0 <= k < i ==> targeted(
                        rules,
                        context,
                        *track,
                        #[trigger] all_pending[k],
                        targets[k],
                    ),
                forall|k: int|
                    0 <= k < pending@.len() ==> (#[trigger] pending@[k]).slot_index < slot_count,
            decreases pending@.len() - i,
        {
            let p = pending[i];
            let seed: u64 = follow_action_seed(
                context.tick_now,
                context.track_index,
                p.slot_index,
                p.loop_count,
            ) ^ FOLLOW_UP_SALT;
            let target = rules.follow_action_target(p.action, p.slot_index, slot_count, seed);
            assert(targeted(rules, context, *track, all_pending[i as int], target));
            self.follow_up(context, track, p, target);
            proof {
                let extended = targets.push(target);
                lemma_targets_prefix(
                    visited,
                    context,
                    *track,
                    all_pending,
                    targets,
                    extended,
                    i as nat,
                );
                targets = extended;
            }
            i += 1;
        }
        proof {
            let d = TrackDecisions { answers, targets };
            assert(decided(rules, context, *track, run0, d));
            assert(self@ == run0.advanced(context, *track, d));
        }
    }
}

/// Whether at most one slot of a track is heard.
pub open spec fn at_most_one_sounds(states: Seq<SlotState>) -> bool {
    forall|i: int, j: int|
        0 <= i < states.len() && 0 <= j < states.len() && (#[trigger] states[i]).sounding() && (
        #[trigger] states[j]).sounding() ==> i == j
}

/// Whether every looping voice belongs to a slot that is heard.
pub open spec fn loops_are_heard(run: RunView) -> bool {
    forall|i: int|
        0 <= i < run.states.len() && (#[trigger] run.audio_voice[i]) is Some
            ==> run.states[i].sounding()
}

/// What one visit does to the slots' states and looping voices.
pub(crate) proof fn lemma_visited(
    run: RunView,
    context: TickContext,
    track: Track,
    slot: usize,
    clip: Arc<SessionClip>,
    a: SlotAnswer,
)
    requires
        slot < run.states.len(),
        run.audio_voice.len() == run.states.len(),
    ensures
        ({
            let begins = run.begins(track, slot as int, clip, a);
            let after = run.settled(track, slot as int, clip, a);
            let done = run.visited(context, track, slot, clip, a);
            &&& done.states.len() == run.states.len()
            &&& done.audio_voice.len() == run.audio_voice.len()
            &&& done.states[slot as int] == after
            &&& forall|i: int|
                0 <= i < run.states.len() && i != slot ==> #[trigger] done.states[i] == (
                if begins {
                    SlotState::Stopped
                } else {
                    run.states[i]
                })
            &&& forall|i: int|
                0 <= i < run.states.len() && i != slot ==> #[trigger] done.audio_voice[i] == (
                if begins {
                    None
                } else {
                    run.audio_voice[i]
                })
            &&& run.ends(track, slot as int, clip, a) && !after.sounding()
                ==> done.audio_voice[slot as int] is None
            &&& !run.states[slot as int].sounding() && !after.sounding()
                ==> done.audio_voice[slot as int] == run.audio_voice[slot as int]
            &&& after.sounding() && clip.content is Region ==> done.audio_voice[slot as int] is None
        }),
{
    let taken_in = RunView { seen: run.seen_after(track, slot as int), ..run };
    lemma_others_stopped_keeps_the_rest(taken_in, context, slot as int, run.states.len());
}

/// A track plays at most one clip at a time: visiting a slot keeps it so, because a slot that
/// starts stops every other.
pub proof fn law_a_visit_keeps_one_clip_per_track(
    run: RunView,
    context: TickContext,
    track: Track,
    slot: usize,
    clip: Arc<SessionClip>,
    a: SlotAnswer,
)
    requires
        slot < run.states.len(),
        run.audio_voice.len() == run.states.len(),
        at_most_one_sounds(run.states),
    ensures
        at_most_one_sounds(run.visited(context, track, slot, clip, a).states),
{
    lemma_visited(run, context, track, slot, clip, a);
    let done = run.visited(context, track, slot, clip, a).states;
    assert forall|i: int, j: int|
        0 <= i < done.len() && 0 <= j < done.len() && (#[trigger] done[i]).sounding() && (
        #[trigger] done[j]).sounding() implies i == j by {
        if !run.begins(track, slot as int, clip, a) {
            assert(run.states[i].sounding());
            assert(run.states[j].sounding());
        }
    }
}

/// A looping voice does not outlast its slot's playing: visiting a slot leaves no voice registered
/// with a slot that is not heard. (A slot that is no longer in the row is not visited.)
pub proof fn law_a_visit_keeps_loops_heard(
    run: RunView,
    context: TickContext,
    track: Track,
    slot: usize,
    clip: Arc<SessionClip>,
    a: SlotAnswer,
)
    requires
        slot < run.states.len(),
        run.audio_voice.len() == run.states.len(),
        loops_are_heard(run),
    ensures
        loops_are_heard(run.visited(context, track, slot, clip, a)),
{
    lemma_visited(run, context, track, slot, clip, a);
    let done = run.visited(context, track, slot, clip, a);
    assert forall|i: int|
        0 <= i < done.states.len() && (#[trigger] done.audio_voice[i]) is Some implies
        done.states[i].sounding() by {
        if i != slot {
            assert(run.audio_voice[i] is Some);
        } else {
            assert(run.audio_voice[slot as int] is Some ==> run.states[slot as int].sounding());
        }
    }
}

proof fn lemma_visits_keep_loops_heard(
    run: RunView,
    context: TickContext,
    track: Track,
    answers: Seq<SlotAnswer>,
    n: nat,
)
    requires
        run.wf(track.session_clips@.len()),
        n <= track.session_clips@.len(),
        loops_are_heard(run),
    ensures
        loops_are_heard(run.after_visits(context, track, answers, n).0),
    decreases n,
{
    if n > 0 {
        lemma_visits_keep_loops_heard(run, context, track, answers, (n - 1) as nat);
        lemma_after_visits_carries_on(run, context, track, answers, (n - 1) as nat);
        assert(track.session_clips.len() == track.session_clips@.len());
        let earlier = run.after_visits(context, track, answers, (n - 1) as nat).0;
        if let Some(clip) = track.session_clips@[n - 1] {
            law_a_visit_keeps_loops_heard(
                earlier,
                context,
                track,
                (n - 1) as usize,
                clip,
                answers[n - 1],
            );
        }
    }
}

proof fn lemma_follow_actions_keep_loops_heard(
    run: RunView,
    context: TickContext,
    track: Track,
    pending: Seq<PendingFollowAction>,
    targets: Seq<Option<usize>>,
    n: nat,
)
    requires
        run.wf(track.session_clips@.len()),
        loops_are_heard(run),
        n <= pending.len(),
        forall|i: int|
            0 <= i < pending.len() ==> (#[trigger] pending[i]).slot_index
                < track.session_clips@.len(),
    ensures
        loops_are_heard(run.after_follow_actions(context, track, pending, targets, n)),
    decreases n,
{
    if n > 0 {
        lemma_follow_actions_keep_loops_heard(
            run,
            context,
            track,
            pending,
            targets,
            (n - 1) as nat,
        );
        lemma_after_follow_actions_carries_on(
            run,
            context,
            track,
            pending,
            targets,
            (n - 1) as nat,
        );
        let earlier = run.after_follow_actions(context, track, pending, targets, (n - 1) as nat);
        let after = earlier.followed(context, track, pending[n - 1], targets[n - 1]);
        lemma_followed(earlier, context, track, pending[n - 1], targets[n - 1]);
        assert forall|i: int|
            0 <= i < after.states.len() && (#[trigger] after.audio_voice[i]) is Some implies
            after.states[i].sounding() by {
            if !hands_over(earlier, track, pending[n - 1], targets[n - 1]) {
                assert(earlier.audio_voice[i] is Some);
            }
        }
    }
}

/// A looping voice does not outlast its slot's playing: a track's tick, follow actions and all,
/// leaves no voice registered with a slot of its row that is not heard.
pub proof fn law_a_track_tick_keeps_loops_heard(
    run: RunView,
    context: TickContext,
    track: Track,
    d: TrackDecisions,
)
    requires
        run.wf(track.session_clips@.len()),
        loops_are_heard(run),
    ensures
        loops_are_heard(run.advanced(context, track, d)),
{
    let n = track.session_clips@.len();
    lemma_visits_keep_loops_heard(run, context, track, d.answers, n);
    lemma_after_visits_carries_on(run, context, track, d.answers, n);
    let (visited, pending) = run.after_visits(context, track, d.answers, n);
    lemma_follow_actions_keep_loops_heard(
        visited,
        context,
        track,
        pending,
        d.targets,
        pending.len(),
    );
}

/// A legato clip that starts takes over the place that the track's sounding slot has reached.
pub proof fn law_legato_takes_over_the_place(
    run: RunView,
    track: Track,
    slot: int,
    clip: Arc<SessionClip>,
    a: SlotAnswer,
    sibling: int,
)
    requires
        0 <= sibling < run.states.len(),
        sibling != slot,
        at_most_one_sounds(run.states),
        run.states[sibling].sounding(),
        clip.legato,
        run.begins(track, slot, clip, a),
        a.loop_length_ticks > 0,
    ensures
        run.settled(track, slot, clip, a) == (SlotState::Playing {
            local_tick: (run.states[sibling].position()->0 % a.loop_length_ticks),
            loop_count: 0,
        }),
{
    lemma_sibling_position(run.states, slot, 0, sibling);
    if a.loop_length_ticks == 1 {
        assert(run.states[sibling].position()->0 % 1 == 0);
    }
}

proof fn lemma_sibling_position(states: Seq<SlotState>, exclude: int, from: nat, sibling: int)
    requires
        from <= sibling < states.len(),
        sibling != exclude,
        states[sibling].sounding(),
        forall|i: int|
            from <= i < states.len() && i != exclude && (#[trigger] states[i]).sounding() ==> i
                == sibling,
    ensures
        sibling_position(states, exclude, from) == states[sibling].position(),
    decreases sibling - from,
{
    if from != sibling {
        assert(from != exclude ==> !states[from as int].sounding());
        lemma_sibling_position(states, exclude, from + 1, sibling);
    }
}

/// Whether a longer list begins with a shorter one.
pub open spec fn extends<T>(longer: Seq<T>, shorter: Seq<T>) -> bool {
    &&& shorter.len() <= longer.len()
    &&& forall|i: int| 0 <= i < shorter.len() ==> #[trigger] longer[i] == shorter[i]
}

/// Whether a trigger is one that a slot of the given track sets off, on a voice that exists.
pub open spec fn from_slot(trigger: Trigger, track_index: usize) -> bool {
    match trigger {
        Trigger::LaneSample { track, source, voice, .. } => track == track_index && source is Slot
            && voice < SAMPLE_VOICE_COUNT,
        Trigger::LaneSynth { track, source, voice, .. } => track == track_index && source is Slot
            && voice < VOICE_COUNT,
        Trigger::Note { track, source, voice, .. } => track == track_index && source is Slot
            && voice < VOICE_COUNT,
        Trigger::SlotAudio { track, voice, .. } => track == track_index && voice
            < SAMPLE_VOICE_COUNT,
        Trigger::SlotTake { track, voice, .. } => track == track_index && voice
            < SAMPLE_VOICE_COUNT,
        Trigger::Cut { track, voice } => track == track_index && voice < SAMPLE_VOICE_COUNT,
        Trigger::FrozenClip { .. } => false,
        Trigger::Clip { .. } => false,
        Trigger::TakeSegment { .. } => false,
    }
}

/// Whether a sample voice of the track loops after the triggers from `from` on, up to `to`, given
/// whether it did before them. A slot's audio or recording starts a loop; a cut ends it, and so
/// does a one-shot that takes the voice over.
pub open spec fn loops_on(
    voice: usize,
    looped: bool,
    triggers: Seq<Trigger>,
    track_index: usize,
    from: nat,
    to: nat,
) -> bool
    decreases to,
{
    if to <= from {
        looped
    } else {
        let earlier = loops_on(voice, looped, triggers, track_index, from, (to - 1) as nat);
        match triggers[to - 1] {
            Trigger::SlotAudio { track, voice: v, .. } => earlier || (track == track_index && v
                == voice),
            Trigger::SlotTake { track, voice: v, .. } => earlier || (track == track_index && v
                == voice),
            Trigger::Cut { track, voice: v } => earlier && !(track == track_index && v == voice),
            Trigger::LaneSample { track, voice: v, .. } => earlier && !(track == track_index && v
                == voice),
            _ => earlier,
        }
    }
}

/// Whether a sample voice is registered with one of the track's slots.
pub open spec fn registered(run: RunView, voice: usize) -> bool {
    exists|i: int|
        0 <= i < run.audio_voice.len() && #[trigger] run.audio_voice[i] == Some(voice)
}

/// Whether every sample voice that loops stays registered with a slot.
pub open spec fn loops_stay_registered(before: RunView, after: RunView, track_index: usize) -> bool {
    forall|voice: usize, looped: bool|
        (looped ==> registered(before, voice)) && #[trigger] loops_on(
            voice,
            looped,
            after.triggers,
            track_index,
            before.triggers.len(),
            after.triggers.len(),
        ) ==> registered(after, voice)
}

proof fn lemma_loops_on_splits(
    voice: usize,
    looped: bool,
    triggers: Seq<Trigger>,
    track_index: usize,
    from: nat,
    mid: nat,
    to: nat,
)
    requires
        from <= mid <= to,
    ensures
        loops_on(voice, looped, triggers, track_index, from, to) == loops_on(
            voice,
            loops_on(voice, looped, triggers, track_index, from, mid),
            triggers,
            track_index,
            mid,
            to,
        ),
    decreases to,
{
    if to > mid {
        lemma_loops_on_splits(voice, looped, triggers, track_index, from, mid, (to - 1) as nat);
    }
}

proof fn lemma_loops_on_agrees(
    voice: usize,
    looped: bool,
    longer: Seq<Trigger>,
    shorter: Seq<Trigger>,
    track_index: usize,
    from: nat,
    to: nat,
)
    requires
        extends(longer, shorter),
        to <= shorter.len(),
    ensures
        loops_on(voice, looped, longer, track_index, from, to) == loops_on(
            voice,
            looped,
            shorter,
            track_index,
            from,
            to,
        ),
    decreases to,
{
    if to > from {
        lemma_loops_on_agrees(voice, looped, longer, shorter, track_index, from, (to - 1) as nat);
        assert(longer[to - 1] == shorter[to - 1]);
    }
}

/// Triggers among which no slot's audio or recording is set off start no loop.
proof fn lemma_no_loop_starts(
    voice: usize,
    looped: bool,
    triggers: Seq<Trigger>,
    track_index: usize,
    from: nat,
    to: nat,
)
    requires
        to <= triggers.len(),
        forall|i: int|
            from <= i < to ==> !((#[trigger] triggers[i]) is SlotAudio || triggers[i] is SlotTake),
    ensures
        loops_on(voice, looped, triggers, track_index, from, to) ==> looped,
    decreases to,
{
    if to > from {
        lemma_no_loop_starts(voice, looped, triggers, track_index, from, (to - 1) as nat);
        let last = triggers[to - 1];
        assert(!(last is SlotAudio || last is SlotTake));
    }
}

/// What every step of a tick keeps: rows and voices stay well formed, what has been set off and
/// logged stays as it is, whatever is added comes from the track's slots, and a voice that loops
/// stays registered with a slot.
pub open spec fn carries_on(before: RunView, after: RunView, context: TickContext) -> bool {
    &&& after.wf(before.states.len())
    &&& extends(after.triggers, before.triggers)
    &&& forall|i: int|
        before.triggers.len() <= i < after.triggers.len() ==> from_slot(
            #[trigger] after.triggers[i],
            context.track_index,
        )
    &&& extends(after.log, before.log)
    &&& forall|i: int|
        before.log.len() <= i < after.log.len() ==> (#[trigger] after.log[i]).relative_tick
            == context.capture_tick && after.log[i].track_index == context.track_index
    &&& !context.capturing ==> after.log == before.log
    &&& loops_stay_registered(before, after, context.track_index)
}

pub(crate) proof fn lemma_carries_on_transitive(a: RunView, b: RunView, c: RunView, context: TickContext)
    requires
        carries_on(a, b, context),
        carries_on(b, c, context),
    ensures
        carries_on(a, c, context),
{
    assert forall|i: int| a.triggers.len() <= i < c.triggers.len() implies from_slot(
        #[trigger] c.triggers[i],
        context.track_index,
    ) by {
        if i < b.triggers.len() {
            assert(c.triggers[i] == b.triggers[i]);
        }
    }
    assert forall|i: int| a.log.len() <= i < c.log.len() implies (
    #[trigger] c.log[i]).relative_tick == context.capture_tick && c.log[i].track_index
        == context.track_index by {
        if i < b.log.len() {
            assert(c.log[i] == b.log[i]);
        }
    }
    assert forall|i: int| 0 <= i < a.triggers.len() implies #[trigger] c.triggers[i]
        == a.triggers[i] by {
        assert(b.triggers[i] == a.triggers[i]);
    }
    assert forall|i: int| 0 <= i < a.log.len() implies #[trigger] c.log[i] == a.log[i] by {
        assert(b.log[i] == a.log[i]);
    }
    let t = context.track_index;
    let (x, y, z) = (a.triggers.len(), b.triggers.len(), c.triggers.len());
    assert forall|voice: usize, looped: bool|
        (looped ==> registered(a, voice)) && #[trigger] loops_on(
            voice,
            looped,
            c.triggers,
            t,
            x,
            z,
        ) implies registered(c, voice) by {
        lemma_loops_on_splits(voice, looped, c.triggers, t, x, y, z);
        lemma_loops_on_agrees(voice, looped, c.triggers, b.triggers, t, x, y);
        let halfway = loops_on(voice, looped, b.triggers, t, x, y);
        assert(halfway ==> registered(b, voice));
        assert(loops_on(voice, halfway, c.triggers, t, y, z));
    }
}

proof fn lemma_same_row_carries_on(before: RunView, after: RunView, context: TickContext)
    requires
        after.triggers == before.triggers,
        after.audio_voice == before.audio_voice,
    ensures
        loops_stay_registered(before, after, context.track_index),
{
    assert forall|voice: usize, looped: bool|
        (looped ==> registered(before, voice)) && #[trigger] loops_on(
            voice,
            looped,
            after.triggers,
            context.track_index,
            before.triggers.len(),
            after.triggers.len(),
        ) implies registered(after, voice) by {
        let i = choose|i: int|
            0 <= i < before.audio_voice.len() && #[trigger] before.audio_voice[i] == Some(voice);
        assert(after.audio_voice[i] == Some(voice));
    }
}

proof fn lemma_cut_carries_on(run: RunView, context: TickContext, slot: int)
    requires
        run.wf(run.states.len()),
        0 <= slot < run.states.len(),
    ensures
        carries_on(run, run.cut(context.track_index, slot), context),
{
    let t = context.track_index;
    let after = run.cut(t, slot);
    assert forall|voice: usize, looped: bool|
        (looped ==> registered(run, voice)) && #[trigger] loops_on(
            voice,
            looped,
            after.triggers,
            t,
            run.triggers.len(),
            after.triggers.len(),
        ) implies registered(after, voice) by {
        let n = run.triggers.len();
        assert(loops_on(voice, looped, after.triggers, t, n, n) == looped);
        assert(looped);
        let i = choose|i: int|
            0 <= i < run.audio_voice.len() && #[trigger] run.audio_voice[i] == Some(voice);
        if run.audio_voice[slot] is Some {
            assert(after.triggers[n as int] == (Trigger::Cut {
                track: t,
                voice: run.audio_voice[slot]->0,
            }));
            assert(i != slot);
        }
        assert(after.audio_voice[i] == Some(voice));
    }
}

proof fn lemma_looped_afresh_carries_on(
    run: RunView,
    context: TickContext,
    slot: usize,
    trigger: Trigger,
)
    requires
        run.wf(run.states.len()),
        slot < run.states.len(),
        from_slot(trigger, context.track_index),
        (trigger matches Trigger::SlotAudio { voice, .. } && voice == run.voices.next_sample_voice)
            || (trigger matches Trigger::SlotTake { voice, .. } && voice
            == run.voices.next_sample_voice),
    ensures
        carries_on(run, run.looped_afresh(context.track_index, slot, trigger), context),
{
    let t = context.track_index;
    let free = run.cut(t, slot as int);
    lemma_cut_carries_on(run, context, slot as int);
    let after = run.looped_afresh(t, slot, trigger);
    assert forall|voice: usize, looped: bool|
        (looped ==> registered(free, voice)) && #[trigger] loops_on(
            voice,
            looped,
            after.triggers,
            t,
            free.triggers.len(),
            after.triggers.len(),
        ) implies registered(after, voice) by {
        let n = free.triggers.len();
        assert(after.triggers[n as int] == trigger);
        assert(loops_on(voice, looped, after.triggers, t, n, n) == looped);
        if voice == run.voices.next_sample_voice {
            assert(after.audio_voice[slot as int] == Some(voice));
        } else {
            assert(looped);
            let i = choose|i: int|
                0 <= i < free.audio_voice.len() && #[trigger] free.audio_voice[i] == Some(voice);
            assert(i != slot);
            assert(after.audio_voice[i] == Some(voice));
        }
    }
    assert(carries_on(free, after, context));
    lemma_carries_on_transitive(run, free, after, context);
}

proof fn lemma_states_carry_on(run: RunView, context: TickContext, states: Seq<SlotState>)
    requires
        run.wf(run.states.len()),
        states.len() == run.states.len(),
    ensures
        carries_on(run, (RunView { states, ..run }), context),
{
    lemma_same_row_carries_on(run, RunView { states, ..run }, context);
}

pub(crate) proof fn lemma_slot_stopped_carries_on(run: RunView, context: TickContext, slot: int)
    requires
        run.wf(run.states.len()),
        0 <= slot < run.states.len(),
    ensures
        carries_on(run, run.slot_stopped(context, slot), context),
{
    let stopped = RunView { states: run.states.update(slot, SlotState::Stopped), ..run };
    lemma_states_carry_on(run, context, stopped.states);
    lemma_cut_carries_on(stopped, context, slot);
    let hushed = stopped.cut(context.track_index, slot);
    lemma_carries_on_transitive(run, stopped, hushed, context);
    lemma_logged_carries_on(hushed, context, CaptureEventKind::Stopped);
    lemma_carries_on_transitive(
        run,
        hushed,
        hushed.logged(context, CaptureEventKind::Stopped),
        context,
    );
}

pub(crate) proof fn lemma_others_stopped_carries_on(run: RunView, context: TickContext, keep: int, n: nat)
    requires
        run.wf(run.states.len()),
        n <= run.states.len(),
    ensures
        carries_on(run, run.others_stopped(context, keep, n), context),
    decreases n,
{
    if n > 0 {
        lemma_others_stopped_carries_on(run, context, keep, (n - 1) as nat);
        let earlier = run.others_stopped(context, keep, (n - 1) as nat);
        if n - 1 != keep {
            lemma_slot_stopped_carries_on(earlier, context, n - 1);
            lemma_carries_on_transitive(run, earlier, earlier.slot_stopped(context, n - 1), context);
        }
    }
}

proof fn lemma_logged_carries_on(run: RunView, context: TickContext, kind: CaptureEventKind)
    requires
        run.wf(run.states.len()),
    ensures
        carries_on(run, run.logged(context, kind), context),
{
    lemma_same_row_carries_on(run, run.logged(context, kind), context);
}

proof fn lemma_one_shots_start_no_loop(before: RunView, after: RunView, context: TickContext)
    requires
        after.audio_voice == before.audio_voice,
        forall|i: int|
            before.triggers.len() <= i < after.triggers.len() ==> !((
            #[trigger] after.triggers[i]) is SlotAudio || after.triggers[i] is SlotTake),
    ensures
        loops_stay_registered(before, after, context.track_index),
{
    assert forall|voice: usize, looped: bool|
        (looped ==> registered(before, voice)) && #[trigger] loops_on(
            voice,
            looped,
            after.triggers,
            context.track_index,
            before.triggers.len(),
            after.triggers.len(),
        ) implies registered(after, voice) by {
        lemma_no_loop_starts(
            voice,
            looped,
            after.triggers,
            context.track_index,
            before.triggers.len(),
            after.triggers.len(),
        );
        let i = choose|i: int|
            0 <= i < before.audio_voice.len() && #[trigger] before.audio_voice[i] == Some(voice);
        assert(after.audio_voice[i] == Some(voice));
    }
}

pub(crate) proof fn lemma_content_carries_on(
    run: RunView,
    context: TickContext,
    track: Track,
    slot: usize,
    clip: Arc<SessionClip>,
    local_tick: usize,
    fresh: bool,
)
    requires
        run.wf(run.states.len()),
        slot < run.states.len(),
    ensures
        carries_on(
            run,
            run.content(context.track_index, track, slot, clip, local_tick, fresh),
            context,
        ),
{
    if let SessionClipContent::Region { content, .. } = clip.content {
        let source = ContentSource::Slot(slot);
        law_content_triggers_what_it_calls_for(
            run.voices,
            context.track_index,
            source,
            track,
            content,
            local_tick as int,
        );
        let added = content_triggers(
            run.voices,
            context.track_index,
            source,
            track,
            content,
            local_tick as int,
        ).0;
        let after = run.content(context.track_index, track, slot, clip, local_tick, fresh);
        let free = run.cut(context.track_index, slot as int);
        lemma_cut_carries_on(run, context, slot as int);
        assert forall|i: int| free.triggers.len() <= i < after.triggers.len() implies from_slot(
            #[trigger] after.triggers[i],
            context.track_index,
        ) && !(after.triggers[i] is SlotAudio || after.triggers[i] is SlotTake) by {
            let trigger = added[i - free.triggers.len()];
            assert(after.triggers[i] == trigger);
            assert(called_for(
                context.track_index,
                source,
                track,
                content,
                local_tick as int,
                trigger,
            ));
        }
        lemma_one_shots_start_no_loop(free, after, context);
        assert(carries_on(free, after, context));
        lemma_carries_on_transitive(run, free, after, context);
    } else {
        lemma_same_row_carries_on(run, run, context);
        let voice = run.voices.next_sample_voice;
        let track = context.track_index;
        lemma_looped_afresh_carries_on(
            run,
            context,
            slot,
            Trigger::SlotAudio { track, slot, voice, local_tick },
        );
        if let SessionClipContent::Recording(folder) = clip.content {
            if let Some(take) = active_take(folder) {
                lemma_looped_afresh_carries_on(
                    run,
                    context,
                    slot,
                    Trigger::SlotTake { track, slot, take, voice, local_tick },
                );
            }
        }
    }
}

pub(crate) proof fn lemma_visited_carries_on(
    run: RunView,
    context: TickContext,
    track: Track,
    slot: usize,
    clip: Arc<SessionClip>,
    a: SlotAnswer,
)
    requires
        run.wf(run.states.len()),
        slot < run.states.len(),
    ensures
        carries_on(run, run.visited(context, track, slot, clip, a), context),
{
    let begins = run.begins(track, slot as int, clip, a);
    let after = run.settled(track, slot as int, clip, a);
    let taken_in = RunView { seen: run.seen_after(track, slot as int), ..run };
    lemma_same_row_carries_on(run, taken_in, context);
    assert(carries_on(run, taken_in, context));
    let alone = if begins {
        taken_in.others_stopped(context, slot as int, run.states.len())
    } else {
        taken_in
    };
    lemma_others_stopped_carries_on(taken_in, context, slot as int, run.states.len());
    lemma_carries_on_transitive(run, taken_in, alone, context);
    let hushed = if run.ends(track, slot as int, clip, a) {
        alone.slot_stopped(context, slot as int)
    } else {
        alone
    };
    lemma_slot_stopped_carries_on(alone, context, slot as int);
    lemma_carries_on_transitive(run, alone, hushed, context);
    let placed = RunView { states: hushed.states.update(slot as int, after), ..hushed };
    lemma_states_carry_on(hushed, context, placed.states);
    lemma_carries_on_transitive(run, hushed, placed, context);
    let logged = if begins {
        placed.logged(context, CaptureEventKind::Started { clip })
    } else {
        placed
    };
    lemma_logged_carries_on(placed, context, CaptureEventKind::Started { clip });
    lemma_carries_on_transitive(run, placed, logged, context);
    if let Some(local_tick) = after.position() {
        let fresh = begins || (follows_hold(clip.launch_mode) && a.held.1);
        lemma_content_carries_on(logged, context, track, slot, clip, local_tick, fresh);
        lemma_carries_on_transitive(
            run,
            logged,
            logged.content(context.track_index, track, slot, clip, local_tick, fresh),
            context,
        );
    }
}

proof fn lemma_handed_over_carries_on(
    run: RunView,
    context: TickContext,
    track: Track,
    t: usize,
    clip: Arc<SessionClip>,
)
    requires
        run.wf(run.states.len()),
        t < run.states.len(),
    ensures
        carries_on(run, run.handed_over(context, track, t, clip), context),
{
    let others = run.others_stopped(context, t as int, run.states.len());
    lemma_others_stopped_carries_on(run, context, t as int, run.states.len());
    let alone = others.slot_stopped(context, t as int);
    lemma_slot_stopped_carries_on(others, context, t as int);
    lemma_carries_on_transitive(run, others, alone, context);
    let playing = RunView {
        states: alone.states.update(t as int, SlotState::Playing { local_tick: 0, loop_count: 0 }),
        ..alone
    };
    lemma_states_carry_on(alone, context, playing.states);
    lemma_carries_on_transitive(run, alone, playing, context);
    let logged = playing.logged(context, CaptureEventKind::Started { clip });
    lemma_logged_carries_on(playing, context, CaptureEventKind::Started { clip });
    lemma_carries_on_transitive(run, playing, logged, context);
    lemma_content_carries_on(logged, context, track, t, clip, 0, true);
    lemma_carries_on_transitive(
        run,
        logged,
        logged.content(context.track_index, track, t, clip, 0, true),
        context,
    );
}

pub(crate) proof fn lemma_followed_carries_on(
    run: RunView,
    context: TickContext,
    track: Track,
    pending: PendingFollowAction,
    target: Option<usize>,
)
    requires
        run.wf(track.session_clips@.len()),
        pending.slot_index < track.session_clips@.len(),
    ensures
        carries_on(run, run.followed(context, track, pending, target), context),
{
    let slot = pending.slot_index as int;
    if run.states[slot].sounding() {
        let stopped = run.slot_stopped(context, slot);
        lemma_slot_stopped_carries_on(run, context, slot);
        if hands_over(run, track, pending, target) {
            let clip = track.session_clips@[target->0 as int]->0;
            lemma_handed_over_carries_on(stopped, context, track, target->0, clip);
            lemma_carries_on_transitive(
                run,
                stopped,
                stopped.handed_over(context, track, target->0, clip),
                context,
            );
        }
    }
}

pub(crate) proof fn lemma_after_visits_carries_on(
    run: RunView,
    context: TickContext,
    track: Track,
    answers: Seq<SlotAnswer>,
    n: nat,
)
    requires
        run.wf(track.session_clips@.len()),
        n <= track.session_clips@.len(),
    ensures
        ({
            let (after, pending) = run.after_visits(context, track, answers, n);
            &&& carries_on(run, after, context)
            &&& forall|i: int|
                0 <= i < pending.len() ==> (#[trigger] pending[i]).slot_index < n
        }),
    decreases n,
{
    if n > 0 {
        lemma_after_visits_carries_on(run, context, track, answers, (n - 1) as nat);
        assert(track.session_clips.len() == track.session_clips@.len());
        let (earlier, pending) = run.after_visits(context, track, answers, (n - 1) as nat);
        if let Some(clip) = track.session_clips@[n - 1] {
            let slot = (n - 1) as usize;
            lemma_visited_carries_on(earlier, context, track, slot, clip, answers[n - 1]);
            lemma_carries_on_transitive(
                run,
                earlier,
                earlier.visited(context, track, slot, clip, answers[n - 1]),
                context,
            );
        } else {
            lemma_cut_carries_on(earlier, context, n - 1);
            lemma_carries_on_transitive(
                run,
                earlier,
                earlier.cut(context.track_index, n - 1),
                context,
            );
        }
    }
}

pub(crate) proof fn lemma_after_follow_actions_carries_on(
    run: RunView,
    context: TickContext,
    track: Track,
    pending: Seq<PendingFollowAction>,
    targets: Seq<Option<usize>>,
    n: nat,
)
    requires
        run.wf(track.session_clips@.len()),
        n <= pending.len(),
        forall|i: int|
            0 <= i < pending.len() ==> (#[trigger] pending[i]).slot_index
                < track.session_clips@.len(),
    ensures
        carries_on(
            run,
            run.after_follow_actions(context, track, pending, targets, n),
            context,
        ),
    decreases n,
{
    if n > 0 {
        lemma_after_follow_actions_carries_on(
            run,
            context,
            track,
            pending,
            targets,
            (n - 1) as nat,
        );
        let earlier = run.after_follow_actions(context, track, pending, targets, (n - 1) as nat);
        lemma_followed_carries_on(earlier, context, track, pending[n - 1], targets[n - 1]);
        lemma_carries_on_transitive(
            run,
            earlier,
            earlier.followed(context, track, pending[n - 1], targets[n - 1]),
            context,
        );
    }
}

/// Whatever the session rules decide, a track's tick only adds to what was set off and logged
/// before it. What it adds comes from the track's own slots, is logged at the current capture tick,
/// and nothing is logged at all unless the performance is being captured. A sample voice that loops
/// stays registered with a slot.
pub proof fn law_a_track_tick_only_adds(
    run: RunView,
    context: TickContext,
    track: Track,
    d: TrackDecisions,
)
    requires
        run.wf(track.session_clips@.len()),
    ensures
        carries_on(run, run.advanced(context, track, d), context),
{
    let n = track.session_clips@.len();
    lemma_after_visits_carries_on(run, context, track, d.answers, n);
    let (visited, pending) = run.after_visits(context, track, d.answers, n);
    lemma_after_follow_actions_carries_on(
        visited,
        context,
        track,
        pending,
        d.targets,
        pending.len(),
    );
    lemma_carries_on_transitive(
        run,
        visited,
        visited.after_follow_actions(context, track, pending, d.targets, pending.len()),
        context,
    );
}

proof fn lemma_visits_keep_one_clip(
    run: RunView,
    context: TickContext,
    track: Track,
    answers: Seq<SlotAnswer>,
    n: nat,
)
    requires
        run.wf(track.session_clips@.len()),
        n <= track.session_clips@.len(),
        at_most_one_sounds(run.states),
    ensures
        ({
            let (after, pending) = run.after_visits(context, track, answers, n);
            &&& at_most_one_sounds(after.states)
            &&& forall|i: int|
                0 <= i < pending.len() ==> (#[trigger] pending[i]).slot_index < n
            &&& forall|i: int, j: int|
                0 <= i < j < pending.len() ==> (#[trigger] pending[i]).slot_index < (
                #[trigger] pending[j]).slot_index
        }),
    decreases n,
{
    if n > 0 {
        lemma_visits_keep_one_clip(run, context, track, answers, (n - 1) as nat);
        lemma_after_visits_carries_on(run, context, track, answers, (n - 1) as nat);
        assert(track.session_clips.len() == track.session_clips@.len());
        let earlier = run.after_visits(context, track, answers, (n - 1) as nat).0;
        if let Some(clip) = track.session_clips@[n - 1] {
            law_a_visit_keeps_one_clip_per_track(
                earlier,
                context,
                track,
                (n - 1) as usize,
                clip,
                answers[n - 1],
            );
        }
    }
}

/// Whether a follow action starts its target: its slot is still heard, and the target holds a clip.
pub open spec fn hands_over(
    run: RunView,
    track: Track,
    pending: PendingFollowAction,
    target: Option<usize>,
) -> bool {
    &&& run.states[pending.slot_index as int].sounding()
    &&& target matches Some(t) && t < track.session_clips@.len() && track.session_clips@[t as int]
        is Some
}

/// What a follow action does to the slots' states and looping voices.
pub(crate) proof fn lemma_followed(
    run: RunView,
    context: TickContext,
    track: Track,
    pending: PendingFollowAction,
    target: Option<usize>,
)
    requires
        run.wf(track.session_clips@.len()),
        pending.slot_index < track.session_clips@.len(),
    ensures
        ({
            let after = run.followed(context, track, pending, target);
            let slot = pending.slot_index as int;
            &&& after.states.len() == run.states.len()
            &&& after.audio_voice.len() == run.audio_voice.len()
            &&& hands_over(run, track, pending, target) ==> {
                &&& after.states[target->0 as int] == (SlotState::Playing {
                    local_tick: 0,
                    loop_count: 0,
                })
                &&& forall|i: int|
                    0 <= i < run.states.len() && i != target->0 ==> #[trigger] after.states[i]
                        == SlotState::Stopped
                &&& forall|i: int|
                    0 <= i < run.states.len() && i != target->0 ==> (
                    #[trigger] after.audio_voice[i]) is None
                &&& !holds_audio(track, target->0 as int) ==> after.audio_voice[target->0 as int]
                    is None
            }
            &&& !hands_over(run, track, pending, target) ==> {
                &&& !after.states[slot].sounding()
                &&& run.states[slot].sounding() ==> after.states[slot] == SlotState::Stopped
                    && after.audio_voice[slot] is None
                &&& !run.states[slot].sounding() ==> after == run
                &&& forall|i: int|
                    0 <= i < run.states.len() && i != slot ==> #[trigger] after.states[i]
                        == run.states[i]
                &&& forall|i: int|
                    0 <= i < run.states.len() && i != slot ==> #[trigger] after.audio_voice[i]
                        == run.audio_voice[i]
            }
        }),
{
    if hands_over(run, track, pending, target) {
        let stopped = run.slot_stopped(context, pending.slot_index as int);
        lemma_others_stopped_keeps_the_rest(
            stopped,
            context,
            target->0 as int,
            stopped.states.len(),
        );
    }
}

proof fn lemma_a_follow_action_keeps_one_clip(
    run: RunView,
    context: TickContext,
    track: Track,
    pending: PendingFollowAction,
    target: Option<usize>,
)
    requires
        run.wf(track.session_clips@.len()),
        pending.slot_index < track.session_clips@.len(),
        at_most_one_sounds(run.states),
    ensures
        at_most_one_sounds(run.followed(context, track, pending, target).states),
{
    lemma_followed(run, context, track, pending, target);
    let after = run.followed(context, track, pending, target).states;
    assert forall|i: int, j: int|
        0 <= i < after.len() && 0 <= j < after.len() && (#[trigger] after[i]).sounding() && (
        #[trigger] after[j]).sounding() implies i == j by {
        if !hands_over(run, track, pending, target) {
            assert(run.states[i].sounding());
            assert(run.states[j].sounding());
        }
    }
}

proof fn lemma_follow_actions_keep_one_clip(
    run: RunView,
    context: TickContext,
    track: Track,
    pending: Seq<PendingFollowAction>,
    targets: Seq<Option<usize>>,
    n: nat,
)
    requires
        run.wf(track.session_clips@.len()),
        n <= pending.len(),
        at_most_one_sounds(run.states),
        forall|k: int|
            0 <= k < pending.len() ==> (#[trigger] pending[k]).slot_index
                < track.session_clips@.len(),
    ensures
        at_most_one_sounds(run.after_follow_actions(context, track, pending, targets, n).states),
    decreases n,
{
    if n > 0 {
        let m = (n - 1) as nat;
        lemma_follow_actions_keep_one_clip(run, context, track, pending, targets, m);
        lemma_after_follow_actions_carries_on(run, context, track, pending, targets, m);
        lemma_a_follow_action_keeps_one_clip(
            run.after_follow_actions(context, track, pending, targets, m),
            context,
            track,
            pending[n - 1],
            targets[n - 1],
        );
    }
}

/// A track plays at most one clip at a time: whatever the session rules decide, its tick, follow
/// actions and all, keeps it so.
pub proof fn law_a_track_tick_keeps_one_clip(
    run: RunView,
    context: TickContext,
    track: Track,
    d: TrackDecisions,
)
    requires
        run.wf(track.session_clips@.len()),
        at_most_one_sounds(run.states),
    ensures
        at_most_one_sounds(run.advanced(context, track, d).states),
{
    let n = track.session_clips@.len();
    lemma_visits_keep_one_clip(run, context, track, d.answers, n);
    lemma_after_visits_carries_on(run, context, track, d.answers, n);
    let (visited, pending) = run.after_visits(context, track, d.answers, n);
    lemma_follow_actions_keep_one_clip(
        visited,
        context,
        track,
        pending,
        d.targets,
        pending.len(),
    );
}

/// A follow action whose slot is still heard stops every slot of the track and starts its target
/// from the top, within the tick.
pub proof fn law_a_follow_action_hands_over(
    run: RunView,
    context: TickContext,
    track: Track,
    pending: PendingFollowAction,
    target: usize,
)
    requires
        run.wf(track.session_clips@.len()),
        pending.slot_index < track.session_clips@.len(),
        run.states[pending.slot_index as int].sounding(),
        target < track.session_clips@.len(),
        track.session_clips@[target as int] is Some,
    ensures
        run.followed(context, track, pending, Some(target)).states[target as int] == (
        SlotState::Playing { local_tick: 0, loop_count: 0 }),
        forall|i: int|
            0 <= i < run.states.len() && i != target ==> #[trigger] run.followed(
                context,
                track,
                pending,
                Some(target),
            ).states[i] == SlotState::Stopped,
{
    lemma_followed(run, context, track, pending, Some(target));
}

/// Every loop is cut off the moment its slot is no longer heard: whatever sample voice loops after a
/// track's tick, be it one registered with a slot before or one set off within it, belongs to a slot
/// that is heard.
pub proof fn law_every_loop_belongs_to_a_heard_slot(
    run: RunView,
    context: TickContext,
    track: Track,
    d: TrackDecisions,
    voice: usize,
    looped: bool,
)
    requires
        run.wf(track.session_clips@.len()),
        loops_are_heard(run),
        looped ==> registered(run, voice),
    ensures
        ({
            let after = run.advanced(context, track, d);
            loops_on(
                voice,
                looped,
                after.triggers,
                context.track_index,
                run.triggers.len(),
                after.triggers.len(),
            ) ==> exists|i: int|
                0 <= i < after.states.len() && #[trigger] after.audio_voice[i] == Some(voice)
                    && after.states[i].sounding()
        }),
{
    law_a_track_tick_only_adds(run, context, track, d);
    law_a_track_tick_keeps_loops_heard(run, context, track, d);
    let after = run.advanced(context, track, d);
    if loops_on(
        voice,
        looped,
        after.triggers,
        context.track_index,
        run.triggers.len(),
        after.triggers.len(),
    ) {
        assert(registered(after, voice));
        let i = choose|i: int|
            0 <= i < after.audio_voice.len() && #[trigger] after.audio_voice[i] == Some(voice);
        assert(after.states[i].sounding());
    }
}

/// Whether a slot holds audio or a recording, which loops by itself.
pub open spec fn holds_audio(track: Track, slot: int) -> bool {
    track.session_clips@[slot] matches Some(clip) && !(clip.content is Region)
}

/// Whether none of the first `n` slots holds on to a voice without holding audio.
pub open spec fn voices_are_for_audio(run: RunView, track: Track, n: nat) -> bool {
    forall|i: int|
        0 <= i < n && (#[trigger] run.audio_voice[i]) is Some ==> holds_audio(track, i)
}

proof fn lemma_visits_leave_voices_for_audio(
    run: RunView,
    context: TickContext,
    track: Track,
    answers: Seq<SlotAnswer>,
    n: nat,
)
    requires
        run.wf(track.session_clips@.len()),
        n <= track.session_clips@.len(),
        loops_are_heard(run),
    ensures
        voices_are_for_audio(run.after_visits(context, track, answers, n).0, track, n),
    decreases n,
{
    if n > 0 {
        let m = (n - 1) as nat;
        lemma_visits_leave_voices_for_audio(run, context, track, answers, m);
        lemma_visits_keep_loops_heard(run, context, track, answers, m);
        lemma_after_visits_carries_on(run, context, track, answers, m);
        assert(track.session_clips.len() == track.session_clips@.len());
        let earlier = run.after_visits(context, track, answers, m).0;
        let after = run.after_visits(context, track, answers, n).0;
        if let Some(clip) = track.session_clips@[n - 1] {
            let a = answers[n - 1];
            let slot = (n - 1) as usize;
            lemma_visited(earlier, context, track, slot, clip, a);
            law_a_visit_keeps_loops_heard(earlier, context, track, slot, clip, a);
            assert forall|i: int|
                0 <= i < n && (#[trigger] after.audio_voice[i]) is Some implies holds_audio(
                track,
                i,
            ) by {
                if i < m {
                    assert(earlier.audio_voice[i] is Some);
                } else {
                    assert(after.states[i].sounding());
                }
            }
        } else {
            assert forall|i: int|
                0 <= i < n && (#[trigger] after.audio_voice[i]) is Some implies holds_audio(
                track,
                i,
            ) by {
                assert(i < m && earlier.audio_voice[i] is Some);
            }
        }
    }
}

proof fn lemma_follow_actions_leave_voices_for_audio(
    run: RunView,
    context: TickContext,
    track: Track,
    pending: Seq<PendingFollowAction>,
    targets: Seq<Option<usize>>,
    n: nat,
)
    requires
        run.wf(track.session_clips@.len()),
        n <= pending.len(),
        voices_are_for_audio(run, track, track.session_clips@.len()),
        forall|k: int|
            0 <= k < pending.len() ==> (#[trigger] pending[k]).slot_index
                < track.session_clips@.len(),
    ensures
        voices_are_for_audio(
            run.after_follow_actions(context, track, pending, targets, n),
            track,
            track.session_clips@.len(),
        ),
    decreases n,
{
    if n > 0 {
        let m = (n - 1) as nat;
        lemma_follow_actions_leave_voices_for_audio(run, context, track, pending, targets, m);
        lemma_after_follow_actions_carries_on(run, context, track, pending, targets, m);
        let earlier = run.after_follow_actions(context, track, pending, targets, m);
        let after = run.after_follow_actions(context, track, pending, targets, n);
        lemma_followed(earlier, context, track, pending[n - 1], targets[n - 1]);
        assert forall|i: int|
            0 <= i < track.session_clips@.len() && (
            #[trigger] after.audio_voice[i]) is Some implies holds_audio(track, i) by {
            if !hands_over(earlier, track, pending[n - 1], targets[n - 1]) {
                assert(earlier.audio_voice[i] is Some);
            }
        }
    }
}

/// A voice is registered only with a slot that holds audio or a recording: after a track's tick, a
/// slot that has been emptied, or given steps or notes instead, holds on to none.
pub proof fn law_only_audio_slots_hold_a_voice(
    run: RunView,
    context: TickContext,
    track: Track,
    d: TrackDecisions,
)
    requires
        run.wf(track.session_clips@.len()),
        loops_are_heard(run),
    ensures
        voices_are_for_audio(
            run.advanced(context, track, d),
            track,
            track.session_clips@.len(),
        ),
{
    let n = track.session_clips@.len();
    lemma_visits_leave_voices_for_audio(run, context, track, d.answers, n);
    lemma_after_visits_carries_on(run, context, track, d.answers, n);
    let (visited, pending) = run.after_visits(context, track, d.answers, n);
    lemma_follow_actions_leave_voices_for_audio(
        visited,
        context,
        track,
        pending,
        d.targets,
        pending.len(),
    );
}

/// How many of the first `n` slots, leaving out `keep`, are heard.
pub open spec fn heard_besides(states: Seq<SlotState>, keep: int, n: nat) -> nat
    decreases n,
{
    if n == 0 {
        0
    } else {
        let earlier = heard_besides(states, keep, (n - 1) as nat);
        if n - 1 != keep && states[n - 1].sounding() {
            earlier + 1
        } else {
            earlier
        }
    }
}

/// How many slots are heard.
pub open spec fn heard(states: Seq<SlotState>) -> nat {
    heard_besides(states, -1, states.len())
}

/// The event that logs a start or a stop.
pub open spec fn event(context: TickContext, kind: CaptureEventKind) -> CaptureEvent {
    CaptureEvent {
        relative_tick: context.capture_tick,
        track_index: context.track_index,
        kind,
    }
}

/// A log with `n` stops added to it.
pub open spec fn with_stops(log: Seq<CaptureEvent>, context: TickContext, n: nat) -> Seq<CaptureEvent>
    decreases n,
{
    if n == 0 {
        log
    } else {
        with_stops(log, context, (n - 1) as nat).push(event(context, CaptureEventKind::Stopped))
    }
}

proof fn lemma_others_stopped_log(run: RunView, context: TickContext, keep: int, n: nat)
    requires
        context.capturing,
        n <= run.states.len(),
        run.audio_voice.len() == run.states.len(),
    ensures
        run.others_stopped(context, keep, n).log == with_stops(
            run.log,
            context,
            heard_besides(run.states, keep, n),
        ),
    decreases n,
{
    if n > 0 {
        lemma_others_stopped_log(run, context, keep, (n - 1) as nat);
        lemma_others_stopped_keeps_the_rest(run, context, keep, (n - 1) as nat);
    }
}

/// Every start and stop is logged: while the performance is captured, visiting a slot logs one stop
/// for each slot that stops being heard, and then a start if the slot itself starts.
pub proof fn law_a_visit_logs_every_start_and_stop(
    run: RunView,
    context: TickContext,
    track: Track,
    slot: usize,
    clip: Arc<SessionClip>,
    a: SlotAnswer,
)
    requires
        slot < run.states.len(),
        run.audio_voice.len() == run.states.len(),
        context.capturing,
    ensures
        ({
            let begins = run.begins(track, slot as int, clip, a);
            let others: nat = if begins {
                heard_besides(run.states, slot as int, run.states.len())
            } else {
                0
            };
            let own: nat = if run.ends(track, slot as int, clip, a) {
                1
            } else {
                0
            };
            let stopped = with_stops(run.log, context, others + own);
            run.visited(context, track, slot, clip, a).log == (if begins {
                stopped.push(event(context, CaptureEventKind::Started { clip }))
            } else {
                stopped
            })
        }),
{
    let taken_in = RunView { seen: run.seen_after(track, slot as int), ..run };
    lemma_others_stopped_log(taken_in, context, slot as int, run.states.len());
    lemma_others_stopped_keeps_the_rest(taken_in, context, slot as int, run.states.len());
    let others: nat = if run.begins(track, slot as int, clip, a) {
        heard_besides(run.states, slot as int, run.states.len())
    } else {
        0
    };
    assert(with_stops(run.log, context, others + 1) == with_stops(run.log, context, others).push(
        event(context, CaptureEventKind::Stopped),
    ));
}

proof fn lemma_one_other_is_heard(states: Seq<SlotState>, keep: int, other: int, n: nat)
    requires
        n <= states.len(),
        0 <= other < states.len(),
        other != keep,
        states[other].sounding(),
        at_most_one_sounds(states),
    ensures
        heard_besides(states, keep, n) == (if other < n {
            1nat
        } else {
            0nat
        }),
    decreases n,
{
    if n > 0 {
        lemma_one_other_is_heard(states, keep, other, (n - 1) as nat);
    }
}

/// A clip that takes over from another is logged as a stop of the one and a start of the other, in
/// that order and at the same tick.
pub proof fn law_a_takeover_is_logged(
    run: RunView,
    context: TickContext,
    track: Track,
    slot: usize,
    clip: Arc<SessionClip>,
    a: SlotAnswer,
    other: int,
)
    requires
        slot < run.states.len(),
        run.audio_voice.len() == run.states.len(),
        context.capturing,
        at_most_one_sounds(run.states),
        0 <= other < run.states.len(),
        other != slot,
        run.states[other].sounding(),
        run.begins(track, slot as int, clip, a),
    ensures
        run.visited(context, track, slot, clip, a).log == run.log.push(
            event(context, CaptureEventKind::Stopped),
        ).push(event(context, CaptureEventKind::Started { clip })),
{
    law_a_visit_logs_every_start_and_stop(run, context, track, slot, clip, a);
    lemma_one_other_is_heard(run.states, slot as int, other, run.states.len());
    assert(!run.states[slot as int].sounding());
    assert(with_stops(run.log, context, 0) == run.log);
    assert(with_stops(run.log, context, 1) == run.log.push(
        event(context, CaptureEventKind::Stopped),
    ));
}

/// How many more starts than stops a log holds.
pub open spec fn starts_over_stops(log: Seq<CaptureEvent>) -> int
    decreases log.len(),
{
    if log.len() == 0 {
        0
    } else {
        starts_over_stops(log.drop_last()) + (match log.last().kind {
            CaptureEventKind::Started { .. } => 1int,
            CaptureEventKind::Stopped => -1int,
        })
    }
}

/// By how much the log's starts over stops exceed the slots that are heard.
pub open spec fn unaccounted(run: RunView) -> int {
    starts_over_stops(run.log) - heard(run.states)
}

proof fn lemma_heard_update(states: Seq<SlotState>, slot: int, state: SlotState, n: nat)
    requires
        0 <= slot < states.len(),
        n <= states.len(),
    ensures
        heard_besides(states.update(slot, state), -1, n) - heard_besides(states, -1, n) == (
        if slot < n {
            (if state.sounding() {
                1int
            } else {
                0
            }) - (if states[slot].sounding() {
                1int
            } else {
                0
            })
        } else {
            0
        }),
    decreases n,
{
    if n > 0 {
        lemma_heard_update(states, slot, state, (n - 1) as nat);
    }
}

proof fn lemma_logged_counts(run: RunView, context: TickContext, kind: CaptureEventKind)
    requires
        context.capturing,
    ensures
        starts_over_stops(run.logged(context, kind).log) == starts_over_stops(run.log) + (
        match kind {
            CaptureEventKind::Started { .. } => 1int,
            CaptureEventKind::Stopped => -1int,
        }),
{
    let after = run.logged(context, kind).log;
    assert(after.drop_last() == run.log);
}

proof fn lemma_slot_stopped_accounts(run: RunView, context: TickContext, slot: int)
    requires
        0 <= slot < run.states.len(),
        context.capturing,
    ensures
        unaccounted(run.slot_stopped(context, slot)) == unaccounted(run),
{
    lemma_heard_update(run.states, slot, SlotState::Stopped, run.states.len());
    let hushed = RunView {
        states: run.states.update(slot, SlotState::Stopped),
        ..run
    }.cut(context.track_index, slot);
    lemma_logged_counts(hushed, context, CaptureEventKind::Stopped);
}

proof fn lemma_others_stopped_accounts(run: RunView, context: TickContext, keep: int, n: nat)
    requires
        n <= run.states.len(),
        run.audio_voice.len() == run.states.len(),
        context.capturing,
    ensures
        unaccounted(run.others_stopped(context, keep, n)) == unaccounted(run),
    decreases n,
{
    if n > 0 {
        lemma_others_stopped_accounts(run, context, keep, (n - 1) as nat);
        lemma_others_stopped_keeps_the_rest(run, context, keep, (n - 1) as nat);
        if n - 1 != keep {
            lemma_slot_stopped_accounts(
                run.others_stopped(context, keep, (n - 1) as nat),
                context,
                n - 1,
            );
        }
    }
}

proof fn lemma_visited_accounts(
    run: RunView,
    context: TickContext,
    track: Track,
    slot: usize,
    clip: Arc<SessionClip>,
    a: SlotAnswer,
)
    requires
        slot < run.states.len(),
        run.audio_voice.len() == run.states.len(),
        context.capturing,
    ensures
        unaccounted(run.visited(context, track, slot, clip, a)) == unaccounted(run),
{
    let begins = run.begins(track, slot as int, clip, a);
    let after = run.settled(track, slot as int, clip, a);
    let taken_in = RunView { seen: run.seen_after(track, slot as int), ..run };
    let alone = if begins {
        taken_in.others_stopped(context, slot as int, run.states.len())
    } else {
        taken_in
    };
    lemma_others_stopped_accounts(taken_in, context, slot as int, run.states.len());
    lemma_others_stopped_keeps_the_rest(taken_in, context, slot as int, run.states.len());
    let hushed = if run.ends(track, slot as int, clip, a) {
        alone.slot_stopped(context, slot as int)
    } else {
        alone
    };
    lemma_slot_stopped_accounts(alone, context, slot as int);
    let placed = RunView { states: hushed.states.update(slot as int, after), ..hushed };
    lemma_heard_update(hushed.states, slot as int, after, hushed.states.len());
    lemma_logged_counts(placed, context, CaptureEventKind::Started { clip });
}

proof fn lemma_followed_accounts(
    run: RunView,
    context: TickContext,
    track: Track,
    pending: PendingFollowAction,
    target: Option<usize>,
)
    requires
        run.wf(track.session_clips@.len()),
        pending.slot_index < track.session_clips@.len(),
        context.capturing,
    ensures
        unaccounted(run.followed(context, track, pending, target)) == unaccounted(run),
{
    let slot = pending.slot_index as int;
    let stopped = run.slot_stopped(context, slot);
    lemma_slot_stopped_accounts(run, context, slot);
    if hands_over(run, track, pending, target) {
        let t = target->0 as int;
        let clip = track.session_clips@[t]->0;
        let others = stopped.others_stopped(context, t, stopped.states.len());
        lemma_others_stopped_accounts(stopped, context, t, stopped.states.len());
        lemma_others_stopped_keeps_the_rest(stopped, context, t, stopped.states.len());
        let alone = others.slot_stopped(context, t);
        lemma_slot_stopped_accounts(others, context, t);
        let playing = SlotState::Playing { local_tick: 0, loop_count: 0 };
        lemma_heard_update(alone.states, t, playing, alone.states.len());
        let placed = RunView { states: alone.states.update(t, playing), ..alone };
        lemma_logged_counts(placed, context, CaptureEventKind::Started { clip });
    }
}

proof fn lemma_visits_account(
    run: RunView,
    context: TickContext,
    track: Track,
    answers: Seq<SlotAnswer>,
    n: nat,
)
    requires
        run.wf(track.session_clips@.len()),
        n <= track.session_clips@.len(),
        context.capturing,
    ensures
        unaccounted(run.after_visits(context, track, answers, n).0) == unaccounted(run),
    decreases n,
{
    if n > 0 {
        lemma_visits_account(run, context, track, answers, (n - 1) as nat);
        lemma_after_visits_carries_on(run, context, track, answers, (n - 1) as nat);
        assert(track.session_clips.len() == track.session_clips@.len());
        let earlier = run.after_visits(context, track, answers, (n - 1) as nat).0;
        if let Some(clip) = track.session_clips@[n - 1] {
            lemma_visited_accounts(
                earlier,
                context,
                track,
                (n - 1) as usize,
                clip,
                answers[n - 1],
            );
        }
    }
}

proof fn lemma_follow_actions_account(
    run: RunView,
    context: TickContext,
    track: Track,
    pending: Seq<PendingFollowAction>,
    targets: Seq<Option<usize>>,
    n: nat,
)
    requires
        run.wf(track.session_clips@.len()),
        n <= pending.len(),
        context.capturing,
        forall|k: int|
            0 <= k < pending.len() ==> (#[trigger] pending[k]).slot_index
                < track.session_clips@.len(),
    ensures
        unaccounted(run.after_follow_actions(context, track, pending, targets, n)) == unaccounted(
            run,
        ),
    decreases n,
{
    if n > 0 {
        let m = (n - 1) as nat;
        lemma_follow_actions_account(run, context, track, pending, targets, m);
        lemma_after_follow_actions_carries_on(run, context, track, pending, targets, m);
        lemma_followed_accounts(
            run.after_follow_actions(context, track, pending, targets, m),
            context,
            track,
            pending[n - 1],
            targets[n - 1],
        );
    }
}

/// Every start and stop is logged: over a track's tick, the log gains one start for each time a slot
/// comes to be heard and one stop for each time a slot ceases to be, so that its starts less its
/// stops grow by exactly as much as the number of slots that are heard.
pub proof fn law_a_track_tick_logs_every_start_and_stop(
    run: RunView,
    context: TickContext,
    track: Track,
    d: TrackDecisions,
)
    requires
        run.wf(track.session_clips@.len()),
        context.capturing,
    ensures
        ({
            let after = run.advanced(context, track, d);
            starts_over_stops(after.log) - starts_over_stops(run.log) == heard(after.states)
                - heard(run.states)
        }),
{
    let n = track.session_clips@.len();
    lemma_visits_account(run, context, track, d.answers, n);
    lemma_after_visits_carries_on(run, context, track, d.answers, n);
    let (visited, pending) = run.after_visits(context, track, d.answers, n);
    lemma_follow_actions_account(visited, context, track, pending, d.targets, pending.len());
    assert(unaccounted(run.advanced(context, track, d)) == unaccounted(run));
}

} // verus!
