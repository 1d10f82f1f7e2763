//! What the session grid promises of its slots, tick by tick: that they play what they hold, go on
//! from where they are, and hand over to one another as the session rules decide.

use std::sync::Arc;

use vstd::prelude::*;

use crate::grid::{
    active_take, answered, decided, extends, follows_hold, hands_over,
    law_a_follow_action_hands_over, lemma_after_follow_actions_carries_on,
    lemma_after_visits_carries_on, lemma_carries_on_transitive, lemma_content_carries_on,
    lemma_followed, lemma_followed_carries_on, lemma_others_stopped_carries_on,
    lemma_others_stopped_keeps_the_rest, lemma_slot_stopped_carries_on, lemma_visited,
    lemma_visited_carries_on, sibling_position, targeted, PendingFollowAction, RunView,
    SlotAnswer, TickContext, TrackDecisions,
};
use crate::model::{
    FollowAction, LaunchIntent, RegionContent, SessionClip, SessionClipContent, SessionQuantize,
    TakeFolder, Track,
};
use crate::session::{follow_seed, CaptureEventKind, SlotRules, SlotState};
use crate::timeline::step_at;
use crate::trigger::{
    content_triggers, law_content_takes_voices_in_turn, law_content_triggers_what_it_calls_for,
    law_lanes_sound_where_they_have_a_step, law_notes_sound_when_they_start, lemma_turns_join,
    plays_next_voice, pools_after, taken_in_turn, ContentSource, Trigger,
};

verus! {

/// Whether the triggers from `from` on play everything that content has at a tick of its own: each note
/// that starts there, as it is written, and each lane with a step that sounds there, as hard as it is
/// hit.
pub open spec fn is_set_off(
    triggers: Seq<Trigger>,
    from: nat,
    track_index: usize,
    slot: usize,
    content: RegionContent,
    tick: int,
) -> bool {
    match content {
        RegionContent::PianoRoll(notes) => forall|k: int| #![trigger notes@[k]]
            0 <= k < notes@.len() && notes@[k].start_tick == tick ==> exists|j: int|
                from <= j < triggers.len() && (#[trigger] triggers[j] matches Trigger::Note {
                    track,
                    source,
                    note,
                    pitch,
                    velocity,
                    length_ticks,
                    ..
                } && track == track_index && source == ContentSource::Slot(slot) && note == k
                    && pitch == notes@[k].pitch && velocity == notes@[k].velocity && length_ticks
                    == notes@[k].length_ticks),
        RegionContent::StepGrid(lanes) => forall|l: int| #![trigger lanes@[l]]
            0 <= l < lanes@.len() && step_at(lanes@[l], tick) is Some ==> exists|j: int|
                from <= j < triggers.len() && match #[trigger] triggers[j] {
                    Trigger::LaneSample { track, source, lane, velocity, .. } => lanes@[l].sample
                        is Some && track == track_index && source == ContentSource::Slot(slot)
                        && lane == l && velocity == (step_at(lanes@[l], tick)->0).velocity,
                    Trigger::LaneSynth { track, source, lane, pitch, velocity, .. } =>
                    lanes@[l].sample is None && track == track_index && source
                        == ContentSource::Slot(slot) && lane == l && pitch == lanes@[l].pitch
                        && velocity == (step_at(lanes@[l], tick)->0).velocity,
                    _ => false,
                },
    }
}

/// Whether a trigger plays a step or a note that content has at a tick of its own.
pub open spec fn is_due(
    trigger: Trigger,
    track_index: usize,
    slot: usize,
    content: RegionContent,
    tick: int,
) -> bool {
    match trigger {
        Trigger::Note { track, source, note, .. } => track == track_index && source
            == ContentSource::Slot(slot) && (content matches RegionContent::PianoRoll(notes) && note
            < notes@.len() && notes@[note as int].start_tick == tick),
        Trigger::LaneSample { track, source, lane, .. } => track == track_index && source
            == ContentSource::Slot(slot) && (content matches RegionContent::StepGrid(lanes) && lane
            < lanes@.len() && step_at(lanes@[lane as int], tick) is Some),
        Trigger::LaneSynth { track, source, lane, .. } => track == track_index && source
            == ContentSource::Slot(slot) && (content matches RegionContent::StepGrid(lanes) && lane
            < lanes@.len() && step_at(lanes@[lane as int], tick) is Some),
        _ => false,
    }
}

pub(crate) proof fn lemma_set_off_lasts(
    a: Seq<Trigger>,
    b: Seq<Trigger>,
    from: nat,
    later: nat,
    track_index: usize,
    slot: usize,
    content: RegionContent,
    tick: int,
)
    requires
        extends(b, a),
        from <= later,
        is_set_off(a, later, track_index, slot, content, tick),
    ensures
        is_set_off(b, from, track_index, slot, content, tick),
{
    match content {
        RegionContent::PianoRoll(notes) => {
            assert forall|k: int| #![trigger notes@[k]]
                0 <= k < notes@.len() && notes@[k].start_tick == tick implies exists|j: int|
                from <= j < b.len() && (#[trigger] b[j] matches Trigger::Note {
                    track,
                    source,
                    note,
                    pitch,
                    velocity,
                    length_ticks,
                    ..
                } && track == track_index && source == ContentSource::Slot(slot) && note == k
                    && pitch == notes@[k].pitch && velocity == notes@[k].velocity && length_ticks
                    == notes@[k].length_ticks) by {
                let j = choose|j: int|
                    later <= j < a.len() && (#[trigger] a[j] matches Trigger::Note {
                        track,
                        source,
                        note,
                        pitch,
                        velocity,
                        length_ticks,
                        ..
                    } && track == track_index && source == ContentSource::Slot(slot) && note == k
                        && pitch == notes@[k].pitch && velocity == notes@[k].velocity
                        && length_ticks == notes@[k].length_ticks);
                assert(b[j] == a[j]);
            }
        },
        RegionContent::StepGrid(lanes) => {
            assert forall|l: int| #![trigger lanes@[l]]
                0 <= l < lanes@.len() && step_at(lanes@[l], tick) is Some implies exists|j: int|
                from <= j < b.len() && match #[trigger] b[j] {
                    Trigger::LaneSample { track, source, lane, velocity, .. } => lanes@[l].sample
                        is Some && track == track_index && source == ContentSource::Slot(slot)
                        && lane == l && velocity == (step_at(lanes@[l], tick)->0).velocity,
                    Trigger::LaneSynth { track, source, lane, pitch, velocity, .. } =>
                    lanes@[l].sample is None && track == track_index && source
                        == ContentSource::Slot(slot) && lane == l && pitch == lanes@[l].pitch
                        && velocity == (step_at(lanes@[l], tick)->0).velocity,
                    _ => false,
                } by {
                let j = choose|j: int|
                    later <= j < a.len() && match #[trigger] a[j] {
                        Trigger::LaneSample { track, source, lane, velocity, .. } =>
                        lanes@[l].sample is Some && track == track_index && source
                            == ContentSource::Slot(slot) && lane == l && velocity == (step_at(
                            lanes@[l],
                            tick,
                        )->0).velocity,
                        Trigger::LaneSynth { track, source, lane, pitch, velocity, .. } =>
                        lanes@[l].sample is None && track == track_index && source
                            == ContentSource::Slot(slot) && lane == l && pitch == lanes@[l].pitch
                            && velocity == (step_at(lanes@[l], tick)->0).velocity,
                        _ => false,
                    };
                assert(b[j] == a[j]);
            }
        },
    }
}

/// Steps and notes are looked for whenever a slot is heard, whether or not it has just started: all
/// that its clip has at its place is set off, and besides a leftover loop's cut nothing else is.
proof fn lemma_content_is_set_off(
    run: RunView,
    context: TickContext,
    track: Track,
    slot: usize,
    clip: Arc<SessionClip>,
    content: RegionContent,
    local_tick: usize,
    fresh: bool,
)
    requires
        run.wf(run.states.len()),
        slot < run.states.len(),
        clip.content matches SessionClipContent::Region { content: held, .. } && held == content,
    ensures
        ({
            let after = run.content(context.track_index, track, slot, clip, local_tick, fresh);
            &&& extends(after.triggers, run.triggers)
            &&& is_set_off(
                after.triggers,
                run.triggers.len(),
                context.track_index,
                slot,
                content,
                local_tick as int,
            )
            &&& forall|j: int|
                run.triggers.len() <= j < after.triggers.len() ==> (
                #[trigger] after.triggers[j]) is Cut || is_due(
                    after.triggers[j],
                    context.track_index,
                    slot,
                    content,
                    local_tick as int,
                )
        }),
{
    let t = context.track_index;
    let source = ContentSource::Slot(slot);
    let tick = local_tick as int;
    let after = run.content(t, track, slot, clip, local_tick, fresh);
    let free = run.cut(t, slot as int);
    lemma_content_carries_on(run, context, track, slot, clip, local_tick, fresh);
    let added = content_triggers(run.voices, t, source, track, content, tick).0;
    assert(after.triggers == free.triggers + added);
    let base = free.triggers.len();
    match content {
        RegionContent::PianoRoll(notes) => {
            assert forall|k: int| #![trigger notes@[k]]
                0 <= k < notes@.len() && notes@[k].start_tick == tick implies exists|j: int|
                run.triggers.len() <= j < after.triggers.len() && (
                #[trigger] after.triggers[j] matches Trigger::Note {
                    track: on,
                    source: s,
                    note,
                    pitch,
                    velocity,
                    length_ticks,
                    ..
                } && on == t && s == source && note == k && pitch == notes@[k].pitch && velocity
                    == notes@[k].velocity && length_ticks == notes@[k].length_ticks) by {
                law_notes_sound_when_they_start(run.voices, t, source, track, notes, tick, k);
                let i = choose|i: int|
                    0 <= i < added.len() && (#[trigger] added[i] matches Trigger::Note {
                        track: on,
                        source: s,
                        note,
                        pitch,
                        velocity,
                        length_ticks,
                        ..
                    } && on == t && s == source && note == k && pitch == notes@[k].pitch
                        && velocity == notes@[k].velocity && length_ticks == notes@[k].length_ticks);
                assert(after.triggers[base + i] == added[i]);
            }
        },
        RegionContent::StepGrid(lanes) => {
            assert forall|l: int| #![trigger lanes@[l]]
                0 <= l < lanes@.len() && step_at(lanes@[l], tick) is Some implies exists|j: int|
                run.triggers.len() <= j < after.triggers.len() && match #[trigger] after.triggers[j] {
                    Trigger::LaneSample { track: on, source: s, lane, velocity, .. } =>
                    lanes@[l].sample is Some && on == t && s == source && lane == l && velocity == (
                    step_at(lanes@[l], tick)->0).velocity,
                    Trigger::LaneSynth { track: on, source: s, lane, pitch, velocity, .. } =>
                    lanes@[l].sample is None && on == t && s == source && lane == l && pitch
                        == lanes@[l].pitch && velocity == (step_at(lanes@[l], tick)->0).velocity,
                    _ => false,
                } by {
                law_lanes_sound_where_they_have_a_step(
                    run.voices,
                    t,
                    source,
                    track,
                    lanes,
                    tick,
                    l,
                );
                if lanes@[l].sample is Some {
                    let i = choose|i: int|
                        0 <= i < added.len() && (#[trigger] added[i] matches Trigger::LaneSample {
                            track: on,
                            source: s,
                            lane: played,
                            velocity,
                            ..
                        } && on == t && s == source && played == l && velocity == (step_at(
                            lanes@[l],
                            tick,
                        )->0).velocity);
                    assert(after.triggers[base + i] == added[i]);
                } else {
                    let i = choose|i: int|
                        0 <= i < added.len() && (#[trigger] added[i] matches Trigger::LaneSynth {
                            track: on,
                            source: s,
                            lane: played,
                            pitch,
                            velocity,
                            ..
                        } && on == t && s == source && played == l && pitch == lanes@[l].pitch
                            && velocity == (step_at(lanes@[l], tick)->0).velocity);
                    assert(after.triggers[base + i] == added[i]);
                }
            }
        },
    }
    law_content_triggers_what_it_calls_for(run.voices, t, source, track, content, tick);
    assert forall|j: int| run.triggers.len() <= j < after.triggers.len() implies (
    #[trigger] after.triggers[j]) is Cut || is_due(after.triggers[j], t, slot, content, tick) by {
        if j >= base {
            assert(after.triggers[j] == added[j - base]);
            match content {
                RegionContent::PianoRoll(notes) => {
                    if notes@.len() > 0 {
                        law_notes_sound_when_they_start(
                            run.voices,
                            t,
                            source,
                            track,
                            notes,
                            tick,
                            0,
                        );
                    }
                    if let Trigger::Note { note, .. } = added[j - base] {
                        if note < notes@.len() {
                            law_notes_sound_when_they_start(
                                run.voices,
                                t,
                                source,
                                track,
                                notes,
                                tick,
                                note as int,
                            );
                        }
                    }
                },
                RegionContent::StepGrid(lanes) => {},
            }
        }
    }
}

/// A visit takes two steps: the slot and its siblings are brought to where they are, which sets off
/// nothing and silences what has stopped, and then the slot plays what it has there.
proof fn lemma_a_visit_in_two_steps(
    run: RunView,
    context: TickContext,
    track: Track,
    slot: usize,
    clip: Arc<SessionClip>,
    a: SlotAnswer,
) -> (ready: RunView)
    requires
        run.wf(run.states.len()),
        slot < run.states.len(),
    ensures
        ready.wf(run.states.len()),
        ready.states.len() == run.states.len(),
        ready.voices == run.voices,
        extends(ready.triggers, run.triggers),
        forall|j: int|
            run.triggers.len() <= j < ready.triggers.len() ==> (#[trigger] ready.triggers[j]) is Cut,
        !run.ends(track, slot as int, clip, a) ==> ready.audio_voice[slot as int]
            == run.audio_voice[slot as int],
        run.ends(track, slot as int, clip, a) ==> ready.audio_voice[slot as int] is None,
        run.visited(context, track, slot, clip, a) == (match run.settled(
            track,
            slot as int,
            clip,
            a,
        ).position() {
            Some(local_tick) => ready.content(
                context.track_index,
                track,
                slot,
                clip,
                local_tick,
                run.begins(track, slot as int, clip, a) || ((clip.launch_mode is Gate
                    || clip.launch_mode is Repeat) && a.held.1),
            ),
            None => ready,
        }),
{
    let begins = run.begins(track, slot as int, clip, a);
    let after = run.settled(track, slot as int, clip, a);
    let taken_in = RunView { seen: run.seen_after(track, slot as int), ..run };
    assert(taken_in.wf(run.states.len()));
    let alone = if begins {
        taken_in.others_stopped(context, slot as int, run.states.len())
    } else {
        taken_in
    };
    lemma_others_stopped_carries_on(taken_in, context, slot as int, run.states.len());
    lemma_others_stopped_keeps_the_rest(taken_in, context, slot as int, run.states.len());
    lemma_stops_only_cut(taken_in, context, slot as int, run.states.len());
    let hushed = if run.ends(track, slot as int, clip, a) {
        alone.slot_stopped(context, slot as int)
    } else {
        alone
    };
    let placed = RunView { states: hushed.states.update(slot as int, after), ..hushed };
    let ready = if begins {
        placed.logged(context, CaptureEventKind::Started { clip })
    } else {
        placed
    };
    assert(ready.triggers == hushed.triggers);
    assert forall|j: int| run.triggers.len() <= j < ready.triggers.len() implies (
    #[trigger] ready.triggers[j]) is Cut by {
        if j < alone.triggers.len() {
            assert(ready.triggers[j] == alone.triggers[j]);
        }
    }
    ready
}

proof fn lemma_stops_only_cut(run: RunView, context: TickContext, keep: int, n: nat)
    requires
        run.wf(run.states.len()),
        n <= run.states.len(),
    ensures
        ({
            let after = run.others_stopped(context, keep, n);
            &&& after.voices == run.voices
            &&& forall|j: int|
                run.triggers.len() <= j < after.triggers.len() ==> (
                #[trigger] after.triggers[j]) is Cut
        }),
    decreases n,
{
    if n > 0 {
        lemma_stops_only_cut(run, context, keep, (n - 1) as nat);
        let earlier = run.others_stopped(context, keep, (n - 1) as nat);
        let after = run.others_stopped(context, keep, n);
        assert forall|j: int| run.triggers.len() <= j < after.triggers.len() implies (
        #[trigger] after.triggers[j]) is Cut by {
            if j < earlier.triggers.len() {
                assert(after.triggers[j] == earlier.triggers[j]);
            }
        }
    }
}

/// A slot that is heard plays all the steps and notes that its clip has at its place, whether or not it
/// has just started, and nothing else: a visit sets off just that, besides silencing what has stopped.
pub proof fn law_a_visit_plays_what_the_slot_has_at_its_place(
    run: RunView,
    context: TickContext,
    track: Track,
    slot: usize,
    clip: Arc<SessionClip>,
    a: SlotAnswer,
    content: RegionContent,
)
    requires
        run.wf(run.states.len()),
        slot < run.states.len(),
        clip.content matches SessionClipContent::Region { content: held, .. } && held == content,
    ensures
        ({
            let done = run.visited(context, track, slot, clip, a);
            &&& done.states[slot as int].position() matches Some(local_tick) ==> is_set_off(
                done.triggers,
                run.triggers.len(),
                context.track_index,
                slot,
                content,
                local_tick as int,
            )
            &&& forall|j: int|
                run.triggers.len() <= j < done.triggers.len() && !((
                #[trigger] done.triggers[j]) is Cut) ==> (done.states[slot as int].position() matches
                    Some(local_tick) && is_due(
                    done.triggers[j],
                    context.track_index,
                    slot,
                    content,
                    local_tick as int,
                ))
        }),
{
    lemma_visited(run, context, track, slot, clip, a);
    let done = run.visited(context, track, slot, clip, a);
    let ready = lemma_a_visit_in_two_steps(run, context, track, slot, clip, a);
    if let Some(local_tick) = run.settled(track, slot as int, clip, a).position() {
        let fresh = run.begins(track, slot as int, clip, a) || ((clip.launch_mode is Gate
            || clip.launch_mode is Repeat) && a.held.1);
        lemma_content_is_set_off(
            ready,
            context,
            track,
            slot,
            clip,
            content,
            local_tick,
            fresh,
        );
        lemma_set_off_lasts(
            done.triggers,
            done.triggers,
            run.triggers.len(),
            ready.triggers.len(),
            context.track_index,
            slot,
            content,
            local_tick as int,
        );
        assert forall|j: int|
            run.triggers.len() <= j < done.triggers.len() && !((
            #[trigger] done.triggers[j]) is Cut) implies is_due(
            done.triggers[j],
            context.track_index,
            slot,
            content,
            local_tick as int,
        ) by {
            if j < ready.triggers.len() {
                assert(done.triggers[j] == ready.triggers[j]);
            }
        }
    }
}

/// Whether every one of the first `n` slots that is heard and holds steps or notes has had all of them
/// that lie at its place set off.
pub open spec fn heard_slots_play(
    after: RunView,
    from: nat,
    track_index: usize,
    track: Track,
    n: nat,
) -> bool {
    forall|i: int| #![trigger after.states[i]]
        0 <= i < n ==> (after.states[i].position() matches Some(local_tick) ==> (
        track.session_clips@[i] matches Some(clip) ==> (clip.content matches
            SessionClipContent::Region { content, .. } ==> is_set_off(
            after.triggers,
            from,
            track_index,
            i as usize,
            content,
            local_tick as int,
        ))))
}

proof fn lemma_playing_lasts(
    before: RunView,
    after: RunView,
    from: nat,
    track_index: usize,
    track: Track,
    i: int,
)
    requires
        0 <= i < before.states.len(),
        i <= usize::MAX,
        extends(after.triggers, before.triggers),
        after.states[i] == before.states[i] || after.states[i].position() is None,
        before.states[i].position() matches Some(local_tick) ==> (
        track.session_clips@[i] matches Some(clip) ==> (clip.content matches
            SessionClipContent::Region { content, .. } ==> is_set_off(
            before.triggers,
            from,
            track_index,
            i as usize,
            content,
            local_tick as int,
        ))),
    ensures
        after.states[i].position() matches Some(local_tick) ==> (
        track.session_clips@[i] matches Some(clip) ==> (clip.content matches
            SessionClipContent::Region { content, .. } ==> is_set_off(
            after.triggers,
            from,
            track_index,
            i as usize,
            content,
            local_tick as int,
        ))),
{
    if let Some(local_tick) = after.states[i].position() {
        if let Some(clip) = track.session_clips@[i] {
            if let SessionClipContent::Region { content, .. } = clip.content {
                lemma_set_off_lasts(
                    before.triggers,
                    after.triggers,
                    from,
                    from,
                    track_index,
                    i as usize,
                    content,
                    local_tick as int,
                );
            }
        }
    }
}

proof fn lemma_visits_play(
    run: RunView,
    context: TickContext,
    track: Track,
    answers: Seq<SlotAnswer>,
    n: nat,
)
    requires
        run.wf(track.session_clips@.len()),
        n <= track.session_clips@.len(),
    ensures
        heard_slots_play(
            run.after_visits(context, track, answers, n).0,
            run.triggers.len(),
            context.track_index,
            track,
            n,
        ),
    decreases n,
{
    if n > 0 {
        let m = (n - 1) as nat;
        lemma_visits_play(run, context, track, answers, m);
        lemma_after_visits_carries_on(run, context, track, answers, m);
        assert(track.session_clips.len() == track.session_clips@.len());
        let earlier = run.after_visits(context, track, answers, m).0;
        let after = run.after_visits(context, track, answers, n).0;
        let t = context.track_index;
        let from = run.triggers.len();
        if let Some(clip) = track.session_clips@[n - 1] {
            let slot = (n - 1) as usize;
            let a = answers[n - 1];
            lemma_visited(earlier, context, track, slot, clip, a);
            lemma_visited_carries_on(earlier, context, track, slot, clip, a);
            if let SessionClipContent::Region { content, .. } = clip.content {
                law_a_visit_plays_what_the_slot_has_at_its_place(
                    earlier,
                    context,
                    track,
                    slot,
                    clip,
                    a,
                    content,
                );
                if let Some(local_tick) = after.states[n - 1].position() {
                    lemma_set_off_lasts(
                        after.triggers,
                        after.triggers,
                        from,
                        earlier.triggers.len(),
                        t,
                        slot,
                        content,
                        local_tick as int,
                    );
                }
            }
        }
        assert forall|i: int| #![trigger after.states[i]]
            0 <= i < n implies (after.states[i].position() matches Some(local_tick) ==> (
        track.session_clips@[i] matches Some(clip) ==> (clip.content matches
            SessionClipContent::Region { content, .. } ==> is_set_off(
            after.triggers,
            from,
            t,
            i as usize,
            content,
            local_tick as int,
        )))) by {
            if i < m {
                assert(earlier.states[i] == earlier.states[i]);
                lemma_playing_lasts(earlier, after, from, t, track, i);
            }
        }
    }
}

proof fn lemma_follow_actions_play(
    run: RunView,
    context: TickContext,
    track: Track,
    pending: Seq<PendingFollowAction>,
    targets: Seq<Option<usize>>,
    n: nat,
    from: nat,
)
    requires
        run.wf(track.session_clips@.len()),
        n <= pending.len(),
        from <= run.triggers.len(),
        forall|k: int|
            0 <= k < pending.len() ==> (#[trigger] pending[k]).slot_index
                < track.session_clips@.len(),
        heard_slots_play(
            run,
            from,
            context.track_index,
            track,
            track.session_clips@.len(),
        ),
    ensures
        heard_slots_play(
            run.after_follow_actions(context, track, pending, targets, n),
            from,
            context.track_index,
            track,
            track.session_clips@.len(),
        ),
    decreases n,
{
    if n > 0 {
        let m = (n - 1) as nat;
        lemma_follow_actions_play(run, context, track, pending, targets, m, from);
        lemma_after_follow_actions_carries_on(run, context, track, pending, targets, m);
        assert(track.session_clips.len() == track.session_clips@.len());
        let earlier = run.after_follow_actions(context, track, pending, targets, m);
        let after = run.after_follow_actions(context, track, pending, targets, n);
        let (p, target) = (pending[n - 1], targets[n - 1]);
        let t = context.track_index;
        lemma_followed(earlier, context, track, p, target);
        lemma_followed_carries_on(earlier, context, track, p, target);
        if hands_over(earlier, track, p, target) {
            let to = target->0;
            let clip = track.session_clips@[to as int]->0;
            if let SessionClipContent::Region { content, .. } = clip.content {
                lemma_handover_plays(earlier, context, track, p, to, clip, content);
                lemma_set_off_lasts(
                    after.triggers,
                    after.triggers,
                    from,
                    earlier.triggers.len(),
                    t,
                    to,
                    content,
                    0,
                );
            }
        }
        assert forall|i: int| #![trigger after.states[i]]
            0 <= i < track.session_clips@.len() implies (after.states[i].position() matches Some(
            local_tick,
        ) ==> (track.session_clips@[i] matches Some(clip) ==> (clip.content matches
            SessionClipContent::Region { content, .. } ==> is_set_off(
            after.triggers,
            from,
            t,
            i as usize,
            content,
            local_tick as int,
        )))) by {
            assert(earlier.states[i] == earlier.states[i]);
            if !hands_over(earlier, track, p, target) || i != target->0 {
                lemma_playing_lasts(earlier, after, from, t, track, i);
            }
        }
    }
}

proof fn lemma_handover_plays(
    run: RunView,
    context: TickContext,
    track: Track,
    pending: PendingFollowAction,
    to: usize,
    clip: Arc<SessionClip>,
    content: RegionContent,
)
    requires
        run.wf(track.session_clips@.len()),
        pending.slot_index < track.session_clips@.len(),
        hands_over(run, track, pending, Some(to)),
        track.session_clips@[to as int] == Some(clip),
        clip.content matches SessionClipContent::Region { content: held, .. } && held == content,
    ensures
        is_set_off(
            run.followed(context, track, pending, Some(to)).triggers,
            run.triggers.len(),
            context.track_index,
            to,
            content,
            0,
        ),
{
    let slot = pending.slot_index as int;
    let stopped = run.slot_stopped(context, slot);
    lemma_slot_stopped_carries_on(run, context, slot);
    let others = stopped.others_stopped(context, to as int, stopped.states.len());
    lemma_others_stopped_carries_on(stopped, context, to as int, stopped.states.len());
    let alone = others.slot_stopped(context, to as int);
    lemma_slot_stopped_carries_on(others, context, to as int);
    lemma_carries_on_transitive(run, stopped, others, context);
    lemma_carries_on_transitive(run, others, alone, context);
    let logged = RunView {
        states: alone.states.update(to as int, SlotState::Playing { local_tick: 0, loop_count: 0 }),
        ..alone
    }.logged(context, CaptureEventKind::Started { clip });
    lemma_content_is_set_off(logged, context, track, to, clip, content, 0, true);
    let after = run.followed(context, track, pending, Some(to));
    lemma_set_off_lasts(
        after.triggers,
        after.triggers,
        run.triggers.len(),
        logged.triggers.len(),
        context.track_index,
        to,
        content,
        0,
    );
}

/// Every slot plays its clip all the way through and on every loop: whenever a slot is heard after a
/// track's tick, each note that starts at its place, and each lane with a step there, has been set off
/// for it within that tick, whether or not it has just started.
pub proof fn law_every_heard_slot_plays_what_it_has_at_its_place(
    run: RunView,
    context: TickContext,
    track: Track,
    d: TrackDecisions,
)
    requires
        run.wf(track.session_clips@.len()),
    ensures
        heard_slots_play(
            run.advanced(context, track, d),
            run.triggers.len(),
            context.track_index,
            track,
            track.session_clips@.len(),
        ),
{
    let n = track.session_clips@.len();
    lemma_visits_play(run, context, track, d.answers, n);
    lemma_after_visits_carries_on(run, context, track, d.answers, n);
    let (visited, pending) = run.after_visits(context, track, d.answers, n);
    lemma_follow_actions_play(
        visited,
        context,
        track,
        pending,
        d.targets,
        pending.len(),
        run.triggers.len(),
    );
}

/// Whether a slot has been clicked since it last looked: there is a request for it that it has not seen.
pub open spec fn is_clicked(run: RunView, track: Track, slot: int) -> bool {
    slot < track.session_launch_requests@.len()
        && track.session_launch_requests@[slot].generation != run.seen[slot]
}

/// A slot that nobody has clicked, and that does not follow the pad, goes on from where it is: the
/// session rules move its own state on by a tick, over the length its clip has at that tick.
pub proof fn law_a_slot_goes_on_from_where_it_is<R: SlotRules>(
    rules: &R,
    context: TickContext,
    track: Track,
    run: RunView,
    slot: usize,
    clip: Arc<SessionClip>,
    a: SlotAnswer,
)
    requires
        answered(rules, context, track, run, slot, clip, a),
        !(clip.launch_mode is Gate) && !(clip.launch_mode is Repeat),
        !is_clicked(run, track, slot as int),
    ensures
        call_ensures(R::loop_length_ticks, (rules, &*clip, context.tick_now), a.loop_length_ticks),
        call_ensures(
            R::advance_slot,
            (rules, run.states[slot as int], context.tick_now, a.loop_length_ticks),
            a.advanced,
        ),
{
}

/// A click is taken in once, with what it asks for: the session rules decide where it leads from the
/// slot's own state, and the slot moves on from there within the same tick.
pub proof fn law_a_click_is_taken_in<R: SlotRules>(
    rules: &R,
    context: TickContext,
    track: Track,
    run: RunView,
    slot: usize,
    clip: Arc<SessionClip>,
    a: SlotAnswer,
)
    requires
        answered(rules, context, track, run, slot, clip, a),
        !(clip.launch_mode is Gate) && !(clip.launch_mode is Repeat),
        is_clicked(run, track, slot as int),
    ensures
        clip.quantize_override is None ==> call_ensures(
            R::apply_launch_request,
            (
                rules,
                run.states[slot as int],
                track.session_launch_requests@[slot as int].intent,
                clip.launch_mode,
                context.tick_now,
                context.quantize_ticks,
            ),
            a.clicked,
        ),
        clip.quantize_override == Some(SessionQuantize::Immediate) ==> call_ensures(
            R::apply_launch_request,
            (
                rules,
                run.states[slot as int],
                track.session_launch_requests@[slot as int].intent,
                clip.launch_mode,
                context.tick_now,
                0usize,
            ),
            a.clicked,
        ),
        clip.quantize_override matches Some(SessionQuantize::Custom(choice)) ==> call_ensures(
            R::quantize_ticks,
            (rules, SessionQuantize::Custom(choice)),
            a.quantize_ticks,
        ) && call_ensures(
            R::apply_launch_request,
            (
                rules,
                run.states[slot as int],
                track.session_launch_requests@[slot as int].intent,
                clip.launch_mode,
                context.tick_now,
                a.quantize_ticks,
            ),
            a.clicked,
        ),
        call_ensures(R::loop_length_ticks, (rules, &*clip, context.tick_now), a.loop_length_ticks),
        call_ensures(
            R::advance_slot,
            (rules, a.clicked, context.tick_now, a.loop_length_ticks),
            a.advanced,
        ),
{
}

/// A slot that follows the pad is asked about the pad at every tick, held or not, and moves on from
/// where that leads. A click that asks it to stop stops it, whatever the pad says; any other click is
/// passed over.
pub proof fn law_a_held_slot_follows_the_pad<R: SlotRules>(
    rules: &R,
    context: TickContext,
    track: Track,
    run: RunView,
    slot: usize,
    clip: Arc<SessionClip>,
    a: SlotAnswer,
)
    requires
        answered(rules, context, track, run, slot, clip, a),
        clip.launch_mode is Gate || clip.launch_mode is Repeat,
    ensures
        ({
            let held = slot < track.session_launch_requests@.len()
                && track.session_launch_requests@[slot as int].held;
            let stop = is_clicked(run, track, slot as int)
                && track.session_launch_requests@[slot as int].intent == LaunchIntent::Stop;
            &&& clip.quantize_override is None ==> call_ensures(
                R::advance_held_slot,
                (
                    rules,
                    run.states[slot as int],
                    held,
                    clip.launch_mode,
                    context.tick_now,
                    context.quantize_ticks,
                ),
                a.held,
            )
            &&& clip.quantize_override == Some(SessionQuantize::Immediate) ==> call_ensures(
                R::advance_held_slot,
                (
                    rules,
                    run.states[slot as int],
                    held,
                    clip.launch_mode,
                    context.tick_now,
                    0usize,
                ),
                a.held,
            )
            &&& clip.quantize_override is Some && (clip.quantize_override->0) is Custom
                ==> call_ensures(
                R::advance_held_slot,
                (
                    rules,
                    run.states[slot as int],
                    held,
                    clip.launch_mode,
                    context.tick_now,
                    a.quantize_ticks,
                ),
                a.held,
            )
            &&& call_ensures(
                R::loop_length_ticks,
                (rules, &*clip, context.tick_now),
                a.loop_length_ticks,
            )
            &&& clip.quantize_override matches Some(SessionQuantize::Custom(choice))
                ==> call_ensures(
                R::quantize_ticks,
                (rules, SessionQuantize::Custom(choice)),
                a.quantize_ticks,
            )
            &&& stop ==> call_ensures(
                R::advance_slot,
                (rules, SlotState::Stopped, context.tick_now, a.loop_length_ticks),
                a.advanced,
            )
            &&& !stop ==> call_ensures(
                R::advance_slot,
                (rules, a.held.0, context.tick_now, a.loop_length_ticks),
                a.advanced,
            )
        }),
{
}

/// Whether a slot starts with a visit, or starts over: it is heard after it, and it was silent before
/// it or a click has stopped it.
pub open spec fn starts_now(
    run: RunView,
    track: Track,
    slot: int,
    clip: Arc<SessionClip>,
    a: SlotAnswer,
) -> bool {
    let clicked = is_clicked(run, track, slot);
    let held = clip.launch_mode is Gate || clip.launch_mode is Repeat;
    let taken_in = if held && clicked && track.session_launch_requests@[slot].intent
        == LaunchIntent::Stop {
        SlotState::Stopped
    } else if held {
        a.held.0
    } else if clicked {
        a.clicked
    } else {
        run.states[slot]
    };
    a.advanced.position() is Some && (run.states[slot].position() is None || taken_in.position()
        is None)
}

/// A visit leaves its slot where the session rules move it, and every other slot as it is, unless the
/// slot starts: then every other one stops, whether it was playing or waiting. A clip that is not
/// legato starts where the rules say. The click is marked as seen, and no other is.
pub proof fn law_a_visit_moves_its_slot_alone(
    run: RunView,
    context: TickContext,
    track: Track,
    slot: usize,
    clip: Arc<SessionClip>,
    a: SlotAnswer,
)
    requires
        run.wf(run.states.len()),
        slot < run.states.len(),
    ensures
        ({
            let done = run.visited(context, track, slot, clip, a);
            let starts = starts_now(run, track, slot as int, clip, a);
            &&& done.states.len() == run.states.len()
            &&& !starts || !clip.legato ==> done.states[slot as int] == a.advanced
            &&& done.states[slot as int].position() is Some <==> a.advanced.position() is Some
            &&& forall|i: int|
                0 <= i < run.states.len() && i != slot && starts ==> #[trigger] done.states[i]
                    == SlotState::Stopped
            &&& forall|i: int|
                0 <= i < run.states.len() && i != slot && !starts ==> #[trigger] done.states[i]
                    == run.states[i]
            &&& slot < track.session_launch_requests@.len() ==> done.seen[slot as int]
                == track.session_launch_requests@[slot as int].generation
            &&& slot >= track.session_launch_requests@.len() ==> done.seen[slot as int]
                == run.seen[slot as int]
            &&& forall|i: int|
                0 <= i < run.seen.len() && i != slot ==> #[trigger] done.seen[i] == run.seen[i]
        }),
{
    lemma_visited(run, context, track, slot, clip, a);
    let taken_in = RunView { seen: run.seen_after(track, slot as int), ..run };
    lemma_stops_keep_seen(taken_in, context, slot as int, run.states.len());
}

proof fn lemma_stops_keep_seen(run: RunView, context: TickContext, keep: int, n: nat)
    ensures
        run.others_stopped(context, keep, n).seen == run.seen,
    decreases n,
{
    if n > 0 {
        lemma_stops_keep_seen(run, context, keep, (n - 1) as nat);
    }
}

/// A legato clip that starts while another slot of its track is heard joins where that one is, within
/// its own length and as its first time round; with no other slot heard it starts where the rules say.
pub proof fn law_a_legato_clip_joins_its_sibling(
    run: RunView,
    context: TickContext,
    track: Track,
    slot: usize,
    clip: Arc<SessionClip>,
    a: SlotAnswer,
    sibling: int,
)
    requires
        run.wf(run.states.len()),
        slot < run.states.len(),
        clip.legato,
        starts_now(run, track, slot as int, clip, a),
    ensures
        ({
            let done = run.visited(context, track, slot, clip, a);
            let length: int = if a.loop_length_ticks > 1 {
                a.loop_length_ticks as int
            } else {
                1
            };
            &&& 0 <= sibling < run.states.len() && sibling != slot
                && run.states[sibling].position() is Some && (forall|i: int|
                0 <= i < sibling && i != slot ==> (#[trigger] run.states[i]).position() is None)
                ==> done.states[slot as int] == (SlotState::Playing {
                local_tick: (run.states[sibling].position()->0 as int % length) as usize,
                loop_count: 0,
            })
            &&& (forall|i: int|
                0 <= i < run.states.len() && i != slot ==> (
                #[trigger] run.states[i]).position() is None) ==> done.states[slot as int]
                == a.advanced
        }),
{
    lemma_visited(run, context, track, slot, clip, a);
    lemma_first_sibling(run.states, slot as int, 0);
    let found = sibling_position(run.states, slot as int, 0);
    if 0 <= sibling < run.states.len() && sibling != slot && run.states[sibling].position() is Some
        && (forall|i: int|
        0 <= i < sibling && i != slot ==> (#[trigger] run.states[i]).position() is None) {
        let i = choose|i: int|
            0 <= i < run.states.len() && i != slot && found == (
            #[trigger] run.states[i]).position() && forall|k: int|
                0 <= k < i && k != slot ==> (#[trigger] run.states[k]).position() is None;
        assert(i == sibling);
    }
}

proof fn lemma_first_sibling(states: Seq<SlotState>, exclude: int, from: nat)
    ensures
        ({
            let found = sibling_position(states, exclude, from);
            &&& found is Some ==> exists|i: int|
                from <= i < states.len() && i != exclude && found == (
                #[trigger] states[i]).position() && forall|k: int|
                    from <= k < i && k != exclude ==> (#[trigger] states[k]).position() is None
            &&& found is None ==> forall|i: int|
                from <= i < states.len() && i != exclude ==> (
                #[trigger] states[i]).position() is None
        }),
    decreases states.len() - from,
{
    if from < states.len() {
        if from != exclude && states[from as int].sounding() {
            assert(states[from as int].position() is Some);
        } else {
            lemma_first_sibling(states, exclude, from + 1);
        }
    }
}

/// Whether a slot's loop is set off with a visit: it starts, or the held pad asks for it afresh.
pub open spec fn loops_afresh(
    run: RunView,
    track: Track,
    slot: int,
    clip: Arc<SessionClip>,
    a: SlotAnswer,
) -> bool {
    starts_now(run, track, slot, clip, a) || ((clip.launch_mode is Gate || clip.launch_mode
        is Repeat) && a.held.1)
}

/// Audio is set off when its slot starts, and then loops by itself: a visit to a slot that is heard and
/// holds loaded audio sets it off once, at the slot's place and on the voice it is registered with, if
/// it starts or the pad asks for it, and else sets off nothing and leaves its voice as it is.
pub proof fn law_audio_is_set_off_once_and_loops(
    run: RunView,
    context: TickContext,
    track: Track,
    slot: usize,
    clip: Arc<SessionClip>,
    a: SlotAnswer,
)
    requires
        run.wf(run.states.len()),
        slot < run.states.len(),
        clip.content matches SessionClipContent::Audio(audio) && audio.buffer is Some,
        a.advanced.position() is Some,
    ensures
        ({
            let done = run.visited(context, track, slot, clip, a);
            let voice = run.voices.next_sample_voice;
            &&& loops_afresh(run, track, slot as int, clip, a) ==> {
                &&& done.triggers.len() > run.triggers.len()
                &&& done.triggers.last() == (Trigger::SlotAudio {
                    track: context.track_index,
                    slot,
                    voice,
                    local_tick: done.states[slot as int].position()->0,
                })
                &&& done.audio_voice[slot as int] == Some(voice)
                &&& forall|j: int|
                    run.triggers.len() <= j < done.triggers.len() - 1 ==> (
                    #[trigger] done.triggers[j]) is Cut
            }
            &&& !loops_afresh(run, track, slot as int, clip, a) ==> {
                &&& done.triggers == run.triggers
                &&& done.audio_voice[slot as int] == run.audio_voice[slot as int]
                &&& done.voices == run.voices
            }
        }),
{
    lemma_visited(run, context, track, slot, clip, a);
    let ready = lemma_a_visit_in_two_steps(run, context, track, slot, clip, a);
    let done = run.visited(context, track, slot, clip, a);
    if loops_afresh(run, track, slot as int, clip, a) {
        let free = ready.cut(context.track_index, slot as int);
        assert forall|j: int| run.triggers.len() <= j < done.triggers.len() - 1 implies (
        #[trigger] done.triggers[j]) is Cut by {
            assert(done.triggers[j] == free.triggers[j]);
            if j < ready.triggers.len() {
                assert(free.triggers[j] == ready.triggers[j]);
            }
        }
    } else {
        assert(!run.begins(track, slot as int, clip, a));
        assert(!run.ends(track, slot as int, clip, a));
    }
}

/// A recording is played like audio, by the take that its first comp segment picks, or its first take
/// where it has no segment; one that is not there or not loaded plays nothing.
pub proof fn law_a_recording_plays_its_active_take(
    run: RunView,
    context: TickContext,
    track: Track,
    slot: usize,
    clip: Arc<SessionClip>,
    a: SlotAnswer,
    folder: TakeFolder,
)
    requires
        run.wf(run.states.len()),
        slot < run.states.len(),
        clip.content == SessionClipContent::Recording(folder),
        a.advanced.position() is Some,
    ensures
        ({
            let done = run.visited(context, track, slot, clip, a);
            let voice = run.voices.next_sample_voice;
            let take = if folder.comp@.len() > 0 {
                folder.comp@[0].take_index
            } else {
                0
            };
            let loaded = take < folder.takes@.len() && folder.takes@[take as int].buffer is Some;
            &&& loops_afresh(run, track, slot as int, clip, a) && loaded ==> {
                &&& done.triggers.len() > run.triggers.len()
                &&& done.triggers.last() == (Trigger::SlotTake {
                    track: context.track_index,
                    slot,
                    take,
                    voice,
                    local_tick: done.states[slot as int].position()->0,
                })
                &&& done.audio_voice[slot as int] == Some(voice)
            }
            &&& !loops_afresh(run, track, slot as int, clip, a) ==> {
                &&& done.triggers == run.triggers
                &&& done.audio_voice[slot as int] == run.audio_voice[slot as int]
            }
            &&& !loaded ==> forall|j: int|
                run.triggers.len() <= j < done.triggers.len() ==> (
                #[trigger] done.triggers[j]) is Cut
        }),
{
    lemma_visited(run, context, track, slot, clip, a);
    let ready = lemma_a_visit_in_two_steps(run, context, track, slot, clip, a);
    if !loops_afresh(run, track, slot as int, clip, a) {
        assert(!run.begins(track, slot as int, clip, a));
        assert(!run.ends(track, slot as int, clip, a));
    }
}

/// A slot that stops is silent at once: its state is stopped, the voice that looped for it (if any) is
/// cut, and it holds on to none. Nothing else changes, but for the log.
pub proof fn law_a_slot_that_stops_is_cut_off(run: RunView, context: TickContext, slot: int)
    requires
        0 <= slot < run.states.len(),
        run.audio_voice.len() == run.states.len(),
    ensures
        ({
            let after = run.slot_stopped(context, slot);
            &&& after.states == run.states.update(slot, SlotState::Stopped)
            &&& after.audio_voice == run.audio_voice.update(slot, None)
            &&& after.seen == run.seen
            &&& after.voices == run.voices
            &&& run.audio_voice[slot] is None ==> after.triggers == run.triggers
            &&& run.audio_voice[slot] matches Some(voice) ==> after.triggers == run.triggers.push(
                Trigger::Cut { track: context.track_index, voice },
            )
            &&& run.states[slot].position() is None || !context.capturing ==> after.log == run.log
            &&& run.states[slot].position() is Some && context.capturing ==> {
                &&& after.log.len() == run.log.len() + 1
                &&& after.log.last().kind is Stopped
                &&& after.log.last().track_index == context.track_index
                &&& after.log.last().relative_tick == context.capture_tick
                &&& extends(after.log, run.log)
            }
        }),
{
    let after = run.slot_stopped(context, slot);
    if run.audio_voice[slot] is None {
        assert(run.audio_voice.update(slot, None) =~= run.audio_voice);
    }
}

/// A start is logged with the clip that starts, last of all that a visit logs, and only while the
/// performance is captured.
pub proof fn law_a_start_is_logged_with_its_clip(
    run: RunView,
    context: TickContext,
    track: Track,
    slot: usize,
    clip: Arc<SessionClip>,
    a: SlotAnswer,
)
    requires
        run.wf(run.states.len()),
        slot < run.states.len(),
    ensures
        ({
            let done = run.visited(context, track, slot, clip, a);
            let starts = starts_now(run, track, slot as int, clip, a);
            &&& !context.capturing ==> done.log == run.log
            &&& context.capturing && starts ==> {
                &&& done.log.len() > run.log.len()
                &&& done.log.last().kind == (CaptureEventKind::Started { clip })
                &&& done.log.last().track_index == context.track_index
                &&& done.log.last().relative_tick == context.capture_tick
                &&& forall|j: int|
                    run.log.len() <= j < done.log.len() - 1 ==> (
                    #[trigger] done.log[j]).kind is Stopped
            }
            &&& context.capturing && !starts && (run.states[slot as int].position() is None
                || a.advanced.position() is Some) ==> done.log == run.log
            &&& context.capturing && run.states[slot as int].position() is Some
                && a.advanced.position() is None ==> done.log.len() == run.log.len() + 1
                && done.log.last().kind is Stopped
        }),
{
    lemma_visited_carries_on(run, context, track, slot, clip, a);
    let begins = run.begins(track, slot as int, clip, a);
    assert(begins == starts_now(run, track, slot as int, clip, a));
    let taken_in = RunView { seen: run.seen_after(track, slot as int), ..run };
    lemma_stops_log_stops(taken_in, context, slot as int, run.states.len());
    lemma_others_stopped_keeps_the_rest(taken_in, context, slot as int, run.states.len());
    let alone = if begins {
        taken_in.others_stopped(context, slot as int, run.states.len())
    } else {
        taken_in
    };
    let hushed = if run.ends(track, slot as int, clip, a) {
        alone.slot_stopped(context, slot as int)
    } else {
        alone
    };
    let done = run.visited(context, track, slot, clip, a);
    if context.capturing && begins {
        assert(done.log == hushed.log.push(done.log.last()));
        assert forall|j: int| run.log.len() <= j < done.log.len() - 1 implies (
        #[trigger] done.log[j]).kind is Stopped by {
            assert(done.log[j] == hushed.log[j]);
            if j < alone.log.len() {
                assert(hushed.log[j] == alone.log[j]);
            }
        }
    }
}

proof fn lemma_stops_log_stops(run: RunView, context: TickContext, keep: int, n: nat)
    requires
        n <= run.states.len(),
    ensures
        ({
            let after = run.others_stopped(context, keep, n);
            &&& extends(after.log, run.log)
            &&& forall|j: int|
                run.log.len() <= j < after.log.len() ==> (#[trigger] after.log[j]).kind is Stopped
        }),
    decreases n,
{
    if n > 0 {
        lemma_stops_log_stops(run, context, keep, (n - 1) as nat);
        let earlier = run.others_stopped(context, keep, (n - 1) as nat);
        let after = run.others_stopped(context, keep, n);
        assert forall|j: int| run.log.len() <= j < after.log.len() implies (
        #[trigger] after.log[j]).kind is Stopped by {
            if j < earlier.log.len() {
                assert(after.log[j] == earlier.log[j]);
            }
        }
        assert forall|j: int| 0 <= j < run.log.len() implies #[trigger] after.log[j] == run.log[j] by {
            assert(after.log[j] == earlier.log[j]);
        }
    }
}

/// A slot is followed up when it has counted one more loop and the session rules have an action for it:
/// just that action, with the loops counted so far; and in no other case.
pub proof fn law_a_completed_loop_calls_for_its_follow_action<R: SlotRules>(
    rules: &R,
    context: TickContext,
    track: Track,
    run: RunView,
    slot: usize,
    clip: Arc<SessionClip>,
    a: SlotAnswer,
    earlier: u32,
    later: u32,
    local_tick: usize,
)
    requires
        answered(rules, context, track, run, slot, clip, a),
        !(clip.launch_mode is Gate) && !(clip.launch_mode is Repeat),
        !is_clicked(run, track, slot as int),
        run.states[slot as int] matches SlotState::Playing { loop_count, .. } && loop_count == earlier,
        a.advanced == (SlotState::Playing { local_tick, loop_count: later }),
    ensures
        later > earlier ==> call_ensures(
            R::resolve_follow_action,
            (
                rules,
                later,
                clip.follow_action,
                follow_seed(
                    context.tick_now,
                    context.track_index,
                    slot,
                    later,
                ),
            ),
            a.follow_action,
        ),
        later > earlier && a.follow_action is Some && a.follow_action->0
            != FollowAction::Nothing ==> run.pending(track, slot, clip, a) == seq![
            PendingFollowAction {
                slot_index: slot,
                action: a.follow_action->0,
                loop_count: later,
            },
        ],
        later <= earlier || a.follow_action is None || a.follow_action->0
            == FollowAction::Nothing ==> run.pending(track, slot, clip, a).len() == 0,
{
}

/// A slot that is not playing on completes no loop, and is not followed up.
pub proof fn law_only_a_playing_slot_is_followed_up(
    run: RunView,
    track: Track,
    slot: usize,
    clip: Arc<SessionClip>,
    a: SlotAnswer,
)
    requires
        !(a.advanced is Playing),
        !clip.legato,
    ensures
        run.pending(track, slot, clip, a).len() == 0,
{
}

/// A follow action without a target stops its slot and leaves the others as they are; one whose slot is
/// no longer heard does nothing.
pub proof fn law_a_follow_action_without_a_target_stops_its_slot(
    run: RunView,
    context: TickContext,
    track: Track,
    pending: PendingFollowAction,
)
    requires
        run.wf(track.session_clips@.len()),
        pending.slot_index < track.session_clips@.len(),
    ensures
        ({
            let after = run.followed(context, track, pending, None);
            &&& run.states[pending.slot_index as int].position() is Some ==> after.states
                == run.states.update(pending.slot_index as int, SlotState::Stopped)
            &&& run.states[pending.slot_index as int].position() is None ==> after == run
            &&& after.seen == run.seen
            &&& after.voices == run.voices
        }),
{
    lemma_followed(run, context, track, pending, None);
    let after = run.followed(context, track, pending, None);
    if run.states[pending.slot_index as int].position() is Some {
        assert(after.states =~= run.states.update(
            pending.slot_index as int,
            SlotState::Stopped,
        ));
    }
}

/// What is called for is carried out within the same tick: where one slot is to be followed up, is
/// still heard, and leads to a slot with a clip, that slot plays from the top after the tick and every
/// other one has stopped.
pub proof fn law_a_follow_action_is_carried_out_within_the_tick(
    run: RunView,
    context: TickContext,
    track: Track,
    d: TrackDecisions,
    pending: PendingFollowAction,
    target: usize,
)
    requires
        run.wf(track.session_clips@.len()),
        ({
            let (visited, called_for) = run.after_visits(
                context,
                track,
                d.answers,
                track.session_clips@.len(),
            );
            &&& called_for == seq![pending]
            &&& visited.states[pending.slot_index as int].position() is Some
        }),
        d.targets.len() == 1,
        d.targets[0] == Some(target),
        target < track.session_clips@.len(),
        track.session_clips@[target as int] is Some,
    ensures
        ({
            let after = run.advanced(context, track, d);
            &&& after.states.len() == track.session_clips@.len()
            &&& after.states[target as int] == (SlotState::Playing { local_tick: 0, loop_count: 0 })
            &&& forall|i: int|
                0 <= i < after.states.len() && i != target ==> #[trigger] after.states[i]
                    == SlotState::Stopped
        }),
{
    let n = track.session_clips@.len();
    lemma_after_visits_carries_on(run, context, track, d.answers, n);
    let (visited, called_for) = run.after_visits(context, track, d.answers, n);
    assert(called_for[0] == pending);
    assert(called_for.len() == 1);
    law_a_follow_action_hands_over(visited, context, track, pending, target);
    lemma_followed(visited, context, track, pending, Some(target));
    assert(visited.after_follow_actions(context, track, called_for, d.targets, 0) == visited);
}

/// Every slot is visited on every tick, once and on its own account: where no slot is clicked or
/// starts, and none is to be followed up, each goes to where the rules move it and one without a clip
/// stays as it is.
pub proof fn law_every_slot_moves_on_with_the_tick(
    run: RunView,
    context: TickContext,
    track: Track,
    d: TrackDecisions,
)
    requires
        run.wf(track.session_clips@.len()),
        forall|i: int|
            0 <= i < track.session_clips@.len() && (#[trigger] track.session_clips@[i]) is Some
                ==> stays_quiet(run, track, i, track.session_clips@[i]->0, d.answers[i]),
    ensures
        ({
            let after = run.advanced(context, track, d);
            forall|i: int|
                0 <= i < track.session_clips@.len() ==> #[trigger] after.states[i] == (
                if track.session_clips@[i] is Some {
                    d.answers[i].advanced
                } else {
                    run.states[i]
                })
        }),
{
    let n = track.session_clips@.len();
    lemma_quiet_visits(run, context, track, d.answers, n);
    lemma_after_visits_carries_on(run, context, track, d.answers, n);
}

/// Whether a slot is neither clicked nor held, does not start, and is not to be followed up.
pub open spec fn stays_quiet(
    run: RunView,
    track: Track,
    slot: int,
    clip: Arc<SessionClip>,
    a: SlotAnswer,
) -> bool {
    &&& !(clip.launch_mode is Gate) && !(clip.launch_mode is Repeat)
    &&& !is_clicked(run, track, slot)
    &&& a.advanced.position() is Some ==> run.states[slot].position() is Some
    &&& a.follow_action is None
}

proof fn lemma_quiet_visits(
    run: RunView,
    context: TickContext,
    track: Track,
    answers: Seq<SlotAnswer>,
    n: nat,
)
    requires
        run.wf(track.session_clips@.len()),
        n <= track.session_clips@.len(),
        forall|i: int|
            0 <= i < track.session_clips@.len() && (#[trigger] track.session_clips@[i]) is Some
                ==> stays_quiet(run, track, i, track.session_clips@[i]->0, answers[i]),
    ensures
        ({
            let (after, pending) = run.after_visits(context, track, answers, n);
            &&& pending.len() == 0
            &&& after.states.len() == run.states.len()
            &&& forall|i: int|
                0 <= i < run.states.len() ==> #[trigger] after.states[i] == (if i < n
                    && track.session_clips@[i] is Some {
                    answers[i].advanced
                } else {
                    run.states[i]
                })
            &&& forall|i: int| n <= i < run.seen.len() ==> #[trigger] after.seen[i] == run.seen[i]
            &&& after.seen.len() == run.seen.len()
        }),
    decreases n,
{
    if n > 0 {
        let m = (n - 1) as nat;
        lemma_quiet_visits(run, context, track, answers, m);
        lemma_after_visits_carries_on(run, context, track, answers, m);
        assert(track.session_clips.len() == track.session_clips@.len());
        let earlier = run.after_visits(context, track, answers, m).0;
        if let Some(clip) = track.session_clips@[n - 1] {
            assert(stays_quiet(run, track, n - 1, clip, answers[n - 1]));
            assert(earlier.states[n - 1] == run.states[n - 1]);
            assert(earlier.seen[n - 1] == run.seen[n - 1]);
            law_a_visit_moves_its_slot_alone(
                earlier,
                context,
                track,
                (n - 1) as usize,
                clip,
                answers[n - 1],
            );
            lemma_visited_carries_on(
                earlier,
                context,
                track,
                (n - 1) as usize,
                clip,
                answers[n - 1],
            );
        }
    }
}

/// Stopping every slot but one stops just those: each of the others is stopped and holds no voice, and
/// the one that is kept, what has been clicked and the voices' turn stay as they are.
pub proof fn law_stopping_the_others_keeps_one(run: RunView, context: TickContext, keep: int)
    requires
        run.wf(run.states.len()),
    ensures
        ({
            let after = run.others_stopped(context, keep, run.states.len());
            &&& after.states.len() == run.states.len()
            &&& forall|i: int|
                0 <= i < run.states.len() && i != keep ==> #[trigger] after.states[i]
                    == SlotState::Stopped
            &&& forall|i: int|
                0 <= i < run.states.len() && i != keep ==> (
                #[trigger] after.audio_voice[i]) is None
            &&& 0 <= keep < run.states.len() ==> after.states[keep] == run.states[keep]
                && after.audio_voice[keep] == run.audio_voice[keep]
            &&& after.seen == run.seen
            &&& after.voices == run.voices
        }),
{
    lemma_others_stopped_keeps_the_rest(run, context, keep, run.states.len());
    lemma_stops_keep_seen(run, context, keep, run.states.len());
    lemma_stops_only_cut(run, context, keep, run.states.len());
}

/// Where a follow action leads is asked once for each slot that is followed up: about its action, its
/// place among the track's slots, and with a seed set apart from the one the action was chosen by.
pub proof fn law_the_rules_are_asked_where_a_follow_action_leads<R: SlotRules>(
    rules: &R,
    context: TickContext,
    track: Track,
    run: RunView,
    d: TrackDecisions,
    i: int,
)
    requires
        decided(rules, context, track, run, d),
        0 <= i < run.after_visits(context, track, d.answers, track.session_clips@.len()).1.len(),
    ensures
        ({
            let pending = run.after_visits(
                context,
                track,
                d.answers,
                track.session_clips@.len(),
            ).1;
            &&& d.targets.len() == pending.len()
            &&& call_ensures(
                R::follow_action_target,
                (
                    rules,
                    pending[i].action,
                    pending[i].slot_index,
                    track.session_clips.len(),
                    follow_seed(
                        context.tick_now,
                        context.track_index,
                        pending[i].slot_index,
                        pending[i].loop_count,
                    ) ^ 0x5EED,
                ),
                d.targets[i],
            )
        }),
{
    let pending = run.after_visits(context, track, d.answers, track.session_clips@.len()).1;
    assert(targeted(rules, context, track, pending[i], d.targets[i]));
}

/// A slot that a follow action leads to starts from the top: audio it holds is set off at its first
/// tick, on the voice it is registered with, and its start is logged with its clip, after the stop of
/// the slot that is followed up.
pub proof fn law_a_slot_that_is_handed_over_to_starts_from_the_top(
    run: RunView,
    context: TickContext,
    track: Track,
    pending: PendingFollowAction,
    to: usize,
    clip: Arc<SessionClip>,
)
    requires
        run.wf(track.session_clips@.len()),
        pending.slot_index < track.session_clips@.len(),
        run.states[pending.slot_index as int].position() is Some,
        to < track.session_clips@.len(),
        track.session_clips@[to as int] == Some(clip),
    ensures
        ({
            let after = run.followed(context, track, pending, Some(to));
            let voice = run.voices.next_sample_voice;
            &&& (clip.content matches SessionClipContent::Audio(audio) && audio.buffer is Some) ==> {
                &&& after.triggers.len() > run.triggers.len()
                &&& after.triggers.last() == (Trigger::SlotAudio {
                    track: context.track_index,
                    slot: to,
                    voice,
                    local_tick: 0,
                })
                &&& after.audio_voice[to as int] == Some(voice)
            }
            &&& context.capturing ==> {
                &&& after.log.len() >= run.log.len() + 2
                &&& after.log.last().kind == (CaptureEventKind::Started { clip })
                &&& after.log.last().track_index == context.track_index
                &&& after.log.last().relative_tick == context.capture_tick
                &&& forall|j: int|
                    run.log.len() <= j < after.log.len() - 1 ==> (
                    #[trigger] after.log[j]).kind is Stopped
            }
            &&& !context.capturing ==> after.log == run.log
        }),
{
    let slot = pending.slot_index as int;
    let stopped = run.slot_stopped(context, slot);
    lemma_slot_stopped_carries_on(run, context, slot);
    let others = stopped.others_stopped(context, to as int, stopped.states.len());
    lemma_others_stopped_carries_on(stopped, context, to as int, stopped.states.len());
    lemma_others_stopped_keeps_the_rest(stopped, context, to as int, stopped.states.len());
    lemma_stops_only_cut(stopped, context, to as int, stopped.states.len());
    lemma_stops_log_stops(stopped, context, to as int, stopped.states.len());
    let alone = others.slot_stopped(context, to as int);
    lemma_slot_stopped_carries_on(others, context, to as int);
    lemma_followed_carries_on(run, context, track, pending, Some(to));
    let after = run.followed(context, track, pending, Some(to));
    if context.capturing {
        assert(after.log == alone.log.push(after.log.last()));
        assert forall|j: int| run.log.len() <= j < after.log.len() - 1 implies (
        #[trigger] after.log[j]).kind is Stopped by {
            assert(after.log[j] == alone.log[j]);
            if j < others.log.len() {
                assert(alone.log[j] == others.log[j]);
                if j < stopped.log.len() {
                    assert(others.log[j] == stopped.log[j]);
                }
            }
        }
    }
}

/// What a track's slots have set off since, and where that leaves its voices: each trigger plays on the
/// next voice of its pool.
pub open spec fn slots_take_turns(before: RunView, after: RunView) -> bool {
    let added = after.triggers.skip(before.triggers.len() as int);
    &&& extends(after.triggers, before.triggers)
    &&& taken_in_turn(before.voices, added)
    &&& after.voices == pools_after(before.voices, added, added.len())
}

proof fn lemma_turns_chain(a: RunView, b: RunView, c: RunView)
    requires
        slots_take_turns(a, b),
        slots_take_turns(b, c),
    ensures
        slots_take_turns(a, c),
{
    let x = b.triggers.skip(a.triggers.len() as int);
    let y = c.triggers.skip(b.triggers.len() as int);
    lemma_turns_join(a.voices, x, y);
    assert forall|i: int| 0 <= i < a.triggers.len() implies #[trigger] c.triggers[i]
        == a.triggers[i] by {
        assert(b.triggers[i] == a.triggers[i]);
    }
    assert(c.triggers.skip(a.triggers.len() as int) =~= x + y) by {
        assert forall|i: int| 0 <= i < x.len() implies (x + y)[i] == #[trigger] c.triggers[i
            + a.triggers.len()] by {
            assert(c.triggers[i + a.triggers.len()] == b.triggers[i + a.triggers.len()]);
        }
    }
}

proof fn lemma_nothing_takes_no_turn(a: RunView, b: RunView)
    requires
        b.triggers == a.triggers,
        b.voices == a.voices,
    ensures
        slots_take_turns(a, b),
{
    assert(b.triggers.skip(a.triggers.len() as int) =~= Seq::empty());
}

proof fn lemma_one_takes_a_turn(a: RunView, b: RunView, trigger: Trigger)
    requires
        b.triggers == a.triggers.push(trigger),
        plays_next_voice(a.voices, trigger),
        b.voices == pools_after(a.voices, seq![trigger], 1),
    ensures
        slots_take_turns(a, b),
{
    let one = seq![trigger];
    assert(b.triggers.skip(a.triggers.len() as int) =~= one);
    assert(taken_in_turn(a.voices, one)) by {
        assert(pools_after(a.voices, one, 0) == a.voices);
    }
}

proof fn lemma_cut_takes_no_turn(run: RunView, track_index: usize, slot: int)
    ensures
        slots_take_turns(run, run.cut(track_index, slot)),
{
    let after = run.cut(track_index, slot);
    if let Some(voice) = run.audio_voice[slot] {
        let trigger = Trigger::Cut { track: track_index, voice };
        assert(pools_after(run.voices, seq![trigger], 0) == run.voices);
        lemma_one_takes_a_turn(run, after, trigger);
    } else {
        lemma_nothing_takes_no_turn(run, after);
    }
}

proof fn lemma_stop_takes_no_turn(run: RunView, context: TickContext, slot: int)
    ensures
        slots_take_turns(run, run.slot_stopped(context, slot)),
{
    let stopped = RunView { states: run.states.update(slot, SlotState::Stopped), ..run };
    lemma_nothing_takes_no_turn(run, stopped);
    let hushed = stopped.cut(context.track_index, slot);
    lemma_cut_takes_no_turn(stopped, context.track_index, slot);
    lemma_turns_chain(run, stopped, hushed);
    let after = run.slot_stopped(context, slot);
    lemma_nothing_takes_no_turn(hushed, after);
    lemma_turns_chain(run, hushed, after);
}

proof fn lemma_stops_take_no_turn(run: RunView, context: TickContext, keep: int, n: nat)
    ensures
        slots_take_turns(run, run.others_stopped(context, keep, n)),
    decreases n,
{
    if n == 0 {
        lemma_nothing_takes_no_turn(run, run);
    } else {
        lemma_stops_take_no_turn(run, context, keep, (n - 1) as nat);
        let earlier = run.others_stopped(context, keep, (n - 1) as nat);
        if n - 1 != keep {
            lemma_stop_takes_no_turn(earlier, context, n - 1);
            lemma_turns_chain(run, earlier, earlier.slot_stopped(context, n - 1));
        }
    }
}

proof fn lemma_loop_takes_a_turn(run: RunView, track_index: usize, slot: usize, trigger: Trigger)
    requires
        (trigger matches Trigger::SlotAudio { voice, .. } && voice == run.voices.next_sample_voice)
            || (trigger matches Trigger::SlotTake { voice, .. } && voice
            == run.voices.next_sample_voice),
    ensures
        slots_take_turns(run, run.looped_afresh(track_index, slot, trigger)),
{
    let free = run.cut(track_index, slot as int);
    lemma_cut_takes_no_turn(run, track_index, slot as int);
    let after = run.looped_afresh(track_index, slot, trigger);
    assert(pools_after(free.voices, seq![trigger], 0) == free.voices);
    lemma_one_takes_a_turn(free, after, trigger);
    lemma_turns_chain(run, free, after);
}

proof fn lemma_content_takes_turns(
    run: RunView,
    track_index: usize,
    track: Track,
    slot: usize,
    clip: Arc<SessionClip>,
    local_tick: usize,
    fresh: bool,
)
    ensures
        slots_take_turns(
            run,
            run.content(track_index, track, slot, clip, local_tick, fresh),
        ),
{
    let after = run.content(track_index, track, slot, clip, local_tick, fresh);
    let voice = run.voices.next_sample_voice;
    match clip.content {
        SessionClipContent::Region { content, .. } => {
            let source = ContentSource::Slot(slot);
            let free = run.cut(track_index, slot as int);
            lemma_cut_takes_no_turn(run, track_index, slot as int);
            law_content_takes_voices_in_turn(
                run.voices,
                track_index,
                source,
                track,
                content,
                local_tick as int,
            );
            let added = content_triggers(
                run.voices,
                track_index,
                source,
                track,
                content,
                local_tick as int,
            ).0;
            assert(after.triggers.skip(free.triggers.len() as int) =~= added);
            assert(free.voices == run.voices);
            assert(slots_take_turns(free, after));
            lemma_turns_chain(run, free, after);
        },
        SessionClipContent::Audio(audio) => {
            if fresh && audio.buffer is Some {
                lemma_loop_takes_a_turn(
                    run,
                    track_index,
                    slot,
                    Trigger::SlotAudio { track: track_index, slot, voice, local_tick },
                );
            } else {
                lemma_nothing_takes_no_turn(run, after);
            }
        },
        SessionClipContent::Recording(folder) => {
            if fresh && active_take(folder) is Some {
                let take = active_take(folder)->0;
                lemma_loop_takes_a_turn(
                    run,
                    track_index,
                    slot,
                    Trigger::SlotTake { track: track_index, slot, take, voice, local_tick },
                );
            } else {
                lemma_nothing_takes_no_turn(run, after);
            }
        },
    }
}

proof fn lemma_visit_takes_turns(
    run: RunView,
    context: TickContext,
    track: Track,
    slot: usize,
    clip: Arc<SessionClip>,
    a: SlotAnswer,
)
    ensures
        slots_take_turns(run, run.visited(context, track, slot, clip, a)),
{
    let begins = run.begins(track, slot as int, clip, a);
    let after = run.settled(track, slot as int, clip, a);
    let taken_in = RunView { seen: run.seen_after(track, slot as int), ..run };
    lemma_nothing_takes_no_turn(run, taken_in);
    let alone = if begins {
        taken_in.others_stopped(context, slot as int, run.states.len())
    } else {
        taken_in
    };
    lemma_stops_take_no_turn(taken_in, context, slot as int, run.states.len());
    lemma_turns_chain(run, taken_in, alone);
    let hushed = if run.ends(track, slot as int, clip, a) {
        alone.slot_stopped(context, slot as int)
    } else {
        alone
    };
    lemma_stop_takes_no_turn(alone, context, slot as int);
    lemma_nothing_takes_no_turn(alone, alone);
    lemma_turns_chain(run, alone, hushed);
    let placed = RunView { states: hushed.states.update(slot as int, after), ..hushed };
    let ready = if begins {
        placed.logged(context, CaptureEventKind::Started { clip })
    } else {
        placed
    };
    lemma_nothing_takes_no_turn(hushed, ready);
    lemma_turns_chain(run, hushed, ready);
    if let Some(local_tick) = after.position() {
        let fresh = begins || (follows_hold(clip.launch_mode) && a.held.1);
        let done = ready.content(context.track_index, track, slot, clip, local_tick, fresh);
        lemma_content_takes_turns(
            ready,
            context.track_index,
            track,
            slot,
            clip,
            local_tick,
            fresh,
        );
        lemma_turns_chain(run, ready, done);
    }
}

proof fn lemma_follow_up_takes_turns(
    run: RunView,
    context: TickContext,
    track: Track,
    pending: PendingFollowAction,
    target: Option<usize>,
)
    ensures
        slots_take_turns(run, run.followed(context, track, pending, target)),
{
    let slot = pending.slot_index as int;
    if !run.states[slot].sounding() {
        lemma_nothing_takes_no_turn(run, run);
    } else {
        let stopped = run.slot_stopped(context, slot);
        lemma_stop_takes_no_turn(run, context, slot);
        if hands_over(run, track, pending, target) {
            let to = target->0;
            let clip = track.session_clips@[to as int]->0;
            let others = stopped.others_stopped(context, to as int, stopped.states.len());
            lemma_stops_take_no_turn(stopped, context, to as int, stopped.states.len());
            lemma_turns_chain(run, stopped, others);
            let alone = others.slot_stopped(context, to as int);
            lemma_stop_takes_no_turn(others, context, to as int);
            lemma_turns_chain(run, others, alone);
            let ready = RunView {
                states: alone.states.update(
                    to as int,
                    SlotState::Playing { local_tick: 0, loop_count: 0 },
                ),
                ..alone
            }.logged(context, CaptureEventKind::Started { clip });
            lemma_nothing_takes_no_turn(alone, ready);
            lemma_turns_chain(run, alone, ready);
            let done = ready.content(context.track_index, track, to, clip, 0, true);
            lemma_content_takes_turns(ready, context.track_index, track, to, clip, 0, true);
            lemma_turns_chain(run, ready, done);
        }
    }
}

proof fn lemma_visits_take_turns(
    run: RunView,
    context: TickContext,
    track: Track,
    answers: Seq<SlotAnswer>,
    n: nat,
)
    ensures
        slots_take_turns(run, run.after_visits(context, track, answers, n).0),
    decreases n,
{
    if n == 0 {
        lemma_nothing_takes_no_turn(run, run);
    } else {
        lemma_visits_take_turns(run, context, track, answers, (n - 1) as nat);
        let earlier = run.after_visits(context, track, answers, (n - 1) as nat).0;
        let after = run.after_visits(context, track, answers, n).0;
        if let Some(clip) = track.session_clips@[n - 1] {
            lemma_visit_takes_turns(
                earlier,
                context,
                track,
                (n - 1) as usize,
                clip,
                answers[n - 1],
            );
        } else {
            lemma_cut_takes_no_turn(earlier, context.track_index, n - 1);
        }
        lemma_turns_chain(run, earlier, after);
    }
}

proof fn lemma_follow_ups_take_turns(
    run: RunView,
    context: TickContext,
    track: Track,
    pending: Seq<PendingFollowAction>,
    targets: Seq<Option<usize>>,
    n: nat,
)
    ensures
        slots_take_turns(run, run.after_follow_actions(context, track, pending, targets, n)),
    decreases n,
{
    if n == 0 {
        lemma_nothing_takes_no_turn(run, run);
    } else {
        lemma_follow_ups_take_turns(run, context, track, pending, targets, (n - 1) as nat);
        let earlier = run.after_follow_actions(context, track, pending, targets, (n - 1) as nat);
        lemma_follow_up_takes_turns(earlier, context, track, pending[n - 1], targets[n - 1]);
        lemma_turns_chain(
            run,
            earlier,
            run.after_follow_actions(context, track, pending, targets, n),
        );
    }
}

/// A track's slots take its voices in turn: whatever they set off over a tick plays on the next voice of
/// its pool, trigger by trigger, and the pools are left where the last of them leads.
pub proof fn law_a_tracks_slots_take_its_voices_in_turn(
    run: RunView,
    context: TickContext,
    track: Track,
    d: TrackDecisions,
)
    ensures
        slots_take_turns(run, run.advanced(context, track, d)),
{
    let n = track.session_clips@.len();
    lemma_visits_take_turns(run, context, track, d.answers, n);
    let (visited, pending) = run.after_visits(context, track, d.answers, n);
    lemma_follow_ups_take_turns(visited, context, track, pending, d.targets, pending.len());
    lemma_turns_chain(run, visited, run.advanced(context, track, d));
}

/// The session rules are asked about every slot that holds a clip, each in its turn, as the slots before
/// it have left it.
pub proof fn law_the_rules_are_asked_about_every_slot<R: SlotRules>(
    rules: &R,
    context: TickContext,
    track: Track,
    run: RunView,
    d: TrackDecisions,
    i: usize,
    clip: Arc<SessionClip>,
)
    requires
        decided(rules, context, track, run, d),
        i < track.session_clips@.len(),
        track.session_clips@[i as int] == Some(clip),
    ensures
        answered(
            rules,
            context,
            track,
            run.after_visits(context, track, d.answers, i as nat).0,
            i,
            clip,
            d.answers[i as int],
        ),
{
    assert(track.session_clips@[i as int] is Some);
}

} // verus!
