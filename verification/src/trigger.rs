//! What a tick sets off, and the voices it takes.
//!
//! Each track owns four pools of voices, one per kind. A trigger always takes the voice that has
//! waited longest in its pool, so the pools are walked round-robin.

use vstd::prelude::*;

use crate::model::{Lane, Note, RegionContent, StepData, Track};
use crate::patch::SynthEngine;
use crate::timeline::{step_at, step_triggering_at};

verus! {

/// Voices per synth engine and track.
pub const VOICE_COUNT: usize = 32;

/// Sample voices per track.
pub const SAMPLE_VOICE_COUNT: usize = 32;

/// One track's place in each of its voice pools, and the pitch its last piano-roll note had.
#[derive(Clone, Copy, Debug, PartialEq, Eq)]
pub struct TrackVoices {
    pub next_voice: usize,
    pub next_trine_voice: usize,
    pub next_wave_voice: usize,
    pub next_sample_voice: usize,
    /// What the next note glides from. Step-grid hits neither read nor write it.
    pub last_pitch: Option<u8>,
}

/// The content a step or note was found in, by its index on the track.
#[derive(Clone, Copy, Debug, PartialEq, Eq, Structural)]
pub enum ContentSource {
    Region(usize),
    Slot(usize),
}

/// Whose patch a step is played with.
#[derive(Clone, Copy, Debug, PartialEq, Eq, Structural)]
pub enum PatchSource {
    Track,
    Lane,
}

/// One thing to do to one voice of one track.
#[derive(Clone, Copy, Debug, PartialEq, Eq)]
pub enum Trigger {
    /// Play a lane's sample once, in full.
    LaneSample { track: usize, source: ContentSource, lane: usize, voice: usize, velocity: u8 },
    /// Play a lane's pitch on a synth voice.
    LaneSynth {
        track: usize,
        source: ContentSource,
        lane: usize,
        engine: SynthEngine,
        patch: PatchSource,
        voice: usize,
        pitch: u8,
        velocity: u8,
    },
    /// Play a piano-roll note on one of the track's synth voices, for its own length.
    Note {
        track: usize,
        source: ContentSource,
        note: usize,
        engine: SynthEngine,
        voice: usize,
        pitch: u8,
        velocity: u8,
        length_ticks: usize,
        glide_from: Option<u8>,
    },
    /// Play the track's frozen clip once.
    FrozenClip { track: usize, voice: usize },
    /// Play an audio clip once.
    Clip { track: usize, clip: usize, voice: usize },
    /// Play the part of a take that a comp segment picks.
    TakeSegment { track: usize, folder: usize, segment: usize, take: usize, voice: usize },
    /// Loop a session slot's audio clip, joining it `local_tick` ticks in.
    SlotAudio { track: usize, slot: usize, voice: usize, local_tick: usize },
    /// Loop a take of a session slot's recording, joining it `local_tick` ticks in.
    SlotTake { track: usize, slot: usize, take: usize, voice: usize, local_tick: usize },
    /// Silence a sample voice at once.
    Cut { track: usize, voice: usize },
}

/// The voice after `voice` in a pool of `count`.
pub open spec fn next_in_pool(voice: usize, count: usize) -> usize {
    ((voice + 1) % count as int) as usize
}

impl TrackVoices {
    /// Every pool index names a voice of its pool.
    pub open spec fn wf(self) -> bool {
        &&& self.next_voice < VOICE_COUNT
        &&& self.next_trine_voice < VOICE_COUNT
        &&& self.next_wave_voice < VOICE_COUNT
        &&& self.next_sample_voice < SAMPLE_VOICE_COUNT
    }

    /// The voice that the next trigger of `engine` takes.
    pub open spec fn next_synth(self, engine: SynthEngine) -> usize {
        match engine {
            SynthEngine::Simple => self.next_voice,
            SynthEngine::Trine => self.next_trine_voice,
            SynthEngine::Wave => self.next_wave_voice,
        }
    }

    /// The pools once `engine`'s next voice is taken.
    pub open spec fn after_synth(self, engine: SynthEngine) -> Self {
        match engine {
            SynthEngine::Simple => TrackVoices {
                next_voice: next_in_pool(self.next_voice, VOICE_COUNT),
                ..self
            },
            SynthEngine::Trine => TrackVoices {
                next_trine_voice: next_in_pool(self.next_trine_voice, VOICE_COUNT),
                ..self
            },
            SynthEngine::Wave => TrackVoices {
                next_wave_voice: next_in_pool(self.next_wave_voice, VOICE_COUNT),
                ..self
            },
        }
    }

    /// The pools once the next sample voice is taken.
    pub open spec fn after_sample(self) -> Self {
        TrackVoices {
            next_sample_voice: next_in_pool(self.next_sample_voice, SAMPLE_VOICE_COUNT),
            ..self
        }
    }

    /// Fresh pools: every index at its start, and no note played yet.
    pub fn new() -> (voices: Self)
        ensures
            voices.wf(),
            voices == (TrackVoices {
                next_voice: 0,
                next_trine_voice: 0,
                next_wave_voice: 0,
                next_sample_voice: 0,
                last_pitch: None,
            }),
    {
        TrackVoices {
            next_voice: 0,
            next_trine_voice: 0,
            next_wave_voice: 0,
            next_sample_voice: 0,
            last_pitch: None,
        }
    }

    /// Takes the next voice of `engine`'s pool.
    pub fn take_synth(&mut self, engine: SynthEngine) -> (voice: usize)
        requires
            old(self).wf(),
        ensures
            final(self).wf(),
            voice < VOICE_COUNT,
            voice == old(self).next_synth(engine),
            *final(self) == old(self).after_synth(engine),
    {
        match engine {
            SynthEngine::Simple => {
                let voice: usize = self.next_voice;
                self.next_voice = (voice + 1) % VOICE_COUNT;
                voice
            },
            SynthEngine::Trine => {
                let voice: usize = self.next_trine_voice;
                self.next_trine_voice = (voice + 1) % VOICE_COUNT;
                voice
            },
            SynthEngine::Wave => {
                let voice: usize = self.next_wave_voice;
                self.next_wave_voice = (voice + 1) % VOICE_COUNT;
                voice
            },
        }
    }

    /// Takes the next sample voice.
    pub fn take_sample(&mut self) -> (voice: usize)
        requires
            old(self).wf(),
        ensures
            final(self).wf(),
            voice < SAMPLE_VOICE_COUNT,
            voice == old(self).next_sample_voice,
            *final(self) == old(self).after_sample(),
    {
        let voice: usize = self.next_sample_voice;
        self.next_sample_voice = (voice + 1) % SAMPLE_VOICE_COUNT;
        voice
    }
}

/// What a lane's step sets off, and the pools after it. A sample of the lane's own comes first;
/// otherwise the lane plays its pitch with its own synth if it overrides the track's.
pub open spec fn lane_step_trigger(
    voices: TrackVoices,
    track_index: usize,
    source: ContentSource,
    lane_index: usize,
    track: Track,
    lane: Lane,
    step: StepData,
) -> (Trigger, TrackVoices) {
    if lane.sample is Some {
        (
            Trigger::LaneSample {
                track: track_index,
                source,
                lane: lane_index,
                voice: voices.next_sample_voice,
                velocity: step.velocity,
            },
            voices.after_sample(),
        )
    } else {
        let engine = if lane.synth_override {
            lane.synth_engine
        } else {
            track.synth_engine
        };
        let patch = if lane.synth_override {
            PatchSource::Lane
        } else {
            PatchSource::Track
        };
        (
            Trigger::LaneSynth {
                track: track_index,
                source,
                lane: lane_index,
                engine,
                patch,
                voice: voices.next_synth(engine),
                pitch: lane.pitch,
                velocity: step.velocity,
            },
            voices.after_synth(engine),
        )
    }
}

/// Triggers `lane`'s voice for `step`.
pub fn trigger_lane_step(
    voices: &mut TrackVoices,
    track_index: usize,
    source: ContentSource,
    lane_index: usize,
    track: &Track,
    lane: &Lane,
    step: StepData,
) -> (trigger: Trigger)
    requires
        old(voices).wf(),
    ensures
        final(voices).wf(),
        (trigger, *final(voices)) == lane_step_trigger(
            *old(voices),
            track_index,
            source,
            lane_index,
            *track,
            *lane,
            step,
        ),
{
    if lane.sample.is_some() {
        let voice: usize = voices.take_sample();
        return Trigger::LaneSample {
            track: track_index,
            source,
            lane: lane_index,
            voice,
            velocity: step.velocity,
        };
    }
    let (engine, patch) = if lane.synth_override {
        (lane.synth_engine, PatchSource::Lane)
    } else {
        (track.synth_engine, PatchSource::Track)
    };
    let voice: usize = voices.take_synth(engine);
    Trigger::LaneSynth {
        track: track_index,
        source,
        lane: lane_index,
        engine,
        patch,
        voice,
        pitch: lane.pitch,
        velocity: step.velocity,
    }
}

/// What a piano-roll note sets off, and the pools after it. Only the plain engine glides, from
/// the track's last note and only while its glide time is above zero.
pub open spec fn note_trigger(
    voices: TrackVoices,
    track_index: usize,
    source: ContentSource,
    note_index: usize,
    track: Track,
    note: Note,
) -> (Trigger, TrackVoices) {
    let engine = track.synth_engine;
    (
        Trigger::Note {
            track: track_index,
            source,
            note: note_index,
            engine,
            voice: voices.next_synth(engine),
            pitch: note.pitch,
            velocity: note.velocity,
            length_ticks: note.length_ticks,
            glide_from: if engine == SynthEngine::Simple && track.synth.glide_seconds.positive() {
                voices.last_pitch
            } else {
                None
            },
        },
        TrackVoices { last_pitch: Some(note.pitch), ..voices.after_synth(engine) },
    )
}

/// Triggers `track`'s synth voice for `note`, and remembers its pitch to glide from.
pub fn trigger_piano_roll_note(
    voices: &mut TrackVoices,
    track_index: usize,
    source: ContentSource,
    note_index: usize,
    track: &Track,
    note: &Note,
) -> (trigger: Trigger)
    requires
        old(voices).wf(),
    ensures
        final(voices).wf(),
        (trigger, *final(voices)) == note_trigger(
            *old(voices),
            track_index,
            source,
            note_index,
            *track,
            *note,
        ),
{
    let engine = track.synth_engine;
    let glide_from: Option<u8> = if engine == SynthEngine::Simple
        && track.synth.glide_seconds.is_positive() {
        voices.last_pitch
    } else {
        None
    };
    let voice: usize = voices.take_synth(engine);
    voices.last_pitch = Some(note.pitch);
    Trigger::Note {
        track: track_index,
        source,
        note: note_index,
        engine,
        voice,
        pitch: note.pitch,
        velocity: note.velocity,
        length_ticks: note.length_ticks,
        glide_from,
    }
}

/// What the first `n` lanes set off at a tick of their content, in lane order, and the pools
/// after them.
pub open spec fn lane_triggers(
    voices: TrackVoices,
    track_index: usize,
    source: ContentSource,
    track: Track,
    lanes: Seq<Lane>,
    n: nat,
    tick: int,
) -> (Seq<Trigger>, TrackVoices)
    decreases n,
{
    if n == 0 {
        (Seq::empty(), voices)
    } else {
        let (earlier, pools) = lane_triggers(
            voices,
            track_index,
            source,
            track,
            lanes,
            (n - 1) as nat,
            tick,
        );
        match step_at(lanes[n - 1], tick) {
            Some(step) => {
                let (trigger, after) = lane_step_trigger(
                    pools,
                    track_index,
                    source,
                    (n - 1) as usize,
                    track,
                    lanes[n - 1],
                    step,
                );
                (earlier.push(trigger), after)
            },
            None => (earlier, pools),
        }
    }
}

/// What the first `n` notes set off at a tick of their content, in note order, and the pools
/// after them.
pub open spec fn note_triggers(
    voices: TrackVoices,
    track_index: usize,
    source: ContentSource,
    track: Track,
    notes: Seq<Note>,
    n: nat,
    tick: int,
) -> (Seq<Trigger>, TrackVoices)
    decreases n,
{
    if n == 0 {
        (Seq::empty(), voices)
    } else {
        let (earlier, pools) = note_triggers(
            voices,
            track_index,
            source,
            track,
            notes,
            (n - 1) as nat,
            tick,
        );
        if notes[n - 1].start_tick == tick {
            let (trigger, after) = note_trigger(
                pools,
                track_index,
                source,
                (n - 1) as usize,
                track,
                notes[n - 1],
            );
            (earlier.push(trigger), after)
        } else {
            (earlier, pools)
        }
    }
}

/// What a step grid or piano roll sets off at a tick of its own, and the pools after it.
pub open spec fn content_triggers(
    voices: TrackVoices,
    track_index: usize,
    source: ContentSource,
    track: Track,
    content: RegionContent,
    tick: int,
) -> (Seq<Trigger>, TrackVoices) {
    match content {
        RegionContent::StepGrid(lanes) => lane_triggers(
            voices,
            track_index,
            source,
            track,
            lanes@,
            lanes@.len(),
            tick,
        ),
        RegionContent::PianoRoll(notes) => note_triggers(
            voices,
            track_index,
            source,
            track,
            notes@,
            notes@.len(),
            tick,
        ),
    }
}

/// Triggers whatever `content` has at `tick` of its own, adding to `triggers`.
pub fn trigger_content(
    voices: &mut TrackVoices,
    track_index: usize,
    source: ContentSource,
    track: &Track,
    content: &RegionContent,
    tick: usize,
    triggers: &mut Vec<Trigger>,
)
    requires
        old(voices).wf(),
    ensures
        final(voices).wf(),
        final(triggers)@ == old(triggers)@ + content_triggers(
            *old(voices),
            track_index,
            source,
            *track,
            *content,
            tick as int,
        ).0,
        *final(voices) == content_triggers(
            *old(voices),
            track_index,
            source,
            *track,
            *content,
            tick as int,
        ).1,
{
    let ghost start = *voices;
    let ghost before = triggers@;
    match content {
        RegionContent::StepGrid(lanes) => {
            let mut i: usize = 0;
            while i < lanes.len()
                invariant
                    i <= lanes@.len(),
                    voices.wf(),
                    (triggers@, *voices) == ({
                        let done = lane_triggers(
                            start,
                            track_index,
                            source,
                            *track,
                            lanes@,
                            i as nat,
                            tick as int,
                        );
                        (before + done.0, done.1)
                    }),
                decreases lanes@.len() - i,
            {
                if let Some(step) = step_triggering_at(&lanes[i], tick) {
                    let trigger = trigger_lane_step(
                        voices,
                        track_index,
                        source,
                        i,
                        track,
                        &lanes[i],
                        step,
                    );
                    triggers.push(trigger);
                }
                i += 1;
            }
        },
        RegionContent::PianoRoll(notes) => {
            let mut i: usize = 0;
            while i < notes.len()
                invariant
                    i <= notes@.len(),
                    voices.wf(),
                    (triggers@, *voices) == ({
                        let done = note_triggers(
                            start,
                            track_index,
                            source,
                            *track,
                            notes@,
                            i as nat,
                            tick as int,
                        );
                        (before + done.0, done.1)
                    }),
                decreases notes@.len() - i,
            {
                if notes[i].start_tick == tick {
                    let trigger = trigger_piano_roll_note(
                        voices,
                        track_index,
                        source,
                        i,
                        track,
                        &notes[i],
                    );
                    triggers.push(trigger);
                }
                i += 1;
            }
        },
    }
}

/// Whether a trigger is one that `content` calls for at a tick of its own.
pub open spec fn called_for(
    track_index: usize,
    source: ContentSource,
    track: Track,
    content: RegionContent,
    tick: int,
    trigger: Trigger,
) -> bool {
    match trigger {
        Trigger::LaneSample { track: t, source: s, lane, voice, velocity } => {
            &&& t == track_index && s == source && voice < SAMPLE_VOICE_COUNT
            &&& content matches RegionContent::StepGrid(lanes) && lane < lanes@.len() && {
                let l = lanes@[lane as int];
                l.sample is Some && (step_at(l, tick) matches Some(step) && step.velocity
                    == velocity)
            }
        },
        Trigger::LaneSynth { track: t, source: s, lane, engine, patch, voice, pitch, velocity } => {
            &&& t == track_index && s == source && voice < VOICE_COUNT
            &&& content matches RegionContent::StepGrid(lanes) && lane < lanes@.len() && {
                let l = lanes@[lane as int];
                &&& l.sample is None && pitch == l.pitch
                &&& step_at(l, tick) matches Some(step) && step.velocity == velocity
                &&& l.synth_override ==> patch == PatchSource::Lane && engine == l.synth_engine
                &&& !l.synth_override ==> patch == PatchSource::Track && engine
                    == track.synth_engine
            }
        },
        Trigger::Note { track: t, source: s, note, engine, voice, pitch, velocity, length_ticks, .. } =>
        {
            &&& t == track_index && s == source && voice < VOICE_COUNT && engine
                == track.synth_engine
            &&& content matches RegionContent::PianoRoll(notes) && note < notes@.len() && {
                let n = notes@[note as int];
                n.start_tick == tick && n.pitch == pitch && n.velocity == velocity
                    && n.length_ticks == length_ticks
            }
        },
        _ => false,
    }
}

pub(crate) proof fn lemma_lane_triggers(
    voices: TrackVoices,
    track_index: usize,
    source: ContentSource,
    track: Track,
    lanes: Vec<Lane>,
    n: nat,
    tick: int,
)
    requires
        voices.wf(),
        n <= lanes@.len(),
    ensures
        ({
            let (added, after) = lane_triggers(
                voices,
                track_index,
                source,
                track,
                lanes@,
                n,
                tick,
            );
            &&& after.wf()
            &&& forall|i: int|
                0 <= i < added.len() ==> called_for(
                    track_index,
                    source,
                    track,
                    RegionContent::StepGrid(lanes),
                    tick,
                    #[trigger] added[i],
                )
            &&& forall|l: int|
                0 <= l < n && step_at(#[trigger] lanes@[l], tick) is Some ==> exists|i: int|
                    0 <= i < added.len() && plays_lane(#[trigger] added[i], l)
        }),
    decreases n,
{
    if n > 0 {
        lemma_lane_triggers(voices, track_index, source, track, lanes, (n - 1) as nat, tick);
        assert(lanes.len() == lanes@.len());
        let earlier = lane_triggers(
            voices,
            track_index,
            source,
            track,
            lanes@,
            (n - 1) as nat,
            tick,
        ).0;
        let added = lane_triggers(voices, track_index, source, track, lanes@, n, tick).0;
        assert forall|l: int|
            0 <= l < n && step_at(#[trigger] lanes@[l], tick) is Some implies exists|i: int|
            0 <= i < added.len() && plays_lane(#[trigger] added[i], l) by {
            if l == n - 1 {
                assert(plays_lane(added[added.len() - 1], l));
            } else {
                let i = choose|i: int|
                    0 <= i < earlier.len() && plays_lane(#[trigger] earlier[i], l);
                assert(added[i] == earlier[i]);
            }
        }
    }
}

/// Whether a trigger plays a step of the given lane.
pub open spec fn plays_lane(trigger: Trigger, l: int) -> bool {
    match trigger {
        Trigger::LaneSample { lane, .. } => lane == l,
        Trigger::LaneSynth { lane, .. } => lane == l,
        _ => false,
    }
}

/// Whether a trigger plays the given note.
pub open spec fn plays_note(trigger: Trigger, k: int) -> bool {
    trigger matches Trigger::Note { note, .. } && note == k
}

pub(crate) proof fn lemma_note_triggers(
    voices: TrackVoices,
    track_index: usize,
    source: ContentSource,
    track: Track,
    notes: Vec<Note>,
    n: nat,
    tick: int,
)
    requires
        voices.wf(),
        n <= notes@.len(),
    ensures
        ({
            let (added, after) = note_triggers(
                voices,
                track_index,
                source,
                track,
                notes@,
                n,
                tick,
            );
            &&& after.wf()
            &&& forall|i: int|
                0 <= i < added.len() ==> called_for(
                    track_index,
                    source,
                    track,
                    RegionContent::PianoRoll(notes),
                    tick,
                    #[trigger] added[i],
                )
            &&& forall|k: int|
                0 <= k < n && (#[trigger] notes@[k]).start_tick == tick ==> exists|i: int|
                    0 <= i < added.len() && plays_note(#[trigger] added[i], k)
        }),
    decreases n,
{
    if n > 0 {
        lemma_note_triggers(voices, track_index, source, track, notes, (n - 1) as nat, tick);
        assert(notes.len() == notes@.len());
        let earlier = note_triggers(
            voices,
            track_index,
            source,
            track,
            notes@,
            (n - 1) as nat,
            tick,
        ).0;
        let added = note_triggers(voices, track_index, source, track, notes@, n, tick).0;
        assert forall|k: int|
            0 <= k < n && (#[trigger] notes@[k]).start_tick == tick implies exists|i: int|
            0 <= i < added.len() && plays_note(#[trigger] added[i], k) by {
            if k == n - 1 {
                assert(plays_note(added[added.len() - 1], k));
            } else {
                let i = choose|i: int|
                    0 <= i < earlier.len() && plays_note(#[trigger] earlier[i], k);
                assert(added[i] == earlier[i]);
            }
        }
    }
}

/// Content sets off exactly what it calls for: every trigger is called for, and every step and
/// note that falls on the tick is played.
pub proof fn law_content_triggers_what_it_calls_for(
    voices: TrackVoices,
    track_index: usize,
    source: ContentSource,
    track: Track,
    content: RegionContent,
    tick: int,
)
    requires
        voices.wf(),
    ensures
        ({
            let (added, after) = content_triggers(
                voices,
                track_index,
                source,
                track,
                content,
                tick,
            );
            &&& after.wf()
            &&& forall|i: int|
                0 <= i < added.len() ==> called_for(
                    track_index,
                    source,
                    track,
                    content,
                    tick,
                    #[trigger] added[i],
                )
            &&& content matches RegionContent::StepGrid(lanes) ==> forall|l: int|
                0 <= l < lanes@.len() && step_at(#[trigger] lanes@[l], tick) is Some ==> exists|
                    i: int,
                |
                    0 <= i < added.len() && plays_lane(#[trigger] added[i], l)
            &&& content matches RegionContent::PianoRoll(notes) ==> forall|k: int|
                0 <= k < notes@.len() && (#[trigger] notes@[k]).start_tick == tick ==> exists|
                    i: int,
                |
                    0 <= i < added.len() && plays_note(#[trigger] added[i], k)
        }),
{
    match content {
        RegionContent::StepGrid(lanes) => {
            lemma_lane_triggers(
                voices,
                track_index,
                source,
                track,
                lanes,
                lanes@.len(),
                tick,
            );
        },
        RegionContent::PianoRoll(notes) => {
            lemma_note_triggers(
                voices,
                track_index,
                source,
                track,
                notes,
                notes@.len(),
                tick,
            );
        },
    }
}

/// The pools after `n` sample voices have been taken.
pub open spec fn after_samples(voices: TrackVoices, n: nat) -> TrackVoices
    decreases n,
{
    if n == 0 {
        voices
    } else {
        after_samples(voices, (n - 1) as nat).after_sample()
    }
}

/// Sample voices are taken in turn, all the way round: a voice is taken again only after every
/// other voice of its pool.
pub proof fn law_sample_voices_go_round(voices: TrackVoices, n: nat)
    requires
        voices.wf(),
    ensures
        after_samples(voices, n) == (TrackVoices {
            next_sample_voice: ((voices.next_sample_voice + n) % SAMPLE_VOICE_COUNT as int) as usize,
            ..voices
        }),
    decreases n,
{
    if n > 0 {
        law_sample_voices_go_round(voices, (n - 1) as nat);
    }
}

/// The pools after `n` voices of one engine have been taken.
pub open spec fn after_synths(voices: TrackVoices, engine: SynthEngine, n: nat) -> TrackVoices
    decreases n,
{
    if n == 0 {
        voices
    } else {
        after_synths(voices, engine, (n - 1) as nat).after_synth(engine)
    }
}

/// The voice that comes `n` after `voice` in a synth engine's pool.
pub open spec fn voice_after(voice: usize, n: nat) -> usize
    decreases n,
{
    if n == 0 {
        voice
    } else {
        next_in_pool(voice_after(voice, (n - 1) as nat), VOICE_COUNT)
    }
}

proof fn lemma_voice_after(voice: usize, n: nat)
    requires
        voice < VOICE_COUNT,
    ensures
        voice_after(voice, n) == (voice + n) % VOICE_COUNT as int,
    decreases n,
{
    if n > 0 {
        lemma_voice_after(voice, (n - 1) as nat);
    }
}

/// Synth voices are taken in turn, all the way round, and no engine takes another's voices.
pub proof fn law_synth_voices_go_round(
    voices: TrackVoices,
    engine: SynthEngine,
    other: SynthEngine,
    n: nat,
)
    requires
        voices.wf(),
        other != engine,
    ensures
        after_synths(voices, engine, n).next_synth(engine) == voice_after(
            voices.next_synth(engine),
            n,
        ),
        voice_after(voices.next_synth(engine), n) == (voices.next_synth(engine) + n)
            % VOICE_COUNT as int,
        after_synths(voices, engine, n).next_synth(other) == voices.next_synth(other),
        after_synths(voices, engine, n).next_sample_voice == voices.next_sample_voice,
    decreases n,
{
    lemma_voice_after(voices.next_synth(engine), n);
    if n > 0 {
        law_synth_voices_go_round(voices, engine, other, (n - 1) as nat);
    }
}

/// Whether two tracks differ at most in whether they are muted, soloed or frozen.
pub open spec fn same_but_for_switches(a: Track, b: Track) -> bool {
    b == (Track {
        muted: b.muted,
        solo: b.solo,
        frozen: b.frozen,
        frozen_clip: b.frozen_clip,
        ..a
    })
}

proof fn lemma_lanes_ignore_switches(
    voices: TrackVoices,
    track_index: usize,
    source: ContentSource,
    a: Track,
    b: Track,
    lanes: Seq<Lane>,
    n: nat,
    tick: int,
)
    requires
        same_but_for_switches(a, b),
    ensures
        lane_triggers(voices, track_index, source, a, lanes, n, tick) == lane_triggers(
            voices,
            track_index,
            source,
            b,
            lanes,
            n,
            tick,
        ),
    decreases n,
{
    if n > 0 {
        lemma_lanes_ignore_switches(
            voices,
            track_index,
            source,
            a,
            b,
            lanes,
            (n - 1) as nat,
            tick,
        );
    }
}

proof fn lemma_notes_ignore_switches(
    voices: TrackVoices,
    track_index: usize,
    source: ContentSource,
    a: Track,
    b: Track,
    notes: Seq<Note>,
    n: nat,
    tick: int,
)
    requires
        same_but_for_switches(a, b),
    ensures
        note_triggers(voices, track_index, source, a, notes, n, tick) == note_triggers(
            voices,
            track_index,
            source,
            b,
            notes,
            n,
            tick,
        ),
    decreases n,
{
    if n > 0 {
        lemma_notes_ignore_switches(
            voices,
            track_index,
            source,
            a,
            b,
            notes,
            (n - 1) as nat,
            tick,
        );
    }
}

/// What a step grid or piano roll sets off does not depend on whether its track is muted, soloed or
/// frozen: whether it is heard is decided elsewhere.
pub proof fn law_content_ignores_switches(
    voices: TrackVoices,
    track_index: usize,
    source: ContentSource,
    a: Track,
    b: Track,
    content: RegionContent,
    tick: int,
)
    requires
        same_but_for_switches(a, b),
    ensures
        content_triggers(voices, track_index, source, a, content, tick) == content_triggers(
            voices,
            track_index,
            source,
            b,
            content,
            tick,
        ),
{
    match content {
        RegionContent::StepGrid(lanes) => {
            lemma_lanes_ignore_switches(
                voices,
                track_index,
                source,
                a,
                b,
                lanes@,
                lanes@.len(),
                tick,
            );
        },
        RegionContent::PianoRoll(notes) => {
            lemma_notes_ignore_switches(
                voices,
                track_index,
                source,
                a,
                b,
                notes@,
                notes@.len(),
                tick,
            );
        },
    }
}

/// A step plays its lane: the lane's own sample where it has one, and else the lane's pitch, on the
/// lane's own synth where it overrides the track's, and else on the track's. How hard it is hit is the
/// step's.
pub proof fn law_a_step_plays_its_lane(
    voices: TrackVoices,
    track_index: usize,
    source: ContentSource,
    lane_index: usize,
    track: Track,
    lane: Lane,
    step: StepData,
)
    ensures
        ({
            let trigger = lane_step_trigger(
                voices,
                track_index,
                source,
                lane_index,
                track,
                lane,
                step,
            ).0;
            &&& lane.sample is Some ==> (trigger matches Trigger::LaneSample {
                track: t,
                source: s,
                lane: l,
                velocity,
                ..
            } && t == track_index && s == source && l == lane_index && velocity == step.velocity)
            &&& lane.sample is None ==> (trigger matches Trigger::LaneSynth {
                track: t,
                source: s,
                lane: l,
                engine,
                patch,
                pitch,
                velocity,
                ..
            } && t == track_index && s == source && l == lane_index && velocity == step.velocity
                && pitch == lane.pitch && (lane.synth_override ==> engine == lane.synth_engine
                && patch == PatchSource::Lane) && (!lane.synth_override ==> engine
                == track.synth_engine && patch == PatchSource::Track))
        }),
{
}

/// A note plays on its track's synth, at its own pitch, as hard and as long as it is written. It
/// glides from the track's last note on the plain synth while that has a glide time, and on no other.
pub proof fn law_a_note_plays_on_its_tracks_synth(
    voices: TrackVoices,
    track_index: usize,
    source: ContentSource,
    note_index: usize,
    track: Track,
    note: Note,
)
    ensures
        ({
            let (trigger, after) = note_trigger(
                voices,
                track_index,
                source,
                note_index,
                track,
                note,
            );
            let glides = track.synth_engine == SynthEngine::Simple && 0
                < track.synth.glide_seconds.bits <= 0x7f80_0000;
            &&& trigger matches Trigger::Note {
                track: t,
                source: s,
                note: n,
                engine,
                pitch,
                velocity,
                length_ticks,
                glide_from,
                ..
            } && t == track_index && s == source && n == note_index && engine
                == track.synth_engine && pitch == note.pitch && velocity == note.velocity
                && length_ticks == note.length_ticks && (glides ==> glide_from == voices.last_pitch)
                && (!glides ==> glide_from is None)
            &&& after.last_pitch == Some(note.pitch)
        }),
{
}

/// A track's pools after the first `n` of its triggers: each trigger takes the next voice of the pool
/// it plays on, all the way round, and a note is what the next one glides from.
pub open spec fn pools_after(voices: TrackVoices, triggers: Seq<Trigger>, n: nat) -> TrackVoices
    decreases n,
{
    if n == 0 {
        voices
    } else {
        let pools = pools_after(voices, triggers, (n - 1) as nat);
        let sampled = TrackVoices {
            next_sample_voice: ((pools.next_sample_voice + 1) % SAMPLE_VOICE_COUNT as int) as usize,
            ..pools
        };
        match triggers[n - 1] {
            Trigger::LaneSample { .. } => sampled,
            Trigger::FrozenClip { .. } => sampled,
            Trigger::Clip { .. } => sampled,
            Trigger::TakeSegment { .. } => sampled,
            Trigger::SlotAudio { .. } => sampled,
            Trigger::SlotTake { .. } => sampled,
            Trigger::LaneSynth { engine, .. } => synth_taken(pools, engine),
            Trigger::Note { engine, pitch, .. } => TrackVoices {
                last_pitch: Some(pitch),
                ..synth_taken(pools, engine)
            },
            Trigger::Cut { .. } => pools,
        }
    }
}

/// The pools once the next voice of one engine is taken, and of no other.
pub open spec fn synth_taken(pools: TrackVoices, engine: SynthEngine) -> TrackVoices {
    match engine {
        SynthEngine::Simple => TrackVoices {
            next_voice: ((pools.next_voice + 1) % VOICE_COUNT as int) as usize,
            ..pools
        },
        SynthEngine::Trine => TrackVoices {
            next_trine_voice: ((pools.next_trine_voice + 1) % VOICE_COUNT as int) as usize,
            ..pools
        },
        SynthEngine::Wave => TrackVoices {
            next_wave_voice: ((pools.next_wave_voice + 1) % VOICE_COUNT as int) as usize,
            ..pools
        },
    }
}

/// Whether a trigger plays on the voice that is next in its pool.
pub open spec fn plays_next_voice(pools: TrackVoices, trigger: Trigger) -> bool {
    let synth = |engine: SynthEngine|
        match engine {
            SynthEngine::Simple => pools.next_voice,
            SynthEngine::Trine => pools.next_trine_voice,
            SynthEngine::Wave => pools.next_wave_voice,
        };
    match trigger {
        Trigger::LaneSample { voice, .. } => voice == pools.next_sample_voice,
        Trigger::FrozenClip { voice, .. } => voice == pools.next_sample_voice,
        Trigger::Clip { voice, .. } => voice == pools.next_sample_voice,
        Trigger::TakeSegment { voice, .. } => voice == pools.next_sample_voice,
        Trigger::SlotAudio { voice, .. } => voice == pools.next_sample_voice,
        Trigger::SlotTake { voice, .. } => voice == pools.next_sample_voice,
        Trigger::LaneSynth { engine, voice, .. } => voice == synth(engine),
        Trigger::Note { engine, voice, glide_from, .. } => voice == synth(engine) && (
        glide_from is Some ==> glide_from == pools.last_pitch),
        Trigger::Cut { .. } => true,
    }
}

/// Whether a track's triggers take its voices in turn.
pub open spec fn taken_in_turn(voices: TrackVoices, triggers: Seq<Trigger>) -> bool {
    forall|i: int|
        0 <= i < triggers.len() ==> plays_next_voice(
            pools_after(voices, triggers, i as nat),
            #[trigger] triggers[i],
        )
}

/// Pools go by the triggers that come before, whatever comes after them.
pub(crate) proof fn lemma_pools_agree(
    voices: TrackVoices,
    a: Seq<Trigger>,
    b: Seq<Trigger>,
    n: nat,
)
    requires
        n <= a.len(),
        n <= b.len(),
        forall|i: int| 0 <= i < n ==> #[trigger] a[i] == b[i],
    ensures
        pools_after(voices, a, n) == pools_after(voices, b, n),
    decreases n,
{
    if n > 0 {
        lemma_pools_agree(voices, a, b, (n - 1) as nat);
        assert(a[n - 1] == b[n - 1]);
    }
}

pub(crate) proof fn lemma_pools_split(
    voices: TrackVoices,
    a: Seq<Trigger>,
    b: Seq<Trigger>,
    n: nat,
)
    requires
        n <= b.len(),
    ensures
        pools_after(voices, a + b, a.len() + n) == pools_after(
            pools_after(voices, a, a.len()),
            b,
            n,
        ),
    decreases n,
{
    if n == 0 {
        lemma_pools_agree(voices, a + b, a, a.len());
    } else {
        lemma_pools_split(voices, a, b, (n - 1) as nat);
        assert((a + b)[a.len() + n - 1] == b[n - 1]);
    }
}

pub(crate) proof fn lemma_turns_join(voices: TrackVoices, a: Seq<Trigger>, b: Seq<Trigger>)
    requires
        taken_in_turn(voices, a),
        taken_in_turn(pools_after(voices, a, a.len()), b),
    ensures
        taken_in_turn(voices, a + b),
        pools_after(voices, a + b, (a + b).len()) == pools_after(
            pools_after(voices, a, a.len()),
            b,
            b.len(),
        ),
{
    lemma_pools_split(voices, a, b, b.len());
    let all = a + b;
    assert forall|i: int| 0 <= i < all.len() implies plays_next_voice(
        pools_after(voices, all, i as nat),
        #[trigger] all[i],
    ) by {
        if i < a.len() {
            lemma_pools_agree(voices, all, a, i as nat);
            assert(all[i] == a[i]);
        } else {
            lemma_pools_split(voices, a, b, (i - a.len()) as nat);
            assert(all[i] == b[i - a.len()]);
        }
    }
}

pub(crate) proof fn lemma_turn_pushed(
    voices: TrackVoices,
    earlier: Seq<Trigger>,
    trigger: Trigger,
)
    requires
        taken_in_turn(voices, earlier),
        plays_next_voice(pools_after(voices, earlier, earlier.len()), trigger),
    ensures
        taken_in_turn(voices, earlier.push(trigger)),
        pools_after(voices, earlier.push(trigger), earlier.len() + 1) == pools_after(
            pools_after(voices, earlier, earlier.len()),
            seq![trigger],
            1,
        ),
{
    let one = seq![trigger];
    let pools = pools_after(voices, earlier, earlier.len());
    assert(taken_in_turn(pools, one)) by {
        assert(pools_after(pools, one, 0) == pools);
    }
    lemma_turns_join(voices, earlier, one);
    assert(earlier + one =~= earlier.push(trigger));
}

proof fn lemma_lanes_take_turns(
    voices: TrackVoices,
    track_index: usize,
    source: ContentSource,
    track: Track,
    lanes: Seq<Lane>,
    n: nat,
    tick: int,
)
    requires
        n <= lanes.len() <= usize::MAX,
    ensures
        ({
            let (added, after) = lane_triggers(
                voices,
                track_index,
                source,
                track,
                lanes,
                n,
                tick,
            );
            &&& taken_in_turn(voices, added)
            &&& after == pools_after(voices, added, added.len())
        }),
    decreases n,
{
    if n > 0 {
        lemma_lanes_take_turns(voices, track_index, source, track, lanes, (n - 1) as nat, tick);
        let (earlier, pools) = lane_triggers(
            voices,
            track_index,
            source,
            track,
            lanes,
            (n - 1) as nat,
            tick,
        );
        if let Some(step) = step_at(lanes[n - 1], tick) {
            let (trigger, after) = lane_step_trigger(
                pools,
                track_index,
                source,
                (n - 1) as usize,
                track,
                lanes[n - 1],
                step,
            );
            assert(plays_next_voice(pools, trigger));
            lemma_turn_pushed(voices, earlier, trigger);
            assert(pools_after(pools, seq![trigger], 0) == pools);
            assert(after == pools_after(pools, seq![trigger], 1));
        }
    }
}

proof fn lemma_notes_take_turns(
    voices: TrackVoices,
    track_index: usize,
    source: ContentSource,
    track: Track,
    notes: Seq<Note>,
    n: nat,
    tick: int,
)
    requires
        n <= notes.len() <= usize::MAX,
    ensures
        ({
            let (added, after) = note_triggers(
                voices,
                track_index,
                source,
                track,
                notes,
                n,
                tick,
            );
            &&& taken_in_turn(voices, added)
            &&& after == pools_after(voices, added, added.len())
        }),
    decreases n,
{
    if n > 0 {
        lemma_notes_take_turns(voices, track_index, source, track, notes, (n - 1) as nat, tick);
        let (earlier, pools) = note_triggers(
            voices,
            track_index,
            source,
            track,
            notes,
            (n - 1) as nat,
            tick,
        );
        if notes[n - 1].start_tick == tick {
            let (trigger, after) = note_trigger(
                pools,
                track_index,
                source,
                (n - 1) as usize,
                track,
                notes[n - 1],
            );
            assert(plays_next_voice(pools, trigger));
            lemma_turn_pushed(voices, earlier, trigger);
            assert(pools_after(pools, seq![trigger], 0) == pools);
            assert(after == pools_after(pools, seq![trigger], 1));
        }
    }
}

/// The lane or the note that a trigger plays, by its index in the content it was found in.
pub open spec fn item_of(trigger: Trigger) -> int {
    match trigger {
        Trigger::LaneSample { lane, .. } => lane as int,
        Trigger::LaneSynth { lane, .. } => lane as int,
        Trigger::Note { note, .. } => note as int,
        _ => -1,
    }
}

proof fn lemma_lanes_come_in_order(
    voices: TrackVoices,
    track_index: usize,
    source: ContentSource,
    track: Track,
    lanes: Seq<Lane>,
    n: nat,
    tick: int,
)
    requires
        n <= lanes.len() <= usize::MAX,
    ensures
        ({
            let added = lane_triggers(voices, track_index, source, track, lanes, n, tick).0;
            &&& forall|i: int| 0 <= i < added.len() ==> 0 <= item_of(#[trigger] added[i]) < n
            &&& forall|i: int, j: int|
                0 <= i < j < added.len() ==> item_of(#[trigger] added[i]) < item_of(
                    #[trigger] added[j],
                )
        }),
    decreases n,
{
    if n > 0 {
        lemma_lanes_come_in_order(
            voices,
            track_index,
            source,
            track,
            lanes,
            (n - 1) as nat,
            tick,
        );
        let earlier = lane_triggers(
            voices,
            track_index,
            source,
            track,
            lanes,
            (n - 1) as nat,
            tick,
        ).0;
        let added = lane_triggers(voices, track_index, source, track, lanes, n, tick).0;
        assert forall|i: int| 0 <= i < added.len() implies 0 <= item_of(#[trigger] added[i]) < n by {
            if i < earlier.len() {
                assert(added[i] == earlier[i]);
            }
        }
        assert forall|i: int, j: int| 0 <= i < j < added.len() implies item_of(#[trigger] added[i])
            < item_of(#[trigger] added[j]) by {
            assert(added[i] == earlier[i]);
            if j < earlier.len() {
                assert(added[j] == earlier[j]);
            }
        }
    }
}

proof fn lemma_notes_come_in_order(
    voices: TrackVoices,
    track_index: usize,
    source: ContentSource,
    track: Track,
    notes: Seq<Note>,
    n: nat,
    tick: int,
)
    requires
        n <= notes.len() <= usize::MAX,
    ensures
        ({
            let added = note_triggers(voices, track_index, source, track, notes, n, tick).0;
            &&& forall|i: int| 0 <= i < added.len() ==> 0 <= item_of(#[trigger] added[i]) < n
            &&& forall|i: int, j: int|
                0 <= i < j < added.len() ==> item_of(#[trigger] added[i]) < item_of(
                    #[trigger] added[j],
                )
        }),
    decreases n,
{
    if n > 0 {
        lemma_notes_come_in_order(
            voices,
            track_index,
            source,
            track,
            notes,
            (n - 1) as nat,
            tick,
        );
        let earlier = note_triggers(
            voices,
            track_index,
            source,
            track,
            notes,
            (n - 1) as nat,
            tick,
        ).0;
        let added = note_triggers(voices, track_index, source, track, notes, n, tick).0;
        assert forall|i: int| 0 <= i < added.len() implies 0 <= item_of(#[trigger] added[i]) < n by {
            if i < earlier.len() {
                assert(added[i] == earlier[i]);
            }
        }
        assert forall|i: int, j: int| 0 <= i < j < added.len() implies item_of(#[trigger] added[i])
            < item_of(#[trigger] added[j]) by {
            assert(added[i] == earlier[i]);
            if j < earlier.len() {
                assert(added[j] == earlier[j]);
            }
        }
    }
}

/// Content takes its track's voices in turn, one for each trigger, and plays its lanes or notes in
/// order, none of them twice.
pub proof fn law_content_takes_voices_in_turn(
    voices: TrackVoices,
    track_index: usize,
    source: ContentSource,
    track: Track,
    content: RegionContent,
    tick: int,
)
    ensures
        ({
            let (added, after) = content_triggers(
                voices,
                track_index,
                source,
                track,
                content,
                tick,
            );
            &&& taken_in_turn(voices, added)
            &&& after == pools_after(voices, added, added.len())
            &&& forall|i: int| 0 <= i < added.len() ==> 0 <= item_of(#[trigger] added[i])
            &&& forall|i: int, j: int|
                0 <= i < j < added.len() ==> item_of(#[trigger] added[i]) < item_of(
                    #[trigger] added[j],
                )
        }),
{
    match content {
        RegionContent::StepGrid(lanes) => {
            assert(lanes.len() == lanes@.len());
            let n = lanes@.len();
            lemma_lanes_take_turns(voices, track_index, source, track, lanes@, n, tick);
            lemma_lanes_come_in_order(voices, track_index, source, track, lanes@, n, tick);
        },
        RegionContent::PianoRoll(notes) => {
            assert(notes.len() == notes@.len());
            let n = notes@.len();
            lemma_notes_take_turns(voices, track_index, source, track, notes@, n, tick);
            lemma_notes_come_in_order(voices, track_index, source, track, notes@, n, tick);
        },
    }
}

/// What content sets off, note by note: at a tick of its own it plays exactly the notes that start
/// there, each as it is written.
pub proof fn law_notes_sound_when_they_start(
    voices: TrackVoices,
    track_index: usize,
    source: ContentSource,
    track: Track,
    notes: Vec<Note>,
    tick: int,
    k: int,
)
    requires
        voices.wf(),
        0 <= k < notes@.len(),
    ensures
        ({
            let added = content_triggers(
                voices,
                track_index,
                source,
                track,
                RegionContent::PianoRoll(notes),
                tick,
            ).0;
            &&& notes@[k].start_tick == tick ==> exists|i: int|
                0 <= i < added.len() && (#[trigger] added[i] matches Trigger::Note {
                    track: t,
                    source: s,
                    note,
                    pitch,
                    velocity,
                    length_ticks,
                    ..
                } && t == track_index && s == source && note == k && pitch == notes@[k].pitch
                    && velocity == notes@[k].velocity && length_ticks == notes@[k].length_ticks)
            &&& notes@[k].start_tick != tick ==> forall|i: int|
                0 <= i < added.len() ==> !(#[trigger] added[i] matches Trigger::Note { note, .. }
                    && note == k)
            &&& forall|i: int| 0 <= i < added.len() ==> (#[trigger] added[i]) is Note
        }),
{
    let content = RegionContent::PianoRoll(notes);
    law_content_triggers_what_it_calls_for(voices, track_index, source, track, content, tick);
    let added = content_triggers(voices, track_index, source, track, content, tick).0;
    if notes@[k].start_tick == tick {
        let i = choose|i: int| 0 <= i < added.len() && plays_note(#[trigger] added[i], k);
        assert(called_for(track_index, source, track, content, tick, added[i]));
    } else {
        assert forall|i: int| 0 <= i < added.len() implies !(
        #[trigger] added[i] matches Trigger::Note { note, .. } && note == k) by {
            assert(called_for(track_index, source, track, content, tick, added[i]));
        }
    }
    assert forall|i: int| 0 <= i < added.len() implies (#[trigger] added[i]) is Note by {
        assert(called_for(track_index, source, track, content, tick, added[i]));
    }
}

/// What content sets off, lane by lane: at a tick of its own it plays exactly the lanes that have a
/// step sounding there, each as hard as that step is hit.
pub proof fn law_lanes_sound_where_they_have_a_step(
    voices: TrackVoices,
    track_index: usize,
    source: ContentSource,
    track: Track,
    lanes: Vec<Lane>,
    tick: int,
    l: int,
)
    requires
        voices.wf(),
        0 <= l < lanes@.len(),
    ensures
        ({
            let added = content_triggers(
                voices,
                track_index,
                source,
                track,
                RegionContent::StepGrid(lanes),
                tick,
            ).0;
            let lane = lanes@[l];
            &&& step_at(lane, tick) is Some && lane.sample is Some ==> exists|i: int|
                0 <= i < added.len() && (#[trigger] added[i] matches Trigger::LaneSample {
                    track: t,
                    source: s,
                    lane: played,
                    velocity,
                    ..
                } && t == track_index && s == source && played == l && velocity == (step_at(
                    lane,
                    tick,
                )->0).velocity)
            &&& step_at(lane, tick) is Some && lane.sample is None ==> exists|i: int|
                0 <= i < added.len() && (#[trigger] added[i] matches Trigger::LaneSynth {
                    track: t,
                    source: s,
                    lane: played,
                    pitch,
                    velocity,
                    ..
                } && t == track_index && s == source && played == l && pitch == lane.pitch
                    && velocity == (step_at(lane, tick)->0).velocity)
            &&& step_at(lane, tick) is None ==> forall|i: int|
                0 <= i < added.len() ==> !(#[trigger] added[i] matches Trigger::LaneSample {
                    lane: played,
                    ..
                } && played == l) && !(added[i] matches Trigger::LaneSynth { lane: played, .. }
                    && played == l)
            &&& forall|i: int|
                0 <= i < added.len() ==> (#[trigger] added[i]) is LaneSample || added[i] is LaneSynth
        }),
{
    let content = RegionContent::StepGrid(lanes);
    law_content_triggers_what_it_calls_for(voices, track_index, source, track, content, tick);
    let added = content_triggers(voices, track_index, source, track, content, tick).0;
    if step_at(lanes@[l], tick) is Some {
        let i = choose|i: int| 0 <= i < added.len() && plays_lane(#[trigger] added[i], l);
        assert(called_for(track_index, source, track, content, tick, added[i]));
    } else {
        assert forall|i: int| 0 <= i < added.len() implies !(
        #[trigger] added[i] matches Trigger::LaneSample { lane: played, .. } && played == l) && !(
        added[i] matches Trigger::LaneSynth { lane: played, .. } && played == l) by {
            assert(called_for(track_index, source, track, content, tick, added[i]));
        }
    }
    assert forall|i: int| 0 <= i < added.len() implies (#[trigger] added[i]) is LaneSample
        || added[i] is LaneSynth by {
        assert(called_for(track_index, source, track, content, tick, added[i]));
    }
}

/// Thirty-two voices of a kind can sound at once on a track: a voice is taken again after exactly as
/// many others as there are, and not before.
pub proof fn law_a_voice_is_taken_again_after_thirty_two(
    voices: TrackVoices,
    engine: SynthEngine,
    n: nat,
)
    requires
        voices.wf(),
        0 < n <= 32,
    ensures
        after_samples(voices, n).next_sample_voice == voices.next_sample_voice <==> n == 32,
        after_synths(voices, engine, n).next_synth(engine) == voices.next_synth(engine) <==> n
            == 32,
{
    law_sample_voices_go_round(voices, n);
    let other = if engine == SynthEngine::Simple {
        SynthEngine::Wave
    } else {
        SynthEngine::Simple
    };
    law_synth_voices_go_round(voices, engine, other, n);
}

} // verus!
