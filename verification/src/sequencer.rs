//! The tick clock: what each tick of the song sets off, in the arrangement or the session grid.

use vstd::prelude::*;

use crate::arrangement::{
    arrangement_triggers, arrangement_voices, law_a_bake_ignores_an_earlier_one,
    same_but_for_freeze, trigger_arrangement,
};
use crate::grid::{
    at_most_one_sounds, carries_on, decided, extends, from_slot, law_a_track_tick_keeps_one_clip,
    law_a_track_tick_only_adds, GridView, RunView, TickContext, TrackDecisions, TrackGrid, TrackRun,
};
use crate::metronome::{
    law_clicks_are_a_beat_apart, on_the_beat, Metronome, METRONOME_BEAT_TICKS,
};
use crate::model::{RegionContent, SessionClipContent, Song, STEPS_PER_BEAT, TICKS_PER_STEP};
use crate::session::{CaptureEvent, CaptureEventKind, SlotRules, SlotState};
use crate::slot_laws::{
    is_set_off, law_every_heard_slot_plays_what_it_has_at_its_place, lemma_set_off_lasts,
};
use crate::solo::{any_solo, has_solo, silent, track_silent, Selection};
use crate::timeline::{arrangement_length, arrangement_length_ticks, law_reach_ignores_freeze};
use crate::trigger::{TrackVoices, Trigger};

verus! {

/// Owns the tick clock, each track's place in its voice pools, and the session grid's state.
pub struct Sequencer {
    voices: Vec<TrackVoices>,
    tick_index: usize,
    last_triggered_tick: usize,
    metronome: Metronome,
    grids: Vec<TrackGrid>,
    was_capturing: bool,
    capture_tick: usize,
    capture_log: Vec<CaptureEvent>,
}

/// A [`Sequencer`] as the contracts speak of it.
#[verifier::ext_equal]
pub struct SequencerView {
    pub voices: Seq<TrackVoices>,
    /// The tick that fires next.
    pub tick_index: usize,
    /// The tick that fired last.
    pub last_triggered_tick: usize,
    pub metronome: Metronome,
    pub grids: Seq<GridView>,
    pub was_capturing: bool,
    /// Ticks since capturing was armed. Unlike `tick_index` it does not wrap.
    pub capture_tick: usize,
    pub capture_log: Seq<CaptureEvent>,
}

impl SequencerView {
    /// Every voice index names a voice, and every track's slot rows have one length.
    pub open spec fn wf(self) -> bool {
        &&& forall|t: int| 0 <= t < self.voices.len() ==> (#[trigger] self.voices[t]).wf()
        &&& forall|t: int|
            0 <= t < self.grids.len() ==> (#[trigger] self.grids[t]).wf(self.grids[t].states.len())
    }
}

/// The session grid in the course of one tick.
#[verifier::ext_equal]
pub struct SessionRun {
    pub grids: Seq<GridView>,
    pub voices: Seq<TrackVoices>,
    pub triggers: Seq<Trigger>,
    pub log: Seq<CaptureEvent>,
}

/// The sequencer with its tick clock, and the metronome's click, back at the start.
pub open spec fn rewound(s: SequencerView) -> SequencerView {
    SequencerView {
        tick_index: 0,
        last_triggered_tick: 0,
        metronome: Metronome { position: 0, ..s.metronome },
        ..s
    }
}

/// Whether no track has more than one slot that is heard.
pub open spec fn one_clip_per_track(grids: Seq<GridView>) -> bool {
    forall|t: int| 0 <= t < grids.len() ==> at_most_one_sounds((#[trigger] grids[t]).states)
}

/// Whether there is a row of slots for each of the song's tracks, as long as its row of clips.
pub open spec fn rows_fit(song: Song, grids: Seq<GridView>) -> bool {
    &&& grids.len() == song.tracks@.len()
    &&& forall|t: int|
        0 <= t < grids.len() ==> (#[trigger] grids[t]).wf(song.tracks@[t].session_clips@.len())
}

/// Each track's grid, with as many tracks and slots as the song has. Tracks that are new start
/// without slots, and slots that are new start stopped.
pub open spec fn fitted_grids(song: Song, grids: Seq<GridView>) -> Seq<GridView> {
    Seq::new(
        song.tracks@.len(),
        |t: int|
            (if t < grids.len() {
                grids[t]
            } else {
                GridView { states: Seq::empty(), seen: Seq::empty(), audio_voice: Seq::empty() }
            }).resized(song.tracks@[t].session_clips@.len()),
    )
}

/// The pools of each of `count` tracks: those that are new start fresh.
pub open spec fn fitted_voices(voices: Seq<TrackVoices>, count: nat) -> Seq<TrackVoices> {
    Seq::new(
        count,
        |t: int|
            if t < voices.len() {
                voices[t]
            } else {
                TrackVoices {
                    next_voice: 0,
                    next_trine_voice: 0,
                    next_wave_voice: 0,
                    next_sample_voice: 0,
                    last_pitch: None,
                }
            },
    )
}

impl SessionRun {
    /// One track of the run.
    pub open spec fn track(self, t: int) -> RunView {
        RunView {
            states: self.grids[t].states,
            seen: self.grids[t].seen,
            audio_voice: self.grids[t].audio_voice,
            voices: self.voices[t],
            triggers: self.triggers,
            log: self.log,
        }
    }

    /// After the first `n` tracks have had their tick. A silent track's slots stand still.
    pub open spec fn after_tracks(
        self,
        song: Song,
        context: TickContext,
        decisions: Seq<TrackDecisions>,
        n: nat,
    ) -> SessionRun
        decreases n,
    {
        if n == 0 {
            self
        } else {
            let earlier = self.after_tracks(song, context, decisions, (n - 1) as nat);
            let track = song.tracks@[n - 1];
            if silent(song, track) {
                earlier
            } else {
                let run = earlier.track(n - 1).advanced(
                    TickContext { track_index: (n - 1) as usize, ..context },
                    track,
                    decisions[n - 1],
                );
                SessionRun {
                    grids: earlier.grids.update(n - 1, run.grid()),
                    voices: earlier.voices.update(n - 1, run.voices),
                    triggers: run.triggers,
                    log: run.log,
                }
            }
        }
    }
}

/// Whether `decisions` holds what the session rules decide about the first `n` tracks.
pub open spec fn all_decided<R: SlotRules>(
    rules: &R,
    song: Song,
    context: TickContext,
    run: SessionRun,
    decisions: Seq<TrackDecisions>,
    n: nat,
) -> bool {
    forall|t: int|
        0 <= t < n && !silent(song, #[trigger] song.tracks@[t]) ==> decided(
            rules,
            TickContext { track_index: t as usize, ..context },
            song.tracks@[t],
            run.after_tracks(song, context, decisions, t as nat).track(t),
            decisions[t],
        )
}

proof fn lemma_tracks_prefix(
    run: SessionRun,
    song: Song,
    context: TickContext,
    a: Seq<TrackDecisions>,
    b: Seq<TrackDecisions>,
    n: nat,
)
    requires
        forall|i: int| 0 <= i < n ==> a[i] == b[i],
    ensures
        run.after_tracks(song, context, a, n) == run.after_tracks(song, context, b, n),
    decreases n,
{
    if n > 0 {
        lemma_tracks_prefix(run, song, context, a, b, (n - 1) as nat);
    }
}

/// The views of a list of grids.
pub open spec fn grid_views(grids: Seq<TrackGrid>) -> Seq<GridView> {
    Seq::new(grids.len(), |t: int| grids[t]@)
}

impl View for Sequencer {
    type V = SequencerView;

    closed spec fn view(&self) -> SequencerView {
        SequencerView {
            voices: self.voices@,
            tick_index: self.tick_index,
            last_triggered_tick: self.last_triggered_tick,
            metronome: self.metronome,
            grids: grid_views(self.grids@),
            was_capturing: self.was_capturing,
            capture_tick: self.capture_tick,
            capture_log: self.capture_log@,
        }
    }
}

/// The log and its tick once the capture switch has been looked at: arming it starts afresh, and
/// the tick goes up for as long as it stays armed.
pub open spec fn capture_armed(s: SequencerView, capturing: bool) -> (Seq<CaptureEvent>, int) {
    if capturing && !s.was_capturing {
        (Seq::empty(), 0)
    } else if capturing {
        (s.capture_log, s.capture_tick + 1)
    } else {
        (s.capture_log, s.capture_tick as int)
    }
}

/// What the session grid's tick starts from.
pub open spec fn session_start(s: SequencerView, song: Song, capturing: bool) -> SessionRun {
    SessionRun {
        grids: fitted_grids(song, s.grids),
        voices: s.voices,
        triggers: Seq::empty(),
        log: capture_armed(s, capturing).0,
    }
}

/// What is the same for every track during the session grid's tick.
pub open spec fn session_context(s: SequencerView, quantize_ticks: usize, capturing: bool)
    -> TickContext {
    TickContext {
        track_index: 0,
        tick_now: s.tick_index,
        quantize_ticks,
        capturing,
        capture_tick: capture_armed(s, capturing).1 as usize,
    }
}

/// The sequencer after the session grid's tick, given what the session rules decided.
pub open spec fn session_ticked(
    s: SequencerView,
    song: Song,
    quantize_ticks: usize,
    capturing: bool,
    decisions: Seq<TrackDecisions>,
) -> (SequencerView, Seq<Trigger>) {
    let run = session_start(s, song, capturing).after_tracks(
        song,
        session_context(s, quantize_ticks, capturing),
        decisions,
        song.tracks@.len(),
    );
    (
        SequencerView {
            voices: run.voices,
            grids: run.grids,
            was_capturing: capturing,
            capture_tick: capture_armed(s, capturing).1 as usize,
            capture_log: run.log,
            ..s
        },
        run.triggers,
    )
}

/// Whether `decisions` holds what the session rules decide during the session grid's tick.
pub open spec fn session_decided<R: SlotRules>(
    rules: &R,
    s: SequencerView,
    song: Song,
    quantize_ticks: usize,
    capturing: bool,
    decisions: Seq<TrackDecisions>,
) -> bool {
    all_decided(
        rules,
        song,
        session_context(s, quantize_ticks, capturing),
        session_start(s, song, capturing),
        decisions,
        song.tracks@.len(),
    )
}

impl Sequencer {
    /// A sequencer at the start of the song, with nothing sounding.
    pub fn new() -> (sequencer: Self)
        ensures
            sequencer@.wf(),
            sequencer@ == (SequencerView {
                voices: Seq::empty(),
                tick_index: 0,
                last_triggered_tick: 0,
                metronome: Metronome { position: 0, length: 0, accent: false },
                grids: Seq::empty(),
                was_capturing: false,
                capture_tick: 0,
                capture_log: Seq::empty(),
            }),
    {
        let sequencer = Sequencer {
            voices: Vec::new(),
            tick_index: 0,
            last_triggered_tick: 0,
            metronome: Metronome::new(),
            grids: Vec::new(),
            was_capturing: false,
            capture_tick: 0,
            capture_log: Vec::new(),
        };
        assert(sequencer@.grids =~= Seq::empty());
        sequencer
    }

    /// Rewinds the tick clock to the start without touching sounding voices or session slots.
    pub fn reset_position(&mut self)
        ensures
            final(self)@ == rewound(old(self)@),
    {
        self.tick_index = 0;
        self.last_triggered_tick = 0;
        self.metronome.position = 0;
    }

    /// The tick most recently triggered.
    pub fn current_tick(&self) -> (tick: usize)
        ensures
            tick == self@.last_triggered_tick,
    {
        self.last_triggered_tick
    }

    /// The tick that fires next.
    pub fn next_tick(&self) -> (tick: usize)
        ensures
            tick == self@.tick_index,
    {
        self.tick_index
    }
}

impl Sequencer {
    /// Gives every track of the song a grid, and every slot of a track a state.
    fn fit_grids(&mut self, song: &Song)
        requires
            old(self)@.wf(),
        ensures
            final(self)@.wf(),
            final(self)@ == (SequencerView {
                grids: fitted_grids(*song, old(self)@.grids),
                ..old(self)@
            }),
            final(self).grids@.len() == song.tracks@.len(),
    {
        let ghost before = self@.grids;
        self.grids.truncate(song.tracks.len());
        while self.grids.len() < song.tracks.len()
            invariant
                self.grids@.len() <= song.tracks@.len(),
                self.grids@.len() < song.tracks@.len() ==> before.len() <= self.grids@.len(),
                forall|t: int|
                    0 <= t < self.grids@.len() ==> (#[trigger] self.grids@[t])@ == (if t
                        < before.len() {
                        before[t]
                    } else {
                        GridView {
                            states: Seq::empty(),
                            seen: Seq::empty(),
                            audio_voice: Seq::empty(),
                        }
                    }),
                self.voices == old(self).voices,
                self.tick_index == old(self).tick_index,
                self.last_triggered_tick == old(self).last_triggered_tick,
                self.metronome == old(self).metronome,
                self.was_capturing == old(self).was_capturing,
                self.capture_tick == old(self).capture_tick,
                self.capture_log == old(self).capture_log,
            decreases song.tracks@.len() - self.grids@.len(),
        {
            let grid = TrackGrid::new();
            assert(grid@ =~= (GridView {
                states: Seq::empty(),
                seen: Seq::empty(),
                audio_voice: Seq::empty(),
            }));
            self.grids.push(grid);
        }
        let ghost counted = grid_views(self.grids@);
        let mut t: usize = 0;
        while t < song.tracks.len()
            invariant
                t <= song.tracks@.len(),
                self.grids@.len() == song.tracks@.len(),
                counted.len() == song.tracks@.len(),
                forall|k: int|
                    0 <= k < t ==> (#[trigger] self.grids@[k])@ == counted[k].resized(
                        song.tracks@[k].session_clips@.len(),
                    ),
                forall|k: int|
                    t <= k < counted.len() ==> (#[trigger] self.grids@[k])@ == counted[k],
                self.voices == old(self).voices,
                self.tick_index == old(self).tick_index,
                self.last_triggered_tick == old(self).last_triggered_tick,
                self.metronome == old(self).metronome,
                self.was_capturing == old(self).was_capturing,
                self.capture_tick == old(self).capture_tick,
                self.capture_log == old(self).capture_log,
            decreases song.tracks@.len() - t,
        {
            assert(self.grids@[t as int]@ == counted[t as int]);
            self.grids[t].resize(song.tracks[t].session_clips.len());
            t += 1;
        }
        assert(self@.grids =~= fitted_grids(*song, before));
    }

    /// One tick of the session grid: every slot of every audible track takes in its clicks,
    /// advances and triggers what it has. Arming the capture switch starts a fresh log. Every track
    /// keeps to one clip at a time.
    pub fn trigger_session_clips<R: SlotRules>(
        &mut self,
        rules: &R,
        song: &Song,
        session_quantize_ticks: usize,
        capturing: bool,
    ) -> (triggers: Vec<Trigger>)
        requires
            old(self)@.wf(),
            old(self)@.voices.len() == song.tracks@.len(),
            capturing && old(self)@.was_capturing ==> old(self)@.capture_tick < usize::MAX,
        ensures
            final(self)@.wf(),
            rows_fit(*song, final(self)@.grids),
            one_clip_per_track(old(self)@.grids) ==> one_clip_per_track(final(self)@.grids),
            exists|decisions: Seq<TrackDecisions>|
                {
                    &&& #[trigger] session_decided(
                        rules,
                        old(self)@,
                        *song,
                        session_quantize_ticks,
                        capturing,
                        decisions,
                    )
                    &&& (final(self)@, triggers@) == session_ticked(
                        old(self)@,
                        *song,
                        session_quantize_ticks,
                        capturing,
                        decisions,
                    )
                },
    {
        let ghost before = self@;
        let triggers = self.tick_grids(rules, song, session_quantize_ticks, capturing);
        proof {
            let decisions = choose|decisions: Seq<TrackDecisions>|
                #[trigger] session_decided(
                    rules,
                    before,
                    *song,
                    session_quantize_ticks,
                    capturing,
                    decisions,
                ) && (self@, triggers@) == session_ticked(
                    before,
                    *song,
                    session_quantize_ticks,
                    capturing,
                    decisions,
                );
            law_session_rows_fit(before, *song, session_quantize_ticks, capturing, decisions);
            if one_clip_per_track(before.grids) {
                law_a_session_tick_keeps_one_clip_per_track(
                    before,
                    *song,
                    session_quantize_ticks,
                    capturing,
                    decisions,
                );
            }
        }
        triggers
    }

    /// Gives every audible track's slots their tick.
    fn tick_grids<R: SlotRules>(
        &mut self,
        rules: &R,
        song: &Song,
        session_quantize_ticks: usize,
        capturing: bool,
    ) -> (triggers: Vec<Trigger>)
        requires
            old(self)@.wf(),
            old(self)@.voices.len() == song.tracks@.len(),
            capturing && old(self)@.was_capturing ==> old(self)@.capture_tick < usize::MAX,
        ensures
            final(self)@.wf(),
            exists|decisions: Seq<TrackDecisions>|
                {
                    &&& #[trigger] session_decided(
                        rules,
                        old(self)@,
                        *song,
                        session_quantize_ticks,
                        capturing,
                        decisions,
                    )
                    &&& (final(self)@, triggers@) == session_ticked(
                        old(self)@,
                        *song,
                        session_quantize_ticks,
                        capturing,
                        decisions,
                    )
                },
    {
        let ghost s0 = self@;
        self.fit_grids(song);
        if capturing && !self.was_capturing {
            self.capture_log.clear();
            self.capture_tick = 0;
        } else if capturing {
            self.capture_tick = self.capture_tick + 1;
        }
        self.was_capturing = capturing;
        let context = TickContext {
            track_index: 0,
            tick_now: self.tick_index,
            quantize_ticks: session_quantize_ticks,
            capturing,
            capture_tick: self.capture_tick,
        };
        let ghost start = session_start(s0, *song, capturing);
        assert(context == session_context(s0, session_quantize_ticks, capturing));
        let solo_active: bool = has_solo(song);
        let mut triggers: Vec<Trigger> = Vec::new();
        let mut log: Vec<CaptureEvent> = Vec::new();
        std::mem::swap(&mut log, &mut self.capture_log);
        let ghost mut decisions: Seq<TrackDecisions> = Seq::empty();
        assert(grid_views(self.grids@) =~= start.grids);
        assert forall|k: int| 0 <= k < song.tracks@.len() implies (#[trigger] self.grids@[k])@.wf(
            song.tracks@[k].session_clips@.len(),
        ) by {
            assert(self@.grids[k] == self.grids@[k]@);
        }
        let mut t: usize = 0;
        while t < song.tracks.len()
            invariant
                t <= song.tracks@.len(),
                solo_active == any_solo(*song),
                self@.wf(),
                self.grids@.len() == song.tracks@.len(),
                self.voices@.len() == song.tracks@.len(),
                forall|k: int|
                    0 <= k < song.tracks@.len() ==> (#[trigger] self.grids@[k])@.wf(
                        song.tracks@[k].session_clips@.len(),
                    ),
                decisions.len() == t,
                (SessionRun {
                    grids: grid_views(self.grids@),
                    voices: self.voices@,
                    triggers: triggers@,
                    log: log@,
                }) == start.after_tracks(*song, context, decisions, t as nat),
                all_decided(rules, *song, context, start, decisions, t as nat),
                self.tick_index == s0.tick_index,
                self.last_triggered_tick == s0.last_triggered_tick,
                self.metronome == s0.metronome,
                self.was_capturing == capturing,
                self.capture_tick == context.capture_tick,
            decreases song.tracks@.len() - t,
        {
            let track = &song.tracks[t];
            let ghost earlier = start.after_tracks(*song, context, decisions, t as nat);
            let ghost mut decision: TrackDecisions = TrackDecisions {
                answers: Seq::empty(),
                targets: Seq::empty(),
            };
            assert(self@.voices[t as int].wf());
            assert(self.grids@[t as int]@ == earlier.grids[t as int]);
            if !track_silent(song, track, solo_active) {
                let mut grid = TrackGrid::new();
                std::mem::swap(&mut grid, &mut self.grids[t]);
                let mut run = TrackRun { grid, voices: self.voices[t], triggers, log };
                let ghost run0 = run@;
                assert(run0 == earlier.track(t as int));
                let track_context = TickContext { track_index: t, ..context };
                run.advance_track(rules, track_context, track);
                proof {
                    decision = choose|d: TrackDecisions|
                        #[trigger] decided(rules, track_context, *track, run0, d) && run@
                            == run0.advanced(track_context, *track, d);
                }
                let ghost after = run@;
                self.grids[t] = run.grid;
                self.voices[t] = run.voices;
                triggers = run.triggers;
                log = run.log;
                assert(grid_views(self.grids@) =~= earlier.grids.update(t as int, after.grid()));
                assert(self.voices@ =~= earlier.voices.update(t as int, after.voices));
            }
            proof {
                let extended = decisions.push(decision);
                lemma_tracks_prefix(start, *song, context, decisions, extended, t as nat);
                assert forall|k: int|
                    0 <= k < t + 1 && !silent(*song, #[trigger] song.tracks@[k]) implies decided(
                    rules,
                    TickContext { track_index: k as usize, ..context },
                    song.tracks@[k],
                    start.after_tracks(*song, context, extended, k as nat).track(k),
                    extended[k],
                ) by {
                    lemma_tracks_prefix(start, *song, context, decisions, extended, k as nat);
                }
                decisions = extended;
            }
            t += 1;
        }
        let ghost ended = self@;
        self.capture_log = log;
        proof {
            assert(self@ == (SequencerView { capture_log: log@, ..ended }));
            assert(session_decided(
                rules,
                s0,
                *song,
                session_quantize_ticks,
                capturing,
                decisions,
            ));
            assert((self@, triggers@) == session_ticked(
                s0,
                *song,
                session_quantize_ticks,
                capturing,
                decisions,
            ));
        }
        triggers
    }
}

/// What the transport asks of a tick, with the length of a metronome click in frames.
#[derive(Clone, Copy, Debug, PartialEq, Eq, Structural)]
pub struct TickSettings {
    /// Play the arrangement of every track, whatever is muted or soloed: a bounce leaves none out.
    pub every_track: bool,
    /// The track that is baked down: it plays its live content even while it is frozen.
    pub live_track: Option<usize>,
    pub metronome_enabled: bool,
    pub click_frames: usize,
    pub session_mode: bool,
    pub session_quantize_ticks: usize,
    pub capturing: bool,
}

impl TickSettings {
    /// Which of the arrangement's tracks play, and whether they play live.
    pub open spec fn selected(self) -> Selection {
        Selection { every_track: self.every_track, live_track: self.live_track }
    }

    /// Which of the arrangement's tracks play, and whether they play live.
    pub fn selection(self) -> (selection: Selection)
        ensures
            selection == self.selected(),
    {
        Selection { every_track: self.every_track, live_track: self.live_track }
    }
}

/// The sequencer at the start of a buffer.
pub open spec fn begun(s: SequencerView, song: Song) -> SequencerView {
    SequencerView {
        voices: fitted_voices(s.voices, song.tracks@.len()),
        tick_index: (s.tick_index as int % arrangement_length(song)) as usize,
        ..s
    }
}

/// The sequencer as a tick fires: the tick is noted, and the metronome clicks on a beat, accented
/// at the very start.
pub open spec fn fired(s: SequencerView, settings: TickSettings) -> SequencerView {
    SequencerView {
        last_triggered_tick: s.tick_index,
        metronome: if settings.metronome_enabled && on_the_beat(s.tick_index as int) {
            Metronome {
                position: 0,
                length: settings.click_frames,
                accent: s.tick_index == 0,
            }
        } else {
            s.metronome
        },
        ..s
    }
}

/// The sequencer with its clock moved on by a tick, wrapping at the end of the arrangement.
pub open spec fn moved_on(s: SequencerView, song: Song) -> SequencerView {
    SequencerView {
        tick_index: ((s.tick_index + 1) % arrangement_length(song)) as usize,
        ..s
    }
}

/// The sequencer after a tick of the arrangement.
pub open spec fn arrangement_ticked(s: SequencerView, song: Song, selection: Selection)
    -> SequencerView {
    SequencerView {
        voices: arrangement_voices(song, selection, s.voices, s.tick_index as int),
        ..s
    }
}

impl Sequencer {
    /// Gets ready for a buffer: every track of the song has voice pools, and the clock lies within
    /// the arrangement.
    pub fn begin_buffer(&mut self, song: &Song)
        requires
            old(self)@.wf(),
            song.fits(),
        ensures
            final(self)@.wf(),
            final(self)@ == begun(old(self)@, *song),
            final(self)@.tick_index < arrangement_length(*song),
    {
        let ghost before = self.voices@;
        let ghost s0 = self@;
        self.voices.truncate(song.tracks.len());
        assert forall|t: int| 0 <= t < self.voices@.len() implies (#[trigger] self.voices@[t]).wf() by {
            assert(s0.voices[t].wf());
        }
        while self.voices.len() < song.tracks.len()
            invariant
                self.voices@.len() <= song.tracks@.len(),
                self.voices@.len() < song.tracks@.len() ==> before.len() <= self.voices@.len(),
                forall|t: int|
                    0 <= t < self.voices@.len() ==> #[trigger] self.voices@[t] == fitted_voices(
                        before,
                        song.tracks@.len(),
                    )[t],
                forall|t: int| 0 <= t < self.voices@.len() ==> (#[trigger] self.voices@[t]).wf(),
                self@ == (SequencerView { voices: self.voices@, ..s0 }),
            decreases song.tracks@.len() - self.voices@.len(),
        {
            self.voices.push(TrackVoices::new());
        }
        assert(self.voices@ =~= fitted_voices(before, song.tracks@.len()));
        let length: usize = arrangement_length_ticks(song);
        self.tick_index = self.tick_index % length;
        assert(self@ == (SequencerView {
            voices: fitted_voices(before, song.tracks@.len()),
            tick_index: (s0.tick_index as int % arrangement_length(*song)) as usize,
            ..s0
        }));
    }

    /// Fires the next tick. In session mode only the session grid sounds, otherwise only the
    /// arrangement. What is to be done to which voice is returned in order.
    pub fn process_tick<R: SlotRules>(&mut self, rules: &R, song: &Song, settings: TickSettings)
        -> (triggers: Vec<Trigger>)
        requires
            old(self)@.wf(),
            song.fits(),
            old(self)@.voices.len() == song.tracks@.len(),
            old(self)@.tick_index < arrangement_length(*song),
            settings.session_mode && settings.capturing && old(self)@.was_capturing ==> old(
                self,
            )@.capture_tick < usize::MAX,
        ensures
            final(self)@.wf(),
            final(self)@.tick_index < arrangement_length(*song),
            final(self)@.voices.len() == song.tracks@.len(),
            one_clip_per_track(old(self)@.grids) ==> one_clip_per_track(final(self)@.grids),
            settings.session_mode ==> rows_fit(*song, final(self)@.grids),
            !settings.session_mode ==> {
                &&& triggers@ == arrangement_triggers(
                    *song,
                    settings.selected(),
                    old(self)@.voices,
                    old(self)@.tick_index as int,
                )
                &&& final(self)@ == moved_on(
                    arrangement_ticked(fired(old(self)@, settings), *song, settings.selected()),
                    *song,
                )
            },
            settings.session_mode ==> exists|decisions: Seq<TrackDecisions>|
                {
                    &&& #[trigger] session_decided(
                        rules,
                        fired(old(self)@, settings),
                        *song,
                        settings.session_quantize_ticks,
                        settings.capturing,
                        decisions,
                    )
                    &&& (final(self)@, triggers@) == ({
                        let ticked = session_ticked(
                            fired(old(self)@, settings),
                            *song,
                            settings.session_quantize_ticks,
                            settings.capturing,
                            decisions,
                        );
                        (moved_on(ticked.0, *song), ticked.1)
                    })
                },
    {
        let ghost s0 = self@;
        let tick: usize = self.tick_index;
        self.last_triggered_tick = tick;
        if settings.metronome_enabled && tick % METRONOME_BEAT_TICKS == 0 {
            self.metronome.trigger_metronome_click(tick == 0, settings.click_frames);
        }
        assert(self@ == fired(s0, settings));
        let ghost s1 = self@;
        let triggers: Vec<Trigger>;
        if settings.session_mode {
            triggers =
            self.trigger_session_clips(
                rules,
                song,
                settings.session_quantize_ticks,
                settings.capturing,
            );
        } else {
            triggers = trigger_arrangement(&mut self.voices, song, settings.selection(), tick);
            assert(self@ == arrangement_ticked(s1, *song, settings.selected()));
        }
        let ghost s2 = self@;
        let length: usize = arrangement_length_ticks(song);
        self.tick_index = (tick + 1) % length;
        assert(self@ == moved_on(s2, *song));
        proof {
            if settings.session_mode {
                let decisions = choose|decisions: Seq<TrackDecisions>|
                    {
                        &&& #[trigger] session_decided(
                            rules,
                            s1,
                            *song,
                            settings.session_quantize_ticks,
                            settings.capturing,
                            decisions,
                        )
                        &&& (s2, triggers@) == session_ticked(
                            s1,
                            *song,
                            settings.session_quantize_ticks,
                            settings.capturing,
                            decisions,
                        )
                    };
                lemma_tracks_keep_lengths(
                    session_start(s1, *song, settings.capturing),
                    *song,
                    session_context(s1, settings.session_quantize_ticks, settings.capturing),
                    decisions,
                    song.tracks@.len(),
                );
                assert(session_decided(
                    rules,
                    fired(s0, settings),
                    *song,
                    settings.session_quantize_ticks,
                    settings.capturing,
                    decisions,
                ));
            }
        }
        triggers
    }
}

proof fn lemma_tracks_keep_lengths(
    run: SessionRun,
    song: Song,
    context: TickContext,
    decisions: Seq<TrackDecisions>,
    n: nat,
)
    requires
        n <= run.grids.len(),
        n <= run.voices.len(),
    ensures
        run.after_tracks(song, context, decisions, n).grids.len() == run.grids.len(),
        run.after_tracks(song, context, decisions, n).voices.len() == run.voices.len(),
    decreases n,
{
    if n > 0 {
        lemma_tracks_keep_lengths(run, song, context, decisions, (n - 1) as nat);
    }
}

/// The session grid's slot states, track by track, as published for a user interface to show.
pub type SessionSlotHandles = Vec<Vec<SlotState>>;

/// The log of a captured performance, and the capture tick to close what is still open at.
pub type CaptureLogHandle = (Vec<CaptureEvent>, usize);

/// Slot states before anything has been published: no track yet.
pub fn new_session_slot_handles() -> (handles: SessionSlotHandles)
    ensures
        handles@ == Seq::<Vec<SlotState>>::empty(),
{
    Vec::new()
}

/// A capture log before anything has been published: no event yet, at tick zero.
pub fn new_capture_log_handle() -> (handle: CaptureLogHandle)
    ensures
        handle.0@ == Seq::<CaptureEvent>::empty(),
        handle.1 == 0,
{
    (Vec::new(), 0)
}

fn copied_event(event: &CaptureEvent) -> (copy: CaptureEvent)
    ensures
        copy == *event,
{
    let kind = match &event.kind {
        CaptureEventKind::Started { clip } => CaptureEventKind::Started { clip: clip.clone() },
        CaptureEventKind::Stopped => CaptureEventKind::Stopped,
    };
    CaptureEvent { relative_tick: event.relative_tick, track_index: event.track_index, kind }
}

fn copied_states(states: &Vec<SlotState>) -> (copy: Vec<SlotState>)
    ensures
        copy@ == states@,
{
    let mut copy: Vec<SlotState> = Vec::new();
    let mut i: usize = 0;
    while i < states.len()
        invariant
            i <= states@.len(),
            copy@ == states@.take(i as int),
        decreases states@.len() - i,
    {
        copy.push(states[i]);
        i += 1;
        assert(copy@ =~= states@.take(i as int));
    }
    assert(copy@ =~= states@);
    copy
}

impl Sequencer {
    /// A copy of every slot's state, to publish.
    pub fn session_slots(&self) -> (handles: SessionSlotHandles)
        ensures
            handles@.len() == self@.grids.len(),
            forall|t: int|
                0 <= t < handles@.len() ==> (#[trigger] handles@[t])@ == self@.grids[t].states,
    {
        let mut handles: SessionSlotHandles = new_session_slot_handles();
        let mut t: usize = 0;
        while t < self.grids.len()
            invariant
                t <= self.grids@.len(),
                handles@.len() == t,
                forall|k: int|
                    0 <= k < t ==> (#[trigger] handles@[k])@ == self.grids@[k]@.states,
            decreases self.grids@.len() - t,
        {
            handles.push(copied_states(&self.grids[t].states));
            t += 1;
        }
        handles
    }

    /// A copy of the capture log with its tick, to publish.
    pub fn capture_log(&self) -> (handle: CaptureLogHandle)
        ensures
            handle.0@ == self@.capture_log,
            handle.1 == self@.capture_tick,
    {
        let mut log: Vec<CaptureEvent> = Vec::new();
        let mut i: usize = 0;
        while i < self.capture_log.len()
            invariant
                i <= self.capture_log@.len(),
                log@ == self.capture_log@.take(i as int),
            decreases self.capture_log@.len() - i,
        {
            log.push(copied_event(&self.capture_log[i]));
            i += 1;
            assert(log@ =~= self.capture_log@.take(i as int));
        }
        assert(log@ =~= self.capture_log@);
        (log, self.capture_tick)
    }

    /// The metronome click's position at the next frame, or `None` where it is silent.
    pub fn next_metronome_click_position(&mut self) -> (position: Option<usize>)
        ensures
            final(self)@ == (SequencerView {
                metronome: old(self)@.metronome.a_frame_later().0,
                ..old(self)@
            }),
            position == old(self)@.metronome.a_frame_later().1,
    {
        self.metronome.next_metronome_click_position()
    }

    /// The metronome's current click.
    pub fn metronome(&self) -> (metronome: Metronome)
        ensures
            metronome == self@.metronome,
    {
        self.metronome
    }
}

/// Whether a trigger comes from a slot of an audible track.
pub open spec fn from_audible_slot(song: Song, trigger: Trigger) -> bool {
    exists|t: usize|
        t < song.tracks@.len() && !silent(song, song.tracks@[t as int]) && #[trigger] from_slot(
            trigger,
            t,
        )
}

/// What the session grid's tick keeps and adds, all along its tracks.
pub open spec fn session_carries_on(
    song: Song,
    context: TickContext,
    before: SessionRun,
    after: SessionRun,
) -> bool {
    &&& after.grids.len() == before.grids.len()
    &&& after.voices.len() == before.voices.len()
    &&& forall|t: int|
        0 <= t < song.tracks@.len() ==> (#[trigger] after.grids[t]).wf(
            song.tracks@[t].session_clips@.len(),
        )
    &&& forall|t: int| 0 <= t < song.tracks@.len() ==> (#[trigger] after.voices[t]).wf()
    &&& forall|i: int|
        0 <= i < after.triggers.len() ==> from_audible_slot(song, #[trigger] after.triggers[i])
    &&& extends(after.log, before.log)
    &&& forall|i: int|
        before.log.len() <= i < after.log.len() ==> (#[trigger] after.log[i]).relative_tick
            == context.capture_tick
    &&& !context.capturing ==> after.log == before.log
}

proof fn lemma_after_tracks(
    run: SessionRun,
    song: Song,
    context: TickContext,
    decisions: Seq<TrackDecisions>,
    n: nat,
)
    requires
        n <= song.tracks@.len(),
        run.grids.len() == song.tracks@.len(),
        run.voices.len() == song.tracks@.len(),
        session_carries_on(song, context, run, run),
    ensures
        session_carries_on(
            song,
            context,
            run,
            run.after_tracks(song, context, decisions, n),
        ),
        forall|t: int|
            0 <= t < song.tracks@.len() && (silent(song, song.tracks@[t]) || n <= t)
                ==> #[trigger] run.after_tracks(song, context, decisions, n).grids[t]
                == run.grids[t],
    decreases n,
{
    if n > 0 {
        lemma_after_tracks(run, song, context, decisions, (n - 1) as nat);
        let earlier = run.after_tracks(song, context, decisions, (n - 1) as nat);
        let after = run.after_tracks(song, context, decisions, n);
        let track = song.tracks@[n - 1];
        assert(song.tracks.len() == song.tracks@.len());
        if !silent(song, track) {
            let t = (n - 1) as usize;
            let track_context = TickContext { track_index: t, ..context };
            assert(earlier.grids[n - 1].wf(track.session_clips@.len()));
            assert(earlier.voices[n - 1].wf());
            assert(earlier.track(n - 1).wf(track.session_clips@.len()));
            law_a_track_tick_only_adds(
                earlier.track(n - 1),
                track_context,
                track,
                decisions[n - 1],
            );
            let done = earlier.track(n - 1).advanced(track_context, track, decisions[n - 1]);
            assert(carries_on(earlier.track(n - 1), done, track_context));
            assert forall|i: int| 0 <= i < after.triggers.len() implies from_audible_slot(
                song,
                #[trigger] after.triggers[i],
            ) by {
                if i < earlier.triggers.len() {
                    assert(after.triggers[i] == earlier.triggers[i]);
                } else {
                    assert(from_slot(after.triggers[i], t));
                }
            }
            assert forall|i: int| 0 <= i < run.log.len() implies #[trigger] after.log[i]
                == run.log[i] by {
                assert(earlier.log[i] == run.log[i]);
            }
            assert forall|i: int| run.log.len() <= i < after.log.len() implies (
            #[trigger] after.log[i]).relative_tick == context.capture_tick by {
                if i < earlier.log.len() {
                    assert(after.log[i] == earlier.log[i]);
                }
            }
        }
    }
}

proof fn lemma_session_start(s: SequencerView, song: Song, quantize_ticks: usize, capturing: bool)
    requires
        s.wf(),
        s.voices.len() == song.tracks@.len(),
    ensures
        session_carries_on(
            song,
            session_context(s, quantize_ticks, capturing),
            session_start(s, song, capturing),
            session_start(s, song, capturing),
        ),
{
    let start = session_start(s, song, capturing);
    assert forall|t: int| 0 <= t < song.tracks@.len() implies (#[trigger] start.grids[t]).wf(
        song.tracks@[t].session_clips@.len(),
    ) by {
        if t < s.grids.len() {
            assert(s.grids[t].wf(s.grids[t].states.len()));
        }
    }
}

/// In session mode nothing of the arrangement sounds, and nothing on a silent track: everything a
/// tick sets off comes from a slot of an audible track.
pub proof fn law_session_mode_plays_only_slots(
    s: SequencerView,
    song: Song,
    quantize_ticks: usize,
    capturing: bool,
    decisions: Seq<TrackDecisions>,
)
    requires
        s.wf(),
        s.voices.len() == song.tracks@.len(),
    ensures
        ({
            let triggers = session_ticked(s, song, quantize_ticks, capturing, decisions).1;
            forall|i: int|
                0 <= i < triggers.len() ==> from_audible_slot(song, #[trigger] triggers[i])
        }),
{
    lemma_session_start(s, song, quantize_ticks, capturing);
    lemma_after_tracks(
        session_start(s, song, capturing),
        song,
        session_context(s, quantize_ticks, capturing),
        decisions,
        song.tracks@.len(),
    );
}

/// A silent track's slots stand still: no click is taken in and no clip moves on.
pub proof fn law_silent_slots_stand_still(
    s: SequencerView,
    song: Song,
    quantize_ticks: usize,
    capturing: bool,
    decisions: Seq<TrackDecisions>,
    t: int,
)
    requires
        s.wf(),
        s.voices.len() == song.tracks@.len(),
        0 <= t < song.tracks@.len(),
        silent(song, song.tracks@[t]),
    ensures
        session_ticked(s, song, quantize_ticks, capturing, decisions).0.grids[t] == fitted_grids(
            song,
            s.grids,
        )[t],
{
    lemma_session_start(s, song, quantize_ticks, capturing);
    lemma_after_tracks(
        session_start(s, song, capturing),
        song,
        session_context(s, quantize_ticks, capturing),
        decisions,
        song.tracks@.len(),
    );
    assert(session_start(s, song, capturing).grids[t] == fitted_grids(song, s.grids)[t]);
}

proof fn lemma_after_tracks_keeps_one_clip(
    run: SessionRun,
    song: Song,
    context: TickContext,
    decisions: Seq<TrackDecisions>,
    n: nat,
)
    requires
        n <= song.tracks@.len(),
        run.grids.len() == song.tracks@.len(),
        run.voices.len() == song.tracks@.len(),
        session_carries_on(song, context, run, run),
        one_clip_per_track(run.grids),
    ensures
        one_clip_per_track(run.after_tracks(song, context, decisions, n).grids),
    decreases n,
{
    if n > 0 {
        lemma_after_tracks_keeps_one_clip(run, song, context, decisions, (n - 1) as nat);
        lemma_after_tracks(run, song, context, decisions, (n - 1) as nat);
        let earlier = run.after_tracks(song, context, decisions, (n - 1) as nat);
        let track = song.tracks@[n - 1];
        if !silent(song, track) {
            assert(earlier.grids[n - 1].wf(track.session_clips@.len()));
            assert(earlier.voices[n - 1].wf());
            assert(at_most_one_sounds(earlier.grids[n - 1].states));
            law_a_track_tick_keeps_one_clip(
                earlier.track(n - 1),
                TickContext { track_index: (n - 1) as usize, ..context },
                track,
                decisions[n - 1],
            );
            let after = run.after_tracks(song, context, decisions, n).grids;
            assert forall|t: int| 0 <= t < after.len() implies at_most_one_sounds(
                (#[trigger] after[t]).states,
            ) by {
                if t != n - 1 {
                    assert(after[t] == earlier.grids[t]);
                }
            }
        }
    }
}

/// After a tick of the session grid every track has a row of slots, as long as its row of clips.
pub proof fn law_session_rows_fit(
    s: SequencerView,
    song: Song,
    quantize_ticks: usize,
    capturing: bool,
    decisions: Seq<TrackDecisions>,
)
    requires
        s.wf(),
        s.voices.len() == song.tracks@.len(),
    ensures
        rows_fit(song, session_ticked(s, song, quantize_ticks, capturing, decisions).0.grids),
{
    lemma_session_start(s, song, quantize_ticks, capturing);
    lemma_after_tracks(
        session_start(s, song, capturing),
        song,
        session_context(s, quantize_ticks, capturing),
        decisions,
        song.tracks@.len(),
    );
}

/// A track plays at most one clip at a time: a tick of the session grid keeps it so on every track,
/// silent ones included, whatever the session rules decide.
pub proof fn law_a_session_tick_keeps_one_clip_per_track(
    s: SequencerView,
    song: Song,
    quantize_ticks: usize,
    capturing: bool,
    decisions: Seq<TrackDecisions>,
)
    requires
        s.wf(),
        s.voices.len() == song.tracks@.len(),
        one_clip_per_track(s.grids),
    ensures
        ({
            let after = session_ticked(s, song, quantize_ticks, capturing, decisions).0;
            one_clip_per_track(after.grids)
        }),
{
    lemma_session_start(s, song, quantize_ticks, capturing);
    let start = session_start(s, song, capturing);
    let context = session_context(s, quantize_ticks, capturing);
    assert forall|t: int| 0 <= t < start.grids.len() implies at_most_one_sounds(
        (#[trigger] start.grids[t]).states,
    ) by {
        if t < s.grids.len() {
            let (new, old_row) = (start.grids[t].states, s.grids[t].states);
            assert(at_most_one_sounds(old_row));
            assert forall|i: int, j: int|
                0 <= i < new.len() && 0 <= j < new.len() && (#[trigger] new[i]).sounding() && (
                #[trigger] new[j]).sounding() implies i == j by {
                assert(i < old_row.len() && new[i] == old_row[i]);
                assert(j < old_row.len() && new[j] == old_row[j]);
            }
        }
    }
    lemma_after_tracks_keeps_one_clip(start, song, context, decisions, song.tracks@.len());
}

/// Playback resumes from the very start after a stop: once rewound, the sequencer reports tick zero,
/// begins the next buffer there, and fires it first.
pub proof fn law_playback_resumes_from_the_start(
    s: SequencerView,
    song: Song,
    settings: TickSettings,
)
    ensures
        rewound(s).last_triggered_tick == 0,
        begun(rewound(s), song).tick_index == 0,
        fired(begun(rewound(s), song), settings).last_triggered_tick == 0,
        settings.metronome_enabled ==> fired(begun(rewound(s), song), settings).metronome.accent,
{
    vstd::arithmetic::div_mod::lemma_small_mod(0, arrangement_length(song) as nat);
}

/// Capturing a performance: while the switch is off the log is left alone. Arming it starts a
/// fresh log at tick zero, and for as long as it stays armed the log only grows, each event dated
/// with the ticks gone by since.
pub proof fn law_capture_log_is_a_record_since_arming(
    s: SequencerView,
    song: Song,
    quantize_ticks: usize,
    capturing: bool,
    decisions: Seq<TrackDecisions>,
)
    requires
        s.wf(),
        s.voices.len() == song.tracks@.len(),
        capturing && s.was_capturing ==> s.capture_tick < usize::MAX,
    ensures
        ({
            let after = session_ticked(s, song, quantize_ticks, capturing, decisions).0;
            &&& !capturing ==> after.capture_log == s.capture_log && after.capture_tick
                == s.capture_tick
            &&& capturing && !s.was_capturing ==> after.capture_tick == 0 && forall|i: int|
                0 <= i < after.capture_log.len() ==> (
                #[trigger] after.capture_log[i]).relative_tick == 0
            &&& capturing && s.was_capturing ==> after.capture_tick == s.capture_tick + 1
                && extends(after.capture_log, s.capture_log) && forall|i: int|
                s.capture_log.len() <= i < after.capture_log.len() ==> (
                #[trigger] after.capture_log[i]).relative_tick == after.capture_tick
        }),
{
    lemma_session_start(s, song, quantize_ticks, capturing);
    lemma_after_tracks(
        session_start(s, song, capturing),
        song,
        session_context(s, quantize_ticks, capturing),
        decisions,
        song.tracks@.len(),
    );
}

/// The clock goes through the arrangement tick by tick, and starts over at its end.
pub proof fn law_clock_wraps_at_the_end(s: SequencerView, song: Song)
    requires
        s.tick_index < arrangement_length(song) <= usize::MAX,
    ensures
        s.tick_index + 1 < arrangement_length(song) ==> moved_on(s, song).tick_index == s.tick_index
            + 1,
        s.tick_index + 1 == arrangement_length(song) ==> moved_on(s, song).tick_index == 0,
{
    let length = arrangement_length(song);
    if s.tick_index + 1 < length {
        vstd::arithmetic::div_mod::lemma_small_mod((s.tick_index + 1) as nat, length as nat);
    } else {
        vstd::arithmetic::div_mod::lemma_mod_self_0(length);
    }
}

/// A sequencer that already fits the song is left as it is at the start of a buffer.
pub proof fn law_a_buffer_may_begin_anywhere(s: SequencerView, song: Song)
    requires
        s.voices.len() == song.tracks@.len(),
        s.tick_index < arrangement_length(song),
    ensures
        begun(s, song) == s,
{
    vstd::arithmetic::div_mod::lemma_small_mod(
        s.tick_index as nat,
        arrangement_length(song) as nat,
    );
    assert(begun(s, song) =~= s);
}

/// What the arrangement does at one frame: what a tick that fires there sets off, and where the
/// metronome's click has got to.
pub struct FrameEvents {
    pub triggers: Seq<Trigger>,
    pub click: Option<usize>,
}

/// One frame of the arrangement. Whether a tick fires at it is for the host's sample clock to say.
pub open spec fn frame_played(s: SequencerView, song: Song, settings: TickSettings, fires: bool) -> (
    SequencerView,
    FrameEvents,
) {
    let selection = settings.selected();
    let ticked = if fires {
        moved_on(arrangement_ticked(fired(s, settings), song, selection), song)
    } else {
        s
    };
    let triggers = if fires {
        arrangement_triggers(song, selection, s.voices, s.tick_index as int)
    } else {
        Seq::empty()
    };
    let (metronome, click) = ticked.metronome.a_frame_later();
    (SequencerView { metronome, ..ticked }, FrameEvents { triggers, click })
}

/// Frames of the arrangement one after another, with a tick at those that `schedule` marks.
pub open spec fn frames_played(
    s: SequencerView,
    song: Song,
    settings: TickSettings,
    schedule: Seq<bool>,
) -> (SequencerView, Seq<FrameEvents>)
    decreases schedule.len(),
{
    if schedule.len() == 0 {
        (s, Seq::empty())
    } else {
        let (earlier, events) = frames_played(s, song, settings, schedule.drop_last());
        let (after, event) = frame_played(earlier, song, settings, schedule.last());
        (after, events.push(event))
    }
}

/// A buffer of the arrangement: the sequencer gets ready for it, and plays its frames.
pub open spec fn buffer_played(
    s: SequencerView,
    song: Song,
    settings: TickSettings,
    schedule: Seq<bool>,
) -> (SequencerView, Seq<FrameEvents>) {
    frames_played(begun(s, song), song, settings, schedule)
}

proof fn lemma_frames_keep_the_fit(
    s: SequencerView,
    song: Song,
    settings: TickSettings,
    schedule: Seq<bool>,
)
    requires
        s.voices.len() == song.tracks@.len(),
        s.tick_index < arrangement_length(song) <= usize::MAX,
    ensures
        ({
            let (after, events) = frames_played(s, song, settings, schedule);
            &&& after.voices.len() == song.tracks@.len()
            &&& after.tick_index < arrangement_length(song)
            &&& events.len() == schedule.len()
        }),
    decreases schedule.len(),
{
    if schedule.len() > 0 {
        lemma_frames_keep_the_fit(s, song, settings, schedule.drop_last());
        let earlier = frames_played(s, song, settings, schedule.drop_last()).0;
        vstd::arithmetic::div_mod::lemma_mod_bound(
            earlier.tick_index + 1,
            arrangement_length(song),
        );
    }
}

proof fn lemma_frames_split(
    s: SequencerView,
    song: Song,
    settings: TickSettings,
    first: Seq<bool>,
    second: Seq<bool>,
)
    ensures
        ({
            let (halfway, earlier) = frames_played(s, song, settings, first);
            let (after, later) = frames_played(halfway, song, settings, second);
            frames_played(s, song, settings, first + second) == (after, earlier + later)
        }),
    decreases second.len(),
{
    let (halfway, earlier) = frames_played(s, song, settings, first);
    if second.len() == 0 {
        assert(first + second =~= first);
        assert(earlier + Seq::<FrameEvents>::empty() =~= earlier);
    } else {
        lemma_frames_split(s, song, settings, first, second.drop_last());
        assert((first + second).drop_last() =~= first + second.drop_last());
        let (after, later) = frames_played(halfway, song, settings, second);
        let before_last = frames_played(halfway, song, settings, second.drop_last()).1;
        assert(earlier + later =~= (earlier + before_last).push(later.last()));
    }
}

/// Cutting a buffer makes no difference: two buffers played one after the other leave the sequencer
/// in the same state as one buffer of both, and set off the same, frame by frame.
pub proof fn law_cutting_a_buffer_makes_no_difference(
    s: SequencerView,
    song: Song,
    settings: TickSettings,
    first: Seq<bool>,
    second: Seq<bool>,
)
    requires
        arrangement_length(song) <= usize::MAX,
    ensures
        ({
            let (halfway, earlier) = buffer_played(s, song, settings, first);
            let (after, later) = buffer_played(halfway, song, settings, second);
            &&& buffer_played(s, song, settings, first + second) == (after, earlier + later)
            &&& earlier.len() == first.len()
            &&& later.len() == second.len()
        }),
{
    let ready = begun(s, song);
    vstd::arithmetic::div_mod::lemma_mod_bound(s.tick_index as int, arrangement_length(song));
    lemma_frames_keep_the_fit(ready, song, settings, first);
    let halfway = buffer_played(s, song, settings, first).0;
    law_a_buffer_may_begin_anywhere(halfway, song);
    lemma_frames_keep_the_fit(halfway, song, settings, second);
    lemma_frames_split(ready, song, settings, first, second);
}

proof fn lemma_freeze_keeps_the_length(a: Song, b: Song, t: int)
    requires
        same_but_for_freeze(a, b, t),
    ensures
        arrangement_length(a) == arrangement_length(b),
{
    law_reach_ignores_freeze(a.tracks@, b.tracks@, a.tracks@.len());
}

/// Baking a track down again renders its live content afresh: whether it is frozen, and to which
/// clip, makes no difference to anything that a buffer sets off.
pub proof fn law_a_track_is_baked_down_afresh(
    s: SequencerView,
    a: Song,
    b: Song,
    settings: TickSettings,
    schedule: Seq<bool>,
    track_index: usize,
)
    requires
        settings.live_track == Some(track_index),
        same_but_for_freeze(a, b, track_index as int),
    ensures
        buffer_played(s, a, settings, schedule) == buffer_played(s, b, settings, schedule),
    decreases schedule.len(),
{
    lemma_freeze_keeps_the_length(a, b, track_index as int);
    assert(begun(s, a) == begun(s, b));
    if schedule.len() > 0 {
        law_a_track_is_baked_down_afresh(s, a, b, settings, schedule.drop_last(), track_index);
        let earlier = buffer_played(s, a, settings, schedule.drop_last()).0;
        law_a_bake_ignores_an_earlier_one(
            a,
            b,
            settings.selected(),
            earlier.voices,
            earlier.tick_index as int,
            track_index,
        );
    }
}

proof fn lemma_later_tracks_keep_a_row(
    run: SessionRun,
    song: Song,
    context: TickContext,
    decisions: Seq<TrackDecisions>,
    t: int,
    n: nat,
)
    requires
        0 <= t < n <= song.tracks@.len(),
        run.grids.len() == song.tracks@.len(),
        run.voices.len() == song.tracks@.len(),
        session_carries_on(song, context, run, run),
    ensures
        ({
            let done = run.after_tracks(song, context, decisions, (t + 1) as nat);
            let after = run.after_tracks(song, context, decisions, n);
            &&& after.grids[t] == done.grids[t]
            &&& after.voices[t] == done.voices[t]
            &&& extends(after.triggers, done.triggers)
            &&& extends(after.log, done.log)
        }),
    decreases n,
{
    if n > t + 1 {
        lemma_later_tracks_keep_a_row(run, song, context, decisions, t, (n - 1) as nat);
        lemma_after_tracks(run, song, context, decisions, (n - 1) as nat);
        let done = run.after_tracks(song, context, decisions, (t + 1) as nat);
        let earlier = run.after_tracks(song, context, decisions, (n - 1) as nat);
        let after = run.after_tracks(song, context, decisions, n);
        let track = song.tracks@[n - 1];
        assert(song.tracks.len() == song.tracks@.len());
        if !silent(song, track) {
            assert(earlier.grids[n - 1].wf(track.session_clips@.len()));
            assert(earlier.voices[n - 1].wf());
            law_a_track_tick_only_adds(
                earlier.track(n - 1),
                TickContext { track_index: (n - 1) as usize, ..context },
                track,
                decisions[n - 1],
            );
            assert forall|i: int| 0 <= i < done.triggers.len() implies #[trigger] after.triggers[i]
                == done.triggers[i] by {
                assert(earlier.triggers[i] == done.triggers[i]);
            }
            assert forall|i: int| 0 <= i < done.log.len() implies #[trigger] after.log[i]
                == done.log[i] by {
                assert(earlier.log[i] == done.log[i]);
            }
        }
    } else {
        lemma_after_tracks(run, song, context, decisions, n);
    }
}

/// Whether a track's part of a tick of the session grid is a tick of that track, from `before` on: from
/// its own row and voices to those it is left with, with all that it sets off and logs among what the
/// grid does.
pub open spec fn has_its_tick(
    before: RunView,
    s: SequencerView,
    song: Song,
    quantize_ticks: usize,
    capturing: bool,
    decisions: Seq<TrackDecisions>,
    t: int,
) -> bool {
    let (after, triggers) = session_ticked(s, song, quantize_ticks, capturing, decisions);
    let context = TickContext {
        track_index: t as usize,
        ..session_context(s, quantize_ticks, capturing)
    };
    let done = before.advanced(context, song.tracks@[t], decisions[t]);
    &&& before.grid() == fitted_grids(song, s.grids)[t]
    &&& before.voices == s.voices[t]
    &&& before.wf(song.tracks@[t].session_clips@.len())
    &&& after.grids[t] == done.grid()
    &&& after.voices[t] == done.voices
    &&& extends(triggers, done.triggers)
    &&& extends(after.capture_log, done.log)
}

/// Every audible track has its tick, on its own account: whatever other tracks there are, its row and
/// its voices go from where they were to where a tick of that track takes them, and all that it sets
/// off and logs is among what the session grid sets off and logs.
pub proof fn law_every_audible_track_has_its_tick(
    s: SequencerView,
    song: Song,
    quantize_ticks: usize,
    capturing: bool,
    decisions: Seq<TrackDecisions>,
    t: int,
)
    requires
        s.wf(),
        s.voices.len() == song.tracks@.len(),
        0 <= t < song.tracks@.len(),
        !silent(song, song.tracks@[t]),
    ensures
        exists|before: RunView|
            #[trigger] has_its_tick(
                before,
                s,
                song,
                quantize_ticks,
                capturing,
                decisions,
                t,
            ),
{
    lemma_has_its_tick(s, song, quantize_ticks, capturing, decisions, t);
}

proof fn lemma_has_its_tick(
    s: SequencerView,
    song: Song,
    quantize_ticks: usize,
    capturing: bool,
    decisions: Seq<TrackDecisions>,
    t: int,
)
    requires
        s.wf(),
        s.voices.len() == song.tracks@.len(),
        0 <= t < song.tracks@.len(),
        !silent(song, song.tracks@[t]),
    ensures
        has_its_tick(
            session_start(s, song, capturing).after_tracks(
                song,
                session_context(s, quantize_ticks, capturing),
                decisions,
                t as nat,
            ).track(t),
            s,
            song,
            quantize_ticks,
            capturing,
            decisions,
            t,
        ),
{
    lemma_session_start(s, song, quantize_ticks, capturing);
    let start = session_start(s, song, capturing);
    let context = session_context(s, quantize_ticks, capturing);
    let n = song.tracks@.len();
    assert(song.tracks.len() == song.tracks@.len());
    lemma_after_tracks(start, song, context, decisions, t as nat);
    lemma_voices_wait_their_turn(start, song, context, decisions, t, t as nat);
    let earlier = start.after_tracks(song, context, decisions, t as nat);
    lemma_later_tracks_keep_a_row(start, song, context, decisions, t, n);
    let before = earlier.track(t);
    assert(earlier.grids[t] == start.grids[t]);
    assert(earlier.grids[t].wf(song.tracks@[t].session_clips@.len()));
    assert(earlier.voices[t].wf());
    let own = TickContext { track_index: t as usize, ..context };
    let done = before.advanced(own, song.tracks@[t], decisions[t]);
    let after = start.after_tracks(song, context, decisions, (t + 1) as nat);
    assert(after.grids[t] == done.grid());
    assert(after.voices[t] == done.voices);
    assert(before.grid() == fitted_grids(song, s.grids)[t]);
    assert(has_its_tick(before, s, song, quantize_ticks, capturing, decisions, t));
}

proof fn lemma_voices_wait_their_turn(
    run: SessionRun,
    song: Song,
    context: TickContext,
    decisions: Seq<TrackDecisions>,
    t: int,
    n: nat,
)
    requires
        n <= t < song.tracks@.len(),
        run.voices.len() == song.tracks@.len(),
        run.grids.len() == song.tracks@.len(),
    ensures
        run.after_tracks(song, context, decisions, n).voices.len() == run.voices.len(),
        run.after_tracks(song, context, decisions, n).voices[t] == run.voices[t],
    decreases n,
{
    if n > 0 {
        lemma_voices_wait_their_turn(run, song, context, decisions, t, (n - 1) as nat);
    }
}

/// The session grid plays: after a tick of it, every slot of an audible track that is heard and holds
/// steps or notes has had all of them that lie at its place set off.
pub proof fn law_the_session_grid_plays_what_is_heard(
    s: SequencerView,
    song: Song,
    quantize_ticks: usize,
    capturing: bool,
    decisions: Seq<TrackDecisions>,
    t: int,
    i: int,
    content: RegionContent,
    local_tick: usize,
)
    requires
        s.wf(),
        s.voices.len() == song.tracks@.len(),
        0 <= t < song.tracks@.len(),
        !silent(song, song.tracks@[t]),
        0 <= i < song.tracks@[t].session_clips@.len(),
        song.tracks@[t].session_clips@[i] matches Some(clip) && (clip.content matches
            SessionClipContent::Region { content: held, .. } && held == content),
        session_ticked(
            s,
            song,
            quantize_ticks,
            capturing,
            decisions,
        ).0.grids[t].states[i].position() == Some(local_tick),
    ensures
        is_set_off(
            session_ticked(s, song, quantize_ticks, capturing, decisions).1,
            0,
            t as usize,
            i as usize,
            content,
            local_tick as int,
        ),
{
    law_every_audible_track_has_its_tick(s, song, quantize_ticks, capturing, decisions, t);
    let (after, triggers) = session_ticked(s, song, quantize_ticks, capturing, decisions);
    let context = TickContext {
        track_index: t as usize,
        ..session_context(s, quantize_ticks, capturing)
    };
    let track = song.tracks@[t];
    let before = choose|before: RunView|
        #[trigger] has_its_tick(before, s, song, quantize_ticks, capturing, decisions, t);
    let done = before.advanced(context, track, decisions[t]);
    law_every_heard_slot_plays_what_it_has_at_its_place(before, context, track, decisions[t]);
    assert(done.states[i].position() == Some(local_tick));
    lemma_set_off_lasts(
        done.triggers,
        triggers,
        0,
        before.triggers.len(),
        t as usize,
        i as usize,
        content,
        local_tick as int,
    );
}

/// The session rules are asked at the tick that fires, with the grid's quantize as it is set, and what
/// is logged is dated with the ticks since capturing was armed.
pub proof fn law_the_rules_are_asked_at_the_tick_that_fires(
    s: SequencerView,
    settings: TickSettings,
)
    ensures
        ({
            let context = session_context(
                fired(s, settings),
                settings.session_quantize_ticks,
                settings.capturing,
            );
            &&& context.tick_now == s.tick_index
            &&& context.quantize_ticks == settings.session_quantize_ticks
            &&& context.capturing == settings.capturing
            &&& settings.capturing && !s.was_capturing ==> context.capture_tick == 0
            &&& settings.capturing && s.was_capturing && s.capture_tick < usize::MAX
                ==> context.capture_tick == s.capture_tick + 1
            &&& !settings.capturing ==> context.capture_tick == s.capture_tick
        }),
{
}

/// When a song's tracks and slots change, what is kept stays as it is: a slot that is still there keeps
/// its state, the click it has seen and its voice, and a new one is stopped, has seen none and holds
/// none.
pub proof fn law_slots_that_are_kept_stay_as_they_are(
    song: Song,
    grids: Seq<GridView>,
    t: int,
    i: int,
)
    requires
        0 <= t < song.tracks@.len(),
        0 <= i < song.tracks@[t].session_clips@.len(),
        forall|k: int|
            0 <= k < grids.len() ==> (#[trigger] grids[k]).wf(grids[k].states.len()),
    ensures
        ({
            let fitted = fitted_grids(song, grids);
            &&& fitted.len() == song.tracks@.len()
            &&& fitted[t].states.len() == song.tracks@[t].session_clips@.len()
            &&& t < grids.len() && i < grids[t].states.len() ==> fitted[t].states[i]
                == grids[t].states[i] && fitted[t].seen[i] == grids[t].seen[i]
                && fitted[t].audio_voice[i] == grids[t].audio_voice[i]
            &&& t >= grids.len() || i >= grids[t].states.len() ==> fitted[t].states[i]
                == SlotState::Stopped && fitted[t].seen[i] == 0 && fitted[t].audio_voice[i] is None
        }),
{
    if t < grids.len() {
        assert(grids[t].wf(grids[t].states.len()));
    }
}

/// When a song's tracks change, a track that is still there goes on with its voices where they are, and
/// a new one starts with fresh ones.
pub proof fn law_tracks_that_are_kept_keep_their_voices(
    s: SequencerView,
    song: Song,
    t: int,
)
    requires
        0 <= t < song.tracks@.len(),
    ensures
        ({
            let ready = begun(s, song);
            &&& ready.voices.len() == song.tracks@.len()
            &&& t < s.voices.len() ==> ready.voices[t] == s.voices[t]
            &&& t >= s.voices.len() ==> ready.voices[t].next_voice == 0
                && ready.voices[t].next_trine_voice == 0 && ready.voices[t].next_wave_voice == 0
                && ready.voices[t].next_sample_voice == 0 && ready.voices[t].last_pitch is None
            &&& s.tick_index < arrangement_length(song) ==> ready.tick_index == s.tick_index
            &&& s.tick_index == arrangement_length(song) ==> ready.tick_index == 0
            &&& ready.last_triggered_tick == s.last_triggered_tick
            &&& ready.metronome == s.metronome
            &&& ready.grids == s.grids
            &&& ready.capture_log == s.capture_log
        }),
{
    let length = arrangement_length(song);
    if s.tick_index < length {
        vstd::arithmetic::div_mod::lemma_small_mod(s.tick_index as nat, length as nat);
    } else if s.tick_index == length {
        vstd::arithmetic::div_mod::lemma_mod_self_0(length);
    }
}

/// The metronome clicks when a beat's tick fires, if it is on: a fresh click as long as it is set,
/// accented at the very start of the arrangement alone. On any other tick, or while it is off, it goes
/// on as it was. The tick that fires is the one that is reported.
pub proof fn law_the_metronome_clicks_on_the_beat(
    s: SequencerView,
    settings: TickSettings,
    beat: nat,
    offset: nat,
)
    requires
        s.tick_index == beat * (STEPS_PER_BEAT * TICKS_PER_STEP) + offset,
        offset < STEPS_PER_BEAT * TICKS_PER_STEP,
    ensures
        ({
            let after = fired(s, settings);
            &&& after.last_triggered_tick == s.tick_index
            &&& after.tick_index == s.tick_index
            &&& settings.metronome_enabled && offset == 0 ==> after.metronome == (Metronome {
                position: 0,
                length: settings.click_frames,
                accent: s.tick_index == 0,
            })
            &&& !settings.metronome_enabled || offset > 0 ==> after.metronome == s.metronome
            &&& after.voices == s.voices && after.grids == s.grids && after.capture_log
                == s.capture_log && after.capture_tick == s.capture_tick && after.was_capturing
                == s.was_capturing
        }),
{
    law_clicks_are_a_beat_apart(beat, offset);
}

/// Rewinding moves the clock and ends the metronome's place in its click, and nothing else: sounding
/// voices, session slots and the captured performance stay as they are.
pub proof fn law_rewinding_moves_the_clock_alone(s: SequencerView)
    ensures
        ({
            let after = rewound(s);
            &&& after.tick_index == 0 && after.last_triggered_tick == 0
            &&& after.metronome.position == 0 && after.metronome.length == s.metronome.length
            &&& after.voices == s.voices
            &&& after.grids == s.grids
            &&& after.was_capturing == s.was_capturing
            &&& after.capture_tick == s.capture_tick
            &&& after.capture_log == s.capture_log
        }),
{
}

/// A tick of the arrangement leaves the session grid and its capture as they are, and a tick of the
/// session grid leaves the clock to move on by itself: either way the clock goes one tick further.
pub proof fn law_either_mode_moves_the_clock_by_one_tick(
    s: SequencerView,
    song: Song,
    settings: TickSettings,
    decisions: Seq<TrackDecisions>,
)
    requires
        s.tick_index < arrangement_length(song) <= usize::MAX,
    ensures
        ({
            let arranged = moved_on(
                arrangement_ticked(fired(s, settings), song, settings.selected()),
                song,
            );
            let played = moved_on(
                session_ticked(
                    fired(s, settings),
                    song,
                    settings.session_quantize_ticks,
                    settings.capturing,
                    decisions,
                ).0,
                song,
            );
            &&& arranged.grids == s.grids && arranged.capture_log == s.capture_log
                && arranged.capture_tick == s.capture_tick && arranged.was_capturing
                == s.was_capturing
            &&& arranged.last_triggered_tick == s.tick_index
            &&& played.last_triggered_tick == s.tick_index
            &&& s.tick_index + 1 < arrangement_length(song) ==> arranged.tick_index == s.tick_index
                + 1 && played.tick_index == s.tick_index + 1
            &&& s.tick_index + 1 == arrangement_length(song) ==> arranged.tick_index == 0
                && played.tick_index == 0
        }),
{
    law_clock_wraps_at_the_end(
        arrangement_ticked(fired(s, settings), song, settings.selected()),
        song,
    );
    law_clock_wraps_at_the_end(
        session_ticked(
            fired(s, settings),
            song,
            settings.session_quantize_ticks,
            settings.capturing,
            decisions,
        ).0,
        song,
    );
}

/// A tick plays the tracks that it is asked to: every one, or only those that are heard, with the one
/// that is baked down playing live.
pub proof fn law_a_tick_plays_the_tracks_it_is_asked_to(settings: TickSettings)
    ensures
        settings.selected().every_track == settings.every_track,
        settings.selected().live_track == settings.live_track,
{
}

/// Every audible track's tick is decided by the session rules, track by track.
pub proof fn law_the_rules_decide_every_audible_tracks_tick<R: SlotRules>(
    rules: &R,
    s: SequencerView,
    song: Song,
    quantize_ticks: usize,
    capturing: bool,
    decisions: Seq<TrackDecisions>,
    t: int,
)
    requires
        s.wf(),
        s.voices.len() == song.tracks@.len(),
        session_decided(rules, s, song, quantize_ticks, capturing, decisions),
        0 <= t < song.tracks@.len(),
        !silent(song, song.tracks@[t]),
    ensures
        exists|before: RunView|
            #[trigger] has_its_tick(before, s, song, quantize_ticks, capturing, decisions, t)
                && decided(
                rules,
                TickContext {
                    track_index: t as usize,
                    ..session_context(s, quantize_ticks, capturing)
                },
                song.tracks@[t],
                before,
                decisions[t],
            ),
{
    lemma_session_start(s, song, quantize_ticks, capturing);
    let start = session_start(s, song, capturing);
    let context = session_context(s, quantize_ticks, capturing);
    lemma_has_its_tick(s, song, quantize_ticks, capturing, decisions, t);
    let before = start.after_tracks(song, context, decisions, t as nat).track(t);
    assert(has_its_tick(before, s, song, quantize_ticks, capturing, decisions, t));
    assert(!silent(song, song.tracks@[t]));
}

} // verus!
