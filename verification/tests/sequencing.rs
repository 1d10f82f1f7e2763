//! The sequencer, played by a small host that renders held tones in place of real synth voices.

use std::sync::Arc;

use daw_audio::automation::{collect_automation, AutomationOverrides, LaneRef};
use daw_audio::model::{
    AudioClip, AutomationLane, AutomationPoint, AutomationTarget, CompSegment, CurveShape,
    EffectParamKey, FollowAction, FollowActionConfig, Lane, LaunchIntent, LaunchMode, Note, Region,
    RegionContent, SampleBuffer, SendBus, SessionClip, SessionClipContent, SessionLaunchRequest,
    SessionQuantize, Song, StepData, SubmixBus, Take, TakeFolder, TempoPoint, Track, TrackKind, TrackOutput,
    STEPS_PER_BEAT, TICKS_PER_STEP,
};
use daw_audio::number::Real32;
use daw_audio::patch::{
    Adsr, FilterParams, FilterRouting, FilterSlope, FilterType, LfoTarget, SynthEngine,
    SynthParams, SynthWaveform, TrineOscillator, TrineParams, WaveOscillator, WaveParams,
    WaveWarpMode,
};
use daw_audio::playback::{begin_callback, publish_tick, CallbackState};
use daw_audio::sample_voice::{playback_window, SampleFrame, SampleVoice, VoiceGain};
use daw_audio::sequencer::{
    new_capture_log_handle, new_session_slot_handles, Sequencer, TickSettings,
};
use daw_audio::session::{
    follow_action_seed, CaptureEvent, CaptureEventKind, SlotRules, SlotState,
};
use daw_audio::solo::{has_solo, track_silent};
use daw_audio::tempo::{tempo_segments, TempoSegment};
use daw_audio::timeline::{
    active_region_at, arrangement_length_ticks, fading_regions_at, is_active, song_fits,
    step_triggering_at,
};
use daw_audio::transport::Transport;
use daw_audio::trigger::{ContentSource, PatchSource, Trigger, SAMPLE_VOICE_COUNT, VOICE_COUNT};

fn num(x: f32) -> Real32 {
    Real32 { bits: x.to_bits() }
}

fn float(x: Real32) -> f32 {
    f32::from_bits(x.bits)
}

fn initial_synth() -> SynthParams {
    SynthParams {
        waveform: SynthWaveform::Sine,
        pulse_width: num(0.5),
        unison_voices: 1,
        unison_width: num(0.0),
        unison_detune_cents: num(0.0),
        glide_seconds: num(0.0),
        osc2_waveform: SynthWaveform::Sine,
        osc2_semitones: 0,
        osc2_detune_cents: num(0.0),
        osc2_mix: num(0.0),
        osc2_sync: false,
        sub_osc_mix: num(0.0),
        lfo_waveform: SynthWaveform::Sine,
        lfo_rate_hz: num(0.0),
        lfo_target: LfoTarget::Off,
        lfo_depth: num(0.0),
        attack_seconds: num(0.005),
        decay_seconds: num(0.3),
        sustain_level: num(0.0),
        release_seconds: num(0.05),
        filter_cutoff_hz: num(20_000.0),
        filter_resonance: num(0.707),
        filter_env_amount_hz: num(0.0),
        filter_type: FilterType::Lowpass,
    }
}

fn initial_adsr() -> Adsr {
    Adsr {
        attack_seconds: num(0.005),
        decay_seconds: num(0.3),
        sustain_level: num(0.0),
        release_seconds: num(0.05),
    }
}

fn initial_filter() -> FilterParams {
    FilterParams {
        cutoff_hz: num(20_000.0),
        resonance: num(0.707),
        filter_type: FilterType::Lowpass,
        slope: FilterSlope::Slope12,
    }
}

fn initial_trine() -> TrineParams {
    let osc = |level: f32| TrineOscillator {
        waveform: SynthWaveform::Saw,
        semitones: 0,
        detune_cents: num(0.0),
        level: num(level),
        sync: false,
    };
    TrineParams {
        osc1: osc(1.0),
        osc2: osc(0.0),
        osc3: osc(0.0),
        pulse_width: num(0.5),
        fm_amount: num(0.0),
        ring_mod_mix: num(0.0),
        analog_drift: num(0.0),
        filter1: initial_filter(),
        filter2: initial_filter(),
        filter_routing: FilterRouting::Off,
        filter_drive: num(0.0),
        filter_fm_amount: num(0.0),
        lfo1_waveform: SynthWaveform::Sine,
        lfo1_rate_hz: num(1.0),
        lfo2_waveform: SynthWaveform::Sine,
        lfo2_rate_hz: num(1.0),
        env1: initial_adsr(),
        env2: initial_adsr(),
        env3: initial_adsr(),
        mod_slots: Vec::new(),
    }
}

fn initial_wave() -> WaveParams {
    let osc = |level: f32| WaveOscillator {
        table: 0,
        position: num(0.0),
        warp_mode: WaveWarpMode::Off,
        warp_amount: num(0.0),
        level: num(level),
    };
    WaveParams {
        osc1: osc(1.0),
        unison_voices: 1,
        unison_width: num(0.0),
        unison_detune_cents: num(0.0),
        osc2: osc(0.0),
        osc2_semitones: 0,
        osc2_detune_cents: num(0.0),
        sub_osc_semitones: -12,
        sub_osc_level: num(0.0),
        noise_level: num(0.0),
        filter1: initial_filter(),
        filter2: initial_filter(),
        filter_routing: FilterRouting::Off,
        filter_drive: num(0.0),
        lfo1_waveform: SynthWaveform::Sine,
        lfo1_rate_hz: num(1.0),
        lfo2_waveform: SynthWaveform::Sine,
        lfo2_rate_hz: num(1.0),
        env1: initial_adsr(),
        env2: initial_adsr(),
        amp: initial_adsr(),
        mod_slots: Vec::new(),
    }
}

fn new_lane(name: &str, pitch: u8, steps: usize) -> Lane {
    Lane {
        name: name.to_string(),
        pitch,
        steps: vec![None; steps],
        sample: None,
        synth_override: false,
        synth_engine: SynthEngine::Simple,
        synth: initial_synth(),
        trine: initial_trine(),
        wave: initial_wave(),
    }
}

fn set_step(lane: &mut Lane, step: usize, velocity: u8) {
    lane.steps[step] = Some(StepData { velocity, timing_offset_ticks: 0 });
}

fn new_track(name: &str, kind: TrackKind) -> Track {
    Track {
        name: name.to_string(),
        kind,
        regions: Vec::new(),
        audio_clips: Vec::new(),
        take_folders: Vec::new(),
        automation: Vec::new(),
        volume: num(1.0),
        pan: num(0.0),
        muted: false,
        solo: false,
        output: TrackOutput::Master,
        send_levels: Vec::new(),
        frozen: false,
        frozen_clip: None,
        synth_engine: SynthEngine::Simple,
        synth: initial_synth(),
        trine: initial_trine(),
        wave: initial_wave(),
        session_clips: Vec::new(),
        session_launch_requests: Vec::new(),
    }
}

fn new_piano_roll(name: &str) -> Track {
    new_track(name, TrackKind::PianoRoll)
}

fn new_step_grid(name: &str) -> Track {
    new_track(name, TrackKind::StepGrid)
}

fn new_audio(name: &str) -> Track {
    new_track(name, TrackKind::Audio)
}

fn song_of(name: &str, tracks: Vec<Track>) -> Song {
    Song {
        name: name.to_string(),
        bpm: num(120.0),
        tempo_map: Vec::new(),
        tracks,
        sends: Vec::new(),
        submixes: Vec::new(),
    }
}

/// Two tracks over one sixteen-step loop at 120 beats per minute.
fn demo() -> Song {
    let mut kick = new_lane("Kick", 36, 16);
    for step in [0, 4, 8, 12] {
        set_step(&mut kick, step, 120);
    }
    let mut drums = new_step_grid("Drums");
    drums.regions.push(Region {
        name: "Beat".to_string(),
        start_tick: 0,
        content_length_steps: 16,
        loop_length_steps: 16,
        content: RegionContent::StepGrid(vec![kick]),
        fade_in_ticks: 0,
        fade_out_ticks: 0,
        automation: Vec::new(),
    });
    let mut lead = new_piano_roll("Lead");
    lead.regions.push(one_note_region(0, 16, 16, 0, TICKS_PER_STEP));
    song_of("Demo", vec![drums, lead])
}

fn set_tempo_at(song: &mut Song, tick: usize, bpm: f32) {
    song.tempo_map.push(TempoPoint { tick, bpm: num(bpm) });
}

fn song_with_regions(regions: Vec<Region>) -> Song {
    let mut track = new_piano_roll("Lead");
    track.regions = regions;
    song_of("region test", vec![track])
}

fn one_note_region(
    start_tick: usize,
    content_length_steps: usize,
    loop_length_steps: usize,
    note_start_tick: usize,
    note_length_ticks: usize,
) -> Region {
    Region {
        name: "Hit".to_string(),
        start_tick,
        content_length_steps,
        loop_length_steps,
        content: RegionContent::PianoRoll(vec![Note {
            id: 0,
            pitch: 60,
            start_tick: note_start_tick,
            length_ticks: note_length_ticks,
            velocity: 127,
        }]),
        fade_in_ticks: 0,
        fade_out_ticks: 0,
        automation: Vec::new(),
    }
}

fn sustained_note_region_with_fade_in(loop_length_steps: usize, fade_in_ticks: usize) -> Region {
    let mut region = one_note_region(
        0,
        loop_length_steps,
        loop_length_steps,
        0,
        loop_length_steps * TICKS_PER_STEP,
    );
    region.fade_in_ticks = fade_in_ticks;
    region
}

fn region_with_automation(loop_length_steps: usize, lanes: Vec<AutomationLane>) -> Region {
    Region {
        name: "Automated".to_string(),
        start_tick: 0,
        content_length_steps: loop_length_steps,
        loop_length_steps,
        content: RegionContent::PianoRoll(Vec::new()),
        fade_in_ticks: 0,
        fade_out_ticks: 0,
        automation: lanes,
    }
}

fn point(tick: usize, value: f32) -> AutomationPoint {
    AutomationPoint { tick, value: num(value), curve: CurveShape::Linear }
}

fn lane_on(target: AutomationTarget, points: Vec<AutomationPoint>) -> AutomationLane {
    AutomationLane { target, points }
}

/// Linear interpolation of a lane at a frame of the buffer it was collected for. It is floating
/// point, so it is the host's (here this file's); which lane applies, and from which tick of it, is
/// the library's answer.
fn value_at(lane_ref: &LaneRef, sample_index: usize, samples_per_tick: f64) -> f32 {
    let tick = lane_ref.base_offset as f64 + sample_index as f64 / samples_per_tick;
    let points = &lane_ref.lane.points;
    if tick <= points[0].tick as f64 {
        return float(points[0].value);
    }
    for pair in points.windows(2) {
        let (a, b) = (pair[0], pair[1]);
        if tick < b.tick as f64 {
            let t = (tick - a.tick as f64) / (b.tick as f64 - a.tick as f64);
            return float(a.value) + (float(b.value) - float(a.value)) * t as f32;
        }
    }
    float(points[points.len() - 1].value)
}

fn new_audio_clip(start_tick: usize, buffer: Arc<SampleBuffer>, bpm: f32) -> AudioClip {
    let seconds = buffer.mono.len() as f64 / buffer.sample_rate as f64;
    AudioClip {
        start_tick,
        length_ticks: (seconds * ticks_per_second(bpm)).ceil() as usize,
        buffer: Some(buffer),
        source_start_frame: 0,
        fade_in_ticks: 0,
        fade_out_ticks: 0,
        gain: num(1.0),
    }
}

fn new_take_folder(start_tick: usize, length_ticks: usize) -> TakeFolder {
    TakeFolder {
        start_tick,
        length_ticks,
        takes: vec![Take { buffer: None }],
        comp: vec![CompSegment { start_tick: 0, end_tick: length_ticks, take_index: 0 }],
        gain: num(1.0),
    }
}

fn no_follow_action() -> FollowActionConfig {
    FollowActionConfig {
        times: 1,
        action_a: FollowAction::Nothing,
        chance_a: num(1.0),
        action_b: FollowAction::Nothing,
        chance_b: num(0.0),
    }
}

fn session_clip(name: &str, content: SessionClipContent) -> SessionClip {
    SessionClip {
        name: name.to_string(),
        content,
        follow_action: no_follow_action(),
        legato: false,
        launch_mode: LaunchMode::Toggle,
        quantize_override: None,
        automation: Vec::new(),
    }
}

fn step_grid_content(lane: Lane, steps: usize) -> SessionClipContent {
    SessionClipContent::Region {
        content: RegionContent::StepGrid(vec![lane]),
        content_length_steps: steps,
        loop_length_steps: steps,
    }
}

fn piano_roll_session_clip(name: &str, steps: usize) -> SessionClip {
    session_clip(
        name,
        SessionClipContent::Region {
            content: RegionContent::PianoRoll(Vec::new()),
            content_length_steps: steps,
            loop_length_steps: steps,
        },
    )
}

fn play(generation: u64) -> SessionLaunchRequest {
    SessionLaunchRequest { generation, intent: LaunchIntent::Play, held: false }
}

fn stop(generation: u64) -> SessionLaunchRequest {
    SessionLaunchRequest { generation, intent: LaunchIntent::Stop, held: false }
}

fn one_step_lane(pitch: u8) -> Lane {
    let mut lane = new_lane("Kick", pitch, 1);
    set_step(&mut lane, 0, 127);
    lane
}

fn ticks_per_second(bpm: f32) -> f64 {
    (bpm.max(1.0) as f64) * STEPS_PER_BEAT as f64 * TICKS_PER_STEP as f64 / 60.0
}

fn samples_per_tick_at(sample_rate: f64, bpm: f32) -> f64 {
    (sample_rate * 60.0 / (bpm.max(1.0) as f64) / STEPS_PER_BEAT as f64 / TICKS_PER_STEP as f64)
        .max(1.0)
}

/// How many frames stretches of constant tempo last. The sum is floating point, so it is the host's
/// (here this file's); which stretches there are, and at what tempo, is the library's answer.
fn frames_of(segments: &[TempoSegment], sample_rate: f64) -> f64 {
    segments
        .iter()
        .map(|s| {
            (s.end_tick - s.start_tick) as f64 * samples_per_tick_at(sample_rate, float(s.bpm))
        })
        .sum()
}

/// Plain launch rules: clicks queue to the next boundary, and clips loop until stopped.
struct PlainRules;

fn next_boundary(tick: usize, quantize_ticks: usize) -> usize {
    if quantize_ticks == 0 {
        tick
    } else {
        tick.div_ceil(quantize_ticks) * quantize_ticks
    }
}

fn moved_on(local_tick: usize, loop_count: u32, loop_length_ticks: usize) -> (usize, u32) {
    if local_tick + 1 < loop_length_ticks {
        (local_tick + 1, loop_count)
    } else {
        (0, loop_count + 1)
    }
}

impl SlotRules for PlainRules {
    fn quantize_ticks(&self, quantize: SessionQuantize) -> usize {
        match quantize {
            SessionQuantize::Immediate => 0,
            SessionQuantize::Custom(steps) => steps as usize * TICKS_PER_STEP,
        }
    }

    fn apply_launch_request(
        &self,
        state: SlotState,
        intent: LaunchIntent,
        _mode: LaunchMode,
        tick_now: usize,
        quantize_ticks: usize,
    ) -> SlotState {
        let at = next_boundary(tick_now, quantize_ticks);
        match (intent, state) {
            (LaunchIntent::Play, _) => SlotState::Queued { launch_tick: at },
            (LaunchIntent::Stop, SlotState::Playing { local_tick, loop_count }) => {
                SlotState::QueuedStop { local_tick, loop_count, stop_tick: at }
            }
            (LaunchIntent::Stop, SlotState::QueuedStop { .. }) => state,
            (LaunchIntent::Stop, _) => SlotState::Stopped,
        }
    }

    fn advance_held_slot(
        &self,
        state: SlotState,
        held: bool,
        mode: LaunchMode,
        tick_now: usize,
        quantize_ticks: usize,
    ) -> (SlotState, bool) {
        let at = next_boundary(tick_now, quantize_ticks);
        match (held, state) {
            (true, SlotState::Stopped) => (SlotState::Queued { launch_tick: at }, false),
            (true, SlotState::Playing { .. }) => (state, mode == LaunchMode::Repeat && at == tick_now),
            (false, SlotState::Playing { local_tick, loop_count }) => {
                (SlotState::QueuedStop { local_tick, loop_count, stop_tick: at }, false)
            }
            (false, SlotState::Queued { .. }) => (SlotState::Stopped, false),
            _ => (state, false),
        }
    }

    fn advance_slot(&self, state: SlotState, tick_now: usize, loop_length_ticks: usize) -> SlotState {
        match state {
            SlotState::Stopped => SlotState::Stopped,
            SlotState::Queued { launch_tick } => {
                if launch_tick <= tick_now {
                    SlotState::Playing { local_tick: 0, loop_count: 0 }
                } else {
                    state
                }
            }
            SlotState::Playing { local_tick, loop_count } => {
                let (local_tick, loop_count) = moved_on(local_tick, loop_count, loop_length_ticks);
                SlotState::Playing { local_tick, loop_count }
            }
            SlotState::QueuedStop { local_tick, loop_count, stop_tick } => {
                if stop_tick <= tick_now {
                    SlotState::Stopped
                } else {
                    let (local_tick, loop_count) = moved_on(local_tick, loop_count, loop_length_ticks);
                    SlotState::QueuedStop { local_tick, loop_count, stop_tick }
                }
            }
        }
    }

    fn loop_length_ticks(&self, clip: &SessionClip, _tick_now: usize) -> usize {
        match &clip.content {
            SessionClipContent::Region { loop_length_steps, .. } => loop_length_steps * TICKS_PER_STEP,
            SessionClipContent::Audio(audio) => audio.length_ticks,
            SessionClipContent::Recording(folder) => folder.length_ticks,
        }
    }

    fn resolve_follow_action(
        &self,
        loop_count: u32,
        config: FollowActionConfig,
        _seed: u64,
    ) -> Option<FollowAction> {
        if loop_count >= config.times {
            Some(config.action_a)
        } else {
            None
        }
    }

    fn follow_action_target(
        &self,
        action: FollowAction,
        slot_index: usize,
        slot_count: usize,
        _seed: u64,
    ) -> Option<usize> {
        match action {
            FollowAction::Next => Some((slot_index + 1) % slot_count),
            _ => None,
        }
    }
}

/// A tone that holds at one level until its gate closes.
#[derive(Clone, Copy)]
struct HeldTone {
    level: f32,
    remaining: usize,
}

/// A host around the sequencer: it keeps the sample clock and renders every voice.
struct Player {
    sequencer: Sequencer,
    sample_rate: f64,
    samples_until_next_tick: f64,
    tones: Vec<Vec<HeldTone>>,
    samples: Vec<Vec<SampleVoice>>,
    fade: Vec<f32>,
    /// Every trigger so far, with the frame it came at.
    triggers: Vec<(usize, Trigger)>,
    frame: usize,
}

impl Player {
    fn new(sample_rate: f64) -> Self {
        Player {
            sequencer: Sequencer::new(),
            sample_rate,
            samples_until_next_tick: 0.0,
            tones: Vec::new(),
            samples: Vec::new(),
            fade: Vec::new(),
            triggers: Vec::new(),
            frame: 0,
        }
    }

    fn slot(&self, track: usize, slot: usize) -> SlotState {
        self.sequencer.session_slots()[track][slot]
    }

    fn process(
        &mut self,
        song: &Song,
        frames: usize,
        track_out: &mut Vec<Vec<f32>>,
        session_mode: bool,
        session_quantize_ticks: usize,
        capturing: bool,
    ) {
        self.sequencer.begin_buffer(song);
        let settings = TickSettings {
            every_track: false,
            live_track: None,
            metronome_enabled: false,
            click_frames: 0,
            session_mode,
            session_quantize_ticks,
            capturing,
        };
        self.tones.resize_with(song.tracks.len(), Vec::new);
        self.fade.resize(song.tracks.len(), 1.0);
        self.samples.resize_with(song.tracks.len(), || {
            (0..SAMPLE_VOICE_COUNT).map(|_| SampleVoice::new()).collect()
        });
        *track_out = vec![vec![0.0; frames]; song.tracks.len()];
        for i in 0..frames {
            if self.samples_until_next_tick <= 0.0 {
                let tick = self.sequencer.next_tick();
                let triggers = self.sequencer.process_tick(&PlainRules, song, settings);
                let bpm = float(song.bpm_at(tick));
                let solo = has_solo(song);
                for (t, track) in song.tracks.iter().enumerate() {
                    self.fade[t] = 1.0;
                    if !session_mode && !track_silent(song, track, solo) {
                        for active in fading_regions_at(track, track.frozen, tick) {
                            let region = &track.regions[active.region];
                            if region.fade_in_ticks > 0 {
                                let gain = active.offset_ticks as f32 / region.fade_in_ticks as f32;
                                self.fade[t] = self.fade[t].min(gain.min(1.0));
                            }
                        }
                    }
                }
                for trigger in triggers {
                    self.triggers.push((self.frame + i, trigger));
                    self.perform(song, trigger, bpm);
                }
                self.samples_until_next_tick += samples_per_tick_at(self.sample_rate, bpm);
            }
            self.samples_until_next_tick -= 1.0;
            for t in 0..song.tracks.len() {
                let mut mixed = 0.0;
                for tone in self.tones[t].iter_mut() {
                    if tone.remaining > 0 {
                        tone.remaining -= 1;
                        mixed += tone.level;
                    }
                }
                for voice in self.samples[t].iter_mut() {
                    mixed += rendered(voice.next_sample());
                }
                track_out[t][i] = mixed * self.fade[t];
            }
        }
        self.frame += frames;
    }

    fn perform(&mut self, song: &Song, trigger: Trigger, bpm: f32) {
        let tps = ticks_per_second(bpm);
        match trigger {
            Trigger::LaneSample { track, source, lane, voice, velocity } => {
                let lanes = match source {
                    ContentSource::Region(r) => match &song.tracks[track].regions[r].content {
                        RegionContent::StepGrid(lanes) => lanes,
                        RegionContent::PianoRoll(_) => unreachable!(),
                    },
                    ContentSource::Slot(_) => unreachable!(),
                };
                let sample = lanes[lane].sample.clone().unwrap();
                self.samples[track][voice].trigger(sample, velocity);
            }
            Trigger::LaneSynth { track, velocity, .. } => {
                self.tones[track].push(HeldTone { level: velocity as f32 / 127.0, remaining: 100 });
            }
            Trigger::Note { track, velocity, length_ticks, .. } => {
                let gate = length_ticks as f64 * samples_per_tick_at(self.sample_rate, bpm);
                self.tones[track]
                    .push(HeldTone { level: velocity as f32 / 127.0, remaining: gate as usize });
            }
            Trigger::FrozenClip { track, voice } => {
                let clip = song.tracks[track].frozen_clip.as_ref().unwrap();
                self.start_clip(clip, track, voice, 0, false, tps);
            }
            Trigger::Clip { track, clip, voice } => {
                let clip = &song.tracks[track].audio_clips[clip];
                self.start_clip(clip, track, voice, 0, false, tps);
            }
            Trigger::TakeSegment { track, folder, segment, take, voice } => {
                let folder = &song.tracks[track].take_folders[folder];
                let buffer = folder.takes[take].buffer.clone().unwrap();
                let fpt = buffer.sample_rate as f64 / tps;
                let segment = folder.comp[segment];
                let start = (segment.start_tick as f64 * fpt).round() as usize;
                let end = (segment.end_tick as f64 * fpt).round() as usize;
                self.samples[track][voice].trigger_clip(buffer, folder.gain, start, end, 0, 0, false);
            }
            Trigger::SlotAudio { track, slot, voice, local_tick } => {
                let clip = song.tracks[track].session_clips[slot].clone().unwrap();
                if let SessionClipContent::Audio(audio) = &clip.content {
                    self.start_clip(audio, track, voice, local_tick, true, tps);
                }
            }
            Trigger::SlotTake { track, slot, take, voice, local_tick } => {
                let clip = song.tracks[track].session_clips[slot].clone().unwrap();
                if let SessionClipContent::Recording(folder) = &clip.content {
                    let buffer = folder.takes[take].buffer.clone().unwrap();
                    let fpt = buffer.sample_rate as f64 / tps;
                    let length = (folder.length_ticks as f64 * fpt).round() as usize;
                    let phase = (local_tick as f64 * fpt).round() as usize;
                    let window = playback_window(0, length, phase);
                    self.samples[track][voice].trigger_clip(
                        buffer,
                        folder.gain,
                        window.start_frame,
                        window.end_frame,
                        0,
                        0,
                        true,
                    );
                }
            }
            Trigger::Cut { track, voice } => self.samples[track][voice].cut(),
        }
    }

    fn start_clip(
        &mut self,
        clip: &AudioClip,
        track: usize,
        voice: usize,
        local_tick: usize,
        looping: bool,
        tps: f64,
    ) {
        let buffer = clip.buffer.clone().unwrap();
        let fpt = buffer.sample_rate as f64 / tps;
        let frames = |ticks: usize| (ticks as f64 * fpt).round() as usize;
        let window =
            playback_window(clip.source_start_frame, frames(clip.length_ticks), frames(local_tick));
        self.samples[track][voice].trigger_clip(
            buffer,
            clip.gain,
            window.start_frame,
            window.end_frame,
            frames(clip.fade_in_ticks),
            frames(clip.fade_out_ticks),
            looping,
        );
    }
}

fn rendered(frame: Option<SampleFrame>) -> f32 {
    let Some(frame) = frame else { return 0.0 };
    let gain = match frame.gain {
        VoiceGain::Velocity(velocity) => (velocity as f32 / 127.0).clamp(0.0, 1.0),
        VoiceGain::Level(level) => float(level),
    };
    let mut fade = 1.0f32;
    for ramp in [frame.fade_in, frame.fade_out].into_iter().flatten() {
        fade = fade.min((ramp.position as f32 / ramp.length as f32).clamp(0.0, 1.0));
    }
    float(frame.sample) * gain * fade
}

fn step_triggering_at_fires_on_grid_when_offset_is_zero() {
    let mut lane = new_lane("Kick", 36, 4);
    set_step(&mut lane, 1, 100);
    assert!(step_triggering_at(&lane, 0).is_none());
    let step = step_triggering_at(&lane, TICKS_PER_STEP)
        .expect("step 1 should trigger on its own boundary");
    assert_eq!(step.velocity, 100);
}

#[test]
fn audio_step_triggering_at_fires_on_grid_when_offset_is_zero() {
    step_triggering_at_fires_on_grid_when_offset_is_zero();
}

#[test]
fn mod_step_triggering_at_fires_on_grid_when_offset_is_zero() {
    step_triggering_at_fires_on_grid_when_offset_is_zero();
}

fn step_triggering_at_honors_positive_timing_offset() {
    let mut lane = new_lane("Kick", 36, 4);
    set_step(&mut lane, 1, 100);
    lane.steps[1].as_mut().unwrap().timing_offset_ticks = 6;
    assert!(
        step_triggering_at(&lane, TICKS_PER_STEP).is_none(),
        "nudged step shouldn't fire on its unnudged boundary"
    );
    let step = step_triggering_at(&lane, TICKS_PER_STEP + 6)
        .expect("step should fire at its nudged tick");
    assert_eq!(step.velocity, 100);
}

#[test]
fn audio_step_triggering_at_honors_positive_timing_offset() {
    step_triggering_at_honors_positive_timing_offset();
}

#[test]
fn mod_step_triggering_at_honors_positive_timing_offset() {
    step_triggering_at_honors_positive_timing_offset();
}

fn step_triggering_at_honors_negative_timing_offset() {
    let mut lane = new_lane("Kick", 36, 4);
    set_step(&mut lane, 2, 90);
    lane.steps[2].as_mut().unwrap().timing_offset_ticks = -5;
    let step = step_triggering_at(&lane, 2 * TICKS_PER_STEP - 5)
        .expect("step should fire early at its nudged tick");
    assert_eq!(step.velocity, 90);
}

#[test]
fn audio_step_triggering_at_honors_negative_timing_offset() {
    step_triggering_at_honors_negative_timing_offset();
}

#[test]
fn mod_step_triggering_at_honors_negative_timing_offset() {
    step_triggering_at_honors_negative_timing_offset();
}

fn step_triggering_at_returns_none_for_an_empty_step() {
    let lane = new_lane("Kick", 36, 4);
    assert!(step_triggering_at(&lane, 0).is_none());
}

#[test]
fn audio_step_triggering_at_returns_none_for_an_empty_step() {
    step_triggering_at_returns_none_for_an_empty_step();
}

#[test]
fn mod_step_triggering_at_returns_none_for_an_empty_step() {
    step_triggering_at_returns_none_for_an_empty_step();
}

fn trine_track_selecting_simple_engine_leaves_simple_synth_untouched() {
    let mut song = demo();
    let synth_before = song.tracks[1].synth;
    song.tracks[1].synth_engine = SynthEngine::Trine;
    song.tracks[1].synth_engine = SynthEngine::Simple;
    assert_eq!(song.tracks[1].synth, synth_before);
}

#[test]
fn audio_trine_track_selecting_simple_engine_leaves_simple_synth_untouched() {
    trine_track_selecting_simple_engine_leaves_simple_synth_untouched();
}

#[test]
fn mod_trine_track_selecting_simple_engine_leaves_simple_synth_untouched() {
    trine_track_selecting_simple_engine_leaves_simple_synth_untouched();
}

fn wave_track_selecting_simple_engine_leaves_simple_synth_untouched() {
    let mut song = demo();
    let synth_before = song.tracks[1].synth;
    song.tracks[1].synth_engine = SynthEngine::Wave;
    song.tracks[1].synth_engine = SynthEngine::Simple;
    assert_eq!(song.tracks[1].synth, synth_before);
}

#[test]
fn audio_wave_track_selecting_simple_engine_leaves_simple_synth_untouched() {
    wave_track_selecting_simple_engine_leaves_simple_synth_untouched();
}

#[test]
fn mod_wave_track_selecting_simple_engine_leaves_simple_synth_untouched() {
    wave_track_selecting_simple_engine_leaves_simple_synth_untouched();
}

fn samples_for_tick_span_matches_the_flat_formula_with_no_tempo_map() {
    let song = demo();
    let sample_rate = 44_100.0;
    let span = 1000;
    let expected = span as f64 * samples_per_tick_at(sample_rate, float(song.bpm));
    let frames = frames_of(&tempo_segments(&song, span), sample_rate);
    assert!((frames - expected).abs() < 0.001);
}

#[test]
fn audio_samples_for_tick_span_matches_the_flat_formula_with_no_tempo_map() {
    samples_for_tick_span_matches_the_flat_formula_with_no_tempo_map();
}

#[test]
fn mod_samples_for_tick_span_matches_the_flat_formula_with_no_tempo_map() {
    samples_for_tick_span_matches_the_flat_formula_with_no_tempo_map();
}

fn samples_for_tick_span_sums_each_segments_own_duration() {
    let mut song = demo();
    song.bpm = num(120.0);
    set_tempo_at(&mut song, 400, 240.0);
    let sample_rate = 44_100.0;
    let span = 1000;
    let expected = 400.0 * samples_per_tick_at(sample_rate, 120.0)
        + 600.0 * samples_per_tick_at(sample_rate, 240.0);
    let frames = frames_of(&tempo_segments(&song, span), sample_rate);
    assert!((frames - expected).abs() < 0.001);
}

#[test]
fn audio_samples_for_tick_span_sums_each_segments_own_duration() {
    samples_for_tick_span_sums_each_segments_own_duration();
}

#[test]
fn mod_samples_for_tick_span_sums_each_segments_own_duration() {
    samples_for_tick_span_sums_each_segments_own_duration();
}

fn samples_for_tick_span_ignores_tempo_points_beyond_the_span() {
    let mut song = demo();
    set_tempo_at(&mut song, 5000, 999.0);
    let sample_rate = 44_100.0;
    let span = 1000;
    let expected = span as f64 * samples_per_tick_at(sample_rate, float(song.bpm));
    let frames = frames_of(&tempo_segments(&song, span), sample_rate);
    assert!((frames - expected).abs() < 0.001);
}

#[test]
fn audio_samples_for_tick_span_ignores_tempo_points_beyond_the_span() {
    samples_for_tick_span_ignores_tempo_points_beyond_the_span();
}

#[test]
fn mod_samples_for_tick_span_ignores_tempo_points_beyond_the_span() {
    samples_for_tick_span_ignores_tempo_points_beyond_the_span();
}

fn collect_automation_is_default_with_no_active_region() {
    let song = song_with_regions(Vec::new());
    let AutomationOverrides { tracks, master, sends } =
        collect_automation(&song, 0, false, &Vec::new());
    assert!(tracks[0].volume.is_none());
    assert!(tracks[0].pan.is_none());
    assert!(tracks[0].send_levels.is_empty());
    assert!(tracks[0].effect_params.is_empty());
    assert!(master.effect_params.is_empty());
    assert!(sends.is_empty());
}

#[test]
fn audio_collect_automation_is_default_with_no_active_region() {
    collect_automation_is_default_with_no_active_region();
}

#[test]
fn mod_collect_automation_is_default_with_no_active_region() {
    collect_automation_is_default_with_no_active_region();
}

fn collect_automation_is_default_when_the_active_region_has_no_lanes() {
    let song = song_with_regions(vec![region_with_automation(4, Vec::new())]);
    let tracks = collect_automation(&song, 10, false, &Vec::new()).tracks;
    assert!(tracks[0].volume.is_none());
    assert!(tracks[0].pan.is_none());
}

#[test]
fn audio_collect_automation_is_default_when_the_active_region_has_no_lanes() {
    collect_automation_is_default_when_the_active_region_has_no_lanes();
}

#[test]
fn mod_collect_automation_is_default_when_the_active_region_has_no_lanes() {
    collect_automation_is_default_when_the_active_region_has_no_lanes();
}

fn collect_automation_reads_volume_and_pan_from_the_active_region() {
    let song = song_with_regions(vec![region_with_automation(
        4,
        vec![
            lane_on(AutomationTarget::Volume, vec![point(0, 0.0), point(96, 1.0)]),
            lane_on(AutomationTarget::Pan, vec![point(0, -1.0)]),
        ],
    )]);
    let tracks = collect_automation(&song, 48, false, &Vec::new()).tracks;
    let volume = value_at(tracks[0].volume.as_ref().unwrap(), 0, 1.0);
    assert!((volume - 0.5).abs() < 1e-6);
    let pan = value_at(tracks[0].pan.as_ref().unwrap(), 0, 1.0);
    assert_eq!(pan, -1.0);
}

#[test]
fn audio_collect_automation_reads_volume_and_pan_from_the_active_region() {
    collect_automation_reads_volume_and_pan_from_the_active_region();
}

#[test]
fn mod_collect_automation_reads_volume_and_pan_from_the_active_region() {
    collect_automation_reads_volume_and_pan_from_the_active_region();
}

fn collect_automation_ignores_a_region_that_is_not_active_at_this_tick() {
    let song = song_with_regions(vec![region_with_automation(
        4,
        vec![lane_on(AutomationTarget::Volume, vec![point(0, 0.25)])],
    )]);
    // Past the region's on-timeline span (4 steps * TICKS_PER_STEP).
    let tracks = collect_automation(&song, 4 * TICKS_PER_STEP + 1, false, &Vec::new()).tracks;
    assert!(tracks[0].volume.is_none());
}

#[test]
fn audio_collect_automation_ignores_a_region_that_is_not_active_at_this_tick() {
    collect_automation_ignores_a_region_that_is_not_active_at_this_tick();
}

#[test]
fn mod_collect_automation_ignores_a_region_that_is_not_active_at_this_tick() {
    collect_automation_ignores_a_region_that_is_not_active_at_this_tick();
}

fn collect_automation_collects_send_level_and_effect_param_lanes() {
    let song = song_with_regions(vec![region_with_automation(
        4,
        vec![
            lane_on(AutomationTarget::SendLevel { send_index: 2 }, vec![point(0, 0.6)]),
            lane_on(
                AutomationTarget::EffectParam { slot_index: 0, key: mix_param() },
                vec![point(0, 0.3)],
            ),
        ],
    )]);
    let tracks = collect_automation(&song, 0, false, &Vec::new()).tracks;
    assert_eq!(tracks[0].send_levels.len(), 1);
    let send = &tracks[0].send_levels[0];
    assert_eq!(send.send_index, 2);
    assert_eq!(value_at(&send.lane, 0, 1.0), 0.6);
    assert_eq!(tracks[0].effect_params.len(), 1);
    let param = &tracks[0].effect_params[0];
    assert_eq!(param.slot_index, 0);
    assert_eq!(*param.key, mix_param());
    assert_eq!(value_at(&param.lane, 0, 1.0), 0.3);
}

#[test]
fn audio_collect_automation_collects_send_level_and_effect_param_lanes() {
    collect_automation_collects_send_level_and_effect_param_lanes();
}

#[test]
fn mod_collect_automation_collects_send_level_and_effect_param_lanes() {
    collect_automation_collects_send_level_and_effect_param_lanes();
}

fn collect_automation_redirects_other_track_and_master_targets() {
    let mut song = song_with_regions(vec![region_with_automation(
        4,
        vec![
            lane_on(AutomationTarget::OtherTrackVolume { track_index: 1 }, vec![point(0, 0.4)]),
            lane_on(
                AutomationTarget::MasterEffectParam { slot_index: 0, key: mix_param() },
                vec![point(0, 0.8)],
            ),
        ],
    )]);
    // A second track, with no automation of its own, to be the redirect target.
    song.tracks.push(new_piano_roll("Other"));

    let AutomationOverrides { tracks, master, .. } =
        collect_automation(&song, 0, false, &Vec::new());
    assert!(tracks[0].volume.is_none(), "lane redirects away from its own track");
    assert_eq!(value_at(tracks[1].volume.as_ref().unwrap(), 0, 1.0), 0.4);
    assert_eq!(master.effect_params.len(), 1);
    let param = &master.effect_params[0];
    assert_eq!(param.slot_index, 0);
    assert_eq!(*param.key, mix_param());
    assert_eq!(value_at(&param.lane, 0, 1.0), 0.8);
}

#[test]
fn audio_collect_automation_redirects_other_track_and_master_targets() {
    collect_automation_redirects_other_track_and_master_targets();
}

#[test]
fn mod_collect_automation_redirects_other_track_and_master_targets() {
    collect_automation_redirects_other_track_and_master_targets();
}

fn collect_automation_uses_track_wide_lane_where_no_region_is_active() {
    let mut song = song_with_regions(Vec::new());
    song.tracks[0]
        .automation
        .push(lane_on(AutomationTarget::Volume, vec![point(0, 0.2), point(100, 1.0)]));
    // No region at all, let alone one active at tick 50: the track-wide lane still applies,
    // evaluated at the absolute tick.
    let tracks = collect_automation(&song, 50, false, &Vec::new()).tracks;
    assert_eq!(value_at(tracks[0].volume.as_ref().unwrap(), 0, 1.0), 0.6);
}

#[test]
fn audio_collect_automation_uses_track_wide_lane_where_no_region_is_active() {
    collect_automation_uses_track_wide_lane_where_no_region_is_active();
}

#[test]
fn mod_collect_automation_uses_track_wide_lane_where_no_region_is_active() {
    collect_automation_uses_track_wide_lane_where_no_region_is_active();
}

fn collect_automation_lets_an_active_regions_lane_override_a_track_wide_lane() {
    let mut song = song_with_regions(vec![region_with_automation(
        4,
        vec![lane_on(AutomationTarget::Volume, vec![point(0, 0.9)])],
    )]);
    song.tracks[0].automation.push(lane_on(AutomationTarget::Volume, vec![point(0, 0.1)]));
    let tracks = collect_automation(&song, 0, false, &Vec::new()).tracks;
    assert_eq!(value_at(tracks[0].volume.as_ref().unwrap(), 0, 1.0), 0.9);
}

#[test]
fn audio_collect_automation_lets_an_active_regions_lane_override_a_track_wide_lane() {
    collect_automation_lets_an_active_regions_lane_override_a_track_wide_lane();
}

#[test]
fn mod_collect_automation_lets_an_active_regions_lane_override_a_track_wide_lane() {
    collect_automation_lets_an_active_regions_lane_override_a_track_wide_lane();
}

#[test]
fn collect_automation_reads_a_playing_session_clips_lane_in_session_mode() {
    let mut clip = piano_roll_session_clip("Clip", 4);
    clip.automation.push(lane_on(AutomationTarget::Volume, vec![point(0, 0.0), point(96, 1.0)]));
    let song = song_with_session_clip(clip);
    let session_slots = vec![vec![SlotState::Playing { local_tick: 48, loop_count: 0 }]];
    // The absolute tick is irrelevant in session mode: only the slot's own place matters.
    let tracks = collect_automation(&song, 0, true, &session_slots).tracks;
    let volume = value_at(tracks[0].volume.as_ref().unwrap(), 0, 1.0);
    assert!((volume - 0.5).abs() < 1e-6);
}

#[test]
fn collect_automation_ignores_a_session_clips_lane_outside_session_mode() {
    let mut clip = piano_roll_session_clip("Clip", 4);
    clip.automation.push(lane_on(AutomationTarget::Volume, vec![point(0, 0.25)]));
    let song = song_with_session_clip(clip);
    let session_slots = vec![vec![SlotState::Playing { local_tick: 0, loop_count: 0 }]];
    let tracks = collect_automation(&song, 0, false, &session_slots).tracks;
    assert!(tracks[0].volume.is_none());
}

#[test]
fn collect_automation_ignores_a_stopped_slots_lane_in_session_mode() {
    let mut clip = piano_roll_session_clip("Clip", 4);
    clip.automation.push(lane_on(AutomationTarget::Volume, vec![point(0, 0.25)]));
    let song = song_with_session_clip(clip);
    let session_slots = vec![vec![SlotState::Stopped]];
    let tracks = collect_automation(&song, 0, true, &session_slots).tracks;
    assert!(tracks[0].volume.is_none());
}

fn mix_param() -> EffectParamKey {
    EffectParamKey::BuiltIn { param_name: "Mix".to_string() }
}

fn song_with_session_clip(clip: SessionClip) -> Song {
    let mut track = new_piano_roll("Lead");
    track.session_clips = vec![Some(Arc::new(clip))];
    song_of("session clip automation test", vec![track])
}

fn region_fade_in_silences_the_first_tick_then_reaches_full_volume() {
    let sample_rate = 48_000.0;
    let fade_in_ticks = 20;
    let region = sustained_note_region_with_fade_in(8, fade_in_ticks);
    let song = song_with_regions(vec![region]);

    let mut player = Player::new(sample_rate);
    let mut track_out = Vec::new();
    player.process(&song, 48_000, &mut track_out, false, 0, false);

    let samples_per_tick = samples_per_tick_at(sample_rate, float(song.bpm));
    let first_tick_samples = samples_per_tick as usize;
    assert!(
        track_out[0][..first_tick_samples].iter().all(|&s| s == 0.0),
        "the region's first tick should be fully silenced by its fade"
    );

    let well_past_fade = ((fade_in_ticks + 4) as f64 * samples_per_tick) as usize;
    assert!(
        track_out[0][well_past_fade..].iter().any(|&s| s.abs() > 0.1),
        "well after fade_in_ticks the note should be audible at full gain"
    );
}

#[test]
fn audio_region_fade_in_silences_the_first_tick_then_reaches_full_volume() {
    region_fade_in_silences_the_first_tick_then_reaches_full_volume();
}

#[test]
fn mod_region_fade_in_silences_the_first_tick_then_reaches_full_volume() {
    region_fade_in_silences_the_first_tick_then_reaches_full_volume();
}

fn sequencer_process_honors_a_tempo_map_change_at_the_right_tick() {
    let sample_rate = 48_000.0;
    let tempo_change_tick = 4 * TICKS_PER_STEP;
    let note_tick = 6 * TICKS_PER_STEP;
    let region = one_note_region(0, 8, 8, note_tick, TICKS_PER_STEP);
    let mut song = song_with_regions(vec![region]);
    song.bpm = num(120.0);
    set_tempo_at(&mut song, tempo_change_tick, 240.0);

    let mut player = Player::new(sample_rate);
    let mut track_out = Vec::new();
    player.process(&song, 48_000, &mut track_out, false, 0, false);

    let expected_onset = (tempo_change_tick as f64 * samples_per_tick_at(sample_rate, 120.0)
        + (note_tick - tempo_change_tick) as f64 * samples_per_tick_at(sample_rate, 240.0))
    .round() as usize;
    let naive_flat_bpm_onset =
        (note_tick as f64 * samples_per_tick_at(sample_rate, 120.0)).round() as usize;
    assert!(
        expected_onset < naive_flat_bpm_onset,
        "test sanity check: the tempo-aware onset should be earlier than the flat-120bpm one"
    );

    let onset = track_out[0]
        .iter()
        .position(|&s| s.abs() > 0.01)
        .expect("note should have triggered somewhere in the buffer");
    assert!((onset as i64 - expected_onset as i64).abs() <= 2);
    assert!((onset as i64 - naive_flat_bpm_onset as i64).abs() > 50);
}

#[test]
fn audio_sequencer_process_honors_a_tempo_map_change_at_the_right_tick() {
    sequencer_process_honors_a_tempo_map_change_at_the_right_tick();
}

#[test]
fn mod_sequencer_process_honors_a_tempo_map_change_at_the_right_tick() {
    sequencer_process_honors_a_tempo_map_change_at_the_right_tick();
}

fn regions_on_different_tracks_dont_bleed_into_each_other() {
    let mut track_a = new_piano_roll("A");
    track_a.regions.push(one_note_region(0, 2, 2, 0, TICKS_PER_STEP));
    let mut track_b = new_piano_roll("B");
    track_b.regions.push(one_note_region(0, 2, 2, 0, TICKS_PER_STEP));
    let song = song_of("track independence test", vec![track_a, track_b]);

    let mut player = Player::new(48_000.0);
    let mut track_out = Vec::new();
    player.process(&song, 4096, &mut track_out, false, 0, false);

    assert!(track_out[0].iter().any(|&s| s != 0.0), "track A's own region should sound");
    assert!(track_out[1].iter().any(|&s| s != 0.0), "track B's own region should sound");
    // Each track plays its own note once, and nothing of the other's.
    for track in 0..2 {
        let own = player
            .triggers
            .iter()
            .filter(|(_, t)| matches!(t, Trigger::Note { track: of, .. } if *of == track))
            .count();
        assert_eq!(own, 1);
    }
    assert_eq!(player.triggers.len(), 2);
}

#[test]
fn audio_regions_on_different_tracks_dont_bleed_into_each_other() {
    regions_on_different_tracks_dont_bleed_into_each_other();
}

#[test]
fn mod_regions_on_different_tracks_dont_bleed_into_each_other() {
    regions_on_different_tracks_dont_bleed_into_each_other();
}

fn two_tracks_with_a_bus(b_is_a_member: bool, muted: bool, solo: bool) -> Song {
    let mut track_a = new_piano_roll("A");
    track_a.regions.push(one_note_region(0, 2, 2, 0, TICKS_PER_STEP));
    track_a.output = TrackOutput::Submix(0);
    let mut track_b = new_piano_roll("B");
    track_b.regions.push(one_note_region(0, 2, 2, 0, TICKS_PER_STEP));
    if b_is_a_member {
        track_b.output = TrackOutput::Submix(0);
    }
    let mut song = song_with_regions(Vec::new());
    song.tracks = vec![track_a, track_b];
    song.submixes = vec![SubmixBus {
        name: "Bus".to_string(),
        volume: num(1.0),
        pan: num(0.0),
        muted,
        solo,
    }];
    song
}

fn muted_submix_silences_every_member_track_at_the_synthesis_stage() {
    let song = two_tracks_with_a_bus(true, true, false);
    let mut player = Player::new(48_000.0);
    let mut track_out = Vec::new();
    player.process(&song, 4096, &mut track_out, false, 0, false);

    assert!(
        track_out[0].iter().all(|&s| s == 0.0),
        "track A should be silent while its submix is muted"
    );
    assert!(
        track_out[1].iter().all(|&s| s == 0.0),
        "track B should be silent while its submix is muted"
    );
}

#[test]
fn audio_muted_submix_silences_every_member_track_at_the_synthesis_stage() {
    muted_submix_silences_every_member_track_at_the_synthesis_stage();
}

#[test]
fn mod_muted_submix_silences_every_member_track_at_the_synthesis_stage() {
    muted_submix_silences_every_member_track_at_the_synthesis_stage();
}

fn soloed_submix_silences_every_track_outside_it() {
    let song = two_tracks_with_a_bus(false, false, true);
    let mut player = Player::new(48_000.0);
    let mut track_out = Vec::new();
    player.process(&song, 4096, &mut track_out, false, 0, false);

    assert!(
        track_out[0].iter().any(|&s| s != 0.0),
        "track A should sound: it's routed into the soloed submix"
    );
    assert!(
        track_out[1].iter().all(|&s| s == 0.0),
        "track B should be silent: solo is active and it's outside the soloed submix"
    );
}

#[test]
fn audio_soloed_submix_silences_every_track_outside_it() {
    soloed_submix_silences_every_track_outside_it();
}

#[test]
fn mod_soloed_submix_silences_every_track_outside_it() {
    soloed_submix_silences_every_track_outside_it();
}

#[test]
fn gap_between_regions_triggers_nothing() {
    let song = song_with_regions(vec![
        one_note_region(0, 2, 2, 0, TICKS_PER_STEP),
        one_note_region(6 * TICKS_PER_STEP, 2, 2, 0, TICKS_PER_STEP),
    ]);
    let mut player = Player::new(48_000.0);
    let mut track_out = Vec::new();
    player.process(&song, 48_000, &mut track_out, false, 0, false);

    // 250 samples per tick, so one step is 6000 samples and step 6 starts at 36000.
    assert!(track_out[0][0..3000].iter().any(|&s| s != 0.0));
    assert!(track_out[0][20_000..30_000].iter().all(|&s| s == 0.0));
    assert!(track_out[0][36_000..39_000].iter().any(|&s| s != 0.0));
}

#[test]
fn region_span_longer_than_its_content_triggers_it_again() {
    let region = one_note_region(0, 2, 4, 0, TICKS_PER_STEP / 2);
    let song = song_with_regions(vec![region]);
    let mut player = Player::new(48_000.0);
    let mut track_out = Vec::new();
    player.process(&song, 24_000, &mut track_out, false, 0, false);

    assert!(track_out[0][0..2000].iter().any(|&s| s != 0.0));
    assert!(track_out[0][6000..9000].iter().all(|&s| s == 0.0));
    assert!(track_out[0][12_000..14_000].iter().any(|&s| s != 0.0));
    let onsets: Vec<usize> = player.triggers.iter().map(|(frame, _)| *frame).collect();
    assert_eq!(onsets, vec![0, 12_000]);
}

#[test]
fn audio_clip_sounds_at_its_start_tick_and_extends_the_loop_length() {
    let buffer = Arc::new(SampleBuffer { sample_rate: 48_000, mono: vec![num(0.5); 4800] });
    let mut track = new_audio("Vocals");
    track.audio_clips.push(new_audio_clip(0, buffer, 120.0));
    let song = song_of("audio clip test", vec![track]);

    assert!(
        arrangement_length_ticks(&song) > 0,
        "an audio clip with no regions should still produce a nonzero loop length"
    );
    // 0.1 s at 192 ticks a second is 19.2 ticks, less than the one step a loop has at least.
    assert_eq!(arrangement_length_ticks(&song), TICKS_PER_STEP);

    let mut player = Player::new(48_000.0);
    let mut track_out = Vec::new();
    player.process(&song, 5000, &mut track_out, false, 0, false);
    assert!(track_out[0][0..4800].iter().all(|&s| s == 0.5));
    assert!(track_out[0][4800..].iter().all(|&s| s == 0.0));
}

#[test]
fn session_mode_triggers_a_launched_step_grid_slot_and_ignores_the_playlist() {
    let mut track = new_step_grid("Drums");
    // A region that would play a note at tick 0 in arrangement mode.
    track.regions.push(one_note_region(0, 4, 4, 0, TICKS_PER_STEP));
    let mut lane = new_lane("Kick", 60, 4);
    set_step(&mut lane, 0, 127);
    track.session_clips.push(Some(Arc::new(session_clip("Slot", step_grid_content(lane, 4)))));
    track.session_launch_requests.push(play(1));
    let song = song_of("session view test", vec![track]);

    let mut player = Player::new(48_000.0);
    let mut track_out = Vec::new();
    player.process(&song, 4096, &mut track_out, true, 0, false);

    assert!(
        track_out[0].iter().any(|&s| s != 0.0),
        "the launched step-grid session slot should be audible"
    );
    assert!(player.triggers.iter().all(|(_, t)| {
        matches!(t, Trigger::LaneSynth { source: ContentSource::Slot(0), .. })
    }));
}

#[test]
fn session_mode_quantize_override_launches_immediately_despite_a_huge_grid_quantize() {
    let mut track = new_step_grid("Drums");
    let mut lane = new_lane("Kick", 60, 4);
    set_step(&mut lane, 0, 127);
    let mut clip = session_clip("Slot", step_grid_content(lane, 4));
    // Overrides the grid-wide quantize below with none at all.
    clip.quantize_override = Some(SessionQuantize::Immediate);
    track.session_clips.push(Some(Arc::new(clip)));
    track.session_launch_requests.push(play(1));
    let song = song_of("session view quantize override test", vec![track]);

    let mut player = Player::new(48_000.0);
    let mut track_out = Vec::new();
    player.process(&song, 4096, &mut track_out, true, 1_000_000, false);

    assert!(
        matches!(player.slot(0, 0), SlotState::Playing { .. }),
        "the clip's own override should have launched it immediately, got {:?}",
        player.slot(0, 0)
    );
    assert!(
        track_out[0].iter().any(|&s| s != 0.0),
        "the launched step-grid session slot should be audible"
    );
}

fn looping_audio_song(request: SessionLaunchRequest) -> Song {
    let buffer = Arc::new(SampleBuffer { sample_rate: 48_000, mono: vec![num(0.5); 480] });
    let audio_clip = new_audio_clip(0, buffer, 120.0);
    let mut track = new_audio("Loop");
    track
        .session_clips
        .push(Some(Arc::new(session_clip("Loop Slot", SessionClipContent::Audio(audio_clip)))));
    track.session_launch_requests.push(request);
    song_of("session view loop test", vec![track])
}

#[test]
fn session_mode_looping_audio_clip_stops_hard_when_the_slot_is_stopped() {
    let song = looping_audio_song(play(1));
    let mut player = Player::new(48_000.0);
    let mut track_out = Vec::new();
    // 4000 frames is well past the clip's own 480, so it has to loop to still sound.
    player.process(&song, 4000, &mut track_out, true, 0, false);
    assert!(
        track_out[0][3000..4000].iter().any(|&s| s != 0.0),
        "the clip should still be looping well past its own natural length"
    );

    let song_after_stop = looping_audio_song(stop(2));
    player.process(&song_after_stop, 4000, &mut track_out, true, 0, false);
    assert!(
        track_out[0][3000..4000].iter().all(|&s| s == 0.0),
        "stopping the slot should hard-cut the looping voice, not let it keep looping"
    );
}

#[test]
fn session_mode_recording_clip_plays_its_active_take_and_loops() {
    let buffer = Arc::new(SampleBuffer { sample_rate: 48_000, mono: vec![num(0.5); 480] });
    let mut folder = new_take_folder(0, 480);
    folder.takes[0].buffer = Some(buffer);
    let mut track = new_audio("Loop");
    track
        .session_clips
        .push(Some(Arc::new(session_clip("Recorded Loop", SessionClipContent::Recording(folder)))));
    track.session_launch_requests.push(play(1));
    let song = song_of("session view recording loop test", vec![track]);

    let mut player = Player::new(48_000.0);
    let mut track_out = Vec::new();
    player.process(&song, 4000, &mut track_out, true, 0, false);
    assert!(
        track_out[0][3000..4000].iter().any(|&s| s != 0.0),
        "the recorded take should still be looping well past its own natural length"
    );
}

fn session_song(track: Track) -> Song {
    song_of("session follow-action test", vec![track])
}

#[test]
fn session_mode_follow_action_next_advances_to_the_next_slot_and_stops_the_source() {
    let mut track = new_step_grid("Drums");
    let mut first = session_clip("Slot 0", step_grid_content(one_step_lane(60), 1));
    first.follow_action = FollowActionConfig {
        times: 1,
        action_a: FollowAction::Next,
        chance_a: num(1.0),
        action_b: FollowAction::Nothing,
        chance_b: num(0.0),
    };
    track.session_clips.push(Some(Arc::new(first)));
    let second = session_clip("Slot 1", step_grid_content(one_step_lane(62), 4));
    track.session_clips.push(Some(Arc::new(second)));
    track.session_launch_requests.push(play(1));
    let song = session_song(track);

    let mut player = Player::new(48_000.0);
    let mut track_out = Vec::new();
    player.process(&song, 48_000, &mut track_out, true, 0, false);

    assert_eq!(
        player.slot(0, 0),
        SlotState::Stopped,
        "the source slot should have stopped once its follow action fired"
    );
    assert!(
        matches!(player.slot(0, 1), SlotState::Playing { .. }),
        "Next should have launched slot 1, got {:?}",
        player.slot(0, 1)
    );
}

fn legato_song(requests: usize) -> Song {
    let mut track = new_step_grid("Drums");
    for pitch in [60, 62] {
        let mut clip = session_clip(
            &format!("Slot {pitch}"),
            step_grid_content(one_step_lane(pitch), 16),
        );
        clip.legato = true;
        track.session_clips.push(Some(Arc::new(clip)));
    }
    for _ in 0..requests {
        track.session_launch_requests.push(play(1));
    }
    session_song(track)
}

#[test]
fn session_mode_legato_launch_continues_the_outgoing_slots_phase() {
    let mut player = Player::new(48_000.0);
    let mut track_out = Vec::new();
    player.process(&legato_song(1), 4000, &mut track_out, true, 0, false);
    let SlotState::Playing { local_tick: slot_0_local_tick, .. } = player.slot(0, 0) else {
        panic!("slot 0 should be playing by now: {:?}", player.slot(0, 0));
    };
    assert!(slot_0_local_tick > 0, "slot 0 should be mid-loop, not just starting");

    player.process(&legato_song(2), 1, &mut track_out, true, 0, false);

    assert_eq!(
        player.slot(0, 0),
        SlotState::Stopped,
        "legato still stops whatever else was playing on the same track"
    );
    let SlotState::Playing { local_tick: slot_1_local_tick, .. } = player.slot(0, 1) else {
        panic!("slot 1 should be playing: {:?}", player.slot(0, 1));
    };
    assert!(
        slot_1_local_tick > 0,
        "legato should have continued slot 0's phase instead of restarting, got {slot_1_local_tick}"
    );
}

fn one_loop_song(request: SessionLaunchRequest) -> Song {
    let mut track = new_step_grid("Drums");
    let clip = session_clip("Loop", step_grid_content(one_step_lane(36), 1));
    track.session_clips.push(Some(Arc::new(clip)));
    track.session_launch_requests.push(request);
    session_song(track)
}

#[test]
fn capturing_logs_a_started_event_on_launch_and_a_stopped_event_on_stop() {
    let mut player = Player::new(48_000.0);
    let mut track_out = Vec::new();
    player.process(&one_loop_song(play(1)), 4000, &mut track_out, true, 0, true);
    let log = player.sequencer.capture_log().0;
    assert_eq!(log.len(), 1);
    assert!(matches!(log[0].kind, CaptureEventKind::Started { .. }));

    player.process(&one_loop_song(stop(2)), 4000, &mut track_out, true, 0, true);
    let log = player.sequencer.capture_log().0;
    assert_eq!(log.len(), 2);
    assert!(matches!(log[1].kind, CaptureEventKind::Stopped));
}

#[test]
fn capturing_logs_nothing_when_the_flag_is_off() {
    let mut player = Player::new(48_000.0);
    let mut track_out = Vec::new();
    player.process(&one_loop_song(play(1)), 4000, &mut track_out, true, 0, false);
    assert!(player.sequencer.capture_log().0.is_empty());
}

#[test]
fn capturing_clears_the_log_on_the_off_to_on_edge() {
    let song = one_loop_song(play(1));
    let mut player = Player::new(48_000.0);
    let mut track_out = Vec::new();
    player.process(&song, 4000, &mut track_out, true, 0, true);
    let (log, capture_tick_after_first_window) = player.sequencer.capture_log();
    assert_eq!(log.len(), 1);

    // Turned off, then back on: the old log should not leak into the new one.
    player.process(&song, 4000, &mut track_out, true, 0, false);
    player.process(&song, 4000, &mut track_out, true, 0, true);
    let (log, capture_tick) = player.sequencer.capture_log();
    assert!(
        log.is_empty(),
        "re-arming capture should start from an empty log, not carry over earlier events"
    );
    assert!(
        capture_tick <= capture_tick_after_first_window,
        "re-arming should reset capture_tick near 0, not keep accumulating across the gap: \
         got {} after re-arming vs {} after the first window alone",
        capture_tick,
        capture_tick_after_first_window
    );
}

// The arrangement, tick by tick.

fn settings() -> TickSettings {
    TickSettings {
        every_track: false,
        live_track: None,
        metronome_enabled: false,
        click_frames: 0,
        session_mode: false,
        session_quantize_ticks: 0,
        capturing: false,
    }
}

/// The triggers of each of the next ticks.
fn run(
    sequencer: &mut Sequencer,
    song: &Song,
    ticks: usize,
    settings: TickSettings,
) -> Vec<Vec<Trigger>> {
    sequencer.begin_buffer(song);
    (0..ticks).map(|_| sequencer.process_tick(&PlainRules, song, settings)).collect()
}

fn lane_track(lane: Lane) -> Track {
    let mut track = new_step_grid("Drums");
    let mut region = one_note_region(0, 16, 16, 0, 1);
    region.content = RegionContent::StepGrid(vec![lane]);
    track.regions.push(region);
    track
}

#[test]
fn the_clock_counts_ticks_and_wraps_at_the_end_of_the_arrangement() {
    let song = song_with_regions(vec![one_note_region(0, 2, 2, 5, 1)]);
    assert_eq!(arrangement_length_ticks(&song), 48);
    let mut sequencer = Sequencer::new();
    assert_eq!(sequencer.next_tick(), 0);
    let ticks = run(&mut sequencer, &song, 100, settings());
    let played: Vec<usize> = (0..100).filter(|&t| !ticks[t].is_empty()).collect();
    assert_eq!(played, vec![5, 53]);
    assert_eq!(sequencer.current_tick(), 99 % 48);
    assert_eq!(sequencer.next_tick(), 100 % 48);
    sequencer.reset_position();
    assert_eq!((sequencer.current_tick(), sequencer.next_tick()), (0, 0));
}

#[test]
fn a_note_takes_the_tracks_next_voice_and_glides_from_the_last_pitch() {
    let mut region = one_note_region(0, 4, 4, 0, 12);
    region.content = RegionContent::PianoRoll(vec![
        Note { id: 0, pitch: 60, start_tick: 0, length_ticks: 12, velocity: 90 },
        Note { id: 1, pitch: 64, start_tick: 7, length_ticks: 3, velocity: 91 },
    ]);
    let mut song = song_with_regions(vec![region]);
    song.tracks[0].synth.glide_seconds = num(0.1);
    let ticks = run(&mut Sequencer::new(), &song, 8, settings());
    assert_eq!(
        ticks[0],
        vec![Trigger::Note {
            track: 0,
            source: ContentSource::Region(0),
            note: 0,
            engine: SynthEngine::Simple,
            voice: 0,
            pitch: 60,
            velocity: 90,
            length_ticks: 12,
            glide_from: None,
        }]
    );
    assert_eq!(
        ticks[7],
        vec![Trigger::Note {
            track: 0,
            source: ContentSource::Region(0),
            note: 1,
            engine: SynthEngine::Simple,
            voice: 1,
            pitch: 64,
            velocity: 91,
            length_ticks: 3,
            glide_from: Some(60),
        }]
    );
    assert!(ticks[1..7].iter().all(|t| t.is_empty()));
}

#[test]
fn synth_voices_go_round() {
    let song = song_with_regions(vec![one_note_region(0, 1, 1, 3, 1)]);
    let ticks = run(&mut Sequencer::new(), &song, 24 * (VOICE_COUNT + 2), settings());
    let voices: Vec<usize> = ticks
        .iter()
        .flatten()
        .map(|t| match t {
            Trigger::Note { voice, .. } => *voice,
            _ => unreachable!(),
        })
        .collect();
    let expected: Vec<usize> = (0..VOICE_COUNT + 2).map(|n| n % VOICE_COUNT).collect();
    assert_eq!(voices, expected);
}

#[test]
fn a_lane_plays_its_sample_or_else_the_patch_it_names() {
    let with_sample = {
        let mut lane = one_step_lane(36);
        lane.sample = Some(Arc::new(SampleBuffer { sample_rate: 48_000, mono: vec![num(1.0)] }));
        lane
    };
    let with_own_patch = {
        let mut lane = one_step_lane(38);
        lane.synth_override = true;
        lane.synth_engine = SynthEngine::Wave;
        lane
    };
    let mut third = lane_track(one_step_lane(40));
    third.synth_engine = SynthEngine::Trine;
    let song = song_of("lanes", vec![lane_track(with_sample), lane_track(with_own_patch), third]);
    let ticks = run(&mut Sequencer::new(), &song, 1, settings());
    assert_eq!(
        ticks[0],
        vec![
            Trigger::LaneSample {
                track: 0,
                source: ContentSource::Region(0),
                lane: 0,
                voice: 0,
                velocity: 127,
            },
            Trigger::LaneSynth {
                track: 1,
                source: ContentSource::Region(0),
                lane: 0,
                engine: SynthEngine::Wave,
                patch: PatchSource::Lane,
                voice: 0,
                pitch: 38,
                velocity: 127,
            },
            Trigger::LaneSynth {
                track: 2,
                source: ContentSource::Region(0),
                lane: 0,
                engine: SynthEngine::Trine,
                patch: PatchSource::Track,
                voice: 0,
                pitch: 40,
                velocity: 127,
            },
        ]
    );
}

#[test]
fn a_frozen_track_plays_its_frozen_clip_alone() {
    let buffer = Arc::new(SampleBuffer { sample_rate: 48_000, mono: vec![num(0.5); 480] });
    let mut track = new_piano_roll("Lead");
    track.regions.push(one_note_region(0, 2, 2, 3, 1));
    track.frozen = true;
    track.frozen_clip = Some(new_audio_clip(3, buffer, 120.0));
    let song = song_of("frozen", vec![track]);
    let ticks = run(&mut Sequencer::new(), &song, 10, settings());
    assert_eq!(ticks[3], vec![Trigger::FrozenClip { track: 0, voice: 0 }]);
    assert_eq!(ticks.iter().flatten().count(), 1);
}

#[test]
fn a_take_folder_plays_the_take_each_segment_picks() {
    let take = |x: f32| Take {
        buffer: Some(Arc::new(SampleBuffer { sample_rate: 48_000, mono: vec![num(x); 4800] })),
    };
    let folder = TakeFolder {
        start_tick: 4,
        length_ticks: 20,
        takes: vec![take(0.1), take(0.2), Take { buffer: None }],
        comp: vec![
            CompSegment { start_tick: 0, end_tick: 5, take_index: 1 },
            CompSegment { start_tick: 5, end_tick: 9, take_index: 2 },
            CompSegment { start_tick: 9, end_tick: 20, take_index: 0 },
            CompSegment { start_tick: 12, end_tick: 20, take_index: 8 },
        ],
        gain: num(1.0),
    };
    let mut track = new_audio("Vocals");
    track.take_folders.push(folder);
    let song = song_of("takes", vec![track]);
    let ticks = run(&mut Sequencer::new(), &song, 24, settings());
    assert_eq!(
        ticks[4],
        vec![Trigger::TakeSegment { track: 0, folder: 0, segment: 0, take: 1, voice: 0 }]
    );
    assert_eq!(
        ticks[13],
        vec![Trigger::TakeSegment { track: 0, folder: 0, segment: 2, take: 0, voice: 1 }]
    );
    // A take without audio, and one that is not there, play nothing.
    assert_eq!(ticks.iter().flatten().count(), 2);
}

#[test]
fn a_bounce_of_every_track_plays_the_muted_too() {
    let mut muted = new_piano_roll("Muted");
    muted.regions.push(one_note_region(0, 2, 2, 0, 1));
    muted.muted = true;
    let song = song_of("bounce", vec![muted]);
    assert!(run(&mut Sequencer::new(), &song, 1, settings())[0].is_empty());
    let whole = TickSettings { every_track: true, ..settings() };
    assert_eq!(run(&mut Sequencer::new(), &song, 1, whole)[0].len(), 1);
}

#[test]
fn the_metronome_clicks_on_each_beat_and_accents_the_bar() {
    let song = song_with_regions(vec![one_note_region(0, 32, 32, 0, 1)]);
    let clicking = TickSettings { metronome_enabled: true, click_frames: 10, ..settings() };
    let mut sequencer = Sequencer::new();
    let mut clicks = Vec::new();
    sequencer.begin_buffer(&song);
    for tick in 0..500 {
        sequencer.process_tick(&PlainRules, &song, clicking);
        if sequencer.next_metronome_click_position() == Some(0) {
            clicks.push((tick, sequencer.metronome().accent));
        }
        while sequencer.next_metronome_click_position().is_some() {}
    }
    let beats: Vec<usize> = clicks.iter().map(|(tick, _)| *tick).collect();
    assert_eq!(beats, vec![0, 96, 192, 288, 384, 480]);
    let accents: Vec<usize> = clicks.iter().filter(|(_, a)| *a).map(|(tick, _)| *tick).collect();
    assert_eq!(accents, vec![0]);
}

#[test]
fn fading_regions_are_the_ones_the_tick_is_inside() {
    let mut track = new_piano_roll("Lead");
    track.regions.push(one_note_region(0, 2, 2, 0, 1));
    track.regions.push(one_note_region(24, 2, 2, 0, 1));
    let at = |tick: usize| -> Vec<(usize, usize)> {
        let active = fading_regions_at(&track, false, tick);
        active.iter().map(|r| (r.region, r.offset_ticks)).collect()
    };
    assert_eq!(at(0), vec![(0, 0)]);
    assert_eq!(at(30), vec![(0, 30), (1, 6)]);
    assert_eq!(at(48), vec![(1, 24)]);
    assert_eq!(at(72), vec![]);
    assert!(fading_regions_at(&track, true, 30).is_empty());
}

// The session grid, tick by tick.

fn session() -> TickSettings {
    TickSettings { session_mode: true, ..settings() }
}

#[test]
fn fresh_handles_are_empty() {
    assert!(new_session_slot_handles().is_empty());
    let (log, tick) = new_capture_log_handle();
    assert!(log.is_empty());
    assert_eq!(tick, 0);
}

#[test]
fn a_launch_waits_for_its_boundary_and_stops_the_other_slot() {
    let song_with = |requests: Vec<SessionLaunchRequest>| {
        let mut track = new_step_grid("Drums");
        for pitch in [60, 62] {
            let clip = session_clip("Slot", step_grid_content(one_step_lane(pitch), 2));
            track.session_clips.push(Some(Arc::new(clip)));
        }
        track.session_launch_requests = requests;
        // The session's clock runs round the arrangement, so make that a long one.
        track.regions.push(one_note_region(0, 8, 8, 0, 1));
        session_song(track)
    };
    let idle = SessionLaunchRequest { generation: 0, intent: LaunchIntent::Stop, held: false };
    let quantized = TickSettings { session_quantize_ticks: 24, ..session() };
    let mut sequencer = Sequencer::new();
    run(&mut sequencer, &song_with(vec![play(1), idle]), 30, quantized);
    assert_eq!(sequencer.session_slots()[0][0], SlotState::Playing { local_tick: 29, loop_count: 0 });
    // Asked for on tick 30, so it starts on the next boundary, tick 48.
    let both = song_with(vec![play(1), play(1)]);
    run(&mut sequencer, &both, 18, quantized);
    assert_eq!(sequencer.session_slots()[0][1], SlotState::Queued { launch_tick: 48 });
    let ticks = run(&mut sequencer, &both, 1, quantized);
    assert_eq!(sequencer.session_slots()[0][0], SlotState::Stopped);
    assert_eq!(sequencer.session_slots()[0][1], SlotState::Playing { local_tick: 0, loop_count: 0 });
    assert!(ticks[0].iter().any(|t| matches!(
        t,
        Trigger::LaneSynth { source: ContentSource::Slot(1), pitch: 62, .. }
    )));
}

#[test]
fn a_gate_slot_plays_while_it_is_held() {
    let song_held = |held: bool| {
        let mut track = new_step_grid("Drums");
        let mut clip = session_clip("Gate", step_grid_content(one_step_lane(60), 4));
        clip.launch_mode = LaunchMode::Gate;
        track.session_clips.push(Some(Arc::new(clip)));
        track.session_launch_requests.push(SessionLaunchRequest {
            generation: 0,
            intent: LaunchIntent::Play,
            held,
        });
        session_song(track)
    };
    let capturing = TickSettings { capturing: true, ..session() };
    let mut sequencer = Sequencer::new();
    run(&mut sequencer, &song_held(true), 3, capturing);
    assert!(sequencer.session_slots()[0][0].local_tick().is_some());
    run(&mut sequencer, &song_held(false), 3, capturing);
    assert_eq!(sequencer.session_slots()[0][0], SlotState::Stopped);
    let log = sequencer.capture_log().0;
    assert_eq!(log.len(), 2);
    assert!(matches!(log[0].kind, CaptureEventKind::Started { .. }));
    assert!(matches!(log[1].kind, CaptureEventKind::Stopped));
    assert_eq!((log[0].track_index, log[1].track_index), (0, 0));
    assert!(log[0].relative_tick <= log[1].relative_tick);
}

#[test]
fn a_looping_slot_sounds_on_one_voice_until_it_is_cut() {
    let mut sequencer = Sequencer::new();
    let ticks = run(&mut sequencer, &looping_audio_song(play(1)), 10, session());
    let played: Vec<Trigger> = ticks.into_iter().flatten().collect();
    assert_eq!(played, vec![Trigger::SlotAudio { track: 0, slot: 0, voice: 0, local_tick: 0 }]);
    let ticks = run(&mut sequencer, &looping_audio_song(stop(2)), 10, session());
    let played: Vec<Trigger> = ticks.into_iter().flatten().collect();
    assert_eq!(played, vec![Trigger::Cut { track: 0, voice: 0 }]);
}

#[test]
fn a_legato_launch_of_audio_joins_it_in_the_middle() {
    let song_with = |requests: usize| {
        let buffer = Arc::new(SampleBuffer { sample_rate: 48_000, mono: vec![num(0.5); 24_000] });
        let mut track = new_audio("Loops");
        for _ in 0..2 {
            let clip = new_audio_clip(0, buffer.clone(), 120.0);
            let mut clip = session_clip("Loop", SessionClipContent::Audio(clip));
            clip.legato = true;
            track.session_clips.push(Some(Arc::new(clip)));
        }
        track.session_launch_requests = (0..requests).map(|_| play(1)).collect();
        session_song(track)
    };
    let mut sequencer = Sequencer::new();
    run(&mut sequencer, &song_with(1), 11, session());
    let place = sequencer.session_slots()[0][0].local_tick().unwrap();
    assert_eq!(place, 10);
    let ticks = run(&mut sequencer, &song_with(2), 1, session());
    assert!(ticks[0].contains(&Trigger::Cut { track: 0, voice: 0 }));
    let joined: Vec<usize> = ticks[0]
        .iter()
        .filter_map(|t| match t {
            Trigger::SlotAudio { slot: 1, local_tick, .. } => Some(*local_tick),
            _ => None,
        })
        .collect();
    // The outgoing slot has moved on by this tick before the other takes over from it.
    assert_eq!(joined, vec![place + 1]);
    assert_eq!(sequencer.session_slots()[0][0], SlotState::Stopped);
}

#[test]
fn outside_session_mode_the_slots_stand_still() {
    let song = one_loop_song(play(1));
    let mut sequencer = Sequencer::new();
    let ticks = run(&mut sequencer, &song, 20, settings());
    assert!(ticks.iter().all(|t| t.is_empty()));
    assert!(sequencer.session_slots().is_empty());
    // Back in session mode the waiting click is taken up.
    run(&mut sequencer, &song, 1, session());
    let slots = sequencer.session_slots();
    assert_eq!(slots[0][0], SlotState::Playing { local_tick: 0, loop_count: 0 });
    run(&mut sequencer, &song, 20, settings());
    assert_eq!(sequencer.session_slots(), slots);
}

#[test]
fn a_send_of_the_song_has_its_own_automation() {
    let mut song = song_with_regions(vec![region_with_automation(
        4,
        vec![lane_on(
            AutomationTarget::SendEffectParam { send_index: 1, slot_index: 2, key: mix_param() },
            vec![point(0, 0.5)],
        )],
    )]);
    song.sends = vec![SendBus { name: "A".to_string() }, SendBus { name: "B".to_string() }];
    let sends = collect_automation(&song, 3, false, &Vec::new()).sends;
    assert_eq!(sends.len(), 2);
    assert!(sends[0].effect_params.is_empty());
    assert_eq!(sends[1].effect_params.len(), 1);
    assert_eq!(sends[1].effect_params[0].slot_index, 2);
    assert_eq!(sends[1].effect_params[0].lane.base_offset, 3);
}

#[test]
fn a_song_fits_while_its_ticks_can_be_counted() {
    let mut song = song_with_regions(vec![one_note_region(5, 1, 2, 0, 1)]);
    assert!(song_fits(&song));
    song.tracks[0].regions[0].start_tick = usize::MAX - 2 * TICKS_PER_STEP;
    assert!(song_fits(&song));
    song.tracks[0].regions[0].start_tick += 1;
    assert!(!song_fits(&song));
    song.tracks[0].regions[0].start_tick = 0;
    song.tracks[0].regions[0].content_length_steps = usize::MAX / TICKS_PER_STEP + 1;
    assert!(!song_fits(&song));

    let mut song = song_with_regions(Vec::new());
    song.tracks[0].take_folders.push(new_take_folder(usize::MAX, 0));
    assert!(song_fits(&song));
    song.tracks[0].take_folders.push(new_take_folder(usize::MAX, 1));
    assert!(!song_fits(&song));

    let buffer = Arc::new(SampleBuffer { sample_rate: 48_000, mono: vec![num(0.5); 480] });
    let mut song = song_with_regions(Vec::new());
    song.tracks[0].audio_clips.push(new_audio_clip(usize::MAX, buffer, 120.0));
    assert!(!song_fits(&song));
    song.tracks[0].audio_clips[0].buffer = None;
    assert!(song_fits(&song), "a clip that is not loaded takes up no time");
}

#[test]
fn the_first_active_region_is_found() {
    let mut track = new_piano_roll("Lead");
    track.regions.push(one_note_region(24, 1, 1, 0, 1));
    track.regions.push(one_note_region(30, 1, 1, 0, 1));
    assert!(!is_active(&track.regions[0], 23));
    assert!(is_active(&track.regions[0], 24));
    assert!(is_active(&track.regions[0], 47));
    assert!(!is_active(&track.regions[0], 48));
    assert!(active_region_at(&track, 0).is_none());
    assert_eq!(active_region_at(&track, 40).unwrap().start_tick, 24);
    assert_eq!(active_region_at(&track, 50).unwrap().start_tick, 30);
}

/// Three slots, of which the first is followed by the next once it has looped.
fn handover_song(requests: Vec<SessionLaunchRequest>) -> Song {
    let mut track = new_step_grid("Drums");
    let mut first = session_clip("First", step_grid_content(one_step_lane(60), 1));
    first.follow_action.action_a = FollowAction::Next;
    track.session_clips.push(Some(Arc::new(first)));
    for (name, pitch) in [("Second", 62), ("Third", 64)] {
        let clip = session_clip(name, step_grid_content(one_step_lane(pitch), 4));
        track.session_clips.push(Some(Arc::new(clip)));
    }
    track.session_launch_requests = requests;
    track.regions.push(one_note_region(0, 8, 8, 0, 1));
    session_song(track)
}

fn playing(local_tick: usize) -> SlotState {
    SlotState::Playing { local_tick, loop_count: 0 }
}

/// What was logged: when, on which track, and the name of the clip for a start.
fn logged(sequencer: &Sequencer) -> Vec<(usize, usize, Option<String>)> {
    let name = |event: &CaptureEvent| match &event.kind {
        CaptureEventKind::Started { clip } => Some(clip.name.clone()),
        CaptureEventKind::Stopped => None,
    };
    let log = sequencer.capture_log().0;
    log.iter().map(|e| (e.relative_tick, e.track_index, name(e))).collect()
}

#[test]
fn a_slot_stopped_by_another_at_the_very_end_of_its_loop_is_not_followed_up() {
    let quantized = TickSettings { session_quantize_ticks: 24, capturing: true, ..session() };
    let mut sequencer = Sequencer::new();
    run(&mut sequencer, &handover_song(vec![play(1), stop(0), stop(0)]), 10, quantized);
    let both = handover_song(vec![play(1), stop(0), play(1)]);
    run(&mut sequencer, &both, 14, quantized);
    assert_eq!(sequencer.session_slots()[0][0], playing(23));
    assert_eq!(sequencer.session_slots()[0][2], SlotState::Queued { launch_tick: 24 });
    // On tick 24 the first slot loops and the third starts: only the third is heard.
    run(&mut sequencer, &both, 1, quantized);
    let slots = vec![SlotState::Stopped, SlotState::Stopped, playing(0)];
    assert_eq!(sequencer.session_slots()[0], slots);
    assert_eq!(
        logged(&sequencer),
        vec![
            (0, 0, Some("First".to_string())),
            (24, 0, None),
            (24, 0, Some("Third".to_string())),
        ]
    );
}

#[test]
fn a_follow_action_stops_whatever_else_was_playing_or_queued() {
    let mut sequencer = Sequencer::new();
    let immediate = TickSettings { capturing: true, ..session() };
    run(&mut sequencer, &handover_song(vec![play(1), stop(0), stop(0)]), 10, immediate);
    // The third slot waits for a boundary that lies beyond the end of the first one's loop.
    let waiting = TickSettings { session_quantize_ticks: 96, ..immediate };
    let both = handover_song(vec![play(1), stop(0), play(1)]);
    run(&mut sequencer, &both, 14, waiting);
    assert_eq!(sequencer.session_slots()[0][2], SlotState::Queued { launch_tick: 96 });
    run(&mut sequencer, &both, 1, waiting);
    let slots = vec![SlotState::Stopped, playing(0), SlotState::Stopped];
    assert_eq!(sequencer.session_slots()[0], slots);
    assert_eq!(
        logged(&sequencer),
        vec![
            (0, 0, Some("First".to_string())),
            (24, 0, None),
            (24, 0, Some("Second".to_string())),
        ]
    );
}

#[test]
fn a_clip_that_takes_over_is_logged_after_the_stop_of_the_other() {
    let mut sequencer = Sequencer::new();
    let capturing = TickSettings { capturing: true, ..session() };
    run(&mut sequencer, &handover_song(vec![stop(0), play(1), stop(0)]), 7, capturing);
    run(&mut sequencer, &handover_song(vec![stop(0), play(1), play(1)]), 3, capturing);
    assert_eq!(
        logged(&sequencer),
        vec![
            (0, 0, Some("Second".to_string())),
            (7, 0, None),
            (7, 0, Some("Third".to_string())),
        ]
    );
    // Launching it again starts it over.
    run(&mut sequencer, &handover_song(vec![stop(0), play(1), play(2)]), 1, capturing);
    assert_eq!(logged(&sequencer)[3..], [(10, 0, None), (10, 0, Some("Third".to_string()))]);
    assert_eq!(sequencer.session_slots()[0][2], playing(0));
}

#[test]
fn one_clip_at_a_time_is_heard_whatever_is_clicked() {
    let mut sequencer = Sequencer::new();
    let capturing = TickSettings { capturing: true, session_quantize_ticks: 12, ..session() };
    let mut requests = vec![stop(0), stop(0), stop(0)];
    for k in 0..60 {
        let click = if k % 7 == 6 { stop(k + 1) } else { play(k + 1) };
        requests[(k * 5 % 3) as usize] = click;
        run(&mut sequencer, &handover_song(requests.clone()), 1 + (k as usize % 9), capturing);
        let slots = sequencer.session_slots();
        let heard = slots[0].iter().filter(|s| s.local_tick().is_some()).count();
        assert!(heard <= 1, "{slots:?}");
        let log = logged(&sequencer);
        let starts = log.iter().filter(|(_, _, name)| name.is_some()).count();
        assert_eq!(starts, log.len() - starts + heard, "each start but a lasting one has its stop");
    }
    assert!(logged(&sequencer).len() > 10);
}

#[test]
fn a_repeating_slot_cuts_its_loop_before_it_starts_the_next() {
    let mut song = looping_audio_song(SessionLaunchRequest {
        generation: 0,
        intent: LaunchIntent::Play,
        held: true,
    });
    let mut clip = song.tracks[0].session_clips[0].take().unwrap();
    Arc::get_mut(&mut clip).unwrap().launch_mode = LaunchMode::Repeat;
    song.tracks[0].session_clips[0] = Some(clip);
    song.tracks[0].regions.push(one_note_region(0, 8, 8, 0, 1));
    let every_step = TickSettings { session_quantize_ticks: 8, ..session() };
    let mut sequencer = Sequencer::new();
    let ticks = run(&mut sequencer, &song, 17, every_step);
    let started = |voice, local_tick| Trigger::SlotAudio { track: 0, slot: 0, voice, local_tick };
    assert_eq!(ticks[0], vec![started(0, 0)]);
    let local_tick = |tick: usize| match ticks[tick].last() {
        Some(Trigger::SlotAudio { local_tick, .. }) => *local_tick,
        _ => unreachable!(),
    };
    assert_eq!(ticks[8], vec![Trigger::Cut { track: 0, voice: 0 }, started(1, local_tick(8))]);
    assert_eq!(ticks[16], vec![Trigger::Cut { track: 0, voice: 1 }, started(2, local_tick(16))]);
    assert!(ticks[1..8].iter().all(|t| t.is_empty()));
    song.tracks[0].session_launch_requests[0].held = false;
    let after = run(&mut sequencer, &song, 8, every_step);
    let after: Vec<Trigger> = after.into_iter().flatten().collect();
    assert_eq!(after, vec![Trigger::Cut { track: 0, voice: 2 }]);
}

#[test]
fn a_looping_slot_that_goes_back_to_waiting_falls_silent() {
    let waiting = TickSettings { session_quantize_ticks: 12, capturing: true, ..session() };
    let mut sequencer = Sequencer::new();
    run(&mut sequencer, &looping_audio_song(play(1)), 3, waiting);
    let ticks = run(&mut sequencer, &looping_audio_song(play(2)), 10, waiting);
    assert_eq!(ticks[0], vec![Trigger::Cut { track: 0, voice: 0 }]);
    assert_eq!(
        ticks[9],
        vec![Trigger::SlotAudio { track: 0, slot: 0, voice: 1, local_tick: 0 }]
    );
    let kinds: Vec<(usize, bool)> =
        logged(&sequencer).iter().map(|(tick, _, name)| (*tick, name.is_some())).collect();
    assert_eq!(kinds, vec![(0, true), (3, false), (12, true)]);
}

#[test]
fn a_clips_own_quantize_is_counted_by_the_rules() {
    let mut track = new_step_grid("Drums");
    let mut clip = session_clip("Slot", step_grid_content(one_step_lane(60), 4));
    clip.quantize_override = Some(SessionQuantize::Custom(2));
    track.session_clips.push(Some(Arc::new(clip)));
    track.session_launch_requests.push(stop(0));
    track.regions.push(one_note_region(0, 8, 8, 0, 1));
    let mut song = session_song(track);
    let mut sequencer = Sequencer::new();
    run(&mut sequencer, &song, 5, session());
    song.tracks[0].session_launch_requests[0] = play(1);
    run(&mut sequencer, &song, 1, session());
    let launch_tick = 2 * TICKS_PER_STEP;
    assert_eq!(sequencer.session_slots()[0][0], SlotState::Queued { launch_tick });
}

#[test]
fn two_slots_and_two_loops_of_one_get_seeds_of_their_own() {
    assert_eq!(follow_action_seed(5, 0, 0, 0), 5);
    assert_eq!(follow_action_seed(5, 1, 2, 3), 5 ^ (1 << 40) ^ (2 << 24) ^ (3 << 8));
    assert_ne!(follow_action_seed(96, 1, 0, 1), follow_action_seed(96, 1, 1, 1));
    assert_ne!(follow_action_seed(96, 1, 0, 1), follow_action_seed(96, 1, 0, 2));
}

#[test]
fn mute_and_solo_make_no_difference_to_a_bounce_of_every_track() {
    let song_with = |muted: bool, solo: bool| {
        let mut first = new_piano_roll("First");
        first.regions.push(one_note_region(0, 1, 1, 3, 1));
        first.muted = muted;
        let mut second = lane_track(one_step_lane(38));
        second.solo = solo;
        song_of("bounce", vec![first, second])
    };
    let whole = TickSettings { every_track: true, ..settings() };
    let plain = run(&mut Sequencer::new(), &song_with(false, false), 96, whole);
    assert_eq!(plain.iter().flatten().count(), 2);
    assert_eq!(run(&mut Sequencer::new(), &song_with(true, false), 96, whole), plain);
    assert_eq!(run(&mut Sequencer::new(), &song_with(false, true), 96, whole), plain);
    assert_ne!(run(&mut Sequencer::new(), &song_with(false, true), 96, settings()), plain);
}

#[test]
fn a_bounce_lasts_its_loops_at_the_tempo_of_each_tick() {
    let mut song = demo();
    song.bpm = num(120.0);
    set_tempo_at(&mut song, 10, 240.0);
    let length = arrangement_length_ticks(&song);
    // A tick at 120 weighs two, one at 240 weighs one.
    let weight = |bpm: Real32| if float(bpm) == 120.0 { 2 } else { 1 };
    let cycle: usize = tempo_segments(&song, length)
        .iter()
        .map(|s| (s.end_tick - s.start_tick) * weight(s.bpm))
        .sum();
    let mut sequencer = Sequencer::new();
    sequencer.begin_buffer(&song);
    let mut fired = 0;
    for _ in 0..3 * length {
        sequencer.process_tick(&PlainRules, &song, settings());
        fired += weight(song.bpm_at(sequencer.current_tick()));
    }
    assert_eq!(fired, 3 * cycle);
    assert_eq!(cycle, 10 + length);
}

#[test]
fn a_stop_publishes_tick_zero_and_playback_starts_over_from_there() {
    let song = song_with_regions(vec![one_note_region(0, 2, 2, 0, 1)]);
    let mut sequencer = Sequencer::new();
    let mut transport = Transport::new();
    let mut state = CallbackState::new();
    transport.set_playing(true);
    let plan = begin_callback(&mut state, &mut sequencer, &mut transport, true);
    assert!(plan.action.mixes_song() && plan.action.runs_master() && !plan.reset_meters);
    run(&mut sequencer, &song, 6, settings());
    publish_tick(&sequencer, &mut transport);
    assert_eq!(transport.current_tick(), 5);

    transport.set_playing(false);
    let plan = begin_callback(&mut state, &mut sequencer, &mut transport, true);
    assert!(!plan.action.mixes_song() && plan.action.runs_master() && plan.reset_meters);
    assert_eq!((transport.current_tick(), sequencer.next_tick()), (0, 0));

    transport.set_playing(true);
    let plan = begin_callback(&mut state, &mut sequencer, &mut transport, false);
    assert!(!plan.action.mixes_song() && !plan.action.runs_master());
    begin_callback(&mut state, &mut sequencer, &mut transport, true);
    assert_eq!(run(&mut sequencer, &song, 1, settings())[0].len(), 1, "the note on tick 0");
    publish_tick(&sequencer, &mut transport);
    assert_eq!(transport.current_tick(), 0);
}

#[test]
fn a_loop_is_cut_when_its_slot_is_emptied_or_given_steps() {
    let replaced = |clip: Option<SessionClip>| {
        let mut song = looping_audio_song(play(1));
        song.tracks[0].session_clips[0] = clip.map(Arc::new);
        song
    };
    let steps = session_clip("Steps", step_grid_content(new_lane("Silent", 60, 1), 1));
    for song in [replaced(None), replaced(Some(steps))] {
        let mut sequencer = Sequencer::new();
        run(&mut sequencer, &looping_audio_song(play(1)), 3, session());
        let ticks = run(&mut sequencer, &song, 3, session());
        assert_eq!(ticks[0], vec![Trigger::Cut { track: 0, voice: 0 }]);
        assert!(ticks[1..].iter().all(|t| t.is_empty()));
    }
}

#[test]
fn a_frozen_track_is_baked_down_afresh() {
    let song_with = |frozen: bool, start_tick: Option<usize>| {
        let buffer = Arc::new(SampleBuffer { sample_rate: 48_000, mono: vec![num(0.5); 480] });
        let mut other = new_piano_roll("Other");
        other.frozen = true;
        other.frozen_clip = Some(new_audio_clip(2, buffer.clone(), 120.0));
        let mut track = new_piano_roll("Lead");
        track.regions.push(one_note_region(0, 2, 2, 3, 1));
        track.frozen = frozen;
        track.frozen_clip = start_tick.map(|tick| new_audio_clip(tick, buffer, 120.0));
        song_of("bake", vec![other, track])
    };
    let bake = TickSettings { live_track: Some(1), ..settings() };
    let live = run(&mut Sequencer::new(), &song_with(false, None), 30, bake);
    assert!(live[3].iter().any(|t| matches!(t, Trigger::Note { track: 1, .. })));
    assert_eq!(live[2], vec![Trigger::FrozenClip { track: 0, voice: 0 }]);
    assert_eq!(run(&mut Sequencer::new(), &song_with(true, Some(5)), 30, bake), live);
    assert_eq!(run(&mut Sequencer::new(), &song_with(true, None), 30, bake), live);
    let played = run(&mut Sequencer::new(), &song_with(true, Some(5)), 30, settings());
    assert_eq!(played[5], vec![Trigger::FrozenClip { track: 1, voice: 0 }]);
    assert!(played[3].is_empty());
}

#[test]
fn cutting_a_buffer_makes_no_difference() {
    let mut song = demo();
    song.tracks.push(lane_track(one_step_lane(38)));
    let clicking = TickSettings { metronome_enabled: true, click_frames: 5, ..settings() };
    // Ticks at every third frame.
    let play = |cuts: &[usize]| {
        let mut sequencer = Sequencer::new();
        let mut events = Vec::new();
        sequencer.begin_buffer(&song);
        for frame in 0..1200 {
            if cuts.contains(&frame) {
                sequencer.begin_buffer(&song);
            }
            if frame % 3 == 0 {
                events.extend(sequencer.process_tick(&PlainRules, &song, clicking));
            }
            let click = sequencer.next_metronome_click_position();
            events.push(Trigger::Cut { track: frame, voice: click.unwrap_or(99) });
        }
        (events, sequencer.current_tick(), sequencer.next_tick(), sequencer.metronome())
    };
    let whole = play(&[]);
    assert!(whole.0.len() > 1200);
    assert_eq!(play(&[1, 2, 3, 600, 601, 1199]), whole);
}
