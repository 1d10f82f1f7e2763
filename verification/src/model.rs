//! The song as the audio engine reads it: a snapshot of tracks, clips, automation and buses.
//!
//! Positions and lengths are in ticks. Everything the engine only hands on to the host (gains,
//! tempos, patch parameters, sample data) is carried as [`Real32`] or by shared reference.

use std::sync::Arc;

use vstd::prelude::*;

use crate::patch::{SynthEngine, SynthParams, TrineParams, WaveParams};
use crate::number::Real32;

verus! {

/// Ticks in one step of the sixteenth-note grid.
pub const TICKS_PER_STEP: usize = 24;

/// Steps in one beat: a sixteenth-note grid.
pub const STEPS_PER_BEAT: usize = 4;

/// Decoded audio, mixed down to one channel.
#[derive(Debug)]
pub struct SampleBuffer {
    pub sample_rate: u32,
    pub mono: Vec<Real32>,
}

/// One active step of a lane. `timing_offset_ticks` nudges it off its own grid position.
#[derive(Clone, Copy, Debug, PartialEq, Eq, Structural)]
pub struct StepData {
    pub velocity: u8,
    pub timing_offset_ticks: i32,
}

/// One row of a step grid. With a `sample` it plays that sample; otherwise it plays its pitch on
/// the track's synth, or on its own when `synth_override` is set.
pub struct Lane {
    pub name: String,
    pub pitch: u8,
    pub steps: Vec<Option<StepData>>,
    pub sample: Option<Arc<SampleBuffer>>,
    pub synth_override: bool,
    pub synth_engine: SynthEngine,
    pub synth: SynthParams,
    pub trine: TrineParams,
    pub wave: WaveParams,
}

/// One piano-roll note; `start_tick` counts from the start of its content.
#[derive(Clone, Copy, Debug, PartialEq, Eq, Structural)]
pub struct Note {
    pub id: u64,
    pub pitch: u8,
    pub start_tick: usize,
    pub length_ticks: usize,
    pub velocity: u8,
}

pub enum RegionContent {
    StepGrid(Vec<Lane>),
    PianoRoll(Vec<Note>),
}

/// Which parameter of an effect an automation lane rides.
#[derive(Debug, PartialEq, Eq)]
pub enum EffectParamKey {
    Clap { param_id: u32 },
    BuiltIn { param_name: String },
}

/// What an automation lane rides: its own track, another track, a send bus or the master bus.
#[derive(Debug)]
pub enum AutomationTarget {
    Volume,
    Pan,
    SendLevel { send_index: usize },
    EffectParam { slot_index: usize, key: EffectParamKey },
    OtherTrackVolume { track_index: usize },
    OtherTrackPan { track_index: usize },
    OtherTrackSendLevel { track_index: usize, send_index: usize },
    OtherTrackEffectParam { track_index: usize, slot_index: usize, key: EffectParamKey },
    SendEffectParam { send_index: usize, slot_index: usize, key: EffectParamKey },
    MasterEffectParam { slot_index: usize, key: EffectParamKey },
}

/// How a lane moves from one point to the next; the host evaluates it.
#[derive(Clone, Copy, Debug, PartialEq, Eq, Structural)]
pub enum CurveShape {
    Linear,
    Custom(u8),
}

#[derive(Clone, Copy, Debug, PartialEq, Eq, Structural)]
pub struct AutomationPoint {
    pub tick: usize,
    pub value: Real32,
    pub curve: CurveShape,
}

/// A breakpoint lane. Its ticks count from the start of whatever holds it: the region, the
/// session clip, or the song for a track-wide lane.
#[derive(Debug)]
pub struct AutomationLane {
    pub target: AutomationTarget,
    pub points: Vec<AutomationPoint>,
}

/// Content placed on a track's timeline. It spans `loop_length_steps` from `start_tick`, and its
/// content repeats every `content_length_steps` inside that span.
pub struct Region {
    pub name: String,
    pub start_tick: usize,
    pub content_length_steps: usize,
    pub loop_length_steps: usize,
    pub content: RegionContent,
    pub fade_in_ticks: usize,
    pub fade_out_ticks: usize,
    pub automation: Vec<AutomationLane>,
}

/// Recorded audio placed on a track. `length_ticks` is how long it plays: its trimmed length, or
/// the whole buffer's duration at the tempo in effect where the clip starts. A clip whose audio
/// is not loaded has no `buffer`.
pub struct AudioClip {
    pub start_tick: usize,
    pub length_ticks: usize,
    pub buffer: Option<Arc<SampleBuffer>>,
    pub source_start_frame: usize,
    pub fade_in_ticks: usize,
    pub fade_out_ticks: usize,
    pub gain: Real32,
}

/// One recorded pass of a take folder.
pub struct Take {
    pub buffer: Option<Arc<SampleBuffer>>,
}

/// Which take is heard between two ticks of its folder.
#[derive(Clone, Copy, Debug, PartialEq, Eq, Structural)]
pub struct CompSegment {
    pub start_tick: usize,
    pub end_tick: usize,
    pub take_index: usize,
}

/// A stack of takes over one span, of which `comp` picks the audible parts.
pub struct TakeFolder {
    pub start_tick: usize,
    pub length_ticks: usize,
    pub takes: Vec<Take>,
    pub comp: Vec<CompSegment>,
    pub gain: Real32,
}

/// How a click or a held pad drives a session slot.
#[derive(Clone, Copy, Debug, PartialEq, Eq, Structural)]
pub enum LaunchMode {
    Toggle,
    Gate,
    Repeat,
}

#[derive(Clone, Copy, Debug, PartialEq, Eq, Structural)]
pub enum LaunchIntent {
    Play,
    Stop,
}

/// The latest click on a slot. `generation` changes with every click; `held` follows the pointer.
#[derive(Clone, Copy, Debug, PartialEq, Eq, Structural)]
pub struct SessionLaunchRequest {
    pub generation: u64,
    pub intent: LaunchIntent,
    pub held: bool,
}

/// What a slot does once its clip has looped often enough. Only `Nothing` is special to the
/// engine; what the others lead to is for the session rules to say, `Custom` among them.
#[derive(Clone, Copy, Debug, PartialEq, Eq, Structural)]
pub enum FollowAction {
    Nothing,
    Stop,
    Next,
    Custom(u8),
}

#[derive(Clone, Copy, Debug, PartialEq, Eq, Structural)]
pub struct FollowActionConfig {
    pub times: u32,
    pub action_a: FollowAction,
    pub chance_a: Real32,
    pub action_b: FollowAction,
    pub chance_b: Real32,
}

pub enum SessionClipContent {
    Region { content: RegionContent, content_length_steps: usize, loop_length_steps: usize },
    Audio(AudioClip),
    Recording(TakeFolder),
}

/// What a click on a slot snaps forward to. How many ticks that is depends on the song's time
/// signature, so the choice is kept and counted anew at every tick. What a `Custom` choice comes to
/// is for the session rules to say.
#[derive(Clone, Copy, Debug, PartialEq, Eq, Structural)]
pub enum SessionQuantize {
    /// No boundary to wait for.
    Immediate,
    Custom(u8),
}

/// One clip of the session grid. `quantize_override` replaces the grid-wide launch quantize for
/// this clip alone.
pub struct SessionClip {
    pub name: String,
    pub content: SessionClipContent,
    pub follow_action: FollowActionConfig,
    pub legato: bool,
    pub launch_mode: LaunchMode,
    pub quantize_override: Option<SessionQuantize>,
    pub automation: Vec<AutomationLane>,
}

/// Where a track's post-fader signal goes.
#[derive(Clone, Copy, Debug, PartialEq, Eq, Structural)]
pub enum TrackOutput {
    Master,
    Submix(usize),
}

#[derive(Clone, Copy, Debug, PartialEq, Eq, Structural)]
pub enum TrackKind {
    StepGrid,
    PianoRoll,
    Audio,
}

pub struct Track {
    pub name: String,
    pub kind: TrackKind,
    pub regions: Vec<Region>,
    pub audio_clips: Vec<AudioClip>,
    pub take_folders: Vec<TakeFolder>,
    pub automation: Vec<AutomationLane>,
    pub volume: Real32,
    pub pan: Real32,
    pub muted: bool,
    pub solo: bool,
    pub output: TrackOutput,
    pub send_levels: Vec<Real32>,
    /// While set, the track plays `frozen_clip`, its own baked-down output, and nothing else.
    pub frozen: bool,
    pub frozen_clip: Option<AudioClip>,
    pub synth_engine: SynthEngine,
    pub synth: SynthParams,
    pub trine: TrineParams,
    pub wave: WaveParams,
    pub session_clips: Vec<Option<Arc<SessionClip>>>,
    pub session_launch_requests: Vec<SessionLaunchRequest>,
}

/// A group bus: it stands in for its member tracks' direct contribution to the master mix.
#[derive(Debug)]
pub struct SubmixBus {
    pub name: String,
    pub volume: Real32,
    pub pan: Real32,
    pub muted: bool,
    pub solo: bool,
}

/// A send bus, fed in parallel by every track at its own send level.
#[derive(Debug)]
pub struct SendBus {
    pub name: String,
}

#[derive(Clone, Copy, Debug, PartialEq, Eq, Structural)]
pub struct TempoPoint {
    pub tick: usize,
    pub bpm: Real32,
}

pub struct Song {
    pub name: String,
    /// The tempo before the first point of `tempo_map`.
    pub bpm: Real32,
    pub tempo_map: Vec<TempoPoint>,
    pub tracks: Vec<Track>,
    pub sends: Vec<SendBus>,
    pub submixes: Vec<SubmixBus>,
}

} // verus!
