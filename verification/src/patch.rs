//! The three synth engines' patch parameters, as a song stores them per track and per lane.

use vstd::prelude::*;

use crate::number::Real32;

verus! {

#[derive(Clone, Copy, Debug, PartialEq, Eq, Structural, Hash)]
pub enum SynthWaveform {
    Sine,
    Saw,
    Square,
    Triangle,
    Noise,
}

#[derive(Clone, Copy, Debug, PartialEq, Eq, Structural, Hash)]
pub enum LfoTarget {
    Off,
    Pitch,
    Amplitude,
    FilterCutoff,
}

#[derive(Clone, Copy, Debug, PartialEq, Eq, Structural, Hash)]
pub enum FilterType {
    Lowpass,
    Bandpass,
    Highpass,
    Notch,
}

#[derive(Clone, Copy, Debug, PartialEq, Eq, Structural, Hash)]
pub enum FilterSlope {
    Slope12,
    Slope24,
}

#[derive(Clone, Copy, Debug, PartialEq, Eq, Structural, Hash)]
pub enum FilterRouting {
    Off,
    Series,
    Parallel,
}

#[derive(Clone, Copy, Debug, PartialEq, Eq, Structural, Hash)]
pub enum WaveWarpMode {
    Off,
    Bend,
    Sync,
    Mirror,
    Fm,
}

/// What a modulation slot reads.
#[derive(Clone, Copy, Debug, PartialEq, Eq, Structural, Hash)]
pub enum ModSource {
    Off,
    Lfo1,
    Lfo2,
    Env1,
    Env2,
    Velocity,
}

/// What a slot of the three-oscillator engine's modulation matrix drives.
#[derive(Clone, Copy, Debug, PartialEq, Eq, Structural, Hash)]
pub enum ModTarget {
    Off,
    Pitch,
    Osc1Level,
    Osc2Level,
    Osc3Level,
    PulseWidth,
    FilterCutoff,
    Filter2Cutoff,
    FilterResonance,
    FmAmount,
    RingModMix,
}

/// What a slot of the wavetable engine's modulation matrix drives.
#[derive(Clone, Copy, Debug, PartialEq, Eq, Structural, Hash)]
pub enum WaveModTarget {
    Off,
    Pitch,
    Osc1Position,
    Osc2Position,
    Osc1WarpAmount,
    Osc2WarpAmount,
    FilterCutoff,
    Filter2Cutoff,
    FilterResonance,
}

#[derive(Clone, Copy, Debug, PartialEq, Eq, Structural, Hash)]
pub struct ModSlot {
    pub source: ModSource,
    pub target: ModTarget,
    pub amount: Real32,
}

#[derive(Clone, Copy, Debug, PartialEq, Eq, Structural, Hash)]
pub struct WaveModSlot {
    pub source: ModSource,
    pub target: WaveModTarget,
    pub amount: Real32,
}

/// Attack, decay and release in seconds, and the level the envelope sustains at.
#[derive(Clone, Copy, Debug, PartialEq, Eq, Structural, Hash)]
pub struct Adsr {
    pub attack_seconds: Real32,
    pub decay_seconds: Real32,
    pub sustain_level: Real32,
    pub release_seconds: Real32,
}

#[derive(Clone, Copy, Debug, PartialEq, Eq, Structural, Hash)]
pub struct FilterParams {
    pub cutoff_hz: Real32,
    pub resonance: Real32,
    pub filter_type: FilterType,
    pub slope: FilterSlope,
}

/// The plain subtractive engine's patch.
#[derive(Clone, Copy, Debug, PartialEq, Eq, Structural, Hash)]
pub struct SynthParams {
    pub waveform: SynthWaveform,
    pub pulse_width: Real32,
    pub unison_voices: u8,
    pub unison_width: Real32,
    pub unison_detune_cents: Real32,
    pub glide_seconds: Real32,
    pub osc2_waveform: SynthWaveform,
    pub osc2_semitones: i32,
    pub osc2_detune_cents: Real32,
    pub osc2_mix: Real32,
    pub osc2_sync: bool,
    pub sub_osc_mix: Real32,
    pub lfo_waveform: SynthWaveform,
    pub lfo_rate_hz: Real32,
    pub lfo_target: LfoTarget,
    pub lfo_depth: Real32,
    pub attack_seconds: Real32,
    pub decay_seconds: Real32,
    pub sustain_level: Real32,
    pub release_seconds: Real32,
    pub filter_cutoff_hz: Real32,
    pub filter_resonance: Real32,
    pub filter_env_amount_hz: Real32,
    pub filter_type: FilterType,
}

/// One oscillator of the three-oscillator engine, tuned against the first.
#[derive(Clone, Copy, Debug, PartialEq, Eq, Structural, Hash)]
pub struct TrineOscillator {
    pub waveform: SynthWaveform,
    pub semitones: i32,
    pub detune_cents: Real32,
    pub level: Real32,
    pub sync: bool,
}

/// The three-oscillator engine's patch.
#[derive(Debug, PartialEq, Eq, Hash)]
pub struct TrineParams {
    pub osc1: TrineOscillator,
    pub osc2: TrineOscillator,
    pub osc3: TrineOscillator,
    pub pulse_width: Real32,
    pub fm_amount: Real32,
    pub ring_mod_mix: Real32,
    pub analog_drift: Real32,
    pub filter1: FilterParams,
    pub filter2: FilterParams,
    pub filter_routing: FilterRouting,
    pub filter_drive: Real32,
    pub filter_fm_amount: Real32,
    pub lfo1_waveform: SynthWaveform,
    pub lfo1_rate_hz: Real32,
    pub lfo2_waveform: SynthWaveform,
    pub lfo2_rate_hz: Real32,
    pub env1: Adsr,
    pub env2: Adsr,
    /// The amplitude envelope.
    pub env3: Adsr,
    pub mod_slots: Vec<ModSlot>,
}

/// One wavetable oscillator; `table` picks the wavetable by its index.
#[derive(Clone, Copy, Debug, PartialEq, Eq, Structural, Hash)]
pub struct WaveOscillator {
    pub table: usize,
    pub position: Real32,
    pub warp_mode: WaveWarpMode,
    pub warp_amount: Real32,
    pub level: Real32,
}

/// The wavetable engine's patch.
#[derive(Debug, PartialEq, Eq, Hash)]
pub struct WaveParams {
    pub osc1: WaveOscillator,
    pub unison_voices: u8,
    pub unison_width: Real32,
    pub unison_detune_cents: Real32,
    pub osc2: WaveOscillator,
    pub osc2_semitones: i32,
    pub osc2_detune_cents: Real32,
    pub sub_osc_semitones: i32,
    pub sub_osc_level: Real32,
    pub noise_level: Real32,
    pub filter1: FilterParams,
    pub filter2: FilterParams,
    pub filter_routing: FilterRouting,
    pub filter_drive: Real32,
    pub lfo1_waveform: SynthWaveform,
    pub lfo1_rate_hz: Real32,
    pub lfo2_waveform: SynthWaveform,
    pub lfo2_rate_hz: Real32,
    pub env1: Adsr,
    pub env2: Adsr,
    /// The amplitude envelope.
    pub amp: Adsr,
    pub mod_slots: Vec<WaveModSlot>,
}

/// Which synth engine renders a track's (or a lane's) notes.
#[derive(Clone, Copy, Debug, PartialEq, Eq, Structural, Hash)]
pub enum SynthEngine {
    Simple,
    Trine,
    Wave,
}

/// Whether a modulation slot is connected at both ends. Only such a slot adds to its target.
pub fn is_connected(slot: &ModSlot) -> (r: bool)
    ensures
        r == (slot.source != ModSource::Off && slot.target != ModTarget::Off),
{
    slot.source != ModSource::Off && slot.target != ModTarget::Off
}

/// Whether a wavetable modulation slot is connected at both ends.
pub fn is_wave_connected(slot: &WaveModSlot) -> (r: bool)
    ensures
        r == (slot.source != ModSource::Off && slot.target != WaveModTarget::Off),
{
    slot.source != ModSource::Off && slot.target != WaveModTarget::Off
}

/// How many filter stages a slope takes, one after the other.
pub fn stage_count(slope: FilterSlope) -> (stages: usize)
    ensures
        slope == FilterSlope::Slope12 ==> stages == 1,
        slope == FilterSlope::Slope24 ==> stages == 2,
{
    match slope {
        FilterSlope::Slope12 => 1,
        FilterSlope::Slope24 => 2,
    }
}

/// What the second filter of a pair works on.
#[derive(Clone, Copy, Debug, PartialEq, Eq, Structural, Hash)]
pub enum SecondFilterInput {
    /// Nothing: the first filter's output is all that is heard.
    Unused,
    /// The first filter's output; only the second filter is heard.
    FirstOutput,
    /// What the first filter works on, too; the sum of both is heard.
    SameInput,
}

/// How the second filter of a pair is fed.
pub fn second_filter_input(routing: FilterRouting) -> (input: SecondFilterInput)
    ensures
        input == (match routing {
            FilterRouting::Off => SecondFilterInput::Unused,
            FilterRouting::Series => SecondFilterInput::FirstOutput,
            FilterRouting::Parallel => SecondFilterInput::SameInput,
        }),
{
    match routing {
        FilterRouting::Off => SecondFilterInput::Unused,
        FilterRouting::Series => SecondFilterInput::FirstOutput,
        FilterRouting::Parallel => SecondFilterInput::SameInput,
    }
}

/// The hold of a step: it has no length of its own, so it lasts through its engine's
/// attack and decay.
#[derive(Clone, Copy, Debug, PartialEq, Eq, Structural, Hash)]
pub struct StepGate {
    pub attack_seconds: Real32,
    pub decay_seconds: Real32,
}

/// How long a step is held, by the amplitude envelope of the engine that plays it.
pub fn step_gate(
    engine: SynthEngine,
    synth: &SynthParams,
    trine: &TrineParams,
    wave: &WaveParams,
) -> (gate: StepGate)
    ensures
        gate == (match engine {
            SynthEngine::Simple => StepGate {
                attack_seconds: synth.attack_seconds,
                decay_seconds: synth.decay_seconds,
            },
            SynthEngine::Trine => StepGate {
                attack_seconds: trine.env3.attack_seconds,
                decay_seconds: trine.env3.decay_seconds,
            },
            SynthEngine::Wave => StepGate {
                attack_seconds: wave.amp.attack_seconds,
                decay_seconds: wave.amp.decay_seconds,
            },
        }),
{
    match engine {
        SynthEngine::Simple => StepGate {
            attack_seconds: synth.attack_seconds,
            decay_seconds: synth.decay_seconds,
        },
        SynthEngine::Trine => StepGate {
            attack_seconds: trine.env3.attack_seconds,
            decay_seconds: trine.env3.decay_seconds,
        },
        SynthEngine::Wave => StepGate {
            attack_seconds: wave.amp.attack_seconds,
            decay_seconds: wave.amp.decay_seconds,
        },
    }
}

} // verus!
