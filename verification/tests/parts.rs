//! The parts around the sequencer: delay compensation, sample voices, envelopes, spans, tempo,
//! mixing, device choice, noise, the transport and the metronome.

use std::sync::Arc;

use daw_audio::automation::{collect_automation, LaneRef, SendLane, TrackAutomationOverride};
use daw_audio::delay::{pdc_delay_samples_per_track, DelayLine};
use daw_audio::device::{
    choose_config, choose_device, is_supported, listed_names,
    next_supported_rate, offered_sample_rates, AudioStatus, Choice, OutputFormat, RateRange,
};
use daw_audio::envelope::{
    unison_count, unison_place_of, AmplitudeMarks, EnvelopeClock, EnvelopeStage, Glide, GlideStep,
    UnisonPlace, VoiceClock,
};
use daw_audio::metronome::{Metronome, METRONOME_BEAT_TICKS};
use daw_audio::mix::{mix_plan, param_reaches, track_mix, EffectKind, Fader, MixBus};
use daw_audio::model::{
    AutomationLane, AutomationPoint, AutomationTarget, CurveShape, EffectParamKey, SampleBuffer,
    SendBus, Song, SubmixBus, TempoPoint, Track, TrackKind, TrackOutput,
};
use daw_audio::noise::{drift_seeds, next_seed, noise_seed, scramble};
use daw_audio::number::Real32;
use daw_audio::ordered::insert_ordered;
use daw_audio::patch::{
    is_connected, is_wave_connected, second_filter_input, stage_count, step_gate, Adsr,
    FilterParams, FilterRouting, FilterSlope, FilterType,
    LfoTarget, ModSlot, ModSource, ModTarget, SecondFilterInput, SynthEngine, SynthParams, SynthWaveform,
    TrineOscillator, TrineParams, WaveModSlot, WaveModTarget, WaveOscillator, WaveParams,
    WaveWarpMode,
};
use daw_audio::playback::{
    bounce_loops, can_bounce_track, side_of_channel, CallbackAction, CallbackState, Side,
};
use daw_audio::sample_voice::{playback_window, SampleVoice, VoiceGain};
use daw_audio::solo::{has_solo, track_hushed, track_plays_frozen, track_silent, Selection};
use daw_audio::spans::{chain_chunks, offline_chunks, Span, OFFLINE_CHUNK_FRAMES};
use daw_audio::tempo::{tempo_boundaries, tempo_segments};
use daw_audio::transport::Transport;

fn num(x: f32) -> Real32 {
    Real32 { bits: x.to_bits() }
}

fn float(x: Real32) -> f32 {
    f32::from_bits(x.bits)
}

fn nums(xs: &[f32]) -> Vec<Real32> {
    xs.iter().map(|&x| num(x)).collect()
}

fn floats(xs: &[Real32]) -> Vec<f32> {
    xs.iter().map(|&x| float(x)).collect()
}

/// What a voice sounds on its next frame, as a host would mix it.
fn next_sample(voice: &mut SampleVoice) -> f32 {
    let Some(frame) = voice.next_sample() else { return 0.0 };
    let gain = match frame.gain {
        VoiceGain::Velocity(velocity) => (velocity as f32 / 127.0).clamp(0.0, 1.0),
        VoiceGain::Level(level) => float(level),
    };
    let mut fade = 1.0f32;
    for ramp in [frame.fade_in, frame.fade_out].into_iter().flatten() {
        fade = fade.min((ramp.position as f32 / ramp.length as f32).clamp(0.0, 1.0));
    }
    float(frame.sample) * gain * fade
}

fn adsr() -> Adsr {
    Adsr {
        attack_seconds: num(0.0),
        decay_seconds: num(0.1),
        sustain_level: num(0.5),
        release_seconds: num(0.1),
    }
}

fn filter() -> FilterParams {
    FilterParams {
        cutoff_hz: num(20_000.0),
        resonance: num(0.7),
        filter_type: FilterType::Lowpass,
        slope: FilterSlope::Slope12,
    }
}

fn new_track(name: &str) -> Track {
    let trine_osc = TrineOscillator {
        waveform: SynthWaveform::Saw,
        semitones: 0,
        detune_cents: num(0.0),
        level: num(1.0),
        sync: false,
    };
    let wave_osc = WaveOscillator {
        table: 0,
        position: num(0.0),
        warp_mode: WaveWarpMode::Off,
        warp_amount: num(0.0),
        level: num(1.0),
    };
    Track {
        name: name.to_string(),
        kind: TrackKind::PianoRoll,
        regions: Vec::new(),
        audio_clips: Vec::new(),
        take_folders: Vec::new(),
        automation: Vec::new(),
        volume: num(1.0),
        pan: num(0.0),
        muted: false,
        solo: false,
        output: TrackOutput::Master,
        send_levels: Vec::new(),
        frozen: false,
        frozen_clip: None,
        synth_engine: SynthEngine::Simple,
        synth: SynthParams {
            waveform: SynthWaveform::Sine,
            pulse_width: num(0.5),
            unison_voices: 1,
            unison_width: num(0.0),
            unison_detune_cents: num(0.0),
            glide_seconds: num(0.0),
            osc2_waveform: SynthWaveform::Sine,
            osc2_semitones: 0,
            osc2_detune_cents: num(0.0),
            osc2_mix: num(0.0),
            osc2_sync: false,
            sub_osc_mix: num(0.0),
            lfo_waveform: SynthWaveform::Sine,
            lfo_rate_hz: num(0.0),
            lfo_target: LfoTarget::Off,
            lfo_depth: num(0.0),
            attack_seconds: num(0.0),
            decay_seconds: num(0.1),
            sustain_level: num(0.0),
            release_seconds: num(0.1),
            filter_cutoff_hz: num(20_000.0),
            filter_resonance: num(0.7),
            filter_env_amount_hz: num(0.0),
            filter_type: FilterType::Lowpass,
        },
        trine: TrineParams {
            osc1: trine_osc,
            osc2: trine_osc,
            osc3: trine_osc,
            pulse_width: num(0.5),
            fm_amount: num(0.0),
            ring_mod_mix: num(0.0),
            analog_drift: num(0.0),
            filter1: filter(),
            filter2: filter(),
            filter_routing: FilterRouting::Off,
            filter_drive: num(0.0),
            filter_fm_amount: num(0.0),
            lfo1_waveform: SynthWaveform::Sine,
            lfo1_rate_hz: num(1.0),
            lfo2_waveform: SynthWaveform::Sine,
            lfo2_rate_hz: num(1.0),
            env1: adsr(),
            env2: adsr(),
            env3: adsr(),
            mod_slots: Vec::new(),
        },
        wave: WaveParams {
            osc1: wave_osc,
            unison_voices: 1,
            unison_width: num(0.0),
            unison_detune_cents: num(0.0),
            osc2: wave_osc,
            osc2_semitones: 0,
            osc2_detune_cents: num(0.0),
            sub_osc_semitones: -12,
            sub_osc_level: num(0.0),
            noise_level: num(0.0),
            filter1: filter(),
            filter2: filter(),
            filter_routing: FilterRouting::Off,
            filter_drive: num(0.0),
            lfo1_waveform: SynthWaveform::Sine,
            lfo1_rate_hz: num(1.0),
            lfo2_waveform: SynthWaveform::Sine,
            lfo2_rate_hz: num(1.0),
            env1: adsr(),
            env2: adsr(),
            amp: adsr(),
            mod_slots: Vec::new(),
        },
        session_clips: Vec::new(),
        session_launch_requests: Vec::new(),
    }
}

fn song_of(tracks: Vec<Track>) -> Song {
    Song {
        name: "Parts".to_string(),
        bpm: num(120.0),
        tempo_map: Vec::new(),
        tracks,
        sends: Vec::new(),
        submixes: Vec::new(),
    }
}

fn bus(muted: bool, solo: bool) -> SubmixBus {
    SubmixBus { name: "Bus".to_string(), volume: num(1.0), pan: num(0.0), muted, solo }
}

// Delay compensation.

#[test]
fn delay_line_shifts_an_impulse_by_exactly_the_requested_sample_count() {
    let mut delay = DelayLine::new();
    let mut l = nums(&[0.0; 10]);
    let mut r = nums(&[0.0; 10]);
    l[0] = num(1.0);
    r[0] = num(1.0);
    delay.process(&mut l, &mut r, 4);
    let expected_l: Vec<f32> = (0..10).map(|i| if i == 4 { 1.0 } else { 0.0 }).collect();
    assert_eq!(floats(&l), expected_l);
    assert_eq!(floats(&r), expected_l);
}

#[test]
fn delay_line_of_zero_samples_is_the_identity() {
    let mut delay = DelayLine::new();
    let mut l = nums(&[0.1, 0.2, -0.3, 0.4]);
    let mut r = l.clone();
    let original = l.clone();
    delay.process(&mut l, &mut r, 0);
    assert_eq!(l, original);
    assert_eq!(r, original);
}

#[test]
fn delay_line_keeps_delaying_correctly_across_a_change_in_requested_delay() {
    let mut delay = DelayLine::new();
    let mut l = nums(&[1.0, 0.0, 0.0, 0.0, 0.0, 0.0]);
    let mut r = l.clone();
    delay.process(&mut l[..2], &mut r[..2], 2);
    delay.process(&mut l[2..], &mut r[2..], 5);
    let expected: Vec<f32> = (0..6).map(|i| if i == 2 { 1.0 } else { 0.0 }).collect();
    assert_eq!(
        floats(&l),
        expected,
        "the impulse should still land 2 samples after where it started"
    );
}

#[test]
fn delay_line_gives_the_same_whichever_way_a_buffer_is_cut() {
    let input = [1.0, 2.0, 3.0, 4.0, 5.0, 6.0, 7.0];
    let mut whole = DelayLine::new();
    let mut l = nums(&input);
    let mut r = nums(&input);
    whole.process(&mut l, &mut r, 3);
    assert_eq!(floats(&l), vec![0.0, 0.0, 0.0, 1.0, 2.0, 3.0, 4.0]);
    for cut in 0..=input.len() {
        let mut line = DelayLine::new();
        let mut cut_l = nums(&input);
        let mut cut_r = nums(&input);
        line.process(&mut cut_l[..cut], &mut cut_r[..cut], 3);
        line.process(&mut cut_l[cut..], &mut cut_r[cut..], 3);
        assert_eq!(cut_l, l);
        assert_eq!(cut_r, r);
    }
}

#[test]
fn delay_line_drops_the_oldest_samples_when_the_delay_shrinks() {
    let mut delay = DelayLine::new();
    let mut l = nums(&[1.0, 2.0, 3.0, 4.0]);
    let mut r = l.clone();
    delay.process(&mut l, &mut r, 3);
    assert_eq!(floats(&l), vec![0.0, 0.0, 0.0, 1.0]);
    // 2, 3 and 4 are in flight; at a delay of one only the newest stays.
    let mut l = nums(&[5.0, 6.0]);
    let mut r = l.clone();
    delay.process(&mut l, &mut r, 1);
    assert_eq!(floats(&l), vec![4.0, 5.0]);
}

#[test]
fn pdc_delay_samples_per_track_aligns_every_track_to_the_slowest_one() {
    let tracks = vec![new_track("A"), new_track("B"), new_track("C")];
    let track_latency = vec![0, 64, 200];
    let delays = pdc_delay_samples_per_track(&tracks, &track_latency, &Vec::new());
    assert_eq!(
        delays,
        vec![200, 136, 0],
        "every track should end up compensated to the max (200)"
    );
}

#[test]
fn pdc_delay_samples_per_track_adds_the_submixs_own_latency_for_a_routed_track() {
    let mut submix_track = new_track("Routed");
    submix_track.output = TrackOutput::Submix(0);
    let direct_track = new_track("Direct");
    let tracks = vec![submix_track, direct_track];
    let track_latency = vec![0, 30];
    let submix_latency = vec![50];
    let delays = pdc_delay_samples_per_track(&tracks, &track_latency, &submix_latency);
    assert_eq!(delays, vec![0, 20]);
}

#[test]
fn pdc_counts_an_unlisted_chain_as_having_no_latency() {
    let mut routed = new_track("Routed");
    routed.output = TrackOutput::Submix(7);
    let tracks = vec![routed, new_track("Direct")];
    assert_eq!(pdc_delay_samples_per_track(&tracks, &vec![9], &vec![50]), vec![0, 9]);
    assert_eq!(pdc_delay_samples_per_track(&Vec::new(), &Vec::new(), &Vec::new()), vec![]);
}

// Sample voices.

fn sample_voice_plays_buffer_then_goes_silent() {
    let buffer = Arc::new(SampleBuffer { sample_rate: 48_000, mono: nums(&[1.0, 0.5, -0.5]) });
    let mut voice = SampleVoice::new();
    voice.trigger(buffer, 127);

    assert!((next_sample(&mut voice) - 1.0).abs() < 0.001);
    assert!((next_sample(&mut voice) - 0.5).abs() < 0.001);
    assert!((next_sample(&mut voice) - -0.5).abs() < 0.001);
    assert_eq!(
        next_sample(&mut voice),
        0.0,
        "voice should be silent past the end of the buffer"
    );
    assert!(voice.buffer.is_none(), "voice should free itself once exhausted");
}

#[test]
fn audio_sample_voice_plays_buffer_then_goes_silent() {
    sample_voice_plays_buffer_then_goes_silent();
}

#[test]
fn mod_sample_voice_plays_buffer_then_goes_silent() {
    sample_voice_plays_buffer_then_goes_silent();
}

fn trigger_clip_plays_only_the_trimmed_window() {
    let buffer =
        Arc::new(SampleBuffer { sample_rate: 48_000, mono: nums(&[1.0, 2.0, 3.0, 4.0, 5.0]) });
    let mut voice = SampleVoice::new();
    // Trim to frames 1..4 (values 2.0, 3.0, 4.0), no fades.
    voice.trigger_clip(buffer, num(1.0), 1, 4, 0, 0, false);

    assert_eq!(next_sample(&mut voice), 2.0);
    assert_eq!(next_sample(&mut voice), 3.0);
    assert_eq!(next_sample(&mut voice), 4.0);
    assert_eq!(
        next_sample(&mut voice),
        0.0,
        "voice should stop at end_frame, ignoring the rest of the buffer"
    );
}

#[test]
fn audio_trigger_clip_plays_only_the_trimmed_window() {
    trigger_clip_plays_only_the_trimmed_window();
}

#[test]
fn mod_trigger_clip_plays_only_the_trimmed_window() {
    trigger_clip_plays_only_the_trimmed_window();
}

#[test]
fn trigger_clip_with_looping_wraps_back_to_start_instead_of_stopping() {
    let buffer = Arc::new(SampleBuffer { sample_rate: 48_000, mono: nums(&[1.0, 2.0, 3.0]) });
    let mut voice = SampleVoice::new();
    voice.trigger_clip(buffer, num(1.0), 0, 3, 0, 0, true);

    assert_eq!(next_sample(&mut voice), 1.0);
    assert_eq!(next_sample(&mut voice), 2.0);
    assert_eq!(next_sample(&mut voice), 3.0);
    assert_eq!(next_sample(&mut voice), 1.0, "should wrap back to the start, not go silent");
    assert_eq!(next_sample(&mut voice), 2.0);
}

fn trigger_clip_ramps_fade_in_and_fade_out_linearly() {
    let buffer = Arc::new(SampleBuffer { sample_rate: 48_000, mono: nums(&[1.0; 8]) });
    let mut voice = SampleVoice::new();
    // 8-frame clip, 2-frame fade-in, 2-frame fade-out.
    voice.trigger_clip(buffer, num(1.0), 0, 8, 2, 2, false);

    let samples: Vec<f32> = (0..8).map(|_| next_sample(&mut voice)).collect();
    assert!((samples[0] - 0.0).abs() < 0.001, "frame 0: {}", samples[0]);
    assert!((samples[1] - 0.5).abs() < 0.001, "frame 1: {}", samples[1]);
    assert!((samples[2] - 1.0).abs() < 0.001, "frame 2: fully faded in");
    assert!((samples[5] - 1.0).abs() < 0.001, "frame 5: still full before fade-out");
    assert!((samples[6] - 1.0).abs() < 0.001, "frame 6: {}", samples[6]);
    assert!((samples[7] - 0.5).abs() < 0.001, "frame 7: {}", samples[7]);
}

#[test]
fn audio_trigger_clip_ramps_fade_in_and_fade_out_linearly() {
    trigger_clip_ramps_fade_in_and_fade_out_linearly();
}

#[test]
fn mod_trigger_clip_ramps_fade_in_and_fade_out_linearly() {
    trigger_clip_ramps_fade_in_and_fade_out_linearly();
}

#[test]
fn a_clip_window_is_cut_to_what_the_buffer_holds() {
    let buffer = Arc::new(SampleBuffer { sample_rate: 48_000, mono: nums(&[1.0, 2.0, 3.0]) });
    let mut voice = SampleVoice::new();
    voice.trigger_clip(buffer.clone(), num(1.0), 1, 99, 0, 0, false);
    assert_eq!(next_sample(&mut voice), 2.0);
    assert_eq!(next_sample(&mut voice), 3.0);
    assert_eq!(next_sample(&mut voice), 0.0);

    // A window that starts past the end plays nothing, looping or not.
    voice.trigger_clip(buffer, num(1.0), 9, 99, 0, 0, true);
    assert_eq!(next_sample(&mut voice), 0.0);
}

#[test]
fn a_cut_voice_is_silent_at_once() {
    let buffer = Arc::new(SampleBuffer { sample_rate: 48_000, mono: nums(&[1.0, 2.0, 3.0]) });
    let mut voice = SampleVoice::new();
    voice.trigger_clip(buffer, num(0.5), 0, 3, 0, 0, true);
    assert_eq!(next_sample(&mut voice), 0.5);
    voice.cut();
    assert_eq!(next_sample(&mut voice), 0.0);
}

#[test]
fn a_window_joined_late_keeps_its_end() {
    let window = playback_window(100, 50, 0);
    assert_eq!((window.start_frame, window.end_frame), (100, 150));
    let window = playback_window(100, 50, 20);
    assert_eq!((window.start_frame, window.end_frame), (120, 150));
}

// Spans.

#[test]
fn chain_chunks_start_at_every_breakpoint_inside_the_buffer() {
    let span = |start, end| Span { start, end };
    assert_eq!(chain_chunks(&Vec::new(), 0), vec![]);
    assert_eq!(chain_chunks(&Vec::new(), 64), vec![span(0, 64)]);
    assert_eq!(
        chain_chunks(&vec![40, 10, 40, 64, 99, 0], 64),
        vec![span(0, 10), span(10, 40), span(40, 64)]
    );
}

#[test]
fn offline_chunks_cover_a_bounce_in_full_chunks_and_a_rest() {
    assert_eq!(OFFLINE_CHUNK_FRAMES, 2048);
    assert_eq!(offline_chunks(0), vec![]);
    assert_eq!(
        offline_chunks(5000),
        vec![
            Span { start: 0, end: 2048 },
            Span { start: 2048, end: 4096 },
            Span { start: 4096, end: 5000 },
        ]
    );
    assert_eq!(offline_chunks(2048), vec![Span { start: 0, end: 2048 }]);
}

#[test]
fn each_frame_is_in_exactly_one_span() {
    let chunks = chain_chunks(&vec![7, 3, 19], 20);
    for frame in 0..20 {
        assert_eq!(chunks.iter().filter(|c| c.start <= frame && frame < c.end).count(), 1);
    }
}

#[test]
fn ordered_insertion_keeps_one_of_each_in_order() {
    let mut values = Vec::new();
    for value in [5, 1, 9, 5, 1, 0] {
        insert_ordered(&mut values, value);
    }
    assert_eq!(values, vec![0, 1, 5, 9]);
}

// Tempo.

#[test]
fn the_latest_tempo_point_governs() {
    let mut song = song_of(Vec::new());
    assert_eq!(float(song.bpm_at(1000)), 120.0);
    // Listed out of order, with two points on one tick.
    song.tempo_map = vec![
        TempoPoint { tick: 200, bpm: num(90.0) },
        TempoPoint { tick: 100, bpm: num(60.0) },
        TempoPoint { tick: 200, bpm: num(180.0) },
    ];
    assert_eq!(float(song.bpm_at(99)), 120.0);
    assert_eq!(float(song.bpm_at(100)), 60.0);
    assert_eq!(float(song.bpm_at(199)), 60.0);
    assert_eq!(float(song.bpm_at(200)), 180.0);
    assert_eq!(float(song.bpm_at(usize::MAX)), 180.0);
}

#[test]
fn tempo_segments_tile_the_span_at_one_tempo_each() {
    let mut song = song_of(Vec::new());
    song.tempo_map = vec![
        TempoPoint { tick: 300, bpm: num(240.0) },
        TempoPoint { tick: 100, bpm: num(60.0) },
        TempoPoint { tick: 1000, bpm: num(30.0) },
    ];
    let segments: Vec<(usize, usize, f32)> = tempo_segments(&song, 1000)
        .iter()
        .map(|s| (s.start_tick, s.end_tick, float(s.bpm)))
        .collect();
    assert_eq!(segments, vec![(0, 100, 120.0), (100, 300, 60.0), (300, 1000, 240.0)]);
    for segment in tempo_segments(&song, 1000) {
        for tick in segment.start_tick..segment.end_tick {
            assert_eq!(song.bpm_at(tick), segment.bpm);
        }
    }
    assert_eq!(tempo_boundaries(&song, 1000), vec![0, 100, 300, 1000]);
    assert!(tempo_segments(&song, 0).is_empty());
}

// Solo and mute.

#[test]
fn solo_hushes_the_others_and_mute_wins_over_nothing_else() {
    let mut soloed = new_track("Soloed");
    soloed.solo = true;
    let mut muted = new_track("Muted");
    muted.muted = true;
    let plain = new_track("Plain");
    let song = song_of(vec![soloed, muted, plain]);
    assert!(has_solo(&song));
    let silent: Vec<bool> =
        song.tracks.iter().map(|t| track_silent(&song, t, has_solo(&song))).collect();
    assert_eq!(silent, vec![false, true, true]);
    // A bounce of the whole song leaves nobody out.
    for track in &song.tracks {
        let heard = Selection { every_track: false, live_track: None };
        let whole = Selection { every_track: true, live_track: None };
        assert!(!track_hushed(&song, whole, track, true));
        assert_eq!(track_hushed(&song, heard, track, true), track_silent(&song, track, true));
    }
}

#[test]
fn without_a_solo_only_the_muted_are_silent() {
    let mut muted = new_track("Muted");
    muted.muted = true;
    let mut member = new_track("Member");
    member.output = TrackOutput::Submix(0);
    let mut song = song_of(vec![muted, new_track("Plain"), member]);
    song.submixes = vec![bus(true, false)];
    assert!(!has_solo(&song));
    let silent: Vec<bool> = song.tracks.iter().map(|t| track_silent(&song, t, false)).collect();
    assert_eq!(silent, vec![true, false, true]);
}

// Mixing.

fn no_automation<'a>() -> TrackAutomationOverride<'a> {
    TrackAutomationOverride {
        volume: None,
        pan: None,
        send_levels: Vec::new(),
        effect_params: Vec::new(),
    }
}

#[test]
fn a_track_feeds_its_bus_and_the_sends_it_is_up_on() {
    let mut track = new_track("A");
    track.output = TrackOutput::Submix(0);
    track.send_levels = nums(&[0.0, 0.5, 0.25, -0.0]);
    track.volume = num(0.8);
    let mut song = song_of(Vec::new());
    song.submixes = vec![bus(false, false)];
    song.sends =
        vec![SendBus { name: "X".to_string() }, SendBus { name: "Y".to_string() }];
    let mix = track_mix(&song, &track, &no_automation());
    assert!(mix.runs_chain);
    assert!(matches!(mix.volume, Fader::Setting(v) if float(v) == 0.8));
    assert!(matches!(mix.pan, Fader::Setting(v) if float(v) == 0.0));
    assert_eq!(mix.bus, MixBus::Submix(0));
    // Send 0 is down, sends 2 and 3 do not exist.
    assert_eq!(mix.sends.len(), 1);
    assert_eq!(mix.sends[0].send_index, 1);
    assert!(matches!(mix.sends[0].level, Fader::Setting(v) if float(v) == 0.5));

    track.output = TrackOutput::Submix(3);
    track.frozen = true;
    let mix = track_mix(&song, &track, &no_automation());
    assert_eq!(mix.bus, MixBus::Nowhere);
    assert!(!mix.runs_chain);
    track.output = TrackOutput::Master;
    assert_eq!(track_mix(&song, &track, &no_automation()).bus, MixBus::Master);
}

#[test]
fn the_last_lane_on_a_send_rides_it() {
    let lane = |value: f32| AutomationLane {
        target: AutomationTarget::SendLevel { send_index: 0 },
        points: vec![AutomationPoint { tick: 0, value: num(value), curve: CurveShape::Linear }],
    };
    let (wide, own) = (lane(0.1), lane(0.9));
    let mut automation = no_automation();
    automation.send_levels = vec![
        SendLane { send_index: 0, lane: LaneRef { base_offset: 5, lane: &wide } },
        SendLane { send_index: 0, lane: LaneRef { base_offset: 2, lane: &own } },
    ];
    let mut track = new_track("A");
    track.send_levels = nums(&[0.0]);
    let mut song = song_of(Vec::new());
    song.sends = vec![SendBus { name: "X".to_string() }];
    let mix = track_mix(&song, &track, &automation);
    assert_eq!(mix.sends.len(), 1, "a lane opens a send that is down");
    let Fader::Lane(riding) = mix.sends[0].level else { panic!("a lane should ride the send") };
    assert_eq!(riding.base_offset, 2);
    assert_eq!(float(riding.lane.points[0].value), 0.9);
}

#[test]
fn the_mix_plan_takes_each_tracks_own_automation() {
    let mut first = new_track("A");
    first.automation.push(AutomationLane {
        target: AutomationTarget::Volume,
        points: vec![AutomationPoint { tick: 0, value: num(0.3), curve: CurveShape::Linear }],
    });
    let song = song_of(vec![first, new_track("B")]);
    let overrides = collect_automation(&song, 7, false, &Vec::new());
    let plan = mix_plan(&song, &overrides);
    assert_eq!(plan.len(), 2);
    assert!(matches!(plan[0].volume, Fader::Lane(lane) if lane.base_offset == 7));
    assert!(matches!(plan[1].volume, Fader::Setting(v) if float(v) == 1.0));
}

#[test]
fn a_parameter_reaches_only_an_effect_of_its_own_sort() {
    let chain = vec![Some(EffectKind::Clap), Some(EffectKind::BuiltIn), None];
    let clap = EffectParamKey::Clap { param_id: 3 };
    let built_in = EffectParamKey::BuiltIn { param_name: "Mix".to_string() };
    let reached = |key: &EffectParamKey| -> Vec<bool> {
        (0..4).map(|slot| param_reaches(&chain, slot, key)).collect()
    };
    assert_eq!(reached(&clap), vec![true, false, false, false]);
    assert_eq!(reached(&built_in), vec![false, true, false, false]);
}

// Playback.

#[test]
fn the_callback_renders_rewinds_and_resets_meters_once() {
    let mut state = CallbackState::new();
    let plan = state.begin(false, true);
    assert_eq!((plan.reset_meters, plan.action), (false, CallbackAction::Rewind));
    let plan = state.begin(true, true);
    assert_eq!((plan.reset_meters, plan.action), (false, CallbackAction::Render));
    let plan = state.begin(true, false);
    assert_eq!((plan.reset_meters, plan.action), (false, CallbackAction::Abandon));
    let plan = state.begin(false, true);
    assert_eq!((plan.reset_meters, plan.action), (true, CallbackAction::Rewind));
    let plan = state.begin(false, true);
    assert_eq!((plan.reset_meters, plan.action), (false, CallbackAction::Rewind));
}

#[test]
fn channels_beyond_the_first_take_the_right_side() {
    assert_eq!(side_of_channel(0), Side::Left);
    assert_eq!(side_of_channel(1), Side::Right);
    assert_eq!(side_of_channel(5), Side::Right);
}

#[test]
fn a_bounce_runs_at_least_once_and_over_a_track_that_exists() {
    assert_eq!(bounce_loops(0), 1);
    assert_eq!(bounce_loops(1), 1);
    assert_eq!(bounce_loops(4), 4);
    let song = song_of(vec![new_track("A")]);
    assert!(can_bounce_track(&song, 0, 10));
    assert!(!can_bounce_track(&song, 1, 10));
    assert!(!can_bounce_track(&song, 0, 0));
}

// Devices.

#[test]
fn the_first_device_of_the_wanted_name_is_chosen() {
    let names = vec![
        None,
        Some("Speakers".to_string()),
        Some("USB".to_string()),
        Some("USB".to_string()),
    ];
    assert_eq!(choose_device(&names, &Some("USB".to_string())), Choice::Listed(2));
    assert_eq!(choose_device(&names, &Some("Gone".to_string())), Choice::Default);
    assert_eq!(choose_device(&names, &None), Choice::Default);
    assert_eq!(listed_names(&names), vec!["Speakers", "USB", "USB"]);
}

#[test]
fn offered_rates_are_all_that_can_be_had_in_order() {
    let range = |min_sample_rate, max_sample_rate| RateRange { min_sample_rate, max_sample_rate };
    let rates = offered_sample_rates(&vec![range(44_100, 96_000)]);
    assert!(rates.contains(&44_100) && rates.contains(&48_000) && rates.contains(&96_000));
    assert_eq!(rates, (44_100..=96_000).collect::<Vec<u32>>());

    let ranges = vec![range(44_100, 44_102), range(44_101, 44_104), range(96_000, 96_000)];
    let rates = offered_sample_rates(&ranges);
    assert_eq!(rates, vec![44_100, 44_101, 44_102, 44_103, 44_104, 96_000]);
    for rate in rates {
        assert!(matches!(choose_config(&ranges, Some(rate)), Choice::Listed(_)));
    }
    assert_eq!(next_supported_rate(&ranges, 0), Some(44_100));
    assert_eq!(next_supported_rate(&ranges, 44_103), Some(44_103));
    assert_eq!(next_supported_rate(&ranges, 44_105), Some(96_000));
    assert_eq!(next_supported_rate(&ranges, 96_001), None);
    assert_eq!(choose_config(&ranges, Some(44_102)), Choice::Listed(0));
    assert_eq!(choose_config(&ranges, Some(44_103)), Choice::Listed(1));
    assert_eq!(choose_config(&ranges, Some(192_000)), Choice::Default);
    assert_eq!(choose_config(&ranges, None), Choice::Default);
    assert!(offered_sample_rates(&Vec::new()).is_empty());
}

#[test]
fn rates_are_offered_however_high_they_are() {
    let range = |min_sample_rate, max_sample_rate| RateRange { min_sample_rate, max_sample_rate };
    let rates = offered_sample_rates(&vec![range(800_000, 900_000)]);
    assert!(rates.contains(&850_000));
    assert_eq!(rates, (800_000..=900_000).collect::<Vec<u32>>());
    let top = vec![range(u32::MAX - 2, u32::MAX), range(0, 1)];
    assert_eq!(offered_sample_rates(&top), vec![0, 1, u32::MAX - 2, u32::MAX - 1, u32::MAX]);
    // The wrong way round, a range covers nothing.
    assert!(offered_sample_rates(&vec![range(48_000, 44_100)]).is_empty());
}

#[test]
fn a_stream_status_shows_the_fixed_buffer_or_the_usual_bounds() {
    let status = AudioStatus::opened("USB".to_string(), 48_000, Some(256));
    assert_eq!(status.device_name, "USB");
    assert_eq!((status.sample_rate, status.min_frames, status.max_frames), (48_000, 256, 256));
    let status = AudioStatus::opened("USB".to_string(), 44_100, None);
    assert_eq!((status.sample_rate, status.min_frames, status.max_frames), (44_100, 1, 8192));
}

#[test]
fn only_the_usual_sample_formats_are_supported() {
    assert!(is_supported(OutputFormat::F32));
    assert!(is_supported(OutputFormat::I16));
    assert!(is_supported(OutputFormat::U16));
    assert!(!is_supported(OutputFormat::Other));
}

// Envelopes, glides and unison.

#[test]
fn an_envelope_goes_through_its_stages_and_releases_with_its_gate() {
    let mut clock = EnvelopeClock::new();
    clock.trigger(false, 5);
    assert_eq!(clock.stage, EnvelopeStage::Attack);
    assert!(!clock.advance(false).snap);
    assert!(clock.advance(true).snap);
    assert_eq!(clock.stage, EnvelopeStage::Decay);
    assert!(clock.advance(true).snap);
    assert_eq!(clock.stage, EnvelopeStage::Sustain);
    let step = clock.advance(true);
    assert!(!step.snap && !step.release_begins);
    let step = clock.advance(false);
    assert!(step.release_begins);
    assert_eq!((clock.stage, clock.elapsed_samples), (EnvelopeStage::Release, 5));
    assert!(!clock.advance(true).release_begins);
    assert!(!clock.is_over(false));
    assert!(clock.is_over(true));
}

#[test]
fn an_instant_attack_starts_in_decay() {
    let mut clock = EnvelopeClock::new();
    clock.trigger(true, 100);
    assert_eq!(clock.stage, EnvelopeStage::Decay);
}

#[test]
fn a_voice_that_decays_to_silence_ends_before_its_gate() {
    let marks = |reached, sustain_below_floor, below_floor| AmplitudeMarks {
        reached,
        sustain_below_floor,
        below_floor,
    };
    let mut voice = VoiceClock::new();
    assert_eq!(voice, VoiceClock { active: false, envelope: EnvelopeClock::new() });
    assert!(!voice.active);
    voice.trigger(true, 100);
    assert!(voice.active);
    voice.advance(marks(false, true, false));
    assert!(voice.active);
    assert!(voice.advance(marks(true, true, true)).snap);
    assert!(!voice.active);

    // One that sustains ends only once its release has faded.
    voice.trigger(true, 3);
    voice.advance(marks(true, false, false));
    voice.advance(marks(false, false, false));
    assert!(voice.advance(marks(false, false, false)).release_begins);
    assert!(voice.active);
    voice.advance(marks(false, false, true));
    assert!(!voice.active);
}

#[test]
fn a_glide_arrives_on_its_last_sample() {
    let mut glide = Glide { remaining: 3 };
    let steps: Vec<GlideStep> = (0..4).map(|_| glide.advance()).collect();
    assert_eq!(
        steps,
        vec![GlideStep::Moving, GlideStep::Moving, GlideStep::Arrived, GlideStep::Still]
    );
}

#[test]
fn unison_voices_spread_around_the_center() {
    assert_eq!([0, 1, 2, 3, 9].map(unison_count), [1, 1, 2, 3, 3]);
    let places = |count| -> Vec<UnisonPlace> {
        (0..count).map(|index| unison_place_of(count, index)).collect()
    };
    assert_eq!(places(1), vec![UnisonPlace::Center]);
    assert_eq!(places(2), vec![UnisonPlace::DownLeft, UnisonPlace::UpRight]);
    assert_eq!(
        places(3),
        vec![UnisonPlace::DownLeft, UnisonPlace::Center, UnisonPlace::UpRight]
    );
}

#[test]
fn a_modulation_slot_is_connected_at_both_ends_or_not_at_all() {
    let slot = |source, target| ModSlot { source, target, amount: num(1.0) };
    assert!(is_connected(&slot(ModSource::Env2, ModTarget::FilterCutoff)));
    assert!(!is_connected(&slot(ModSource::Off, ModTarget::FilterCutoff)));
    assert!(!is_connected(&slot(ModSource::Env2, ModTarget::Off)));
    let slot = |source, target| WaveModSlot { source, target, amount: num(1.0) };
    assert!(is_wave_connected(&slot(ModSource::Lfo1, WaveModTarget::Pitch)));
    assert!(!is_wave_connected(&slot(ModSource::Off, WaveModTarget::Pitch)));
    assert!(!is_wave_connected(&slot(ModSource::Lfo1, WaveModTarget::Off)));
}

#[test]
fn filters_cascade_by_slope_and_pair_up_by_routing() {
    assert_eq!([FilterSlope::Slope12, FilterSlope::Slope24].map(stage_count), [1, 2]);
    assert_eq!(
        [FilterRouting::Off, FilterRouting::Series, FilterRouting::Parallel]
            .map(second_filter_input),
        [
            SecondFilterInput::Unused,
            SecondFilterInput::FirstOutput,
            SecondFilterInput::SameInput
        ]
    );
}

#[test]
fn a_step_is_held_through_its_engines_attack_and_decay() {
    let mut track = new_track("A");
    track.synth.attack_seconds = num(0.1);
    track.synth.decay_seconds = num(0.2);
    track.trine.env3.attack_seconds = num(0.3);
    track.trine.env3.decay_seconds = num(0.4);
    track.wave.amp.attack_seconds = num(0.5);
    track.wave.amp.decay_seconds = num(0.6);
    let gate = |engine| {
        let gate = step_gate(engine, &track.synth, &track.trine, &track.wave);
        (float(gate.attack_seconds), float(gate.decay_seconds))
    };
    assert_eq!(gate(SynthEngine::Simple), (0.1, 0.2));
    assert_eq!(gate(SynthEngine::Trine), (0.3, 0.4));
    assert_eq!(gate(SynthEngine::Wave), (0.5, 0.6));
}

// Noise.

#[test]
fn noise_is_hashed_from_its_seed() {
    assert_eq!(scramble(0), 0);
    // 1 * 0x7feb352d = 0x7feb352d; xor its own shift by 15 gives 0x7febcafb.
    let c = 0x7feb_352du32 ^ (0x7feb_352du32 >> 15);
    let d = c.wrapping_mul(0x846c_a68b);
    assert_eq!(scramble(1), d ^ (d >> 16));
    assert_ne!(scramble(1), scramble(2));
    assert_eq!(next_seed(0), 0x9E37_79B9);
    assert_eq!(next_seed(0xFFFF_FFFF), 0x9E37_79B8);
    let bits = 440.0f32.to_bits();
    let (left, right) = drift_seeds(bits);
    assert_eq!((left, right), (bits ^ 0xA5A5_5A5A, bits ^ 0x5A5A_A5A5));
    assert_ne!(left, right);
    assert_eq!(noise_seed(bits), bits ^ 0x1234_5678);
}

#[test]
fn numbers_know_zero_and_the_positive() {
    assert_eq!(float(Real32::silence()), 0.0);
    assert!(num(0.0).is_zero() && num(-0.0).is_zero());
    assert!(!num(1e-30).is_zero() && !num(f32::NAN).is_zero());
    for x in [1e-40, 0.5, 3.0, f32::INFINITY] {
        assert!(num(x).is_positive(), "{x}");
    }
    for x in [0.0, -0.0, -1.0, f32::NEG_INFINITY, f32::NAN] {
        assert!(!num(x).is_positive(), "{x}");
    }
}

// Transport and metronome.

#[test]
fn each_transport_setting_is_kept_apart_from_the_others() {
    let mut transport = Transport::new();
    assert!(!transport.is_playing() && !transport.is_metronome_enabled());
    assert!(!transport.is_session_mode() && !transport.is_capturing());
    assert_eq!((transport.current_tick(), transport.session_quantize_ticks()), (0, 0));
    transport.set_playing(true);
    assert!(transport.is_playing() && !transport.is_capturing() && !transport.is_session_mode());
    transport.set_metronome_enabled(true);
    transport.set_session_mode(true);
    transport.set_session_quantize_ticks(96);
    transport.set_capturing(true);
    transport.set_playing(false);
    assert!(!transport.is_playing() && transport.is_metronome_enabled());
    assert!(transport.is_session_mode() && transport.is_capturing());
    assert_eq!((transport.current_tick(), transport.session_quantize_ticks()), (0, 96));
}

#[test]
fn a_click_counts_its_frames_and_then_rests() {
    assert_eq!(METRONOME_BEAT_TICKS, 96);
    let mut metronome = Metronome::new();
    assert_eq!(metronome.next_metronome_click_position(), None);
    metronome.trigger_metronome_click(true, 2);
    assert!(metronome.accent);
    assert_eq!(metronome.next_metronome_click_position(), Some(0));
    assert_eq!(metronome.next_metronome_click_position(), Some(1));
    assert_eq!(metronome.next_metronome_click_position(), None);
    assert_eq!(metronome.next_metronome_click_position(), None);
}

#[test]
fn a_frozen_track_plays_its_frozen_clip_unless_it_is_baked_down() {
    let mut track = new_track("A");
    let bake = Selection { every_track: false, live_track: Some(2) };
    assert!(!track_plays_frozen(bake, &track, 1));
    track.frozen = true;
    assert!(track_plays_frozen(bake, &track, 1));
    assert!(!track_plays_frozen(bake, &track, 2));
    assert!(track_plays_frozen(Selection { every_track: true, live_track: None }, &track, 2));
}

#[test]
fn settings_are_read_as_they_were_last_made() {
    let mut transport = Transport::new();
    for ticks in [7, usize::MAX, 0] {
        transport.set_session_quantize_ticks(ticks);
        transport.set_capturing(ticks == 7);
        transport.set_playing(ticks != 7);
        transport.set_metronome_enabled(ticks == 0);
        transport.set_session_mode(ticks == usize::MAX);
        assert_eq!(transport.session_quantize_ticks(), ticks);
        assert_eq!(transport.is_capturing(), ticks == 7);
        assert_eq!(transport.is_playing(), ticks != 7);
        assert_eq!(transport.current_tick(), 0, "no setting moves the playhead");
    }
}
