//! Playback of recorded audio: which frame of a buffer sounds next, and how far it is faded.

use std::sync::Arc;

use vstd::prelude::*;

use crate::model::SampleBuffer;
use crate::number::Real32;

verus! {

/// How loud a voice plays: as hard as a step was hit, or at a clip's own gain.
#[derive(Clone, Copy, Debug, PartialEq, Eq, Structural)]
pub enum VoiceGain {
    Velocity(u8),
    Level(Real32),
}

/// A fade ramp, `position` frames out of `length` from its silent end. It is at full strength from
/// `length` on.
#[derive(Clone, Copy, Debug, PartialEq, Eq)]
pub struct Ramp {
    pub position: usize,
    pub length: usize,
}

/// One frame of a sounding voice. Where both ramps are given, the weaker one counts.
#[derive(Clone, Copy, Debug, PartialEq, Eq)]
pub struct SampleFrame {
    pub sample: Real32,
    pub gain: VoiceGain,
    pub fade_in: Option<Ramp>,
    pub fade_out: Option<Ramp>,
}

/// Plays a window of a buffer, once or over and over.
pub struct SampleVoice {
    pub buffer: Option<Arc<SampleBuffer>>,
    pub position: usize,
    pub start_position: usize,
    /// The frame just past the window.
    pub end_position: usize,
    pub gain: VoiceGain,
    pub fade_in_frames: usize,
    pub fade_out_frames: usize,
    /// When set, playback goes back to the window's start instead of falling silent at its end.
    pub looping: bool,
}

pub open spec fn smaller(a: int, b: int) -> int {
    if a < b {
        a
    } else {
        b
    }
}

/// A ramp where a fade has any length.
pub open spec fn ramp_at(position: int, length: usize) -> Option<Ramp> {
    if length > 0 {
        Some(Ramp { position: position as usize, length })
    } else {
        None
    }
}

impl SampleVoice {
    /// The window lies within the buffer, and playback has not gone back past its start.
    pub open spec fn wf(self) -> bool {
        &&& self.start_position <= self.position
        &&& self.buffer matches Some(buffer) ==> self.end_position <= buffer.mono@.len()
    }

    /// Where playback stands once a looping voice at its end has gone back to its start.
    pub open spec fn wrapped(self) -> usize {
        if self.position >= self.end_position && self.looping && self.end_position
            > self.start_position {
            self.start_position
        } else {
            self.position
        }
    }

    /// The frame that sounds next, or `None` where the voice is silent.
    pub open spec fn upcoming(self) -> Option<SampleFrame> {
        let position = self.wrapped();
        if self.buffer is Some && position < self.end_position {
            Some(
                SampleFrame {
                    sample: (self.buffer->0).mono@[position as int],
                    gain: self.gain,
                    fade_in: ramp_at(position - self.start_position, self.fade_in_frames),
                    fade_out: ramp_at(self.end_position - position, self.fade_out_frames),
                },
            )
        } else {
            None
        }
    }

    /// The voice after one frame. One that has come to its end lets go of its buffer.
    pub open spec fn stepped(self) -> Self {
        let position = self.wrapped();
        if position >= self.end_position {
            SampleVoice { buffer: None, ..self }
        } else if self.buffer is Some {
            SampleVoice { position: (position + 1) as usize, ..self }
        } else {
            SampleVoice { position, ..self }
        }
    }

    /// The voice after `n` frames.
    pub open spec fn after(self, n: nat) -> Self
        decreases n,
    {
        if n == 0 {
            self
        } else {
            self.after((n - 1) as nat).stepped()
        }
    }

    /// A silent voice.
    pub fn new() -> (voice: Self)
        ensures
            voice.wf(),
            voice.upcoming() is None,
            voice == (SampleVoice {
                buffer: None,
                position: 0,
                start_position: 0,
                end_position: 0,
                gain: VoiceGain::Velocity(0),
                fade_in_frames: 0,
                fade_out_frames: 0,
                looping: false,
            }),
    {
        SampleVoice {
            buffer: None,
            position: 0,
            start_position: 0,
            end_position: 0,
            gain: VoiceGain::Velocity(0),
            fade_in_frames: 0,
            fade_out_frames: 0,
            looping: false,
        }
    }

    /// Plays `buffer` once and in full, without fades.
    pub fn trigger(&mut self, buffer: Arc<SampleBuffer>, velocity: u8)
        ensures
            final(self).wf(),
            *final(self) == (SampleVoice {
                buffer: Some(buffer),
                position: 0,
                start_position: 0,
                end_position: buffer.mono.len(),
                gain: VoiceGain::Velocity(velocity),
                fade_in_frames: 0,
                fade_out_frames: 0,
                looping: false,
            }),
    {
        let frames: usize = buffer.mono.len();
        self.start(buffer, VoiceGain::Velocity(velocity), 0, frames, 0, 0, false);
    }

    /// Plays the frames `start_frame..end_frame` of `buffer`, as far as it has them, with linear
    /// ramps at the window's edges.
    pub fn trigger_clip(
        &mut self,
        buffer: Arc<SampleBuffer>,
        gain: Real32,
        start_frame: usize,
        end_frame: usize,
        fade_in_frames: usize,
        fade_out_frames: usize,
        looping: bool,
    )
        ensures
            final(self).wf(),
            *final(self) == (SampleVoice {
                buffer: Some(buffer),
                position: smaller(start_frame as int, buffer.mono@.len() as int) as usize,
                start_position: smaller(start_frame as int, buffer.mono@.len() as int) as usize,
                end_position: smaller(end_frame as int, buffer.mono@.len() as int) as usize,
                gain: VoiceGain::Level(gain),
                fade_in_frames,
                fade_out_frames,
                looping,
            }),
    {
        self.start(
            buffer,
            VoiceGain::Level(gain),
            start_frame,
            end_frame,
            fade_in_frames,
            fade_out_frames,
            looping,
        );
    }

    fn start(
        &mut self,
        buffer: Arc<SampleBuffer>,
        gain: VoiceGain,
        start_frame: usize,
        end_frame: usize,
        fade_in_frames: usize,
        fade_out_frames: usize,
        looping: bool,
    )
        ensures
            final(self).wf(),
            *final(self) == (SampleVoice {
                buffer: Some(buffer),
                position: smaller(start_frame as int, buffer.mono@.len() as int) as usize,
                start_position: smaller(start_frame as int, buffer.mono@.len() as int) as usize,
                end_position: smaller(end_frame as int, buffer.mono@.len() as int) as usize,
                gain,
                fade_in_frames,
                fade_out_frames,
                looping,
            }),
    {
        let frames: usize = buffer.mono.len();
        self.start_position = if start_frame < frames {
            start_frame
        } else {
            frames
        };
        self.position = self.start_position;
        self.end_position = if end_frame < frames {
            end_frame
        } else {
            frames
        };
        self.buffer = Some(buffer);
        self.gain = gain;
        self.fade_in_frames = fade_in_frames;
        self.fade_out_frames = fade_out_frames;
        self.looping = looping;
    }

    /// Silences the voice at once.
    pub fn cut(&mut self)
        requires
            old(self).wf(),
        ensures
            final(self).wf(),
            *final(self) == (SampleVoice { buffer: None, ..*old(self) }),
    {
        self.buffer = None;
    }

    /// The next frame of the voice, or `None` where it is silent.
    pub fn next_sample(&mut self) -> (frame: Option<SampleFrame>)
        requires
            old(self).wf(),
        ensures
            final(self).wf(),
            frame == old(self).upcoming(),
            *final(self) == old(self).stepped(),
    {
        if self.position >= self.end_position {
            if self.looping && self.end_position > self.start_position {
                self.position = self.start_position;
            } else {
                self.buffer = None;
                return None;
            }
        }
        let position: usize = self.position;
        let sample: Real32 = match &self.buffer {
            Some(buffer) => buffer.mono[position],
            None => {
                return None;
            },
        };
        let fade_in: Option<Ramp> = if self.fade_in_frames > 0 {
            Some(Ramp { position: position - self.start_position, length: self.fade_in_frames })
        } else {
            None
        };
        let fade_out: Option<Ramp> = if self.fade_out_frames > 0 {
            Some(Ramp { position: self.end_position - position, length: self.fade_out_frames })
        } else {
            None
        };
        self.position = position + 1;
        Some(SampleFrame { sample, gain: self.gain, fade_in, fade_out })
    }
}

/// The frames of a buffer that a clip plays.
#[derive(Clone, Copy, Debug, PartialEq, Eq, Structural)]
pub struct ClipWindow {
    pub start_frame: usize,
    pub end_frame: usize,
}

/// A sum that stops at the largest number there is.
pub open spec fn capped_sum(a: usize, b: usize) -> int {
    smaller(a + b, usize::MAX as int)
}

/// The window of a clip whose audio begins at `source_start_frame` and lasts `length_frames`, and
/// which is joined `phase_frames` in. However late it is joined, it does not start past its end.
pub fn playback_window(source_start_frame: usize, length_frames: usize, phase_frames: usize)
    -> (window: ClipWindow)
    ensures
        window.end_frame == capped_sum(source_start_frame, length_frames),
        window.start_frame == smaller(
            capped_sum(source_start_frame, phase_frames),
            capped_sum(source_start_frame, length_frames),
        ),
        window.start_frame <= window.end_frame,
        phase_frames == 0 ==> window.start_frame == source_start_frame,
{
    let end_frame: usize = source_start_frame.saturating_add(length_frames);
    let joined: usize = source_start_frame.saturating_add(phase_frames);
    let start_frame: usize = if joined < end_frame {
        joined
    } else {
        end_frame
    };
    ClipWindow { start_frame, end_frame }
}

proof fn lemma_after_in_window(voice: SampleVoice, n: nat)
    requires
        voice.wf(),
        voice.buffer is Some,
        voice.position == voice.start_position,
        voice.start_position + n <= voice.end_position,
    ensures
        voice.after(n) == (SampleVoice {
            position: (voice.start_position + n) as usize,
            ..voice
        }),
    decreases n,
{
    if n > 0 {
        lemma_after_in_window(voice, (n - 1) as nat);
    }
}

/// A freshly triggered voice plays its window frame by frame, from its start to its end.
pub proof fn law_window_is_played_in_order(voice: SampleVoice, n: nat)
    requires
        voice.wf(),
        voice.buffer is Some,
        voice.position == voice.start_position,
        voice.start_position + n < voice.end_position,
    ensures
        voice.after(n).upcoming() matches Some(frame) && frame.sample == (
        voice.buffer->0).mono@[voice.start_position + n],
{
    lemma_after_in_window(voice, n);
}

/// A voice that does not loop falls silent at the end of its window, and stays so.
pub proof fn law_one_shot_falls_silent(voice: SampleVoice, n: nat)
    requires
        voice.wf(),
        voice.buffer is Some,
        voice.position == voice.start_position,
        !voice.looping,
        voice.start_position + n >= voice.end_position,
    ensures
        voice.after(n).upcoming() is None,
    decreases n,
{
    if voice.start_position + n <= voice.end_position {
        lemma_after_in_window(voice, n);
    } else if n > 0 {
        law_one_shot_falls_silent(voice, (n - 1) as nat);
        lemma_silence_lasts(voice, (n - 1) as nat);
    }
}

proof fn lemma_silence_lasts(voice: SampleVoice, n: nat)
    requires
        voice.wf(),
        !voice.looping,
        voice.after(n).upcoming() is None,
    ensures
        voice.after(n + 1).upcoming() is None,
{
    lemma_looping_is_kept(voice, n);
    lemma_looping_is_kept(voice, n + 1);
}

proof fn lemma_looping_is_kept(voice: SampleVoice, n: nat)
    ensures
        voice.after(n).looping == voice.looping,
        voice.after(n).start_position == voice.start_position,
        voice.after(n).end_position == voice.end_position,
    decreases n,
{
    if n > 0 {
        lemma_looping_is_kept(voice, (n - 1) as nat);
    }
}

/// A looping voice never falls silent by itself: frame after frame it goes round its window.
pub proof fn law_looping_voice_never_falls_silent(voice: SampleVoice, n: nat)
    requires
        voice.wf(),
        voice.buffer is Some,
        voice.looping,
        voice.position == voice.start_position,
        voice.start_position < voice.end_position,
    ensures
        voice.after(n).upcoming() matches Some(frame) && frame.sample == (
        voice.buffer->0).mono@[voice.start_position + n as int % (voice.end_position
            - voice.start_position)],
{
    lemma_looping_position(voice, n);
    let length = voice.end_position - voice.start_position;
    let k = n as int % length;
    assert(0 <= k < length);
}

proof fn lemma_looping_position(voice: SampleVoice, n: nat)
    requires
        voice.wf(),
        voice.buffer is Some,
        voice.looping,
        voice.position == voice.start_position,
        voice.start_position < voice.end_position,
    ensures
        voice.after(n).buffer == voice.buffer,
        voice.after(n).looping,
        voice.after(n).start_position == voice.start_position,
        voice.after(n).end_position == voice.end_position,
        voice.after(n).wrapped() == voice.start_position + n as int % (voice.end_position
            - voice.start_position),
    decreases n,
{
    let length = voice.end_position - voice.start_position;
    if n == 0 {
        assert(0int % length == 0) by (nonlinear_arith)
            requires
                length > 0,
        ;
    } else {
        lemma_looping_position(voice, (n - 1) as nat);
        let k = (n - 1) as int % length;
        assert(0 <= k < length);
        if k + 1 < length {
            assert(n as int % length == k + 1) by (nonlinear_arith)
                requires
                    k == (n - 1) as int % length,
                    length > 0,
                    k + 1 < length,
            ;
        } else {
            assert(n as int % length == 0) by (nonlinear_arith)
                requires
                    k == (n - 1) as int % length,
                    length > 0,
                    k + 1 == length,
            ;
        }
    }
}

/// Fades are counted from the edges of the window, wherever in the buffer it lies: the `n`th frame of
/// a freshly triggered voice is `n` frames into its fade-in, and as far from the end of its fade-out
/// as frames are left. A fade of no length is none. The gain is the voice's own.
pub proof fn law_fades_are_counted_from_the_windows_edges(voice: SampleVoice, n: nat)
    requires
        voice.wf(),
        voice.buffer is Some,
        voice.position == voice.start_position,
        voice.start_position + n < voice.end_position,
    ensures
        voice.after(n).upcoming() matches Some(frame) && {
            let length = voice.end_position - voice.start_position;
            &&& frame.sample == (voice.buffer->0).mono@[voice.start_position + n]
            &&& frame.gain == voice.gain
            &&& voice.fade_in_frames > 0 ==> frame.fade_in == Some(
                Ramp { position: n as usize, length: voice.fade_in_frames },
            )
            &&& voice.fade_in_frames == 0 ==> frame.fade_in is None
            &&& voice.fade_out_frames > 0 ==> frame.fade_out == Some(
                Ramp { position: (length - n) as usize, length: voice.fade_out_frames },
            )
            &&& voice.fade_out_frames == 0 ==> frame.fade_out is None
        },
{
    lemma_after_in_window(voice, n);
}

/// A looping voice fades afresh every time round: its fades are counted from the edges of the window,
/// as often as it is played.
pub proof fn law_a_loop_fades_afresh_every_time_round(voice: SampleVoice, n: nat)
    requires
        voice.wf(),
        voice.buffer is Some,
        voice.looping,
        voice.position == voice.start_position,
        voice.start_position < voice.end_position,
    ensures
        voice.after(n).upcoming() matches Some(frame) && {
            let length = voice.end_position - voice.start_position;
            let place = n as int % length;
            &&& frame.sample == (voice.buffer->0).mono@[voice.start_position + place]
            &&& frame.gain == voice.gain
            &&& voice.fade_in_frames > 0 ==> frame.fade_in == Some(
                Ramp { position: place as usize, length: voice.fade_in_frames },
            )
            &&& voice.fade_in_frames == 0 ==> frame.fade_in is None
            &&& voice.fade_out_frames > 0 ==> frame.fade_out == Some(
                Ramp { position: (length - place) as usize, length: voice.fade_out_frames },
            )
            &&& voice.fade_out_frames == 0 ==> frame.fade_out is None
        },
{
    lemma_looping_position(voice, n);
    lemma_settings_are_kept(voice, n);
    let length = voice.end_position - voice.start_position;
    assert(0 <= n as int % length < length);
}

proof fn lemma_settings_are_kept(voice: SampleVoice, n: nat)
    ensures
        voice.after(n).gain == voice.gain,
        voice.after(n).fade_in_frames == voice.fade_in_frames,
        voice.after(n).fade_out_frames == voice.fade_out_frames,
    decreases n,
{
    if n > 0 {
        lemma_settings_are_kept(voice, (n - 1) as nat);
    }
}

/// A voice without a buffer is silent, and stays so frame after frame.
pub proof fn law_a_voice_without_a_buffer_is_silent(voice: SampleVoice, n: nat)
    requires
        voice.buffer is None,
    ensures
        voice.after(n).buffer is None,
        voice.after(n).upcoming() is None,
    decreases n,
{
    if n > 0 {
        law_a_voice_without_a_buffer_is_silent(voice, (n - 1) as nat);
    }
}

/// A window is clipped and never wraps: the smaller of two numbers is one of them and no larger than
/// either, and a sum too large to hold is the largest number there is.
pub proof fn law_windows_are_clipped(a: usize, b: usize)
    ensures
        smaller(a as int, b as int) <= a && smaller(a as int, b as int) <= b,
        smaller(a as int, b as int) == a || smaller(a as int, b as int) == b,
        a + b <= usize::MAX ==> capped_sum(a, b) == a + b,
        a + b > usize::MAX ==> capped_sum(a, b) == usize::MAX,
{
}

/// A window that holds no frame is silent, even where it is to loop.
pub proof fn law_an_empty_window_is_silent(voice: SampleVoice)
    requires
        voice.position == voice.start_position,
        voice.end_position <= voice.start_position,
    ensures
        voice.upcoming() is None,
        voice.stepped().upcoming() is None,
{
}

} // verus!
