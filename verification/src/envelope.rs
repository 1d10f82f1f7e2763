//! The stages of an envelope and of a voice's life, counted in samples.
//!
//! There is no note-off event: a voice knows its whole gate time up front, and goes to release by
//! itself once that has passed. The host computes levels and reports which marks they have
//! reached; everything else about the life of a voice is decided here.

use vstd::prelude::*;

verus! {

#[derive(Clone, Copy, Debug, PartialEq, Eq, Structural)]
pub enum EnvelopeStage {
    Attack,
    Decay,
    Sustain,
    Release,
}

/// An envelope's stage, and how far it is into its gate time.
#[derive(Clone, Copy, Debug, PartialEq, Eq, Structural)]
pub struct EnvelopeClock {
    pub stage: EnvelopeStage,
    pub elapsed_samples: u64,
    pub gate_samples: u64,
}

/// What an envelope's step asks of its level.
#[derive(Clone, Copy, Debug, PartialEq, Eq, Structural)]
pub struct EnvelopeStep {
    /// The level is to be set exactly on the mark it has reached: the peak at the end of attack,
    /// the sustain level at the end of decay.
    pub snap: bool,
    /// Release begins: from the next sample on the level falls at the release rate.
    pub release_begins: bool,
}

/// The stage that follows once the level has reached its mark (or not yet).
pub open spec fn stage_after_mark(stage: EnvelopeStage, reached: bool) -> EnvelopeStage {
    match stage {
        EnvelopeStage::Attack => if reached {
            EnvelopeStage::Decay
        } else {
            EnvelopeStage::Attack
        },
        EnvelopeStage::Decay => if reached {
            EnvelopeStage::Sustain
        } else {
            EnvelopeStage::Decay
        },
        EnvelopeStage::Sustain => EnvelopeStage::Sustain,
        EnvelopeStage::Release => EnvelopeStage::Release,
    }
}

/// Whether a stage moves towards a mark.
pub open spec fn has_mark(stage: EnvelopeStage) -> bool {
    stage is Attack || stage is Decay
}

/// How far along its life an envelope in a stage is.
pub open spec fn stage_rank(stage: EnvelopeStage) -> int {
    match stage {
        EnvelopeStage::Attack => 0,
        EnvelopeStage::Decay => 1,
        EnvelopeStage::Sustain => 2,
        EnvelopeStage::Release => 3,
    }
}

impl EnvelopeClock {
    /// The clock after one sample, given whether its level has reached the stage's mark.
    pub open spec fn stepped(self, reached: bool) -> Self {
        let marked = stage_after_mark(self.stage, reached);
        let elapsed = (self.elapsed_samples + 1) as u64;
        EnvelopeClock {
            stage: if elapsed >= self.gate_samples {
                EnvelopeStage::Release
            } else {
                marked
            },
            elapsed_samples: elapsed,
            ..self
        }
    }

    /// A clock that has not been triggered yet.
    pub fn new() -> (clock: Self)
        ensures
            clock == (EnvelopeClock {
                stage: EnvelopeStage::Attack,
                elapsed_samples: 0,
                gate_samples: 0,
            }),
    {
        EnvelopeClock { stage: EnvelopeStage::Attack, elapsed_samples: 0, gate_samples: 0 }
    }

    /// Starts over. An attack shorter than a sample is skipped.
    pub fn trigger(&mut self, instant_attack: bool, gate_samples: u64)
        ensures
            *final(self) == (EnvelopeClock {
                stage: if instant_attack {
                    EnvelopeStage::Decay
                } else {
                    EnvelopeStage::Attack
                },
                elapsed_samples: 0,
                gate_samples,
            }),
    {
        self.stage = if instant_attack {
            EnvelopeStage::Decay
        } else {
            EnvelopeStage::Attack
        };
        self.elapsed_samples = 0;
        self.gate_samples = gate_samples;
    }

    /// Advances by one sample. `reached` says whether the level, moved on by the current stage's
    /// rate, has come to the stage's mark; it is not looked at in stages that have none.
    pub fn advance(&mut self, reached: bool) -> (step: EnvelopeStep)
        requires
            old(self).elapsed_samples < u64::MAX,
        ensures
            *final(self) == old(self).stepped(reached),
            step.snap == (reached && has_mark(old(self).stage)),
            step.release_begins == (old(self).stage != EnvelopeStage::Release && final(self).stage
                == EnvelopeStage::Release),
    {
        let was = self.stage;
        let mut snap: bool = false;
        match self.stage {
            EnvelopeStage::Attack => {
                if reached {
                    snap = true;
                    self.stage = EnvelopeStage::Decay;
                }
            },
            EnvelopeStage::Decay => {
                if reached {
                    snap = true;
                    self.stage = EnvelopeStage::Sustain;
                }
            },
            EnvelopeStage::Sustain => {},
            EnvelopeStage::Release => {},
        }
        self.elapsed_samples = self.elapsed_samples + 1;
        let mut release_begins: bool = false;
        if self.stage != EnvelopeStage::Release && self.elapsed_samples >= self.gate_samples {
            self.stage = EnvelopeStage::Release;
            release_begins = true;
        }
        EnvelopeStep { snap, release_begins }
    }

    /// Whether a voice that lives by this envelope is over: in release, and too quiet to hear.
    pub fn is_over(&self, below_floor: bool) -> (over: bool)
        ensures
            over == (self.stage == EnvelopeStage::Release && below_floor),
    {
        self.stage == EnvelopeStage::Release && below_floor
    }
}

/// The life of a plain synth voice, which its amplitude envelope ends.
#[derive(Clone, Copy, Debug, PartialEq, Eq, Structural)]
pub struct VoiceClock {
    pub active: bool,
    pub envelope: EnvelopeClock,
}

/// What the host reports of a voice's amplitude once it has moved on by a sample.
#[derive(Clone, Copy, Debug, PartialEq, Eq, Structural)]
pub struct AmplitudeMarks {
    /// It has come to the stage's mark.
    pub reached: bool,
    /// The level it sustains at is too quiet to hear.
    pub sustain_below_floor: bool,
    /// It is itself too quiet to hear, after any snap to its mark.
    pub below_floor: bool,
}

impl VoiceClock {
    /// Whether the voice settles at an inaudible sustain level: it is done, and frees itself early.
    pub open spec fn settles_silent(self, marks: AmplitudeMarks) -> bool {
        self.envelope.stage == EnvelopeStage::Decay && marks.reached && marks.sustain_below_floor
    }

    /// The voice's envelope after one sample. One that has settled silent stays where it is.
    pub open spec fn envelope_stepped(self, marks: AmplitudeMarks) -> EnvelopeClock {
        if self.settles_silent(marks) {
            EnvelopeClock {
                elapsed_samples: (self.envelope.elapsed_samples + 1) as u64,
                ..self.envelope
            }
        } else {
            self.envelope.stepped(marks.reached)
        }
    }

    /// A voice that is not sounding.
    pub fn new() -> (clock: Self)
        ensures
            clock == (VoiceClock {
                active: false,
                envelope: EnvelopeClock {
                    stage: EnvelopeStage::Attack,
                    elapsed_samples: 0,
                    gate_samples: 0,
                },
            }),
    {
        VoiceClock { active: false, envelope: EnvelopeClock::new() }
    }

    /// Starts the voice over.
    pub fn trigger(&mut self, instant_attack: bool, gate_samples: u64)
        ensures
            final(self).active,
            final(self).envelope == (EnvelopeClock {
                stage: if instant_attack {
                    EnvelopeStage::Decay
                } else {
                    EnvelopeStage::Attack
                },
                elapsed_samples: 0,
                gate_samples,
            }),
    {
        self.active = true;
        self.envelope.trigger(instant_attack, gate_samples);
    }

    /// Advances a sounding voice by one sample.
    pub fn advance(&mut self, marks: AmplitudeMarks) -> (step: EnvelopeStep)
        requires
            old(self).active,
            old(self).envelope.elapsed_samples < u64::MAX,
        ensures
            final(self).envelope == old(self).envelope_stepped(marks),
            final(self).active == !(old(self).settles_silent(marks) || (
            final(self).envelope.stage == EnvelopeStage::Release && marks.below_floor)),
            step.snap == (marks.reached && has_mark(old(self).envelope.stage)),
            step.release_begins == (old(self).envelope.stage != EnvelopeStage::Release
                && final(self).envelope.stage == EnvelopeStage::Release),
    {
        if self.envelope.stage == EnvelopeStage::Decay && marks.reached
            && marks.sustain_below_floor {
            self.active = false;
            self.envelope.elapsed_samples = self.envelope.elapsed_samples + 1;
            return EnvelopeStep { snap: true, release_begins: false };
        }
        let step = self.envelope.advance(marks.reached);
        if self.envelope.is_over(marks.below_floor) {
            self.active = false;
        }
        step
    }
}

/// A portamento on its way: how many samples are left of it.
#[derive(Clone, Copy, Debug, PartialEq, Eq, Structural)]
pub struct Glide {
    pub remaining: u32,
}

/// What a glide does to the pitch at a sample.
#[derive(Clone, Copy, Debug, PartialEq, Eq, Structural)]
pub enum GlideStep {
    /// It is over, or there was none: the pitch stays.
    Still,
    /// The pitch moves by one step.
    Moving,
    /// The pitch is set exactly on its target.
    Arrived,
}

impl Glide {
    /// Advances by one sample. The last step lands exactly on the target pitch.
    pub fn advance(&mut self) -> (step: GlideStep)
        ensures
            old(self).remaining == 0 ==> step == GlideStep::Still && final(self).remaining == 0,
            old(self).remaining > 0 ==> final(self).remaining == old(self).remaining - 1,
            old(self).remaining == 1 ==> step == GlideStep::Arrived,
            old(self).remaining > 1 ==> step == GlideStep::Moving,
    {
        if self.remaining == 0 {
            return GlideStep::Still;
        }
        self.remaining = self.remaining - 1;
        if self.remaining == 0 {
            GlideStep::Arrived
        } else {
            GlideStep::Moving
        }
    }
}

/// Oscillator copies that can be stacked in one voice.
pub const MAX_UNISON_VOICES: usize = 3;

/// How many oscillator copies a voice stacks: at least one, and no more than there is room for.
pub fn unison_count(unison_voices: u8) -> (count: usize)
    ensures
        1 <= count <= MAX_UNISON_VOICES,
        count == if unison_voices < 1 {
            1
        } else if unison_voices > MAX_UNISON_VOICES {
            MAX_UNISON_VOICES as int
        } else {
            unison_voices as int
        },
{
    if unison_voices < 1 {
        1
    } else if unison_voices as usize > MAX_UNISON_VOICES {
        MAX_UNISON_VOICES
    } else {
        unison_voices as usize
    }
}

/// Where a stacked copy sits: tuned down and hard left, centered, or tuned up and hard right.
#[derive(Clone, Copy, Debug, PartialEq, Eq, Structural)]
pub enum UnisonPlace {
    DownLeft,
    Center,
    UpRight,
}

/// Where copy `index` of `count` sits: the first and the last at the edges, anything between them
/// and a copy on its own in the center.
pub open spec fn unison_place(count: usize, index: usize) -> UnisonPlace {
    if count <= 1 {
        UnisonPlace::Center
    } else if index == 0 {
        UnisonPlace::DownLeft
    } else if index == count - 1 {
        UnisonPlace::UpRight
    } else {
        UnisonPlace::Center
    }
}

/// Where copy `index` of `count` sits.
pub fn unison_place_of(count: usize, index: usize) -> (place: UnisonPlace)
    requires
        1 <= count <= MAX_UNISON_VOICES,
        index < count,
    ensures
        place == unison_place(count, index),
{
    if count <= 1 {
        UnisonPlace::Center
    } else if index == 0 {
        UnisonPlace::DownLeft
    } else if index == count - 1 {
        UnisonPlace::UpRight
    } else {
        UnisonPlace::Center
    }
}

/// An envelope never goes back: attack, decay, sustain and release follow in this order, and
/// release lasts until the next trigger.
pub proof fn law_stages_only_move_forward(clock: EnvelopeClock, reached: bool)
    requires
        clock.elapsed_samples < u64::MAX,
    ensures
        stage_rank(clock.stage) <= stage_rank(clock.stepped(reached).stage),
        clock.stage == EnvelopeStage::Release ==> clock.stepped(reached).stage
            == EnvelopeStage::Release,
{
}

/// Whatever stage it was in, an envelope is in release once its gate time has passed.
pub proof fn law_release_begins_when_the_gate_closes(clock: EnvelopeClock, reached: bool)
    requires
        clock.elapsed_samples < u64::MAX,
    ensures
        clock.elapsed_samples + 1 >= clock.gate_samples ==> clock.stepped(reached).stage
            == EnvelopeStage::Release,
        clock.elapsed_samples + 1 < clock.gate_samples && clock.stage != EnvelopeStage::Release
            ==> clock.stepped(reached).stage != EnvelopeStage::Release,
{
}

/// While its gate is open an envelope follows its marks: attack goes to decay and decay to sustain
/// when the level has reached its mark, and not before; sustain lasts. Each sample counts, and the
/// gate stays as long as it was.
pub proof fn law_stages_follow_their_marks(clock: EnvelopeClock, reached: bool)
    requires
        clock.elapsed_samples < u64::MAX,
    ensures
        clock.stepped(reached).elapsed_samples == clock.elapsed_samples + 1,
        clock.stepped(reached).gate_samples == clock.gate_samples,
        clock.elapsed_samples + 1 < clock.gate_samples ==> {
            &&& clock.stage == EnvelopeStage::Attack && !reached ==> clock.stepped(reached).stage
                == EnvelopeStage::Attack
            &&& clock.stage == EnvelopeStage::Attack && reached ==> clock.stepped(reached).stage
                == EnvelopeStage::Decay
            &&& clock.stage == EnvelopeStage::Decay && !reached ==> clock.stepped(reached).stage
                == EnvelopeStage::Decay
            &&& clock.stage == EnvelopeStage::Decay && reached ==> clock.stepped(reached).stage
                == EnvelopeStage::Sustain
            &&& clock.stage == EnvelopeStage::Sustain ==> clock.stepped(reached).stage
                == EnvelopeStage::Sustain
        },
{
}

/// Only attack and decay move towards a level they can reach.
pub proof fn law_only_attack_and_decay_have_marks()
    ensures
        has_mark(EnvelopeStage::Attack),
        has_mark(EnvelopeStage::Decay),
        !has_mark(EnvelopeStage::Sustain),
        !has_mark(EnvelopeStage::Release),
{
}

/// A voice frees itself early exactly when it has decayed to a sustain level that cannot be heard;
/// in any other case its envelope goes on as an envelope does.
pub proof fn law_a_voice_that_settles_silent_is_done(voice: VoiceClock, marks: AmplitudeMarks)
    requires
        voice.envelope.elapsed_samples < u64::MAX,
    ensures
        voice.settles_silent(marks) ==> voice.envelope.stage == EnvelopeStage::Decay
            && marks.reached && marks.sustain_below_floor,
        voice.envelope.stage == EnvelopeStage::Decay && marks.reached && marks.sustain_below_floor
            ==> voice.settles_silent(marks) && voice.envelope_stepped(marks).stage
            == EnvelopeStage::Decay,
        !marks.reached || !marks.sustain_below_floor || voice.envelope.stage != EnvelopeStage::Decay
            ==> voice.envelope_stepped(marks) == voice.envelope.stepped(marks.reached),
        voice.envelope_stepped(marks).elapsed_samples == voice.envelope.elapsed_samples + 1,
        voice.envelope_stepped(marks).gate_samples == voice.envelope.gate_samples,
{
}

/// Stacked copies lie symmetrically: the first hard left and the last hard right, with everything
/// between them, and a copy on its own, in the center.
pub proof fn law_unison_copies_lie_symmetrically(count: usize, index: usize)
    requires
        index < count,
    ensures
        count == 1 ==> unison_place(count, index) == UnisonPlace::Center,
        count > 1 && index == 0 ==> unison_place(count, index) == UnisonPlace::DownLeft,
        count > 1 && index == count - 1 ==> unison_place(count, index) == UnisonPlace::UpRight,
        0 < index < count - 1 ==> unison_place(count, index) == UnisonPlace::Center,
        unison_place(count, index) == UnisonPlace::DownLeft <==> unison_place(
            count,
            (count - 1 - index) as usize,
        ) == UnisonPlace::UpRight,
{
}

} // verus!
