//! The metronome's click, counted in frames.

use vstd::prelude::*;

use crate::model::{STEPS_PER_BEAT, TICKS_PER_STEP};

verus! {

/// Ticks in one beat. The metronome clicks once per beat, not once per step.
#[verifier::nonlinear]
pub const METRONOME_BEAT_TICKS: usize = STEPS_PER_BEAT * TICKS_PER_STEP;

/// How far a click has decayed. It is silent once `position` has reached `length`.
#[derive(Clone, Copy, Debug, PartialEq, Eq, Structural)]
pub struct Metronome {
    pub position: usize,
    pub length: usize,
    /// Whether this is the downbeat's higher click.
    pub accent: bool,
}

/// Whether a tick gets a click.
pub open spec fn on_the_beat(tick: int) -> bool {
    tick % METRONOME_BEAT_TICKS as int == 0
}

impl Metronome {
    /// The metronome a frame later, and the click's position at that frame if it is not silent.
    pub open spec fn a_frame_later(self) -> (Metronome, Option<usize>) {
        if self.position < self.length {
            (Metronome { position: (self.position + 1) as usize, ..self }, Some(self.position))
        } else {
            (self, None)
        }
    }

    /// A metronome that has not clicked yet.
    pub fn new() -> (metronome: Self)
        ensures
            metronome == (Metronome { position: 0, length: 0, accent: false }),
    {
        Metronome { position: 0, length: 0, accent: false }
    }

    /// Starts a fresh click of `length` frames.
    pub fn trigger_metronome_click(&mut self, accent: bool, length: usize)
        ensures
            *final(self) == (Metronome { position: 0, length, accent }),
    {
        self.position = 0;
        self.length = length;
        self.accent = accent;
    }

    /// The click's position at the next frame, or `None` where it has fully decayed. The click
    /// fades linearly from full strength at position zero to nothing at its length.
    pub fn next_metronome_click_position(&mut self) -> (position: Option<usize>)
        ensures
            (*final(self), position) == old(self).a_frame_later(),
    {
        if self.position >= self.length {
            return None;
        }
        let position: usize = self.position;
        self.position = position + 1;
        Some(position)
    }
}

impl Metronome {
    /// The metronome `n` frames later.
    pub open spec fn frames_later(self, n: nat) -> Metronome
        decreases n,
    {
        if n == 0 {
            self
        } else {
            self.frames_later((n - 1) as nat).a_frame_later().0
        }
    }
}

/// A click lasts as many frames as it is long, counted up one by one from its start, and is silent
/// from then on. It keeps its pitch.
pub proof fn law_a_click_lasts_its_length(length: usize, accent: bool, n: nat)
    ensures
        ({
            let later = (Metronome { position: 0, length, accent }).frames_later(n);
            &&& n < length ==> later.a_frame_later().1 == Some(n as usize)
            &&& n >= length ==> later.a_frame_later().1 is None
            &&& later.accent == accent
            &&& later.length == length
            &&& n <= length ==> later.position == n
            &&& n > length ==> later.position == length
        }),
    decreases n,
{
    if n > 0 {
        law_a_click_lasts_its_length(length, accent, (n - 1) as nat);
    }
}

/// A click falls on every beat, and on no tick in between: beats are four steps apart.
pub proof fn law_clicks_are_a_beat_apart(beat: nat, offset: nat)
    requires
        offset < STEPS_PER_BEAT * TICKS_PER_STEP,
    ensures
        on_the_beat((beat * (STEPS_PER_BEAT * TICKS_PER_STEP) + offset) as int) <==> offset == 0,
{
    let length = (STEPS_PER_BEAT * TICKS_PER_STEP) as int;
    vstd::arithmetic::div_mod::lemma_mod_multiples_vanish(beat as int, offset as int, length);
    vstd::arithmetic::mul::lemma_mul_is_commutative(beat as int, length);
    vstd::arithmetic::div_mod::lemma_small_mod(offset, length as nat);
}

} // verus!
