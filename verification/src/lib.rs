//! The sequencing core of a digital audio workstation.

pub mod arrangement;
pub mod automation;
pub mod delay;
pub mod device;
pub mod envelope;
pub mod grid;
pub mod metronome;
pub mod mix;
pub mod model;
pub mod ordered;
pub mod patch;
pub mod playback;
pub mod sample_voice;
pub mod sequencer;
pub mod session;
pub mod slot_laws;
pub mod solo;
pub mod spans;
pub mod tempo;
pub mod timeline;
pub mod transport;
pub mod trigger;
pub mod noise;
pub mod number;
