# daw_audio

The audio engine of a small digital audio workstation, with its decisions verified by Verus.

`src/` decides what happens and when. A sequencer counts ticks, and for each one says which voice
plays what: notes and steps of the arrangement, audio clips, comped takes and frozen tracks, or the
clips of a session grid with launch quantize, legato, follow actions and capture. Around it stand
tempo maps, solo and mute, automation, the mix plan, delay compensation, sample playback, envelope
stages and the choice of an output device. Numbers that only sound (gains, tempos, levels) are
carried by their bit patterns and never computed with.

| module | what it decides |
| --- | --- |
| `sequencer`, `arrangement`, `trigger` | what a tick sets off, and on which voice |
| `session`, `grid` | the states of the session's slots, and what is captured of them |
| `timeline`, `tempo`, `metronome` | where things lie in ticks, and at which tempo |
| `automation`, `mix`, `solo` | what rides which fader, and which bus a track feeds |
| `delay`, `sample_voice`, `spans` | delay lines, recorded audio and how buffers are cut |
| `envelope`, `noise`, `patch` | stages of a voice, seeds, and the patches of the synths |
| `device`, `playback`, `transport` | devices, the audio callback, and playback control |

How a slot reacts to a click is for the host to say, through the trait `SlotRules`. The contracts
hold whatever it answers.

`app/` is the host: it computes the samples, runs the sound card and writes WAV files.

`tests/` plays songs through the library and checks its parts one by one.
