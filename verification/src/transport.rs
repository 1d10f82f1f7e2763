//! Playback control: what the user interface asks of the engine, and the tick it has reached.

use vstd::prelude::*;

verus! {

/// The transport's settings, as one owner holds them. It is not cloned: a setting made on one copy
/// would be lost on another. A host that controls playback from another thread shares the settings
/// themselves, and reads them into one of these for each buffer.
#[derive(Debug, PartialEq, Eq, Structural)]
pub struct Transport {
    playing: bool,
    current_tick: usize,
    metronome_enabled: bool,
    session_mode: bool,
    session_quantize_ticks: usize,
    capturing: bool,
}

/// The transport's settings as the contracts speak of them.
pub struct TransportView {
    pub playing: bool,
    pub current_tick: usize,
    pub metronome_enabled: bool,
    /// Whether the session grid plays instead of the arrangement: a mode switch, never both.
    pub session_mode: bool,
    /// How many ticks a slot launch or stop snaps forward to; zero launches at once.
    pub session_quantize_ticks: usize,
    /// Whether slot launches and stops are being logged.
    pub capturing: bool,
}

/// One setting that a user makes.
pub enum TransportSetting {
    Playing(bool),
    MetronomeEnabled(bool),
    SessionMode(bool),
    SessionQuantizeTicks(usize),
    Capturing(bool),
}

impl TransportSetting {
    /// Whether two settings are of the same thing.
    pub open spec fn same_kind(self, other: TransportSetting) -> bool {
        match self {
            TransportSetting::Playing(_) => other is Playing,
            TransportSetting::MetronomeEnabled(_) => other is MetronomeEnabled,
            TransportSetting::SessionMode(_) => other is SessionMode,
            TransportSetting::SessionQuantizeTicks(_) => other is SessionQuantizeTicks,
            TransportSetting::Capturing(_) => other is Capturing,
        }
    }
}

impl TransportView {
    /// The transport after one setting: that one is as it was asked for, the rest is as it was.
    pub open spec fn set(self, setting: TransportSetting) -> TransportView {
        match setting {
            TransportSetting::Playing(playing) => TransportView { playing, ..self },
            TransportSetting::MetronomeEnabled(enabled) => TransportView {
                metronome_enabled: enabled,
                ..self
            },
            TransportSetting::SessionMode(session_mode) => TransportView { session_mode, ..self },
            TransportSetting::SessionQuantizeTicks(ticks) => TransportView {
                session_quantize_ticks: ticks,
                ..self
            },
            TransportSetting::Capturing(capturing) => TransportView { capturing, ..self },
        }
    }

    /// Whether the transport reads as a setting asked for.
    pub open spec fn reads(self, setting: TransportSetting) -> bool {
        match setting {
            TransportSetting::Playing(playing) => self.playing == playing,
            TransportSetting::MetronomeEnabled(enabled) => self.metronome_enabled == enabled,
            TransportSetting::SessionMode(session_mode) => self.session_mode == session_mode,
            TransportSetting::SessionQuantizeTicks(ticks) => self.session_quantize_ticks == ticks,
            TransportSetting::Capturing(capturing) => self.capturing == capturing,
        }
    }

    /// The transport after settings made one after another.
    pub open spec fn after(self, settings: Seq<TransportSetting>) -> TransportView
        decreases settings.len(),
    {
        if settings.len() == 0 {
            self
        } else {
            self.after(settings.drop_last()).set(settings.last())
        }
    }
}

impl View for Transport {
    type V = TransportView;

    closed spec fn view(&self) -> TransportView {
        TransportView {
            playing: self.playing,
            current_tick: self.current_tick,
            metronome_enabled: self.metronome_enabled,
            session_mode: self.session_mode,
            session_quantize_ticks: self.session_quantize_ticks,
            capturing: self.capturing,
        }
    }
}

impl Transport {
    /// A stopped, metronome-off, arrangement-mode transport at tick 0.
    pub fn new() -> (transport: Self)
        ensures
            transport@ == (TransportView {
                playing: false,
                current_tick: 0,
                metronome_enabled: false,
                session_mode: false,
                session_quantize_ticks: 0,
                capturing: false,
            }),
    {
        Transport {
            playing: false,
            current_tick: 0,
            metronome_enabled: false,
            session_mode: false,
            session_quantize_ticks: 0,
            capturing: false,
        }
    }

    /// Whether the session grid plays instead of the arrangement.
    pub fn is_session_mode(&self) -> (r: bool)
        ensures
            r == self@.session_mode,
    {
        self.session_mode
    }

    /// Switches between the session grid and the arrangement.
    pub fn set_session_mode(&mut self, session_mode: bool)
        ensures
            final(self)@ == old(self)@.set(TransportSetting::SessionMode(session_mode)),
    {
        self.session_mode = session_mode;
    }

    /// How many ticks a slot launch or stop snaps forward to; zero launches at once.
    pub fn session_quantize_ticks(&self) -> (r: usize)
        ensures
            r == self@.session_quantize_ticks,
    {
        self.session_quantize_ticks
    }

    /// Sets how many ticks a slot launch or stop snaps forward to.
    pub fn set_session_quantize_ticks(&mut self, ticks: usize)
        ensures
            final(self)@ == old(self)@.set(TransportSetting::SessionQuantizeTicks(ticks)),
    {
        self.session_quantize_ticks = ticks;
    }

    /// Whether the sequencer is running.
    pub fn is_playing(&self) -> (r: bool)
        ensures
            r == self@.playing,
    {
        self.playing
    }

    /// Starts or stops the sequencer.
    pub fn set_playing(&mut self, playing: bool)
        ensures
            final(self)@ == old(self)@.set(TransportSetting::Playing(playing)),
    {
        self.playing = playing;
    }

    /// Whether the metronome click is enabled.
    pub fn is_metronome_enabled(&self) -> (r: bool)
        ensures
            r == self@.metronome_enabled,
    {
        self.metronome_enabled
    }

    /// Enables or disables the metronome click.
    pub fn set_metronome_enabled(&mut self, enabled: bool)
        ensures
            final(self)@ == old(self)@.set(TransportSetting::MetronomeEnabled(enabled)),
    {
        self.metronome_enabled = enabled;
    }

    /// The most recently triggered tick, for a playhead.
    pub fn current_tick(&self) -> (r: usize)
        ensures
            r == self@.current_tick,
    {
        self.current_tick
    }

    /// Publishes the most recently triggered tick. Only the engine moves the playhead.
    pub(crate) fn set_current_tick(&mut self, tick: usize)
        ensures
            final(self)@ == (TransportView { current_tick: tick, ..old(self)@ }),
    {
        self.current_tick = tick;
    }

    /// Whether slot launches and stops are being logged.
    pub fn is_capturing(&self) -> (r: bool)
        ensures
            r == self@.capturing,
    {
        self.capturing
    }

    /// Starts or stops logging slot launches and stops.
    pub fn set_capturing(&mut self, capturing: bool)
        ensures
            final(self)@ == old(self)@.set(TransportSetting::Capturing(capturing)),
    {
        self.capturing = capturing;
    }
}

/// No setting moves the playhead, whatever is set and in whatever order: only the engine does.
pub proof fn law_settings_leave_the_playhead(t: TransportView, settings: Seq<TransportSetting>)
    ensures
        t.after(settings).current_tick == t.current_tick,
    decreases settings.len(),
{
    if settings.len() > 0 {
        law_settings_leave_the_playhead(t, settings.drop_last());
    }
}

/// What is not set again stays as it is, whatever else is set and in whatever order.
pub proof fn law_settings_are_kept_apart(
    t: TransportView,
    settings: Seq<TransportSetting>,
    kept: TransportSetting,
)
    requires
        t.reads(kept),
        forall|i: int| 0 <= i < settings.len() ==> !(#[trigger] settings[i]).same_kind(kept),
    ensures
        t.after(settings).reads(kept),
    decreases settings.len(),
{
    if settings.len() > 0 {
        let earlier = settings.drop_last();
        assert forall|i: int| 0 <= i < earlier.len() implies !(#[trigger] earlier[i]).same_kind(
            kept,
        ) by {
            assert(earlier[i] == settings[i]);
        }
        law_settings_are_kept_apart(t, earlier, kept);
        assert(!settings[settings.len() - 1].same_kind(kept));
    }
}

/// What was set last is what is read, just as it was given, whatever else is set before or after it.
pub proof fn law_the_last_setting_is_read(
    t: TransportView,
    settings: Seq<TransportSetting>,
    k: int,
)
    requires
        0 <= k < settings.len(),
        forall|i: int|
            k < i < settings.len() ==> !(#[trigger] settings[i]).same_kind(settings[k]),
    ensures
        t.after(settings).reads(settings[k]),
    decreases settings.len(),
{
    let earlier = settings.drop_last();
    if k < earlier.len() {
        assert forall|i: int| k < i < earlier.len() implies !(#[trigger] earlier[i]).same_kind(
            earlier[k],
        ) by {
            assert(earlier[i] == settings[i]);
        }
        law_the_last_setting_is_read(t, earlier, k);
        assert(!settings[settings.len() - 1].same_kind(settings[k]));
    }
}

} // verus!
