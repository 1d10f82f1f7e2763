//! Which automation lanes ride what during a buffer.
//!
//! Lanes are collected by what they ride, not by where they are stored: a lane on one track may
//! ride another track's fader, a send bus or the master bus. Each collected lane carries the tick
//! of its own timeline at the buffer's first frame, so that the host can evaluate it per frame.

use std::sync::Arc;

use vstd::prelude::*;

use crate::model::{
    AutomationLane, AutomationTarget, EffectParamKey, Region, SessionClip, Song, Track,
};
use crate::session::SlotState;
use crate::timeline::{active_region_at, first_active};

verus! {

/// A lane, with the tick of its own timeline at the buffer's first frame.
#[derive(Clone, Copy)]
pub struct LaneRef<'a> {
    pub base_offset: usize,
    pub lane: &'a AutomationLane,
}

/// A lane that rides a send level.
#[derive(Clone, Copy)]
pub struct SendLane<'a> {
    pub send_index: usize,
    pub lane: LaneRef<'a>,
}

/// A lane that rides a parameter of an effect in a chain.
#[derive(Clone, Copy)]
pub struct ParamLane<'a> {
    pub slot_index: usize,
    pub key: &'a EffectParamKey,
    pub lane: LaneRef<'a>,
}

/// The lanes that ride one track during a buffer, wherever they are stored.
pub struct TrackAutomationOverride<'a> {
    pub volume: Option<LaneRef<'a>>,
    pub pan: Option<LaneRef<'a>>,
    pub send_levels: Vec<SendLane<'a>>,
    pub effect_params: Vec<ParamLane<'a>>,
}

/// The lanes that ride the master bus's effect chain during a buffer.
pub struct MasterAutomationOverride<'a> {
    pub effect_params: Vec<ParamLane<'a>>,
}

/// The lanes that ride one send bus's effect chain during a buffer.
pub struct SendAutomationOverride<'a> {
    pub effect_params: Vec<ParamLane<'a>>,
}

/// Everything that is automated during a buffer.
pub struct AutomationOverrides<'a> {
    pub tracks: Vec<TrackAutomationOverride<'a>>,
    pub master: MasterAutomationOverride<'a>,
    pub sends: Vec<SendAutomationOverride<'a>>,
}

/// The lanes that ride one track, as the contracts speak of them.
#[verifier::ext_equal]
pub struct TrackLanes<'a> {
    pub volume: Option<LaneRef<'a>>,
    pub pan: Option<LaneRef<'a>>,
    pub send_levels: Seq<SendLane<'a>>,
    pub effect_params: Seq<ParamLane<'a>>,
}

/// Everything that is automated, as the contracts speak of it.
#[verifier::ext_equal]
pub struct Lanes<'a> {
    pub tracks: Seq<TrackLanes<'a>>,
    pub master: Seq<ParamLane<'a>>,
    pub sends: Seq<Seq<ParamLane<'a>>>,
}

impl<'a> View for TrackAutomationOverride<'a> {
    type V = TrackLanes<'a>;

    open spec fn view(&self) -> TrackLanes<'a> {
        TrackLanes {
            volume: self.volume,
            pan: self.pan,
            send_levels: self.send_levels@,
            effect_params: self.effect_params@,
        }
    }
}

impl<'a> View for AutomationOverrides<'a> {
    type V = Lanes<'a>;

    open spec fn view(&self) -> Lanes<'a> {
        Lanes {
            tracks: Seq::new(self.tracks@.len(), |t: int| self.tracks@[t]@),
            master: self.master.effect_params@,
            sends: Seq::new(self.sends@.len(), |s: int| self.sends@[s].effect_params@),
        }
    }
}

impl<'a> TrackLanes<'a> {
    /// A track that nothing rides.
    pub open spec fn none() -> Self {
        TrackLanes {
            volume: None,
            pan: None,
            send_levels: Seq::empty(),
            effect_params: Seq::empty(),
        }
    }

    pub open spec fn with_volume(self, lane: LaneRef<'a>) -> Self {
        TrackLanes { volume: Some(lane), ..self }
    }

    pub open spec fn with_pan(self, lane: LaneRef<'a>) -> Self {
        TrackLanes { pan: Some(lane), ..self }
    }

    pub open spec fn with_send(self, send_index: usize, lane: LaneRef<'a>) -> Self {
        TrackLanes { send_levels: self.send_levels.push(SendLane { send_index, lane }), ..self }
    }

    pub open spec fn with_param(
        self,
        slot_index: usize,
        key: &'a EffectParamKey,
        lane: LaneRef<'a>,
    ) -> Self {
        TrackLanes {
            effect_params: self.effect_params.push(ParamLane { slot_index, key, lane }),
            ..self
        }
    }
}

impl<'a> Lanes<'a> {
    /// Nothing automated yet.
    pub open spec fn none(track_count: nat, send_count: nat) -> Self {
        Lanes {
            tracks: Seq::new(track_count, |t: int| TrackLanes::none()),
            master: Seq::empty(),
            sends: Seq::new(send_count, |s: int| Seq::empty()),
        }
    }

    /// After putting `lanes` in a track's place; a track that does not exist is passed over.
    pub open spec fn on_track(self, t: usize, lanes: TrackLanes<'a>) -> Self {
        if t < self.tracks.len() {
            Lanes { tracks: self.tracks.update(t as int, lanes), ..self }
        } else {
            self
        }
    }

    /// After adding one lane, stored on track `own`, to what it rides. A lane without points rides
    /// nothing, and neither does one whose target does not exist. A later lane takes the place of
    /// an earlier one on the same fader.
    pub open spec fn with_lane(self, lane: &'a AutomationLane, base_offset: usize, own: usize)
        -> Self {
        let lane_ref = LaneRef { base_offset, lane };
        if lane.points@.len() == 0 {
            self
        } else {
            match &lane.target {
                AutomationTarget::Volume => self.on_track(
                    own,
                    self.tracks[own as int].with_volume(lane_ref),
                ),
                AutomationTarget::Pan => self.on_track(
                    own,
                    self.tracks[own as int].with_pan(lane_ref),
                ),
                AutomationTarget::SendLevel { send_index } => self.on_track(
                    own,
                    self.tracks[own as int].with_send(*send_index, lane_ref),
                ),
                AutomationTarget::EffectParam { slot_index, key } => self.on_track(
                    own,
                    self.tracks[own as int].with_param(*slot_index, key, lane_ref),
                ),
                AutomationTarget::OtherTrackVolume { track_index } => self.on_track(
                    *track_index,
                    self.tracks[*track_index as int].with_volume(lane_ref),
                ),
                AutomationTarget::OtherTrackPan { track_index } => self.on_track(
                    *track_index,
                    self.tracks[*track_index as int].with_pan(lane_ref),
                ),
                AutomationTarget::OtherTrackSendLevel { track_index, send_index } => self.on_track(
                    *track_index,
                    self.tracks[*track_index as int].with_send(*send_index, lane_ref),
                ),
                AutomationTarget::OtherTrackEffectParam { track_index, slot_index, key } =>
                self.on_track(
                    *track_index,
                    self.tracks[*track_index as int].with_param(*slot_index, key, lane_ref),
                ),
                AutomationTarget::SendEffectParam { send_index, slot_index, key } => if *send_index
                    < self.sends.len() {
                    Lanes {
                        sends: self.sends.update(
                            *send_index as int,
                            self.sends[*send_index as int].push(
                                ParamLane { slot_index: *slot_index, key, lane: lane_ref },
                            ),
                        ),
                        ..self
                    }
                } else {
                    self
                },
                AutomationTarget::MasterEffectParam { slot_index, key } => Lanes {
                    master: self.master.push(
                        ParamLane { slot_index: *slot_index, key, lane: lane_ref },
                    ),
                    ..self
                },
            }
        }
    }

    /// After adding the first `n` of a list of lanes, all stored on track `own`.
    pub open spec fn with_lanes(
        self,
        lanes: Seq<AutomationLane>,
        base_offset: usize,
        own: usize,
        n: nat,
    ) -> Self
        decreases n,
    {
        if n == 0 {
            self
        } else {
            self.with_lanes(lanes, base_offset, own, (n - 1) as nat).with_lane(
                &lanes[n - 1],
                base_offset,
                own,
            )
        }
    }

    /// After adding what one track holds at `tick`: its track-wide lanes, and then those of its
    /// active clip, which therefore win on the same fader. In session mode the active clip is the
    /// sounding slot's; otherwise it is the first active region.
    pub open spec fn with_track(
        self,
        track: &'a Track,
        t: usize,
        tick: usize,
        session_mode: bool,
        session_slots: Seq<Vec<SlotState>>,
    ) -> Self {
        let track_wide = self.with_lanes(track.automation@, tick, t, track.automation@.len());
        if session_mode {
            match sounding_clip(*track, t, session_slots) {
                Some((clip, local_tick)) => track_wide.with_lanes(
                    clip.automation@,
                    local_tick,
                    t,
                    clip.automation@.len(),
                ),
                None => track_wide,
            }
        } else {
            let i = first_active(track.regions@, tick as int, 0);
            if i < track.regions@.len() {
                let region = track.regions@[i as int];
                track_wide.with_lanes(
                    region.automation@,
                    (tick - region.start_tick) as usize,
                    t,
                    region.automation@.len(),
                )
            } else {
                track_wide
            }
        }
    }

    /// After adding what the first `n` tracks hold.
    pub open spec fn with_tracks(
        self,
        song: &'a Song,
        tick: usize,
        session_mode: bool,
        session_slots: Seq<Vec<SlotState>>,
        n: nat,
    ) -> Self
        decreases n,
    {
        if n == 0 {
            self
        } else {
            self.with_tracks(song, tick, session_mode, session_slots, (n - 1) as nat).with_track(
                &song.tracks@[n - 1],
                (n - 1) as usize,
                tick,
                session_mode,
                session_slots,
            )
        }
    }
}

/// Of the first `n` lanes, the last that rides the level of a send. Lanes are collected in such an
/// order that the active clip's comes after the track-wide one, and so wins.
pub open spec fn lane_on_send<'a>(lanes: Seq<SendLane<'a>>, send_index: usize, n: nat) -> Option<
    LaneRef<'a>,
>
    decreases n,
{
    if n == 0 {
        None
    } else if lanes[n - 1].send_index == send_index {
        Some(lanes[n - 1].lane)
    } else {
        lane_on_send(lanes, send_index, (n - 1) as nat)
    }
}

/// The first slot at or after `from` that is sounding and holds a clip, or the number of slots if
/// there is none.
pub open spec fn first_sounding(track: Track, states: Seq<SlotState>, from: nat) -> nat
    decreases states.len() - from,
{
    if from >= states.len() {
        states.len()
    } else if states[from as int].sounding() && from < track.session_clips@.len()
        && track.session_clips@[from as int] is Some {
        from
    } else {
        first_sounding(track, states, from + 1)
    }
}

/// The clip that sounds on a track in session mode, and how far into it the slot is.
pub open spec fn sounding_clip(track: Track, t: usize, session_slots: Seq<Vec<SlotState>>) -> Option<
    (Arc<SessionClip>, usize),
> {
    if t < session_slots.len() {
        let states = session_slots[t as int]@;
        let i = first_sounding(track, states, 0);
        if i < states.len() {
            Some((track.session_clips@[i as int]->0, states[i as int].position()->0))
        } else {
            None
        }
    } else {
        None
    }
}

/// The one slot (if any) on a track that is sounding: its clip and how far into it the slot is.
pub fn active_session_clip_at<'a>(
    track: &'a Track,
    track_index: usize,
    session_slots: &Vec<Vec<SlotState>>,
) -> (active: Option<(&'a Arc<SessionClip>, usize)>)
    ensures
        active == (match sounding_clip(*track, track_index, session_slots@) {
            Some((clip, local_tick)) => Some((&clip, local_tick)),
            None => None,
        }),
{
    if track_index >= session_slots.len() {
        return None;
    }
    let states = &session_slots[track_index];
    let mut i: usize = 0;
    while i < states.len()
        invariant
            i <= states@.len(),
            first_sounding(*track, states@, 0) == first_sounding(*track, states@, i as nat),
            track_index < session_slots@.len(),
            states == session_slots@[track_index as int],
        decreases states@.len() - i,
    {
        if let Some(local_tick) = states[i].local_tick() {
            if i < track.session_clips.len() {
                if let Some(clip) = &track.session_clips[i] {
                    return Some((clip, local_tick));
                }
            }
        }
        i += 1;
    }
    None
}

impl<'a> AutomationOverrides<'a> {
    /// Nothing automated yet.
    fn none(track_count: usize, send_count: usize) -> (overrides: Self)
        ensures
            overrides@ == Lanes::<'a>::none(track_count as nat, send_count as nat),
    {
        let mut tracks: Vec<TrackAutomationOverride<'a>> = Vec::new();
        while tracks.len() < track_count
            invariant
                tracks@.len() <= track_count,
                forall|t: int|
                    0 <= t < tracks@.len() ==> (#[trigger] tracks@[t])@ == TrackLanes::<'a>::none(),
            decreases track_count - tracks@.len(),
        {
            let track = TrackAutomationOverride {
                volume: None,
                pan: None,
                send_levels: Vec::new(),
                effect_params: Vec::new(),
            };
            assert(track@ =~= TrackLanes::<'a>::none());
            tracks.push(track);
        }
        let mut sends: Vec<SendAutomationOverride<'a>> = Vec::new();
        while sends.len() < send_count
            invariant
                sends@.len() <= send_count,
                forall|s: int|
                    0 <= s < sends@.len() ==> (#[trigger] sends@[s]).effect_params@.len() == 0,
            decreases send_count - sends@.len(),
        {
            sends.push(SendAutomationOverride { effect_params: Vec::new() });
        }
        let overrides = AutomationOverrides {
            tracks,
            master: MasterAutomationOverride { effect_params: Vec::new() },
            sends,
        };
        assert(overrides@.sends =~~= Lanes::<'a>::none(track_count as nat, send_count as nat).sends);
        assert(overrides@.tracks =~= Lanes::<'a>::none(
            track_count as nat,
            send_count as nat,
        ).tracks);
        overrides
    }

    /// Adds one lane, stored on track `own_index`, to what it rides.
    fn apply_automation_lane(
        &mut self,
        lane: &'a AutomationLane,
        base_offset: usize,
        own_index: usize,
    )
        requires
            own_index < old(self)@.tracks.len(),
        ensures
            final(self)@ == old(self)@.with_lane(lane, base_offset, own_index),
            final(self)@.tracks.len() == old(self)@.tracks.len(),
    {
        if lane.points.len() == 0 {
            return;
        }
        let lane_ref = LaneRef { base_offset, lane };
        let ghost before = self@;
        match &lane.target {
            AutomationTarget::Volume => {
                self.tracks[own_index].volume = Some(lane_ref);
            },
            AutomationTarget::Pan => {
                self.tracks[own_index].pan = Some(lane_ref);
            },
            AutomationTarget::SendLevel { send_index } => {
                self.tracks[own_index].send_levels.push(
                    SendLane { send_index: *send_index, lane: lane_ref },
                );
            },
            AutomationTarget::EffectParam { slot_index, key } => {
                self.tracks[own_index].effect_params.push(
                    ParamLane { slot_index: *slot_index, key, lane: lane_ref },
                );
            },
            AutomationTarget::OtherTrackVolume { track_index } => {
                if *track_index < self.tracks.len() {
                    self.tracks[*track_index].volume = Some(lane_ref);
                }
            },
            AutomationTarget::OtherTrackPan { track_index } => {
                if *track_index < self.tracks.len() {
                    self.tracks[*track_index].pan = Some(lane_ref);
                }
            },
            AutomationTarget::OtherTrackSendLevel { track_index, send_index } => {
                if *track_index < self.tracks.len() {
                    self.tracks[*track_index].send_levels.push(
                        SendLane { send_index: *send_index, lane: lane_ref },
                    );
                }
            },
            AutomationTarget::OtherTrackEffectParam { track_index, slot_index, key } => {
                if *track_index < self.tracks.len() {
                    self.tracks[*track_index].effect_params.push(
                        ParamLane { slot_index: *slot_index, key, lane: lane_ref },
                    );
                }
            },
            AutomationTarget::SendEffectParam { send_index, slot_index, key } => {
                if *send_index < self.sends.len() {
                    self.sends[*send_index].effect_params.push(
                        ParamLane { slot_index: *slot_index, key, lane: lane_ref },
                    );
                }
            },
            AutomationTarget::MasterEffectParam { slot_index, key } => {
                self.master.effect_params.push(
                    ParamLane { slot_index: *slot_index, key, lane: lane_ref },
                );
            },
        }
        assert(self@ =~= before.with_lane(lane, base_offset, own_index));
    }

    /// Adds every lane of a list, all stored on track `own_index`.
    fn apply_lanes(
        &mut self,
        lanes: &'a Vec<AutomationLane>,
        base_offset: usize,
        own_index: usize,
    )
        requires
            own_index < old(self)@.tracks.len(),
        ensures
            final(self)@ == old(self)@.with_lanes(
                lanes@,
                base_offset,
                own_index,
                lanes@.len(),
            ),
            final(self)@.tracks.len() == old(self)@.tracks.len(),
    {
        let ghost before = self@;
        let mut i: usize = 0;
        while i < lanes.len()
            invariant
                i <= lanes@.len(),
                own_index < self@.tracks.len(),
                self@.tracks.len() == before.tracks.len(),
                self@ == before.with_lanes(lanes@, base_offset, own_index, i as nat),
            decreases lanes@.len() - i,
        {
            self.apply_automation_lane(&lanes[i], base_offset, own_index);
            i += 1;
        }
    }
}

/// Collects every lane that applies at `tick`, by what it rides.
pub fn collect_automation<'a>(
    song: &'a Song,
    tick: usize,
    session_mode: bool,
    session_slots: &Vec<Vec<SlotState>>,
) -> (overrides: AutomationOverrides<'a>)
    requires
        song.fits(),
    ensures
        overrides@ == Lanes::<'a>::none(song.tracks@.len(), song.sends@.len()).with_tracks(
            song,
            tick,
            session_mode,
            session_slots@,
            song.tracks@.len(),
        ),
        overrides@.tracks.len() == song.tracks@.len(),
{
    let mut overrides = AutomationOverrides::none(song.tracks.len(), song.sends.len());
    let ghost start = overrides@;
    let mut t: usize = 0;
    while t < song.tracks.len()
        invariant
            song.fits(),
            t <= song.tracks@.len(),
            overrides@.tracks.len() == song.tracks@.len(),
            overrides@ == start.with_tracks(song, tick, session_mode, session_slots@, t as nat),
        decreases song.tracks@.len() - t,
    {
        let track = &song.tracks[t];
        assert(song.tracks@[t as int].fits());
        overrides.apply_lanes(&track.automation, tick, t);
        if session_mode {
            if let Some((clip, local_tick)) = active_session_clip_at(track, t, session_slots) {
                overrides.apply_lanes(&clip.automation, local_tick, t);
            }
        } else if let Some(region) = active_region_at(track, tick) {
            overrides.apply_lanes(&region.automation, tick - region.start_tick, t);
        }
        t += 1;
    }
    overrides
}

/// A lane without points rides nothing: adding one before placing any points changes nothing.
pub proof fn law_a_lane_without_points_rides_nothing<'a>(
    lanes: Lanes<'a>,
    lane: &'a AutomationLane,
    base_offset: usize,
    own: usize,
)
    requires
        lane.points@.len() == 0,
    ensures
        lanes.with_lane(lane, base_offset, own) == lanes,
{
}

/// A fader of a track's channel strip.
pub enum FaderName {
    Volume,
    Pan,
    Send(usize),
}

/// The track and the fader that a lane stored on track `own` rides, if it rides a fader.
pub open spec fn rides(lane: AutomationLane, own: usize) -> Option<(usize, FaderName)> {
    match lane.target {
        AutomationTarget::Volume => Some((own, FaderName::Volume)),
        AutomationTarget::Pan => Some((own, FaderName::Pan)),
        AutomationTarget::SendLevel { send_index } => Some((own, FaderName::Send(send_index))),
        AutomationTarget::OtherTrackVolume { track_index } => Some(
            (track_index, FaderName::Volume),
        ),
        AutomationTarget::OtherTrackPan { track_index } => Some((track_index, FaderName::Pan)),
        AutomationTarget::OtherTrackSendLevel { track_index, send_index } => Some(
            (track_index, FaderName::Send(send_index)),
        ),
        _ => None,
    }
}

impl<'a> Lanes<'a> {
    /// The lane that rides a fader.
    pub open spec fn rider(self, t: usize, fader: FaderName) -> Option<LaneRef<'a>> {
        let track = self.tracks[t as int];
        match fader {
            FaderName::Volume => track.volume,
            FaderName::Pan => track.pan,
            FaderName::Send(send_index) => lane_on_send(
                track.send_levels,
                send_index,
                track.send_levels.len(),
            ),
        }
    }
}

proof fn lemma_lane_on_send_push<'a>(
    lanes: Seq<SendLane<'a>>,
    added: SendLane<'a>,
    send_index: usize,
    n: nat,
)
    requires
        n <= lanes.len(),
    ensures
        lane_on_send(lanes.push(added), send_index, n) == lane_on_send(lanes, send_index, n),
    decreases n,
{
    if n > 0 {
        lemma_lane_on_send_push(lanes, added, send_index, (n - 1) as nat);
    }
}

/// A lane rides exactly the fader it names: that fader is set by it, and every other one stays as
/// it was. One without points, or that names a track that does not exist, rides nothing.
pub proof fn law_a_lane_rides_the_fader_it_names<'a>(
    lanes: Lanes<'a>,
    lane: &'a AutomationLane,
    base_offset: usize,
    own: usize,
    t: usize,
    fader: FaderName,
)
    requires
        own < lanes.tracks.len(),
        t < lanes.tracks.len(),
    ensures
        lanes.with_lane(lane, base_offset, own).tracks.len() == lanes.tracks.len(),
        lanes.with_lane(lane, base_offset, own).rider(t, fader) == (if lane.points@.len() > 0
            && rides(*lane, own) == Some((t, fader)) {
            Some(LaneRef { base_offset, lane })
        } else {
            lanes.rider(t, fader)
        }),
{
    let before = lanes.tracks[t as int].send_levels;
    let lane_ref = LaneRef { base_offset, lane };
    if let FaderName::Send(send_index) = fader {
        if let Some((_, FaderName::Send(other))) = rides(*lane, own) {
            lemma_lane_on_send_push(
                before,
                SendLane { send_index: other, lane: lane_ref },
                send_index,
                before.len(),
            );
        }
    }
}

proof fn lemma_last_lane_wins<'a>(
    lanes: Lanes<'a>,
    list: Seq<AutomationLane>,
    base_offset: usize,
    own: usize,
    n: nat,
    k: int,
    fader: FaderName,
)
    requires
        own < lanes.tracks.len(),
        0 <= k < n <= list.len(),
        rides_last(list, own, n, k, fader),
    ensures
        lanes.with_lanes(list, base_offset, own, n).tracks.len() == lanes.tracks.len(),
        lanes.with_lanes(list, base_offset, own, n).rider(own, fader) == Some(
            LaneRef { base_offset, lane: &list[k] },
        ),
    decreases n,
{
    lemma_with_lanes_keeps_tracks(lanes, list, base_offset, own, (n - 1) as nat);
    let earlier = lanes.with_lanes(list, base_offset, own, (n - 1) as nat);
    law_a_lane_rides_the_fader_it_names(earlier, &list[n - 1], base_offset, own, own, fader);
    if k < n - 1 {
        lemma_last_lane_wins(lanes, list, base_offset, own, (n - 1) as nat, k, fader);
    }
}

/// Whether, of the first `n` lanes stored on track `own`, the `k`th is the last that rides a fader
/// of that track.
pub open spec fn rides_last(
    list: Seq<AutomationLane>,
    own: usize,
    n: nat,
    k: int,
    fader: FaderName,
) -> bool {
    &&& 0 <= k < n
    &&& list[k].points@.len() > 0
    &&& rides(list[k], own) == Some((own, fader))
    &&& forall|i: int|
        k < i < n ==> (#[trigger] list[i]).points@.len() == 0 || rides(list[i], own) != Some(
            (own, fader),
        )
}

proof fn lemma_with_lanes_keeps_tracks<'a>(
    lanes: Lanes<'a>,
    list: Seq<AutomationLane>,
    base_offset: usize,
    own: usize,
    n: nat,
)
    ensures
        lanes.with_lanes(list, base_offset, own, n).tracks.len() == lanes.tracks.len(),
        lanes.with_lanes(list, base_offset, own, n).sends.len() == lanes.sends.len(),
    decreases n,
{
    if n > 0 {
        lemma_with_lanes_keeps_tracks(lanes, list, base_offset, own, (n - 1) as nat);
    }
}

/// An active region's own lane wins over the track-wide one on the same fader, whatever that is:
/// the region's last such lane rides it, from the place of the tick within the region.
pub proof fn law_an_active_regions_lane_wins<'a>(
    lanes: Lanes<'a>,
    track: &'a Track,
    t: usize,
    tick: usize,
    session_slots: Seq<Vec<SlotState>>,
    k: int,
    fader: FaderName,
)
    requires
        t < lanes.tracks.len(),
        first_active(track.regions@, tick as int, 0) < track.regions@.len(),
        ({
            let region = track.regions@[first_active(track.regions@, tick as int, 0) as int];
            rides_last(region.automation@, t, region.automation@.len(), k, fader)
        }),
    ensures
        ({
            let region = track.regions@[first_active(track.regions@, tick as int, 0) as int];
            lanes.with_track(track, t, tick, false, session_slots).rider(t, fader) == Some(
                LaneRef {
                    base_offset: (tick - region.start_tick) as usize,
                    lane: &region.automation@[k],
                },
            )
        }),
{
    let region = track.regions@[first_active(track.regions@, tick as int, 0) as int];
    let track_wide = lanes.with_lanes(track.automation@, tick, t, track.automation@.len());
    lemma_with_lanes_keeps_tracks(lanes, track.automation@, tick, t, track.automation@.len());
    lemma_last_lane_wins(
        track_wide,
        region.automation@,
        (tick - region.start_tick) as usize,
        t,
        region.automation@.len(),
        k,
        fader,
    );
}

/// In session mode the sounding clip's own lane wins over the track-wide one on the same fader,
/// from the place the slot has reached; the track's regions play no part.
pub proof fn law_a_sounding_clips_lane_wins<'a>(
    lanes: Lanes<'a>,
    track: &'a Track,
    t: usize,
    tick: usize,
    session_slots: Seq<Vec<SlotState>>,
    k: int,
    fader: FaderName,
)
    requires
        t < lanes.tracks.len(),
        sounding_clip(*track, t, session_slots) is Some,
        ({
            let list = (sounding_clip(*track, t, session_slots)->0).0.automation@;
            rides_last(list, t, list.len(), k, fader)
        }),
    ensures
        ({
            let (clip, local_tick) = sounding_clip(*track, t, session_slots)->0;
            lanes.with_track(track, t, tick, true, session_slots).rider(t, fader) == Some(
                LaneRef { base_offset: local_tick, lane: &clip.automation@[k] },
            )
        }),
{
    let (clip, local_tick) = sounding_clip(*track, t, session_slots)->0;
    let track_wide = lanes.with_lanes(track.automation@, tick, t, track.automation@.len());
    lemma_with_lanes_keeps_tracks(lanes, track.automation@, tick, t, track.automation@.len());
    lemma_last_lane_wins(
        track_wide,
        clip.automation@,
        local_tick,
        t,
        clip.automation@.len(),
        k,
        fader,
    );
}

/// Whether a lane that is ridden has at least one point to be evaluated at.
pub open spec fn has_points<'a>(lane: LaneRef<'a>) -> bool {
    lane.lane.points@.len() > 0
}

/// Whether every collected lane has points.
pub open spec fn all_have_points<'a>(lanes: Lanes<'a>) -> bool {
    &&& forall|t: int| #![trigger lanes.tracks[t]]
        0 <= t < lanes.tracks.len() ==> {
            let track = lanes.tracks[t];
            &&& track.volume matches Some(lane) ==> has_points(lane)
            &&& track.pan matches Some(lane) ==> has_points(lane)
            &&& forall|i: int|
                0 <= i < track.send_levels.len() ==> has_points(
                    (#[trigger] track.send_levels[i]).lane,
                )
            &&& forall|i: int|
                0 <= i < track.effect_params.len() ==> has_points(
                    (#[trigger] track.effect_params[i]).lane,
                )
        }
    &&& forall|i: int|
        0 <= i < lanes.master.len() ==> has_points((#[trigger] lanes.master[i]).lane)
    &&& forall|s: int, i: int|
        0 <= s < lanes.sends.len() && 0 <= i < lanes.sends[s].len() ==> has_points(
            (#[trigger] lanes.sends[s][i]).lane,
        )
}

proof fn lemma_lane_has_points<'a>(
    lanes: Lanes<'a>,
    lane: &'a AutomationLane,
    base_offset: usize,
    own: usize,
)
    requires
        own < lanes.tracks.len(),
        all_have_points(lanes),
    ensures
        all_have_points(lanes.with_lane(lane, base_offset, own)),
{
    let after = lanes.with_lane(lane, base_offset, own);
    assert forall|s: int, i: int|
        0 <= s < after.sends.len() && 0 <= i < after.sends[s].len() implies has_points(
        (#[trigger] after.sends[s][i]).lane,
    ) by {
        if i < lanes.sends[s].len() {
            assert(after.sends[s][i] == lanes.sends[s][i]);
        }
    }
}

proof fn lemma_lanes_have_points<'a>(
    lanes: Lanes<'a>,
    list: Seq<AutomationLane>,
    base_offset: usize,
    own: usize,
    n: nat,
)
    requires
        own < lanes.tracks.len(),
        n <= list.len(),
        all_have_points(lanes),
    ensures
        all_have_points(lanes.with_lanes(list, base_offset, own, n)),
    decreases n,
{
    if n > 0 {
        lemma_lanes_have_points(lanes, list, base_offset, own, (n - 1) as nat);
        lemma_with_lanes_keeps_tracks(lanes, list, base_offset, own, (n - 1) as nat);
        lemma_lane_has_points(
            lanes.with_lanes(list, base_offset, own, (n - 1) as nat),
            &list[n - 1],
            base_offset,
            own,
        );
    }
}

proof fn lemma_tracks_have_points<'a>(
    lanes: Lanes<'a>,
    song: &'a Song,
    tick: usize,
    session_mode: bool,
    session_slots: Seq<Vec<SlotState>>,
    n: nat,
)
    requires
        lanes.tracks.len() == song.tracks@.len(),
        n <= song.tracks@.len(),
        all_have_points(lanes),
    ensures
        all_have_points(lanes.with_tracks(song, tick, session_mode, session_slots, n)),
        lanes.with_tracks(song, tick, session_mode, session_slots, n).tracks.len()
            == lanes.tracks.len(),
    decreases n,
{
    if n > 0 {
        lemma_tracks_have_points(lanes, song, tick, session_mode, session_slots, (n - 1) as nat);
        assert(song.tracks.len() == song.tracks@.len());
        let earlier = lanes.with_tracks(song, tick, session_mode, session_slots, (n - 1) as nat);
        let track = &song.tracks@[n - 1];
        let t = (n - 1) as usize;
        let list = track.automation@;
        lemma_lanes_have_points(earlier, list, tick, t, list.len());
        lemma_with_lanes_keeps_tracks(earlier, list, tick, t, list.len());
        let track_wide = earlier.with_lanes(list, tick, t, list.len());
        if session_mode {
            if let Some((clip, local_tick)) = sounding_clip(*track, t, session_slots) {
                let own = clip.automation@;
                lemma_lanes_have_points(track_wide, own, local_tick, t, own.len());
                lemma_with_lanes_keeps_tracks(track_wide, own, local_tick, t, own.len());
            }
        } else {
            let i = first_active(track.regions@, tick as int, 0);
            if i < track.regions@.len() {
                let region = track.regions@[i as int];
                let own = region.automation@;
                let offset = (tick - region.start_tick) as usize;
                lemma_lanes_have_points(track_wide, own, offset, t, own.len());
                lemma_with_lanes_keeps_tracks(track_wide, own, offset, t, own.len());
            }
        }
    }
}

/// Every collected lane has at least one point, so it can always be evaluated.
pub proof fn law_collected_lanes_have_points<'a>(
    song: &'a Song,
    tick: usize,
    session_mode: bool,
    session_slots: Seq<Vec<SlotState>>,
)
    ensures
        all_have_points(
            Lanes::none(song.tracks@.len(), song.sends@.len()).with_tracks(
                song,
                tick,
                session_mode,
                session_slots,
                song.tracks@.len(),
            ),
        ),
{
    lemma_tracks_have_points(
        Lanes::none(song.tracks@.len(), song.sends@.len()),
        song,
        tick,
        session_mode,
        session_slots,
        song.tracks@.len(),
    );
}

/// Whether no lane of a list, all stored on track `own`, rides a fader of track `t`.
pub open spec fn leaves_alone(
    list: Seq<AutomationLane>,
    own: usize,
    t: usize,
    fader: FaderName,
) -> bool {
    forall|i: int|
        0 <= i < list.len() ==> (#[trigger] list[i]).points@.len() == 0 || rides(list[i], own)
            != Some((t, fader))
}

/// Whether nothing that a track has in effect rides a fader of track `t`: neither its track-wide lanes
/// nor those of its active region, or in session mode of its sounding clip.
pub open spec fn track_leaves_alone(
    track: Track,
    own: usize,
    tick: usize,
    session_mode: bool,
    session_slots: Seq<Vec<SlotState>>,
    t: usize,
    fader: FaderName,
) -> bool {
    &&& leaves_alone(track.automation@, own, t, fader)
    &&& clip_leaves_alone(track, own, tick, session_mode, session_slots, t, fader)
}

/// Whether a track's active region, or in session mode its sounding clip, rides no fader of track `t`.
pub open spec fn clip_leaves_alone(
    track: Track,
    own: usize,
    tick: usize,
    session_mode: bool,
    session_slots: Seq<Vec<SlotState>>,
    t: usize,
    fader: FaderName,
) -> bool {
    if session_mode {
        sounding_clip(track, own, session_slots) matches Some((clip, _)) ==> leaves_alone(
            clip.automation@,
            own,
            t,
            fader,
        )
    } else {
        let i = first_active(track.regions@, tick as int, 0);
        i < track.regions@.len() ==> leaves_alone(
            track.regions@[i as int].automation@,
            own,
            t,
            fader,
        )
    }
}

/// Everything that is collected from a song at a tick.
pub open spec fn collected<'a>(
    song: &'a Song,
    tick: usize,
    session_mode: bool,
    session_slots: Seq<Vec<SlotState>>,
) -> Lanes<'a> {
    Lanes::none(song.tracks@.len(), song.sends@.len()).with_tracks(
        song,
        tick,
        session_mode,
        session_slots,
        song.tracks@.len(),
    )
}

proof fn lemma_left_alone<'a>(
    lanes: Lanes<'a>,
    list: Seq<AutomationLane>,
    base_offset: usize,
    own: usize,
    n: nat,
    t: usize,
    fader: FaderName,
)
    requires
        own < lanes.tracks.len(),
        t < lanes.tracks.len(),
        n <= list.len(),
        leaves_alone(list, own, t, fader),
    ensures
        lanes.with_lanes(list, base_offset, own, n).tracks.len() == lanes.tracks.len(),
        lanes.with_lanes(list, base_offset, own, n).rider(t, fader) == lanes.rider(t, fader),
    decreases n,
{
    if n > 0 {
        lemma_left_alone(lanes, list, base_offset, own, (n - 1) as nat, t, fader);
        law_a_lane_rides_the_fader_it_names(
            lanes.with_lanes(list, base_offset, own, (n - 1) as nat),
            &list[n - 1],
            base_offset,
            own,
            t,
            fader,
        );
    }
}

proof fn lemma_first_sounding(track: Track, states: Seq<SlotState>, from: nat)
    ensures
        ({
            let i = first_sounding(track, states, from);
            &&& i < states.len() ==> from <= i && states[i as int].position() is Some && i
                < track.session_clips@.len() && track.session_clips@[i as int] is Some
            &&& forall|k: int|
                from <= k < i && k < states.len() ==> !((#[trigger] states[k]).position() is Some
                    && k < track.session_clips@.len() && track.session_clips@[k] is Some)
            &&& i <= states.len()
        }),
    decreases states.len() - from,
{
    if from < states.len() && !(states[from as int].sounding() && from < track.session_clips@.len()
        && track.session_clips@[from as int] is Some) {
        lemma_first_sounding(track, states, from + 1);
    }
}

/// The clip that sounds on a track is that of its first slot that is heard and holds one, at the place
/// that slot has reached; none sounds where there is no such slot, or no state is known of the track.
pub proof fn law_the_first_heard_slots_clip_sounds(
    track: Track,
    t: usize,
    session_slots: Seq<Vec<SlotState>>,
    i: int,
)
    requires
        t < session_slots.len(),
        0 <= i < session_slots[t as int]@.len(),
        forall|k: int|
            0 <= k < i ==> (#[trigger] session_slots[t as int]@[k]).position() is None || k
                >= track.session_clips@.len() || track.session_clips@[k] is None,
    ensures
        session_slots[t as int]@[i].position() is Some && i < track.session_clips@.len()
            && track.session_clips@[i] is Some ==> sounding_clip(track, t, session_slots) == Some(
            (track.session_clips@[i]->0, session_slots[t as int]@[i].position()->0),
        ),
        i == session_slots[t as int]@.len() - 1 && (session_slots[t as int]@[i].position() is None
            || i >= track.session_clips@.len() || track.session_clips@[i] is None)
            ==> sounding_clip(track, t, session_slots) is None,
{
    let states = session_slots[t as int]@;
    lemma_first_sounding(track, states, 0);
    let found = first_sounding(track, states, 0) as int;
    if found < i {
        assert(states[found].position() is Some);
    }
    if states[i].position() is Some && i < track.session_clips@.len() && track.session_clips@[i]
        is Some && found > i {
        assert(states[i].position() is None);
    }
}

/// No clip sounds on a track whose slots' states are not known.
pub proof fn law_no_clip_sounds_without_a_state(
    track: Track,
    t: usize,
    session_slots: Seq<Vec<SlotState>>,
)
    requires
        t >= session_slots.len(),
    ensures
        sounding_clip(track, t, session_slots) is None,
{
}

proof fn lemma_track_left_alone<'a>(
    lanes: Lanes<'a>,
    track: &'a Track,
    own: usize,
    tick: usize,
    session_mode: bool,
    session_slots: Seq<Vec<SlotState>>,
    t: usize,
    fader: FaderName,
)
    requires
        own < lanes.tracks.len(),
        t < lanes.tracks.len(),
        track_leaves_alone(*track, own, tick, session_mode, session_slots, t, fader),
    ensures
        lanes.with_track(track, own, tick, session_mode, session_slots).tracks.len()
            == lanes.tracks.len(),
        lanes.with_track(track, own, tick, session_mode, session_slots).rider(t, fader)
            == lanes.rider(t, fader),
{
    let list = track.automation@;
    lemma_left_alone(lanes, list, tick, own, list.len(), t, fader);
    let track_wide = lanes.with_lanes(list, tick, own, list.len());
    if session_mode {
        if let Some((clip, local_tick)) = sounding_clip(*track, own, session_slots) {
            let held = clip.automation@;
            lemma_left_alone(track_wide, held, local_tick, own, held.len(), t, fader);
        }
    } else {
        let i = first_active(track.regions@, tick as int, 0);
        if i < track.regions@.len() {
            let region = track.regions@[i as int];
            let held = region.automation@;
            let offset = (tick - region.start_tick) as usize;
            lemma_left_alone(track_wide, held, offset, own, held.len(), t, fader);
        }
    }
}

proof fn lemma_later_tracks_leave_alone<'a>(
    lanes: Lanes<'a>,
    song: &'a Song,
    tick: usize,
    session_mode: bool,
    session_slots: Seq<Vec<SlotState>>,
    from: nat,
    n: nat,
    t: usize,
    fader: FaderName,
)
    requires
        lanes.tracks.len() == song.tracks@.len(),
        from <= n <= song.tracks@.len(),
        t < song.tracks@.len(),
        forall|u: int|
            from <= u < n ==> track_leaves_alone(
                #[trigger] song.tracks@[u],
                u as usize,
                tick,
                session_mode,
                session_slots,
                t,
                fader,
            ),
    ensures
        lanes.with_tracks(song, tick, session_mode, session_slots, n).tracks.len()
            == lanes.tracks.len(),
        lanes.with_tracks(song, tick, session_mode, session_slots, n).rider(t, fader)
            == lanes.with_tracks(song, tick, session_mode, session_slots, from).rider(t, fader),
    decreases n,
{
    assert(song.tracks.len() == song.tracks@.len());
    if n > from {
        lemma_later_tracks_leave_alone(
            lanes,
            song,
            tick,
            session_mode,
            session_slots,
            from,
            (n - 1) as nat,
            t,
            fader,
        );
        assert(track_leaves_alone(
            song.tracks@[n - 1],
            (n - 1) as usize,
            tick,
            session_mode,
            session_slots,
            t,
            fader,
        ));
        lemma_track_left_alone(
            lanes.with_tracks(song, tick, session_mode, session_slots, (n - 1) as nat),
            &song.tracks@[n - 1],
            (n - 1) as usize,
            tick,
            session_mode,
            session_slots,
            t,
            fader,
        );
    } else {
        lemma_with_tracks_keeps_tracks(lanes, song, tick, session_mode, session_slots, n);
    }
}

proof fn lemma_with_tracks_keeps_tracks<'a>(
    lanes: Lanes<'a>,
    song: &'a Song,
    tick: usize,
    session_mode: bool,
    session_slots: Seq<Vec<SlotState>>,
    n: nat,
)
    ensures
        lanes.with_tracks(song, tick, session_mode, session_slots, n).tracks.len()
            == lanes.tracks.len(),
        lanes.with_tracks(song, tick, session_mode, session_slots, n).sends.len()
            == lanes.sends.len(),
    decreases n,
{
    if n > 0 {
        lemma_with_tracks_keeps_tracks(
            lanes,
            song,
            tick,
            session_mode,
            session_slots,
            (n - 1) as nat,
        );
        let earlier = lanes.with_tracks(song, tick, session_mode, session_slots, (n - 1) as nat);
        let track = &song.tracks@[n - 1];
        let t = (n - 1) as usize;
        let list = track.automation@;
        lemma_with_lanes_keeps_tracks(earlier, list, tick, t, list.len());
        let track_wide = earlier.with_lanes(list, tick, t, list.len());
        if let Some((clip, local_tick)) = sounding_clip(*track, t, session_slots) {
            let held = clip.automation@;
            lemma_with_lanes_keeps_tracks(track_wide, held, local_tick, t, held.len());
        }
        let i = first_active(track.regions@, tick as int, 0);
        let region = track.regions@[i as int];
        let held = region.automation@;
        let offset = (tick - region.start_tick) as usize;
        lemma_with_lanes_keeps_tracks(track_wide, held, offset, t, held.len());
    }
}

/// A track-wide lane rides its fader all along the song, from the place of the tick in it: in either
/// mode, wherever neither the track's active region or clip nor another track rides that fader.
pub proof fn law_a_track_wide_lane_rides_unless_it_is_overridden<'a>(
    song: &'a Song,
    tick: usize,
    session_mode: bool,
    session_slots: Seq<Vec<SlotState>>,
    t: usize,
    k: int,
    fader: FaderName,
)
    requires
        t < song.tracks@.len(),
        rides_last(
            song.tracks@[t as int].automation@,
            t,
            song.tracks@[t as int].automation@.len(),
            k,
            fader,
        ),
        clip_leaves_alone(
            song.tracks@[t as int],
            t,
            tick,
            session_mode,
            session_slots,
            t,
            fader,
        ),
        forall|u: int|
            0 <= u < song.tracks@.len() && u != t ==> track_leaves_alone(
                #[trigger] song.tracks@[u],
                u as usize,
                tick,
                session_mode,
                session_slots,
                t,
                fader,
            ),
    ensures
        collected(song, tick, session_mode, session_slots).rider(t, fader) == Some(
            LaneRef { base_offset: tick, lane: &song.tracks@[t as int].automation@[k] },
        ),
{
    let none = Lanes::<'a>::none(song.tracks@.len(), song.sends@.len());
    let track = &song.tracks@[t as int];
    lemma_with_tracks_keeps_tracks(none, song, tick, session_mode, session_slots, t as nat);
    let earlier = none.with_tracks(song, tick, session_mode, session_slots, t as nat);
    let list = track.automation@;
    lemma_last_lane_wins(earlier, list, tick, t, list.len(), k, fader);
    let track_wide = earlier.with_lanes(list, tick, t, list.len());
    if session_mode {
        if let Some((clip, local_tick)) = sounding_clip(*track, t, session_slots) {
            let held = clip.automation@;
            lemma_left_alone(track_wide, held, local_tick, t, held.len(), t, fader);
        }
    } else {
        let i = first_active(track.regions@, tick as int, 0);
        if i < track.regions@.len() {
            let region = track.regions@[i as int];
            let held = region.automation@;
            let offset = (tick - region.start_tick) as usize;
            lemma_left_alone(track_wide, held, offset, t, held.len(), t, fader);
        }
    }
    lemma_later_tracks_leave_alone(
        none,
        song,
        tick,
        session_mode,
        session_slots,
        (t + 1) as nat,
        song.tracks@.len(),
        t,
        fader,
    );
}

/// While a region is active its own lane rides the fader, whatever is track-wide, from the place of
/// the tick in the region, wherever no other track rides that fader.
pub proof fn law_an_active_regions_lane_rides_in_the_end<'a>(
    song: &'a Song,
    tick: usize,
    session_slots: Seq<Vec<SlotState>>,
    t: usize,
    r: int,
    k: int,
    fader: FaderName,
)
    requires
        t < song.tracks@.len(),
        0 <= r < song.tracks@[t as int].regions@.len(),
        first_active(song.tracks@[t as int].regions@, tick as int, 0) == r,
        rides_last(
            song.tracks@[t as int].regions@[r].automation@,
            t,
            song.tracks@[t as int].regions@[r].automation@.len(),
            k,
            fader,
        ),
        forall|u: int|
            0 <= u < song.tracks@.len() && u != t ==> track_leaves_alone(
                #[trigger] song.tracks@[u],
                u as usize,
                tick,
                false,
                session_slots,
                t,
                fader,
            ),
    ensures
        ({
            let region = song.tracks@[t as int].regions@[r];
            collected(song, tick, false, session_slots).rider(t, fader) == Some(
                LaneRef {
                    base_offset: (tick - region.start_tick) as usize,
                    lane: &region.automation@[k],
                },
            )
        }),
{
    let none = Lanes::<'a>::none(song.tracks@.len(), song.sends@.len());
    lemma_with_tracks_keeps_tracks(none, song, tick, false, session_slots, t as nat);
    law_an_active_regions_lane_wins(
        none.with_tracks(song, tick, false, session_slots, t as nat),
        &song.tracks@[t as int],
        t,
        tick,
        session_slots,
        k,
        fader,
    );
    lemma_later_tracks_leave_alone(
        none,
        song,
        tick,
        false,
        session_slots,
        (t + 1) as nat,
        song.tracks@.len(),
        t,
        fader,
    );
}

/// In session mode the sounding clip's own lane rides the fader, whatever is track-wide, from the place
/// its slot has reached, wherever no other track rides that fader.
pub proof fn law_a_sounding_clips_lane_rides_in_the_end<'a>(
    song: &'a Song,
    tick: usize,
    session_slots: Seq<Vec<SlotState>>,
    t: usize,
    clip: Arc<SessionClip>,
    local_tick: usize,
    k: int,
    fader: FaderName,
)
    requires
        t < song.tracks@.len(),
        sounding_clip(song.tracks@[t as int], t, session_slots) == Some((clip, local_tick)),
        rides_last(clip.automation@, t, clip.automation@.len(), k, fader),
        forall|u: int|
            0 <= u < song.tracks@.len() && u != t ==> track_leaves_alone(
                #[trigger] song.tracks@[u],
                u as usize,
                tick,
                true,
                session_slots,
                t,
                fader,
            ),
    ensures
        collected(song, tick, true, session_slots).rider(t, fader) == Some(
            LaneRef { base_offset: local_tick, lane: &clip.automation@[k] },
        ),
{
    let none = Lanes::<'a>::none(song.tracks@.len(), song.sends@.len());
    lemma_with_tracks_keeps_tracks(none, song, tick, true, session_slots, t as nat);
    law_a_sounding_clips_lane_wins(
        none.with_tracks(song, tick, true, session_slots, t as nat),
        &song.tracks@[t as int],
        t,
        tick,
        session_slots,
        k,
        fader,
    );
    lemma_later_tracks_leave_alone(
        none,
        song,
        tick,
        true,
        session_slots,
        (t + 1) as nat,
        song.tracks@.len(),
        t,
        fader,
    );
}

/// A fader that no lane in effect rides is left to its own setting: lanes of regions and clips that are
/// not active, or belong to the other mode, make no difference.
pub proof fn law_a_fader_nothing_rides_is_left_alone<'a>(
    song: &'a Song,
    tick: usize,
    session_mode: bool,
    session_slots: Seq<Vec<SlotState>>,
    t: usize,
    fader: FaderName,
)
    requires
        t < song.tracks@.len(),
        forall|u: int|
            0 <= u < song.tracks@.len() ==> track_leaves_alone(
                #[trigger] song.tracks@[u],
                u as usize,
                tick,
                session_mode,
                session_slots,
                t,
                fader,
            ),
    ensures
        collected(song, tick, session_mode, session_slots).rider(t, fader) is None,
{
    let none = Lanes::<'a>::none(song.tracks@.len(), song.sends@.len());
    lemma_later_tracks_leave_alone(
        none,
        song,
        tick,
        session_mode,
        session_slots,
        0,
        song.tracks@.len(),
        t,
        fader,
    );
}

/// A lane of one track may ride another's fader: a track-wide lane of the last track to ride it does so
/// from the place of the tick, wherever that track's active region or clip leaves the fader alone and
/// no later track rides it.
pub proof fn law_a_lane_may_ride_another_tracks_fader<'a>(
    song: &'a Song,
    tick: usize,
    session_mode: bool,
    session_slots: Seq<Vec<SlotState>>,
    own: usize,
    k: int,
    t: usize,
    fader: FaderName,
)
    requires
        own < song.tracks@.len(),
        t < song.tracks@.len(),
        ({
            let list = song.tracks@[own as int].automation@;
            &&& 0 <= k < list.len()
            &&& list[k].points@.len() > 0
            &&& rides(list[k], own) == Some((t, fader))
            &&& forall|i: int|
                k < i < list.len() ==> (#[trigger] list[i]).points@.len() == 0 || rides(
                    list[i],
                    own,
                ) != Some((t, fader))
        }),
        clip_leaves_alone(
            song.tracks@[own as int],
            own,
            tick,
            session_mode,
            session_slots,
            t,
            fader,
        ),
        forall|u: int|
            own < u < song.tracks@.len() ==> track_leaves_alone(
                #[trigger] song.tracks@[u],
                u as usize,
                tick,
                session_mode,
                session_slots,
                t,
                fader,
            ),
    ensures
        collected(song, tick, session_mode, session_slots).rider(t, fader) == Some(
            LaneRef { base_offset: tick, lane: &song.tracks@[own as int].automation@[k] },
        ),
{
    let none = Lanes::<'a>::none(song.tracks@.len(), song.sends@.len());
    let track = &song.tracks@[own as int];
    lemma_with_tracks_keeps_tracks(none, song, tick, session_mode, session_slots, own as nat);
    let earlier = none.with_tracks(song, tick, session_mode, session_slots, own as nat);
    let list = track.automation@;
    lemma_last_lane_wins_anywhere(earlier, list, tick, own, list.len(), k, t, fader);
    let track_wide = earlier.with_lanes(list, tick, own, list.len());
    if session_mode {
        if let Some((clip, local_tick)) = sounding_clip(*track, own, session_slots) {
            let held = clip.automation@;
            lemma_left_alone(track_wide, held, local_tick, own, held.len(), t, fader);
        }
    } else {
        let i = first_active(track.regions@, tick as int, 0);
        if i < track.regions@.len() {
            let region = song.tracks@[own as int].regions@[i as int];
            let held = region.automation@;
            let offset = (tick - region.start_tick) as usize;
            lemma_left_alone(track_wide, held, offset, own, held.len(), t, fader);
        }
    }
    lemma_later_tracks_leave_alone(
        none,
        song,
        tick,
        session_mode,
        session_slots,
        (own + 1) as nat,
        song.tracks@.len(),
        t,
        fader,
    );
}

proof fn lemma_last_lane_wins_anywhere<'a>(
    lanes: Lanes<'a>,
    list: Seq<AutomationLane>,
    base_offset: usize,
    own: usize,
    n: nat,
    k: int,
    t: usize,
    fader: FaderName,
)
    requires
        own < lanes.tracks.len(),
        t < lanes.tracks.len(),
        0 <= k < n <= list.len(),
        list[k].points@.len() > 0,
        rides(list[k], own) == Some((t, fader)),
        forall|i: int|
            k < i < n ==> (#[trigger] list[i]).points@.len() == 0 || rides(list[i], own) != Some(
                (t, fader),
            ),
    ensures
        lanes.with_lanes(list, base_offset, own, n).tracks.len() == lanes.tracks.len(),
        lanes.with_lanes(list, base_offset, own, n).rider(t, fader) == Some(
            LaneRef { base_offset, lane: &list[k] },
        ),
    decreases n,
{
    lemma_with_lanes_keeps_tracks(lanes, list, base_offset, own, (n - 1) as nat);
    let earlier = lanes.with_lanes(list, base_offset, own, (n - 1) as nat);
    law_a_lane_rides_the_fader_it_names(earlier, &list[n - 1], base_offset, own, t, fader);
    if k < n - 1 {
        lemma_last_lane_wins_anywhere(
            lanes,
            list,
            base_offset,
            own,
            (n - 1) as nat,
            k,
            t,
            fader,
        );
    }
}

/// An effect chain of the mix.
pub enum ChainName {
    Track(usize),
    Send(usize),
    Master,
}

/// The chain, the slot in it and the parameter there that a lane stored on track `own` drives, if it
/// drives one.
pub open spec fn drives(lane: AutomationLane, own: usize) -> Option<
    (ChainName, usize, EffectParamKey),
> {
    match lane.target {
        AutomationTarget::EffectParam { slot_index, key } => Some(
            (ChainName::Track(own), slot_index, key),
        ),
        AutomationTarget::OtherTrackEffectParam { track_index, slot_index, key } => Some(
            (ChainName::Track(track_index), slot_index, key),
        ),
        AutomationTarget::SendEffectParam { send_index, slot_index, key } => Some(
            (ChainName::Send(send_index), slot_index, key),
        ),
        AutomationTarget::MasterEffectParam { slot_index, key } => Some(
            (ChainName::Master, slot_index, key),
        ),
        _ => None,
    }
}

impl<'a> Lanes<'a> {
    /// Whether there is such a chain.
    pub open spec fn has_chain(self, name: ChainName) -> bool {
        match name {
            ChainName::Track(t) => t < self.tracks.len(),
            ChainName::Send(s) => s < self.sends.len(),
            ChainName::Master => true,
        }
    }

    /// The lanes that drive a chain's parameters.
    pub open spec fn chain(self, name: ChainName) -> Seq<ParamLane<'a>> {
        match name {
            ChainName::Track(t) => self.tracks[t as int].effect_params,
            ChainName::Send(s) => self.sends[s as int],
            ChainName::Master => self.master,
        }
    }
}

/// A lane drives exactly the parameter it names: it is added to that chain, with the slot and the
/// parameter it names, and to no other. One without points drives nothing.
pub proof fn law_a_lane_drives_the_parameter_it_names<'a>(
    lanes: Lanes<'a>,
    lane: &'a AutomationLane,
    base_offset: usize,
    own: usize,
    name: ChainName,
)
    requires
        own < lanes.tracks.len(),
        lanes.has_chain(name),
    ensures
        ({
            let after = lanes.with_lane(lane, base_offset, own);
            let driven = lane.points@.len() > 0 && (drives(*lane, own) matches Some((to, _, _))
                && to == name);
            &&& after.has_chain(name)
            &&& !driven ==> after.chain(name) == lanes.chain(name)
            &&& driven ==> {
                let (_, slot_index, key) = drives(*lane, own)->0;
                after.chain(name) == lanes.chain(name).push(
                    ParamLane { slot_index, key: &key, lane: LaneRef { base_offset, lane } },
                )
            }
        }),
{
}

/// Whether a lane is collected for a chain.
pub open spec fn is_driven<'a>(
    chain: Seq<ParamLane<'a>>,
    slot_index: usize,
    key: EffectParamKey,
    lane: LaneRef<'a>,
) -> bool {
    exists|j: int|
        0 <= j < chain.len() && (#[trigger] chain[j]).slot_index == slot_index && *chain[j].key == key
            && chain[j].lane == lane
}

proof fn lemma_chain_grows<'a>(
    lanes: Lanes<'a>,
    list: Seq<AutomationLane>,
    base_offset: usize,
    own: usize,
    n: nat,
    name: ChainName,
)
    requires
        own < lanes.tracks.len(),
        lanes.has_chain(name),
        n <= list.len(),
    ensures
        ({
            let after = lanes.with_lanes(list, base_offset, own, n);
            &&& after.tracks.len() == lanes.tracks.len()
            &&& after.has_chain(name)
            &&& lanes.chain(name).len() <= after.chain(name).len()
            &&& forall|j: int|
                0 <= j < lanes.chain(name).len() ==> #[trigger] after.chain(name)[j]
                    == lanes.chain(name)[j]
            &&& forall|k: int| #![trigger list[k]]
                0 <= k < n && list[k].points@.len() > 0 ==> (drives(list[k], own) matches Some(
                    (to, slot_index, key),
                ) ==> (to == name ==> is_driven(
                    after.chain(name),
                    slot_index,
                    key,
                    LaneRef { base_offset, lane: &list[k] },
                )))
        }),
    decreases n,
{
    if n > 0 {
        lemma_chain_grows(lanes, list, base_offset, own, (n - 1) as nat, name);
        let earlier = lanes.with_lanes(list, base_offset, own, (n - 1) as nat);
        let after = lanes.with_lanes(list, base_offset, own, n);
        law_a_lane_drives_the_parameter_it_names(earlier, &list[n - 1], base_offset, own, name);
        lemma_with_lanes_keeps_tracks(lanes, list, base_offset, own, n);
        assert forall|j: int| 0 <= j < earlier.chain(name).len() implies #[trigger] after.chain(
            name,
        )[j] == earlier.chain(name)[j] by {}
        assert forall|k: int| #![trigger list[k]]
            0 <= k < n && list[k].points@.len() > 0 implies (drives(list[k], own) matches Some(
            (to, slot_index, key),
        ) ==> (to == name ==> is_driven(
            after.chain(name),
            slot_index,
            key,
            LaneRef { base_offset, lane: &list[k] },
        ))) by {
            if let Some((to, slot_index, key)) = drives(list[k], own) {
                if to == name {
                    let lane = LaneRef { base_offset, lane: &list[k] };
                    if k < n - 1 {
                        assert(is_driven(earlier.chain(name), slot_index, key, lane));
                        let j = choose|j: int|
                            0 <= j < earlier.chain(name).len() && (
                            #[trigger] earlier.chain(name)[j]).slot_index == slot_index
                                && *earlier.chain(name)[j].key == key && earlier.chain(name)[j].lane
                                == lane;
                        assert(after.chain(name)[j] == earlier.chain(name)[j]);
                    } else {
                        let j = earlier.chain(name).len() as int;
                        assert(after.chain(name)[j].lane == lane);
                    }
                }
            }
        }
    }
}

proof fn lemma_driven_stays<'a>(
    a: Seq<ParamLane<'a>>,
    b: Seq<ParamLane<'a>>,
    slot_index: usize,
    key: EffectParamKey,
    lane: LaneRef<'a>,
)
    requires
        is_driven(a, slot_index, key, lane),
        a.len() <= b.len(),
        forall|j: int| 0 <= j < a.len() ==> #[trigger] b[j] == a[j],
    ensures
        is_driven(b, slot_index, key, lane),
{
    let j = choose|j: int|
        0 <= j < a.len() && (#[trigger] a[j]).slot_index == slot_index && *a[j].key == key
            && a[j].lane == lane;
    assert(b[j] == a[j]);
}

proof fn lemma_track_chain_grows<'a>(
    lanes: Lanes<'a>,
    track: &'a Track,
    t: usize,
    tick: usize,
    session_mode: bool,
    session_slots: Seq<Vec<SlotState>>,
    name: ChainName,
)
    requires
        t < lanes.tracks.len(),
        lanes.has_chain(name),
    ensures
        ({
            let after = lanes.with_track(track, t, tick, session_mode, session_slots);
            &&& after.tracks.len() == lanes.tracks.len()
            &&& after.has_chain(name)
            &&& lanes.chain(name).len() <= after.chain(name).len()
            &&& forall|j: int|
                0 <= j < lanes.chain(name).len() ==> #[trigger] after.chain(name)[j]
                    == lanes.chain(name)[j]
        }),
{
    let list = track.automation@;
    lemma_chain_grows(lanes, list, tick, t, list.len(), name);
    let track_wide = lanes.with_lanes(list, tick, t, list.len());
    if session_mode {
        if let Some((clip, local_tick)) = sounding_clip(*track, t, session_slots) {
            let held = clip.automation@;
            lemma_chain_grows(track_wide, held, local_tick, t, held.len(), name);
        }
    } else {
        let i = first_active(track.regions@, tick as int, 0);
        if i < track.regions@.len() {
            let region = track.regions@[i as int];
            let held = region.automation@;
            let offset = (tick - region.start_tick) as usize;
            lemma_chain_grows(track_wide, held, offset, t, held.len(), name);
        }
    }
}

proof fn lemma_all_chains_grow<'a>(
    lanes: Lanes<'a>,
    song: &'a Song,
    tick: usize,
    session_mode: bool,
    session_slots: Seq<Vec<SlotState>>,
    from: nat,
    n: nat,
    name: ChainName,
)
    requires
        lanes.tracks.len() == song.tracks@.len(),
        from <= n <= song.tracks@.len(),
        lanes.has_chain(name),
    ensures
        ({
            let before = lanes.with_tracks(song, tick, session_mode, session_slots, from);
            let after = lanes.with_tracks(song, tick, session_mode, session_slots, n);
            &&& after.tracks.len() == lanes.tracks.len()
            &&& after.has_chain(name)
            &&& before.has_chain(name)
            &&& before.chain(name).len() <= after.chain(name).len()
            &&& forall|j: int|
                0 <= j < before.chain(name).len() ==> #[trigger] after.chain(name)[j]
                    == before.chain(name)[j]
        }),
    decreases n,
{
    lemma_with_tracks_keeps_tracks(lanes, song, tick, session_mode, session_slots, from);
    lemma_with_tracks_keeps_tracks(lanes, song, tick, session_mode, session_slots, n);
    if n > from {
        lemma_all_chains_grow(
            lanes,
            song,
            tick,
            session_mode,
            session_slots,
            from,
            (n - 1) as nat,
            name,
        );
        assert(song.tracks.len() == song.tracks@.len());
        lemma_track_chain_grows(
            lanes.with_tracks(song, tick, session_mode, session_slots, (n - 1) as nat),
            &song.tracks@[n - 1],
            (n - 1) as usize,
            tick,
            session_mode,
            session_slots,
            name,
        );
    }
}

/// Every lane in effect that drives a parameter is collected for its chain: a track-wide one from the
/// place of the tick, one of the active region from the place of the tick in it, and in session mode
/// one of the sounding clip from the place its slot has reached.
pub proof fn law_every_lane_in_effect_drives_its_parameter<'a>(
    song: &'a Song,
    tick: usize,
    session_mode: bool,
    session_slots: Seq<Vec<SlotState>>,
    t: usize,
    k: int,
    name: ChainName,
)
    requires
        t < song.tracks@.len(),
        Lanes::<'a>::none(song.tracks@.len(), song.sends@.len()).has_chain(name),
    ensures
        ({
            let track = song.tracks@[t as int];
            let chain = collected(song, tick, session_mode, session_slots).chain(name);
            let i = first_active(track.regions@, tick as int, 0) as int;
            &&& 0 <= k < track.automation@.len() && track.automation@[k].points@.len() > 0 ==> (
            drives(track.automation@[k], t) matches Some((to, slot_index, key)) ==> (to == name
                ==> is_driven(
                chain,
                slot_index,
                key,
                LaneRef { base_offset: tick, lane: &track.automation@[k] },
            )))
            &&& !session_mode && i < track.regions@.len() && 0 <= k
                < track.regions@[i].automation@.len() && track.regions@[i].automation@[k].points@.len()
                > 0 ==> (drives(track.regions@[i].automation@[k], t) matches Some(
                (to, slot_index, key),
            ) ==> (to == name ==> is_driven(
                chain,
                slot_index,
                key,
                LaneRef {
                    base_offset: (tick - track.regions@[i].start_tick) as usize,
                    lane: &track.regions@[i].automation@[k],
                },
            )))
            &&& session_mode ==> (sounding_clip(track, t, session_slots) matches Some(
                (clip, local_tick),
            ) ==> (0 <= k < clip.automation@.len() && clip.automation@[k].points@.len() > 0 ==> (
            drives(clip.automation@[k], t) matches Some((to, slot_index, key)) ==> (to == name
                ==> is_driven(
                chain,
                slot_index,
                key,
                LaneRef { base_offset: local_tick, lane: &clip.automation@[k] },
            )))))
        }),
{
    let none = Lanes::<'a>::none(song.tracks@.len(), song.sends@.len());
    let track = &song.tracks@[t as int];
    lemma_all_chains_grow(none, song, tick, session_mode, session_slots, 0, t as nat, name);
    lemma_all_chains_grow(
        none,
        song,
        tick,
        session_mode,
        session_slots,
        (t + 1) as nat,
        song.tracks@.len(),
        name,
    );
    let earlier = none.with_tracks(song, tick, session_mode, session_slots, t as nat);
    let after = none.with_tracks(song, tick, session_mode, session_slots, (t + 1) as nat);
    let all = collected(song, tick, session_mode, session_slots);
    let list = track.automation@;
    lemma_chain_grows(earlier, list, tick, t, list.len(), name);
    let wide = earlier.with_lanes(list, tick, t, list.len());
    let i = first_active(track.regions@, tick as int, 0) as int;
    if session_mode {
        if let Some((clip, local_tick)) = sounding_clip(*track, t, session_slots) {
            let held = clip.automation@;
            lemma_chain_grows(wide, held, local_tick, t, held.len(), name);
            if 0 <= k < held.len() && held[k].points@.len() > 0 {
                if let Some((to, slot_index, key)) = drives(held[k], t) {
                    if to == name {
                        let lane = LaneRef { base_offset: local_tick, lane: &held[k] };
                        lemma_driven_stays(
                            after.chain(name),
                            all.chain(name),
                            slot_index,
                            key,
                            lane,
                        );
                    }
                }
            }
        }
    } else if i < track.regions@.len() {
        let region = track.regions@[i];
        let held = region.automation@;
        let offset = (tick - region.start_tick) as usize;
        lemma_chain_grows(wide, held, offset, t, held.len(), name);
        if 0 <= k < held.len() && held[k].points@.len() > 0 {
            if let Some((to, slot_index, key)) = drives(held[k], t) {
                if to == name {
                    let lane = LaneRef { base_offset: offset, lane: &held[k] };
                    lemma_driven_stays(after.chain(name), all.chain(name), slot_index, key, lane);
                }
            }
        }
    }
    if 0 <= k < list.len() && list[k].points@.len() > 0 {
        if let Some((to, slot_index, key)) = drives(list[k], t) {
            if to == name {
                let lane = LaneRef { base_offset: tick, lane: &list[k] };
                lemma_driven_stays(wide.chain(name), after.chain(name), slot_index, key, lane);
                lemma_driven_stays(after.chain(name), all.chain(name), slot_index, key, lane);
            }
        }
    }
}

/// Whether a lane is in effect on a track, from a place of its own: track-wide from that of the tick, in
/// the active region from that of the tick in it, and in session mode in the sounding clip from that of
/// its slot.
pub open spec fn in_effect<'a>(
    track: Track,
    own: usize,
    tick: usize,
    session_mode: bool,
    session_slots: Seq<Vec<SlotState>>,
    lane: LaneRef<'a>,
) -> bool {
    ||| exists|k: int|
        0 <= k < track.automation@.len() && lane == (LaneRef {
            base_offset: tick,
            lane: &#[trigger] track.automation@[k],
        })
    ||| !session_mode && ({
        let i = first_active(track.regions@, tick as int, 0) as int;
        i < track.regions@.len() && exists|k: int|
            0 <= k < track.regions@[i].automation@.len() && lane == (LaneRef {
                base_offset: (tick - track.regions@[i].start_tick) as usize,
                lane: &#[trigger] track.regions@[i].automation@[k],
            })
    })
    ||| session_mode && (sounding_clip(track, own, session_slots) matches Some((clip, local_tick))
        && exists|k: int|
        0 <= k < clip.automation@.len() && lane == (LaneRef {
            base_offset: local_tick,
            lane: &#[trigger] clip.automation@[k],
        }))
}

/// Whether an entry of a chain stands for a lane in effect on one of the first `n` tracks that drives
/// just that parameter.
pub open spec fn is_justified<'a>(
    song: &'a Song,
    tick: usize,
    session_mode: bool,
    session_slots: Seq<Vec<SlotState>>,
    n: nat,
    name: ChainName,
    entry: ParamLane<'a>,
) -> bool {
    exists|u: int|
        #![trigger song.tracks@[u]]
        0 <= u < n && in_effect(
            song.tracks@[u],
            u as usize,
            tick,
            session_mode,
            session_slots,
            entry.lane,
        ) && entry.lane.lane.points@.len() > 0 && drives(*entry.lane.lane, u as usize) == Some(
            (name, entry.slot_index, *entry.key),
        )
}

proof fn lemma_added_entries<'a>(
    lanes: Lanes<'a>,
    list: Seq<AutomationLane>,
    base_offset: usize,
    own: usize,
    n: nat,
    name: ChainName,
)
    requires
        own < lanes.tracks.len(),
        lanes.has_chain(name),
        n <= list.len(),
    ensures
        ({
            let after = lanes.with_lanes(list, base_offset, own, n);
            &&& after.tracks.len() == lanes.tracks.len()
            &&& after.has_chain(name)
            &&& lanes.chain(name).len() <= after.chain(name).len()
            &&& forall|j: int|
                0 <= j < lanes.chain(name).len() ==> #[trigger] after.chain(name)[j]
                    == lanes.chain(name)[j]
            &&& forall|j: int|
                lanes.chain(name).len() <= j < after.chain(name).len() ==> comes_from(
                    list,
                    base_offset,
                    own,
                    name,
                    #[trigger] after.chain(name)[j],
                )
        }),
    decreases n,
{
    if n > 0 {
        lemma_added_entries(lanes, list, base_offset, own, (n - 1) as nat, name);
        let earlier = lanes.with_lanes(list, base_offset, own, (n - 1) as nat);
        let after = lanes.with_lanes(list, base_offset, own, n);
        law_a_lane_drives_the_parameter_it_names(earlier, &list[n - 1], base_offset, own, name);
        lemma_with_lanes_keeps_tracks(lanes, list, base_offset, own, n);
        assert forall|j: int|
            lanes.chain(name).len() <= j < after.chain(name).len() implies comes_from(
            list,
            base_offset,
            own,
            name,
            #[trigger] after.chain(name)[j],
        ) by {
            if j < earlier.chain(name).len() {
                assert(after.chain(name)[j] == earlier.chain(name)[j]);
            } else {
                assert(after.chain(name)[j].lane == (LaneRef { base_offset, lane: &list[n - 1] }));
            }
        }
    }
}

/// Whether an entry of a chain stands for a lane of a list that drives just that parameter.
spec fn comes_from<'a>(
    list: Seq<AutomationLane>,
    base_offset: usize,
    own: usize,
    name: ChainName,
    entry: ParamLane<'a>,
) -> bool {
    exists|k: int|
        0 <= k < list.len() && entry.lane == (LaneRef { base_offset, lane: &#[trigger] list[k] })
            && list[k].points@.len() > 0 && drives(list[k], own) == Some(
            (name, entry.slot_index, *entry.key),
        )
}

proof fn lemma_entries_are_justified<'a>(
    song: &'a Song,
    tick: usize,
    session_mode: bool,
    session_slots: Seq<Vec<SlotState>>,
    n: nat,
    name: ChainName,
)
    requires
        n <= song.tracks@.len(),
        Lanes::<'a>::none(song.tracks@.len(), song.sends@.len()).has_chain(name),
    ensures
        ({
            let chain = Lanes::<'a>::none(song.tracks@.len(), song.sends@.len()).with_tracks(
                song,
                tick,
                session_mode,
                session_slots,
                n,
            ).chain(name);
            forall|j: int|
                0 <= j < chain.len() ==> is_justified(
                    song,
                    tick,
                    session_mode,
                    session_slots,
                    n,
                    name,
                    #[trigger] chain[j],
                )
        }),
    decreases n,
{
    let none = Lanes::<'a>::none(song.tracks@.len(), song.sends@.len());
    lemma_with_tracks_keeps_tracks(none, song, tick, session_mode, session_slots, n);
    if n > 0 {
        let m = (n - 1) as nat;
        lemma_entries_are_justified(song, tick, session_mode, session_slots, m, name);
        lemma_with_tracks_keeps_tracks(none, song, tick, session_mode, session_slots, m);
        assert(song.tracks.len() == song.tracks@.len());
        let earlier = none.with_tracks(song, tick, session_mode, session_slots, m);
        let after = none.with_tracks(song, tick, session_mode, session_slots, n);
        let track = &song.tracks@[n - 1];
        let t = (n - 1) as usize;
        let list = track.automation@;
        lemma_added_entries(earlier, list, tick, t, list.len(), name);
        let wide = earlier.with_lanes(list, tick, t, list.len());
        let i = first_active(track.regions@, tick as int, 0) as int;
        if session_mode {
            if let Some((clip, local_tick)) = sounding_clip(*track, t, session_slots) {
                let held = clip.automation@;
                lemma_added_entries(wide, held, local_tick, t, held.len(), name);
            }
        } else if i < track.regions@.len() {
            let held = track.regions@[i].automation@;
            let offset = (tick - track.regions@[i].start_tick) as usize;
            lemma_added_entries(wide, held, offset, t, held.len(), name);
        }
        let chain = after.chain(name);
        assert forall|j: int| 0 <= j < chain.len() implies is_justified(
            song,
            tick,
            session_mode,
            session_slots,
            n,
            name,
            #[trigger] chain[j],
        ) by {
            let entry = chain[j];
            if j < earlier.chain(name).len() {
                assert(entry == wide.chain(name)[j]);
                assert(entry == earlier.chain(name)[j]);
                assert(is_justified(song, tick, session_mode, session_slots, m, name, entry));
                let u = choose|u: int|
                    #![trigger song.tracks@[u]]
                    0 <= u < m && in_effect(
                        song.tracks@[u],
                        u as usize,
                        tick,
                        session_mode,
                        session_slots,
                        entry.lane,
                    ) && entry.lane.lane.points@.len() > 0 && drives(
                        *entry.lane.lane,
                        u as usize,
                    ) == Some((name, entry.slot_index, *entry.key));
                assert(0 <= u < n);
                assert(song.tracks@[u] == song.tracks@[u]);
            } else if j < wide.chain(name).len() {
                assert(entry == wide.chain(name)[j]);
                assert(comes_from(list, tick, t, name, entry));
                let k = choose|k: int|
                    0 <= k < list.len() && entry.lane == (LaneRef {
                        base_offset: tick,
                        lane: &#[trigger] list[k],
                    }) && list[k].points@.len() > 0 && drives(list[k], t) == Some(
                        (name, entry.slot_index, *entry.key),
                    );
                assert(track.automation@[k] == list[k]);
                assert(in_effect(
                    song.tracks@[n - 1],
                    t,
                    tick,
                    session_mode,
                    session_slots,
                    entry.lane,
                ));
            } else if session_mode {
                let (clip, local_tick) = sounding_clip(*track, t, session_slots)->0;
                assert(comes_from(clip.automation@, local_tick, t, name, entry));
                assert(in_effect(
                    song.tracks@[n - 1],
                    t,
                    tick,
                    session_mode,
                    session_slots,
                    entry.lane,
                ));
            } else {
                let held = track.regions@[i].automation@;
                let offset = (tick - track.regions@[i].start_tick) as usize;
                assert(comes_from(held, offset, t, name, entry));
                let k = choose|k: int|
                    0 <= k < held.len() && entry.lane == (LaneRef {
                        base_offset: offset,
                        lane: &#[trigger] held[k],
                    }) && held[k].points@.len() > 0 && drives(held[k], t) == Some(
                        (name, entry.slot_index, *entry.key),
                    );
                assert(track.regions@[i].automation@[k] == held[k]);
                assert(in_effect(
                    song.tracks@[n - 1],
                    t,
                    tick,
                    session_mode,
                    session_slots,
                    entry.lane,
                ));
            }
        }
    }
}

/// Nothing drives a parameter but a lane in effect that names it: every lane that is collected for a
/// chain is track-wide or of the active region or sounding clip of some track, has points, and names
/// that chain, slot and parameter.
pub proof fn law_only_lanes_in_effect_drive_a_parameter<'a>(
    song: &'a Song,
    tick: usize,
    session_mode: bool,
    session_slots: Seq<Vec<SlotState>>,
    name: ChainName,
    j: int,
)
    requires
        Lanes::<'a>::none(song.tracks@.len(), song.sends@.len()).has_chain(name),
        0 <= j < collected(song, tick, session_mode, session_slots).chain(name).len(),
    ensures
        is_justified(
            song,
            tick,
            session_mode,
            session_slots,
            song.tracks@.len(),
            name,
            collected(song, tick, session_mode, session_slots).chain(name)[j],
        ),
{
    lemma_entries_are_justified(
        song,
        tick,
        session_mode,
        session_slots,
        song.tracks@.len(),
        name,
    );
}

} // verus!
