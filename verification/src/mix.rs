//! Where each track's signal goes in the mix, and what rides its faders on the way.

use vstd::prelude::*;

use crate::automation::{
    lane_on_send, AutomationOverrides, LaneRef, SendLane, TrackAutomationOverride,
};
use crate::model::{EffectParamKey, Song, Track, TrackOutput};
use crate::number::Real32;

verus! {

/// What sets a fader during a buffer: an automation lane where there is one, or its own setting.
#[derive(Clone, Copy)]
pub enum Fader<'a> {
    Lane(LaneRef<'a>),
    Setting(Real32),
}

/// The bus a track's post-fader signal is summed into.
#[derive(Clone, Copy, Debug, PartialEq, Eq, Structural)]
pub enum MixBus {
    Master,
    Submix(usize),
    /// The submix bus it is routed to does not exist, so the signal is dropped.
    Nowhere,
}

/// One send bus that a track feeds, and at what level.
#[derive(Clone, Copy)]
pub struct SendFeed<'a> {
    pub send_index: usize,
    pub level: Fader<'a>,
}

/// One track's way through the mix.
pub struct TrackMix<'a> {
    /// Whether the track's own effect chain runs. A frozen track's signal has been through it.
    pub runs_chain: bool,
    pub volume: Fader<'a>,
    pub pan: Fader<'a>,
    pub bus: MixBus,
    pub sends: Vec<SendFeed<'a>>,
}

/// A lane if there is one, or else a setting.
pub open spec fn fader<'a>(lane: Option<LaneRef<'a>>, setting: Real32) -> Fader<'a> {
    match lane {
        Some(lane) => Fader::Lane(lane),
        None => Fader::Setting(setting),
    }
}

/// The bus a track's output leads to, given how many submix buses there are.
pub open spec fn bus_of(output: TrackOutput, submix_count: nat) -> MixBus {
    match output {
        TrackOutput::Master => MixBus::Master,
        TrackOutput::Submix(index) => if index < submix_count {
            MixBus::Submix(index)
        } else {
            MixBus::Nowhere
        },
    }
}

/// What a track feeds a send with: the lane that rides its level, or its level where that is not
/// zero.
pub open spec fn feed_of<'a>(lanes: Seq<SendLane<'a>>, send_index: usize, level: Real32) -> Seq<
    SendFeed<'a>,
> {
    let lane = lane_on_send(lanes, send_index, lanes.len());
    if lane is Some || !level.zero() {
        seq![SendFeed { send_index, level: fader(lane, level) }]
    } else {
        Seq::empty()
    }
}

/// What a track feeds the first `n` of its sends with. A send bus that does not exist gets nothing.
pub open spec fn feeds<'a>(
    lanes: Seq<SendLane<'a>>,
    levels: Seq<Real32>,
    send_count: nat,
    n: nat,
) -> Seq<SendFeed<'a>>
    decreases n,
{
    if n == 0 {
        Seq::empty()
    } else {
        let earlier = feeds(lanes, levels, send_count, (n - 1) as nat);
        if n - 1 < send_count {
            earlier + feed_of(lanes, (n - 1) as usize, levels[n - 1])
        } else {
            earlier
        }
    }
}

/// Whether `mix` is a track's way through the mix.
pub open spec fn mixes<'a>(
    song: Song,
    track: Track,
    automation: TrackAutomationOverride<'a>,
    mix: TrackMix<'a>,
) -> bool {
    &&& mix.runs_chain == !track.frozen
    &&& mix.volume == fader(automation.volume, track.volume)
    &&& mix.pan == fader(automation.pan, track.pan)
    &&& mix.bus == bus_of(track.output, song.submixes@.len())
    &&& mix.sends@ == feeds(
        automation.send_levels@,
        track.send_levels@,
        song.sends@.len(),
        track.send_levels@.len(),
    )
}

fn fader_of<'a>(lane: Option<LaneRef<'a>>, setting: Real32) -> (f: Fader<'a>)
    ensures
        f == fader(lane, setting),
{
    match lane {
        Some(lane) => Fader::Lane(lane),
        None => Fader::Setting(setting),
    }
}

fn find_send_lane<'a>(lanes: &Vec<SendLane<'a>>, send_index: usize) -> (lane: Option<LaneRef<'a>>)
    ensures
        lane == lane_on_send(lanes@, send_index, lanes@.len()),
{
    let mut n: usize = lanes.len();
    while n > 0
        invariant
            n <= lanes@.len(),
            lane_on_send(lanes@, send_index, lanes@.len()) == lane_on_send(
                lanes@,
                send_index,
                n as nat,
            ),
        decreases n,
    {
        if lanes[n - 1].send_index == send_index {
            return Some(lanes[n - 1].lane);
        }
        n -= 1;
    }
    None
}

/// One track's way through the mix.
pub fn track_mix<'a>(
    song: &Song,
    track: &Track,
    automation: &TrackAutomationOverride<'a>,
) -> (mix: TrackMix<'a>)
    ensures
        mixes(*song, *track, *automation, mix),
{
    let bus = match track.output {
        TrackOutput::Master => MixBus::Master,
        TrackOutput::Submix(index) => if index < song.submixes.len() {
            MixBus::Submix(index)
        } else {
            MixBus::Nowhere
        },
    };
    let mut sends: Vec<SendFeed<'a>> = Vec::new();
    let mut i: usize = 0;
    while i < track.send_levels.len()
        invariant
            i <= track.send_levels@.len(),
            sends@ == feeds(
                automation.send_levels@,
                track.send_levels@,
                song.sends@.len(),
                i as nat,
            ),
        decreases track.send_levels@.len() - i,
    {
        let ghost earlier = sends@;
        if i < song.sends.len() {
            let level: Real32 = track.send_levels[i];
            let lane = find_send_lane(&automation.send_levels, i);
            if lane.is_some() || !level.is_zero() {
                let feed = SendFeed { send_index: i, level: fader_of(lane, level) };
                sends.push(feed);
                assert(sends@ =~= earlier + seq![feed]);
            } else {
                assert(sends@ =~= earlier + Seq::<SendFeed<'a>>::empty());
            }
        }
        i += 1;
    }
    TrackMix {
        runs_chain: !track.frozen,
        volume: fader_of(automation.volume, track.volume),
        pan: fader_of(automation.pan, track.pan),
        bus,
        sends,
    }
}

/// Every track's way through the mix, in track order.
pub fn mix_plan<'a>(song: &Song, overrides: &AutomationOverrides<'a>) -> (plan: Vec<TrackMix<'a>>)
    requires
        overrides@.tracks.len() == song.tracks@.len(),
    ensures
        plan@.len() == song.tracks@.len(),
        forall|t: int|
            0 <= t < song.tracks@.len() ==> mixes(
                *song,
                song.tracks@[t],
                overrides.tracks@[t],
                #[trigger] plan@[t],
            ),
{
    let mut plan: Vec<TrackMix<'a>> = Vec::new();
    let mut t: usize = 0;
    while t < song.tracks.len()
        invariant
            t <= song.tracks@.len(),
            plan@.len() == t,
            overrides.tracks@.len() == song.tracks@.len(),
            forall|k: int|
                0 <= k < t ==> mixes(
                    *song,
                    song.tracks@[k],
                    overrides.tracks@[k],
                    #[trigger] plan@[k],
                ),
        decreases song.tracks@.len() - t,
    {
        plan.push(track_mix(song, &song.tracks[t], &overrides.tracks[t]));
        t += 1;
    }
    plan
}

/// What sits in a slot of an effect chain.
#[derive(Clone, Copy, Debug, PartialEq, Eq, Structural)]
pub enum EffectKind {
    Clap,
    BuiltIn,
}

/// Whether an automated parameter reaches the effect in a slot: there has to be one, of the kind
/// that the parameter is named after.
pub open spec fn reaches(chain: Seq<Option<EffectKind>>, slot_index: usize, key: EffectParamKey)
    -> bool {
    &&& slot_index < chain.len()
    &&& match key {
        EffectParamKey::Clap { .. } => chain[slot_index as int] == Some(EffectKind::Clap),
        EffectParamKey::BuiltIn { .. } => chain[slot_index as int] == Some(EffectKind::BuiltIn),
    }
}

/// Whether an automated parameter reaches the effect in a slot of the chain.
pub fn param_reaches(
    chain: &Vec<Option<EffectKind>>,
    slot_index: usize,
    key: &EffectParamKey,
) -> (r: bool)
    ensures
        r == reaches(chain@, slot_index, *key),
{
    if slot_index >= chain.len() {
        return false;
    }
    match (chain[slot_index], key) {
        (Some(EffectKind::Clap), EffectParamKey::Clap { .. }) => true,
        (Some(EffectKind::BuiltIn), EffectParamKey::BuiltIn { .. }) => true,
        _ => false,
    }
}

/// A track routed to a submix bus never feeds the master bus directly: its signal reaches the mix
/// through the bus or not at all.
pub proof fn law_submix_stands_in_for_its_members<'a>(
    song: Song,
    track: Track,
    automation: TrackAutomationOverride<'a>,
    mix: TrackMix<'a>,
)
    requires
        mixes(song, track, automation, mix),
    ensures
        mix.bus == MixBus::Master <==> track.output == TrackOutput::Master,
        forall|s: usize|
            mix.bus == MixBus::Submix(s) <==> track.output == TrackOutput::Submix(s) && s
                < song.submixes@.len(),
{
}

/// A send bus is fed at most once by a track, and only if the bus exists.
pub proof fn law_each_send_is_fed_at_most_once<'a>(
    song: Song,
    track: Track,
    automation: TrackAutomationOverride<'a>,
    mix: TrackMix<'a>,
)
    requires
        mixes(song, track, automation, mix),
    ensures
        forall|i: int, j: int|
            0 <= i < j < mix.sends@.len() ==> (#[trigger] mix.sends@[i]).send_index < (
            #[trigger] mix.sends@[j]).send_index,
        forall|i: int|
            0 <= i < mix.sends@.len() ==> (#[trigger] mix.sends@[i]).send_index
                < song.sends@.len(),
{
    assert(track.send_levels.len() == track.send_levels@.len());
    lemma_feeds_rise(
        automation.send_levels@,
        track.send_levels@,
        song.sends@.len(),
        track.send_levels@.len(),
    );
}

proof fn lemma_feeds_rise<'a>(
    lanes: Seq<SendLane<'a>>,
    levels: Seq<Real32>,
    send_count: nat,
    n: nat,
)
    requires
        n <= usize::MAX,
    ensures
        ({
            let f = feeds(lanes, levels, send_count, n);
            &&& forall|i: int, j: int|
                0 <= i < j < f.len() ==> (#[trigger] f[i]).send_index < (#[trigger] f[j]).send_index
            &&& forall|i: int|
                0 <= i < f.len() ==> (#[trigger] f[i]).send_index < n && f[i].send_index
                    < send_count
        }),
    decreases n,
{
    if n > 0 {
        lemma_feeds_rise(lanes, levels, send_count, (n - 1) as nat);
    }
}

/// Automation wins over a fader's own setting for as long as a lane rides it, and only then. A
/// frozen track's chain does not run again.
pub proof fn law_a_lane_overrides_the_setting<'a>(
    song: Song,
    track: Track,
    automation: TrackAutomationOverride<'a>,
    mix: TrackMix<'a>,
)
    requires
        mixes(song, track, automation, mix),
    ensures
        mix.runs_chain <==> !track.frozen,
        automation.volume matches Some(lane) ==> mix.volume == Fader::Lane(lane),
        automation.volume is None ==> mix.volume == Fader::<'a>::Setting(track.volume),
        automation.pan matches Some(lane) ==> mix.pan == Fader::Lane(lane),
        automation.pan is None ==> mix.pan == Fader::<'a>::Setting(track.pan),
        track.output matches TrackOutput::Submix(s) ==> (s >= song.submixes@.len() ==> mix.bus
            == MixBus::Nowhere),
{
}

/// Whether a track feeds a send bus at a given level.
pub open spec fn feeds_send<'a>(mix: TrackMix<'a>, send_index: usize, level: Fader<'a>) -> bool {
    exists|j: int|
        0 <= j < mix.sends@.len() && #[trigger] mix.sends@[j] == (SendFeed { send_index, level })
}

proof fn lemma_lane_on_send<'a>(lanes: Seq<SendLane<'a>>, send_index: usize, n: nat)
    requires
        n <= lanes.len(),
    ensures
        forall|k: int|
            0 <= k < n && (#[trigger] lanes[k]).send_index == send_index && (forall|i: int|
                k < i < n ==> (#[trigger] lanes[i]).send_index != send_index) ==> lane_on_send(
                lanes,
                send_index,
                n,
            ) == Some(lanes[k].lane),
        (forall|k: int| 0 <= k < n ==> (#[trigger] lanes[k]).send_index != send_index)
            ==> lane_on_send(lanes, send_index, n) is None,
    decreases n,
{
    if n > 0 {
        lemma_lane_on_send(lanes, send_index, (n - 1) as nat);
    }
}

proof fn lemma_feeds_hold<'a>(
    lanes: Seq<SendLane<'a>>,
    levels: Seq<Real32>,
    send_count: nat,
    n: nat,
    s: usize,
)
    requires
        n <= usize::MAX,
        s < n,
    ensures
        ({
            let f = feeds(lanes, levels, send_count, n);
            &&& s < send_count && feed_of(lanes, s, levels[s as int]).len() > 0 ==> exists|j: int|
                0 <= j < f.len() && #[trigger] f[j] == feed_of(lanes, s, levels[s as int])[0]
            &&& s >= send_count || feed_of(lanes, s, levels[s as int]).len() == 0 ==> forall|
                j: int,
            |
                0 <= j < f.len() ==> (#[trigger] f[j]).send_index != s
        }),
    decreases n,
{
    let f = feeds(lanes, levels, send_count, n);
    let earlier = feeds(lanes, levels, send_count, (n - 1) as nat);
    lemma_feeds_rise(lanes, levels, send_count, (n - 1) as nat);
    if s < n - 1 {
        lemma_feeds_hold(lanes, levels, send_count, (n - 1) as nat, s);
        if s < send_count && feed_of(lanes, s, levels[s as int]).len() > 0 {
            let j = choose|j: int|
                0 <= j < earlier.len() && #[trigger] earlier[j] == feed_of(
                    lanes,
                    s,
                    levels[s as int],
                )[0];
            assert(f[j] == earlier[j]);
        }
    } else if s < send_count && feed_of(lanes, s, levels[s as int]).len() > 0 {
        assert(f[earlier.len() as int] == feed_of(lanes, s, levels[s as int])[0]);
    }
}

/// A send is fed by the lane that rides its level, the last of them where there are several, and
/// else at the level that is set; a level of zero that nothing rides feeds nothing, and neither does
/// one for a bus that does not exist.
pub proof fn law_a_send_is_fed_by_its_lane_or_at_its_level<'a>(
    song: Song,
    track: Track,
    automation: TrackAutomationOverride<'a>,
    mix: TrackMix<'a>,
    s: usize,
)
    requires
        mixes(song, track, automation, mix),
        s < track.send_levels@.len(),
    ensures
        forall|k: int|
            s < song.sends@.len() && 0 <= k < automation.send_levels@.len() && (
            #[trigger] automation.send_levels@[k]).send_index == s && (forall|i: int|
                k < i < automation.send_levels@.len() ==> (
                #[trigger] automation.send_levels@[i]).send_index != s) ==> feeds_send(
                mix,
                s,
                Fader::Lane(automation.send_levels@[k].lane),
            ),
        (forall|k: int|
            0 <= k < automation.send_levels@.len() ==> (
            #[trigger] automation.send_levels@[k]).send_index != s) ==> {
            let level = track.send_levels@[s as int];
            &&& s < song.sends@.len() && level.bits != 0 && level.bits != 0x8000_0000
                ==> feeds_send(mix, s, Fader::Setting(level))
            &&& level.bits == 0 || level.bits == 0x8000_0000 ==> forall|j: int|
                0 <= j < mix.sends@.len() ==> (#[trigger] mix.sends@[j]).send_index != s
        },
        s >= song.sends@.len() ==> forall|j: int|
            0 <= j < mix.sends@.len() ==> (#[trigger] mix.sends@[j]).send_index != s,
{
    let lanes = automation.send_levels@;
    assert(track.send_levels.len() == track.send_levels@.len());
    lemma_lane_on_send(lanes, s, lanes.len());
    lemma_feeds_hold(lanes, track.send_levels@, song.sends@.len(), track.send_levels@.len(), s);
}

/// A parameter reaches an effect only where the slot it names holds one of its own kind.
pub proof fn law_a_parameter_reaches_its_own_kind(
    chain: Seq<Option<EffectKind>>,
    slot_index: usize,
    key: EffectParamKey,
)
    ensures
        slot_index >= chain.len() ==> !reaches(chain, slot_index, key),
        slot_index < chain.len() && chain[slot_index as int] is None ==> !reaches(
            chain,
            slot_index,
            key,
        ),
        slot_index < chain.len() && chain[slot_index as int] == Some(EffectKind::Clap) ==> (reaches(
            chain,
            slot_index,
            key,
        ) <==> key is Clap),
        slot_index < chain.len() && chain[slot_index as int] == Some(EffectKind::BuiltIn) ==> (
        reaches(chain, slot_index, key) <==> key is BuiltIn),
{
}

} // verus!
