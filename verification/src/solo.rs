//! Which tracks are heard: the mute and solo rule over tracks and submix buses.

use vstd::prelude::*;

use crate::model::{Song, SubmixBus, Track, TrackOutput};

verus! {

/// The submix bus a track is routed into, if it has one and the bus exists.
pub open spec fn submix_of(song: Song, track: Track) -> Option<SubmixBus> {
    match track.output {
        TrackOutput::Submix(index) => if index < song.submixes@.len() {
            Some(song.submixes@[index as int])
        } else {
            None
        },
        TrackOutput::Master => None,
    }
}

/// Whether any track or submix bus is soloed.
pub open spec fn any_solo(song: Song) -> bool {
    ||| exists|t: int| 0 <= t < song.tracks@.len() && (#[trigger] song.tracks@[t]).solo
    ||| exists|s: int| 0 <= s < song.submixes@.len() && (#[trigger] song.submixes@[s]).solo
}

/// Whether a track is soloed itself or through its submix bus.
pub open spec fn soloed(song: Song, track: Track) -> bool {
    track.solo || (submix_of(song, track) matches Some(submix) && submix.solo)
}

/// Whether a track is muted itself or through its submix bus.
pub open spec fn muted(song: Song, track: Track) -> bool {
    track.muted || (submix_of(song, track) matches Some(submix) && submix.muted)
}

/// While anything is soloed, only what is soloed is heard, muted or not; otherwise everything but
/// what is muted.
pub open spec fn silent(song: Song, track: Track) -> bool {
    if any_solo(song) {
        !soloed(song, track)
    } else {
        muted(song, track)
    }
}

/// Which of the arrangement's tracks play, and whether they play live.
#[derive(Clone, Copy, Debug, PartialEq, Eq, Structural)]
pub struct Selection {
    /// Every track plays, whatever is muted or soloed.
    pub every_track: bool,
    /// This track plays its live content even while it is frozen, because it is baked down again.
    pub live_track: Option<usize>,
}

/// Whether a track plays the clip it was frozen to in place of its live content.
pub open spec fn plays_frozen(selection: Selection, track: Track, t: int) -> bool {
    track.frozen && (selection.live_track matches Some(live) ==> live != t)
}

/// Whether `track` plays the clip it was frozen to in place of its live content.
pub fn track_plays_frozen(selection: Selection, track: &Track, track_index: usize) -> (r: bool)
    ensures
        r == plays_frozen(selection, *track, track_index as int),
{
    track.frozen && match selection.live_track {
        Some(live) => live != track_index,
        None => true,
    }
}

/// Whether a track is left out of the arrangement: it is silent, unless every track is to play.
pub open spec fn hushed(song: Song, selection: Selection, track: Track) -> bool {
    !selection.every_track && silent(song, track)
}

/// Whether any track or submix bus of the song is soloed.
pub fn has_solo(song: &Song) -> (found: bool)
    ensures
        found == any_solo(*song),
{
    let mut t: usize = 0;
    while t < song.tracks.len()
        invariant
            t <= song.tracks@.len(),
            forall|i: int| 0 <= i < t ==> !(#[trigger] song.tracks@[i]).solo,
        decreases song.tracks@.len() - t,
    {
        if song.tracks[t].solo {
            return true;
        }
        t += 1;
    }
    let mut s: usize = 0;
    while s < song.submixes.len()
        invariant
            s <= song.submixes@.len(),
            forall|i: int| 0 <= i < song.tracks@.len() ==> !(#[trigger] song.tracks@[i]).solo,
            forall|i: int| 0 <= i < s ==> !(#[trigger] song.submixes@[i]).solo,
        decreases song.submixes@.len() - s,
    {
        if song.submixes[s].solo {
            return true;
        }
        s += 1;
    }
    false
}

/// Whether `track` is not to be heard, given whether anything in the song is soloed.
pub fn track_silent(song: &Song, track: &Track, solo_active: bool) -> (hushed: bool)
    requires
        solo_active == any_solo(*song),
    ensures
        hushed == silent(*song, *track),
{
    let mut submix_solo: bool = false;
    let mut submix_muted: bool = false;
    if let TrackOutput::Submix(index) = track.output {
        if index < song.submixes.len() {
            submix_solo = song.submixes[index].solo;
            submix_muted = song.submixes[index].muted;
        }
    }
    if solo_active {
        !(track.solo || submix_solo)
    } else {
        track.muted || submix_muted
    }
}

/// Whether `track` is left out of the arrangement.
pub fn track_hushed(song: &Song, selection: Selection, track: &Track, solo_active: bool) -> (r: bool)
    requires
        solo_active == any_solo(*song),
    ensures
        r == hushed(*song, selection, *track),
{
    !selection.every_track && track_silent(song, track, solo_active)
}

/// Soloing wins over muting: a soloed track is heard whatever else is muted or soloed.
pub proof fn law_a_soloed_track_is_heard(song: Song, t: int)
    requires
        0 <= t < song.tracks@.len(),
        song.tracks@[t].solo,
    ensures
        !silent(song, song.tracks@[t]),
{
}

/// Where every track is to play, as in a bounce, none is left out: mute and solo are not consulted.
pub proof fn law_a_bounce_leaves_no_track_out(song: Song, selection: Selection, track: Track)
    requires
        selection.every_track,
    ensures
        !hushed(song, selection, track),
{
}

/// Soloing a submix bus acts like soloing each of its member tracks: they are heard, and every
/// track that is soloed in neither way is not.
pub proof fn law_a_soloed_submix_solos_its_members(song: Song, s: usize, track: Track)
    requires
        s < song.submixes@.len(),
        song.submixes@[s as int].solo,
    ensures
        track.output == TrackOutput::Submix(s) ==> !silent(song, track),
        !soloed(song, track) ==> silent(song, track),
{
}

/// Muting a submix bus silences each of its member tracks, as long as nothing is soloed.
pub proof fn law_a_muted_submix_silences_its_members(song: Song, s: usize, track: Track)
    requires
        s < song.submixes@.len(),
        song.submixes@[s as int].muted,
        !any_solo(song),
        track.output == TrackOutput::Submix(s),
    ensures
        silent(song, track),
{
}

/// With nothing soloed, muting a track silences it, wherever it is routed; a track that is not muted
/// is heard unless its submix bus is muted.
pub proof fn law_mute_decides_while_nothing_is_soloed(song: Song, track: Track)
    requires
        forall|t: int| 0 <= t < song.tracks@.len() ==> !(#[trigger] song.tracks@[t]).solo,
        forall|s: int| 0 <= s < song.submixes@.len() ==> !(#[trigger] song.submixes@[s]).solo,
    ensures
        track.muted ==> silent(song, track),
        !track.muted && track.output == TrackOutput::Master ==> !silent(song, track),
        track.output matches TrackOutput::Submix(s) ==> (s < song.submixes@.len()
            && song.submixes@[s as int].muted ==> silent(song, track)),
        track.output matches TrackOutput::Submix(s) ==> (!track.muted && (s < song.submixes@.len()
            ==> !song.submixes@[s as int].muted) ==> !silent(song, track)),
{
}

/// As soon as any track is soloed, solo decides and mute does not count: a soloed track is heard, and
/// so is one on a soloed submix bus; every other track is silent.
pub proof fn law_solo_decides_once_a_track_is_soloed(song: Song, soloist: int, track: Track)
    requires
        0 <= soloist < song.tracks@.len(),
        song.tracks@[soloist].solo,
    ensures
        track.solo ==> !silent(song, track),
        !track.solo && track.output == TrackOutput::Master ==> silent(song, track),
        track.output matches TrackOutput::Submix(s) ==> (s < song.submixes@.len()
            && song.submixes@[s as int].solo ==> !silent(song, track)),
        track.output matches TrackOutput::Submix(s) ==> (!track.solo && (s < song.submixes@.len()
            ==> !song.submixes@[s as int].solo) ==> silent(song, track)),
{
}

/// Soloing a submix bus decides in the same way as soloing a track: its members and whatever else is
/// soloed are heard, muted or not, and every other track is silent.
pub proof fn law_solo_decides_once_a_submix_is_soloed(song: Song, soloist: int, track: Track)
    requires
        0 <= soloist < song.submixes@.len(),
        song.submixes@[soloist].solo,
    ensures
        track.solo ==> !silent(song, track),
        !track.solo && track.output == TrackOutput::Master ==> silent(song, track),
        track.output matches TrackOutput::Submix(s) ==> (s < song.submixes@.len()
            && song.submixes@[s as int].solo ==> !silent(song, track)),
        track.output matches TrackOutput::Submix(s) ==> (!track.solo && (s < song.submixes@.len()
            ==> !song.submixes@[s as int].solo) ==> silent(song, track)),
{
}

/// Something is soloed exactly when some track or some submix bus is.
pub proof fn law_solo_is_looked_for_everywhere(song: Song)
    ensures
        forall|t: int|
            0 <= t < song.tracks@.len() && (#[trigger] song.tracks@[t]).solo ==> any_solo(song),
        forall|s: int|
            0 <= s < song.submixes@.len() && (#[trigger] song.submixes@[s]).solo ==> any_solo(song),
        (forall|t: int| 0 <= t < song.tracks@.len() ==> !(#[trigger] song.tracks@[t]).solo) && (
        forall|s: int| 0 <= s < song.submixes@.len() ==> !(#[trigger] song.submixes@[s]).solo)
            ==> !any_solo(song),
{
}

/// Unless every track is to play, exactly the silent ones are left out.
pub proof fn law_playback_leaves_the_silent_tracks_out(
    song: Song,
    selection: Selection,
    track: Track,
)
    requires
        !selection.every_track,
    ensures
        hushed(song, selection, track) <==> silent(song, track),
{
}

/// A frozen track plays the clip it was frozen to, unless it is the one that is baked down; a track
/// that is not frozen plays live.
pub proof fn law_freezing_a_track_replaces_its_live_content(
    selection: Selection,
    track: Track,
    t: usize,
)
    ensures
        !track.frozen ==> !plays_frozen(selection, track, t as int),
        selection.live_track == Some(t) ==> !plays_frozen(selection, track, t as int),
        track.frozen && selection.live_track != Some(t) ==> plays_frozen(
            selection,
            track,
            t as int,
        ),
{
}

} // verus!
