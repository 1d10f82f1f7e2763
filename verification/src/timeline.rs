//! Where things lie on the timeline: region spans, step positions and the arrangement's length.

use vstd::prelude::*;

use crate::model::{
    AudioClip, Lane, Region, Song, StepData, TakeFolder, Track, TICKS_PER_STEP,
};

verus! {

/// The tick just past a region's on-timeline span.
pub open spec fn region_end(region: Region) -> int {
    region.start_tick + region.loop_length_steps * TICKS_PER_STEP
}

/// Whether a region's on-timeline span contains `tick`.
pub open spec fn region_active(region: Region, tick: int) -> bool {
    region.start_tick <= tick < region_end(region)
}

/// How long a region's content runs before it repeats.
pub open spec fn content_length(region: Region) -> int {
    region.content_length_steps * TICKS_PER_STEP
}

/// The tick of a region's own content that sounds at `tick` of the timeline. A span shorter than
/// the content truncates it, a longer one loops it.
pub open spec fn region_local_tick(region: Region, tick: int) -> int {
    (tick - region.start_tick) % (if content_length(region) > 1 { content_length(region) } else { 1 })
}

/// The tick just past an audio clip.
pub open spec fn clip_end(clip: AudioClip) -> int {
    clip.start_tick + clip.length_ticks
}

/// The tick just past a take folder.
pub open spec fn folder_end(folder: TakeFolder) -> int {
    folder.start_tick + folder.length_ticks
}

impl Region {
    /// The region's span and content length can be counted in a `usize`.
    pub open spec fn fits(self) -> bool {
        region_end(self) <= usize::MAX && content_length(self) <= usize::MAX
    }
}

impl Track {
    /// Every tick position on the track can be counted in a `usize`.
    pub open spec fn fits(self) -> bool {
        &&& forall|i: int| 0 <= i < self.regions@.len() ==> (#[trigger] self.regions@[i]).fits()
        &&& forall|i: int|
            0 <= i < self.audio_clips@.len() && (#[trigger] self.audio_clips@[i]).buffer is Some
                ==> clip_end(self.audio_clips@[i]) <= usize::MAX
        &&& forall|i: int|
            0 <= i < self.take_folders@.len() ==> folder_end(#[trigger] self.take_folders@[i])
                <= usize::MAX
    }
}

impl Song {
    /// Every tick position in the song can be counted in a `usize`.
    pub open spec fn fits(self) -> bool {
        forall|t: int| 0 <= t < self.tracks@.len() ==> (#[trigger] self.tracks@[t]).fits()
    }
}

/// Whether a region's span and content length can be counted in a `usize`.
fn region_fits(region: &Region) -> (r: bool)
    ensures
        r == region.fits(),
{
    let most: usize = usize::MAX / TICKS_PER_STEP;
    region.content_length_steps <= most && region.loop_length_steps <= most
        && region.loop_length_steps * TICKS_PER_STEP <= usize::MAX - region.start_tick
}

/// Whether every tick position on a track can be counted in a `usize`.
fn track_fits(track: &Track) -> (r: bool)
    ensures
        r == track.fits(),
{
    let mut i: usize = 0;
    while i < track.regions.len()
        invariant
            i <= track.regions@.len(),
            forall|k: int| 0 <= k < i ==> (#[trigger] track.regions@[k]).fits(),
        decreases track.regions@.len() - i,
    {
        if !region_fits(&track.regions[i]) {
            assert(!track.regions@[i as int].fits());
            return false;
        }
        i += 1;
    }
    let mut c: usize = 0;
    while c < track.audio_clips.len()
        invariant
            c <= track.audio_clips@.len(),
            forall|k: int|
                0 <= k < c && (#[trigger] track.audio_clips@[k]).buffer is Some ==> clip_end(
                    track.audio_clips@[k],
                ) <= usize::MAX,
        decreases track.audio_clips@.len() - c,
    {
        let clip = &track.audio_clips[c];
        if clip.buffer.is_some() && clip.length_ticks > usize::MAX - clip.start_tick {
            assert(clip_end(track.audio_clips@[c as int]) > usize::MAX);
            return false;
        }
        c += 1;
    }
    let mut f: usize = 0;
    while f < track.take_folders.len()
        invariant
            f <= track.take_folders@.len(),
            forall|k: int|
                0 <= k < f ==> folder_end(#[trigger] track.take_folders@[k]) <= usize::MAX,
        decreases track.take_folders@.len() - f,
    {
        let folder = &track.take_folders[f];
        if folder.length_ticks > usize::MAX - folder.start_tick {
            assert(folder_end(track.take_folders@[f as int]) > usize::MAX);
            return false;
        }
        f += 1;
    }
    true
}

/// Whether every tick position in the song can be counted in a `usize`. A host asks this of a song
/// it has been handed before it plays it.
pub fn song_fits(song: &Song) -> (r: bool)
    ensures
        r == song.fits(),
{
    let mut t: usize = 0;
    while t < song.tracks.len()
        invariant
            t <= song.tracks@.len(),
            forall|k: int| 0 <= k < t ==> (#[trigger] song.tracks@[k]).fits(),
        decreases song.tracks@.len() - t,
    {
        if !track_fits(&song.tracks[t]) {
            assert(!song.tracks@[t as int].fits());
            return false;
        }
        t += 1;
    }
    true
}

/// The index of the first region at or after `from` whose span contains `tick`, or the number of
/// regions if there is none.
pub open spec fn first_active(regions: Seq<Region>, tick: int, from: nat) -> nat
    decreases regions.len() - from,
{
    if from >= regions.len() {
        regions.len()
    } else if region_active(regions[from as int], tick) {
        from
    } else {
        first_active(regions, tick, from + 1)
    }
}

/// Whether a region's on-timeline span contains `tick`.
pub fn is_active(region: &Region, tick: usize) -> (active: bool)
    requires
        region.fits(),
    ensures
        active == region_active(*region, tick as int),
{
    region.start_tick <= tick && tick < region.start_tick + region.loop_length_steps
        * TICKS_PER_STEP
}

/// The first region (if any) on `track` whose on-timeline span contains `tick`.
pub fn active_region_at<'a>(track: &'a Track, tick: usize) -> (region: Option<&'a Region>)
    requires
        track.fits(),
    ensures
        region == ({
            let i = first_active(track.regions@, tick as int, 0);
            if i < track.regions@.len() {
                Some(&track.regions@[i as int])
            } else {
                None
            }
        }),
        region matches Some(found) ==> region_active(*found, tick as int),
{
    let mut i: usize = 0;
    while i < track.regions.len()
        invariant
            track.fits(),
            i <= track.regions@.len(),
            first_active(track.regions@, tick as int, i as nat) == first_active(
                track.regions@,
                tick as int,
                0,
            ),
        decreases track.regions@.len() - i,
    {
        assert(track.regions@[i as int].fits());
        if is_active(&track.regions[i], tick) {
            return Some(&track.regions[i]);
        }
        i += 1;
    }
    None
}

/// A region that is active at some tick of a track, and how far into its span that tick is.
#[derive(Clone, Copy, Debug, PartialEq, Eq, Structural)]
pub struct RegionOffset {
    pub region: usize,
    pub offset_ticks: usize,
}

/// Of the first `n` regions, those active at `tick`, in order, each with its offset.
pub open spec fn active_offsets(regions: Seq<Region>, n: nat, tick: int) -> Seq<RegionOffset>
    decreases n,
{
    if n == 0 {
        Seq::empty()
    } else {
        let earlier = active_offsets(regions, (n - 1) as nat, tick);
        if region_active(regions[n - 1], tick) {
            earlier.push(
                RegionOffset {
                    region: (n - 1) as usize,
                    offset_ticks: (tick - regions[n - 1].start_tick) as usize,
                },
            )
        } else {
            earlier
        }
    }
}

/// The regions whose fades shape `track` at `tick`: every active one, none at all where the track
/// plays its frozen clip. The track's fade gain is the smallest of theirs, or full where the list is
/// empty.
pub fn fading_regions_at(track: &Track, plays_frozen: bool, tick: usize) -> (active: Vec<
    RegionOffset,
>)
    requires
        track.fits(),
    ensures
        active@ == if plays_frozen {
            Seq::<RegionOffset>::empty()
        } else {
            active_offsets(track.regions@, track.regions@.len(), tick as int)
        },
{
    let mut active: Vec<RegionOffset> = Vec::new();
    if plays_frozen {
        return active;
    }
    let mut i: usize = 0;
    while i < track.regions.len()
        invariant
            track.fits(),
            i <= track.regions@.len(),
            active@ == active_offsets(track.regions@, i as nat, tick as int),
        decreases track.regions@.len() - i,
    {
        let region = &track.regions[i];
        assert(track.regions@[i as int].fits());
        if is_active(region, tick) {
            active.push(RegionOffset { region: i, offset_ticks: tick - region.start_tick });
        }
        i += 1;
    }
    active
}

/// The tick a step is nudged to.
pub open spec fn step_tick(step_index: int, step: StepData) -> int {
    step_index * TICKS_PER_STEP + step.timing_offset_ticks
}

/// Whether `lane` has an active step at `step_index` and that step falls on `tick`.
pub open spec fn step_fires(lane: Lane, step_index: int, tick: int) -> bool {
    &&& 0 <= step_index < lane.steps@.len()
    &&& lane.steps@[step_index] matches Some(step) && step_tick(step_index, step) == tick
}

/// The step that fires at `tick`: of the two grid positions around it, the first whose step falls
/// exactly there.
pub open spec fn step_at(lane: Lane, tick: int) -> Option<StepData> {
    let floor = tick / TICKS_PER_STEP as int;
    if step_fires(lane, floor, tick) {
        lane.steps@[floor]
    } else if step_fires(lane, floor + 1, tick) {
        lane.steps@[floor + 1]
    } else {
        None
    }
}

/// Whether every step of `lane` is nudged by less than half a step.
pub open spec fn offsets_within_half_step(lane: Lane) -> bool {
    forall|i: int|
        0 <= i < lane.steps@.len() ==> ((#[trigger] lane.steps@[i]) matches Some(step) ==> -(
        TICKS_PER_STEP as int) < 2 * step.timing_offset_ticks < TICKS_PER_STEP)
}

fn step_if_fires(lane: &Lane, step_index: usize, tick: usize) -> (fired: Option<StepData>)
    ensures
        fired == if step_fires(*lane, step_index as int, tick as int) {
            lane.steps@[step_index as int]
        } else {
            None::<StepData>
        },
{
    if step_index < lane.steps.len() {
        if let Some(step) = lane.steps[step_index] {
            let target: i128 = step_index as i128 * TICKS_PER_STEP as i128
                + step.timing_offset_ticks as i128;
            if target == tick as i128 {
                return Some(step);
            }
        }
    }
    None
}

/// The step (if any) of `lane` that fires exactly at `region_local_tick`, honoring each active
/// step's nudge off its own grid position. Only the two step boundaries around the tick are
/// looked at: a step is nudged by less than half a step, so no other one can land there.
pub fn step_triggering_at(lane: &Lane, region_local_tick: usize) -> (fired: Option<StepData>)
    ensures
        fired == step_at(*lane, region_local_tick as int),
{
    let floor_step: usize = region_local_tick / TICKS_PER_STEP;
    match step_if_fires(lane, floor_step, region_local_tick) {
        Some(step) => Some(step),
        None => step_if_fires(lane, floor_step + 1, region_local_tick),
    }
}

/// Every active step that is nudged by less than half a step fires, at its own nudged tick and at
/// no other.
pub proof fn law_step_fires_at_its_nudged_tick(lane: Lane, step_index: int, tick: int)
    requires
        offsets_within_half_step(lane),
        0 <= step_index < lane.steps@.len(),
        lane.steps@[step_index] is Some,
        0 <= tick,
    ensures
        step_fires(lane, step_index, tick) ==> step_at(lane, tick) == lane.steps@[step_index],
        step_fires(lane, step_index, tick) <==> tick == step_tick(
            step_index,
            lane.steps@[step_index]->0,
        ),
{
    let step = lane.steps@[step_index]->0;
    if step_fires(lane, step_index, tick) {
        let floor = tick / TICKS_PER_STEP as int;
        assert(floor == step_index || floor + 1 == step_index);
        if floor != step_index && step_fires(lane, floor, tick) {
            assert(lane.steps@[floor] is Some);
            assert(false);
        }
    }
}

/// Whatever fires at a tick is an active step of the lane, nudged onto that tick.
pub proof fn law_fired_step_is_on_its_tick(lane: Lane, tick: int)
    requires
        0 <= tick,
        step_at(lane, tick) is Some,
    ensures
        exists|i: int| step_fires(lane, i, tick) && lane.steps@[i] == step_at(lane, tick),
{
    let floor = tick / TICKS_PER_STEP as int;
    if step_fires(lane, floor, tick) {
    } else {
        assert(step_fires(lane, floor + 1, tick));
    }
}

pub open spec fn larger(a: int, b: int) -> int {
    if a < b {
        b
    } else {
        a
    }
}

/// The furthest tick that the first `n` regions reach.
pub open spec fn regions_reach(regions: Seq<Region>, n: nat) -> int
    decreases n,
{
    if n == 0 {
        0
    } else {
        larger(regions_reach(regions, (n - 1) as nat), region_end(regions[n - 1]))
    }
}

/// The furthest tick that the first `n` clips reach. A clip whose audio is not loaded is skipped.
pub open spec fn clips_reach(clips: Seq<AudioClip>, n: nat) -> int
    decreases n,
{
    if n == 0 {
        0
    } else if clips[n - 1].buffer is Some {
        larger(clips_reach(clips, (n - 1) as nat), clip_end(clips[n - 1]))
    } else {
        clips_reach(clips, (n - 1) as nat)
    }
}

/// The furthest tick that the first `n` take folders reach.
pub open spec fn folders_reach(folders: Seq<TakeFolder>, n: nat) -> int
    decreases n,
{
    if n == 0 {
        0
    } else {
        larger(folders_reach(folders, (n - 1) as nat), folder_end(folders[n - 1]))
    }
}

/// The furthest tick that anything on a track reaches.
pub open spec fn track_reach(track: Track) -> int {
    larger(
        regions_reach(track.regions@, track.regions@.len()),
        larger(
            clips_reach(track.audio_clips@, track.audio_clips@.len()),
            folders_reach(track.take_folders@, track.take_folders@.len()),
        ),
    )
}

/// The furthest tick that anything on the first `n` tracks reaches.
pub open spec fn tracks_reach(tracks: Seq<Track>, n: nat) -> int
    decreases n,
{
    if n == 0 {
        0
    } else {
        larger(tracks_reach(tracks, (n - 1) as nat), track_reach(tracks[n - 1]))
    }
}

/// The song's loop length: the furthest tick anything reaches, and no less than one step.
pub open spec fn arrangement_length(song: Song) -> int {
    larger(tracks_reach(song.tracks@, song.tracks@.len()), TICKS_PER_STEP as int)
}

fn regions_end(track: &Track) -> (end: usize)
    requires
        track.fits(),
    ensures
        end == regions_reach(track.regions@, track.regions@.len()),
{
    let mut end: usize = 0;
    let mut i: usize = 0;
    while i < track.regions.len()
        invariant
            track.fits(),
            i <= track.regions@.len(),
            end == regions_reach(track.regions@, i as nat),
        decreases track.regions@.len() - i,
    {
        let region = &track.regions[i];
        assert(track.regions@[i as int].fits());
        let reach: usize = region.start_tick + region.loop_length_steps * TICKS_PER_STEP;
        if end < reach {
            end = reach;
        }
        i += 1;
    }
    end
}

fn clips_end(track: &Track) -> (end: usize)
    requires
        track.fits(),
    ensures
        end == clips_reach(track.audio_clips@, track.audio_clips@.len()),
{
    let mut end: usize = 0;
    let mut i: usize = 0;
    while i < track.audio_clips.len()
        invariant
            track.fits(),
            i <= track.audio_clips@.len(),
            end == clips_reach(track.audio_clips@, i as nat),
        decreases track.audio_clips@.len() - i,
    {
        let clip = &track.audio_clips[i];
        if clip.buffer.is_some() {
            let reach: usize = clip.start_tick + clip.length_ticks;
            if end < reach {
                end = reach;
            }
        }
        i += 1;
    }
    end
}

fn folders_end(track: &Track) -> (end: usize)
    requires
        track.fits(),
    ensures
        end == folders_reach(track.take_folders@, track.take_folders@.len()),
{
    let mut end: usize = 0;
    let mut i: usize = 0;
    while i < track.take_folders.len()
        invariant
            track.fits(),
            i <= track.take_folders@.len(),
            end == folders_reach(track.take_folders@, i as nat),
        decreases track.take_folders@.len() - i,
    {
        let folder = &track.take_folders[i];
        assert(folder_end(track.take_folders@[i as int]) <= usize::MAX);
        let reach: usize = folder.start_tick + folder.length_ticks;
        if end < reach {
            end = reach;
        }
        i += 1;
    }
    end
}

/// The song's total loop length in ticks: the furthest point any region, loaded audio clip or
/// take folder reaches, and at least one step. Live playback and the offline bounce both take
/// their loop length from here.
pub fn arrangement_length_ticks(song: &Song) -> (length: usize)
    requires
        song.fits(),
    ensures
        length == arrangement_length(*song),
{
    let mut length: usize = TICKS_PER_STEP;
    let mut t: usize = 0;
    while t < song.tracks.len()
        invariant
            song.fits(),
            t <= song.tracks@.len(),
            length == larger(tracks_reach(song.tracks@, t as nat), TICKS_PER_STEP as int),
        decreases song.tracks@.len() - t,
    {
        let track = &song.tracks[t];
        assert(song.tracks@[t as int].fits());
        let regions: usize = regions_end(track);
        let clips: usize = clips_end(track);
        let folders: usize = folders_end(track);
        if length < regions {
            length = regions;
        }
        if length < clips {
            length = clips;
        }
        if length < folders {
            length = folders;
        }
        t += 1;
    }
    length
}

proof fn lemma_regions_reach(regions: Seq<Region>, n: nat)
    requires
        n <= regions.len(),
    ensures
        forall|i: int|
            0 <= i < n ==> region_end(#[trigger] regions[i]) <= regions_reach(regions, n),
        regions_reach(regions, n) == 0 || exists|i: int|
            0 <= i < n && region_end(#[trigger] regions[i]) == regions_reach(regions, n),
    decreases n,
{
    if n > 0 {
        lemma_regions_reach(regions, (n - 1) as nat);
        assert(region_end(regions[n - 1]) <= regions_reach(regions, n));
    }
}

proof fn lemma_clips_reach(clips: Seq<AudioClip>, n: nat)
    requires
        n <= clips.len(),
    ensures
        forall|i: int|
            0 <= i < n && (#[trigger] clips[i]).buffer is Some ==> clip_end(clips[i])
                <= clips_reach(clips, n),
        clips_reach(clips, n) == 0 || exists|i: int|
            0 <= i < n && (#[trigger] clips[i]).buffer is Some && clip_end(clips[i])
                == clips_reach(clips, n),
    decreases n,
{
    if n > 0 {
        lemma_clips_reach(clips, (n - 1) as nat);
        assert(clips[n - 1].buffer is Some ==> clip_end(clips[n - 1]) <= clips_reach(clips, n));
    }
}

proof fn lemma_folders_reach(folders: Seq<TakeFolder>, n: nat)
    requires
        n <= folders.len(),
    ensures
        forall|i: int|
            0 <= i < n ==> folder_end(#[trigger] folders[i]) <= folders_reach(folders, n),
        folders_reach(folders, n) == 0 || exists|i: int|
            0 <= i < n && folder_end(#[trigger] folders[i]) == folders_reach(folders, n),
    decreases n,
{
    if n > 0 {
        lemma_folders_reach(folders, (n - 1) as nat);
        assert(folder_end(folders[n - 1]) <= folders_reach(folders, n));
    }
}

proof fn lemma_tracks_reach(tracks: Seq<Track>, n: nat)
    requires
        n <= tracks.len(),
    ensures
        forall|t: int|
            0 <= t < n ==> track_reach(#[trigger] tracks[t]) <= tracks_reach(tracks, n),
        tracks_reach(tracks, n) == 0 || exists|t: int|
            0 <= t < n && track_reach(#[trigger] tracks[t]) == tracks_reach(tracks, n),
    decreases n,
{
    if n > 0 {
        lemma_tracks_reach(tracks, (n - 1) as nat);
        assert(track_reach(tracks[n - 1]) <= tracks_reach(tracks, n));
    }
}

/// Whether something on the track ends exactly at `end`.
pub open spec fn ends_at(track: Track, end: int) -> bool {
    ||| exists|i: int| 0 <= i < track.regions@.len() && region_end(#[trigger] track.regions@[i]) == end
    ||| exists|i: int|
        0 <= i < track.audio_clips@.len() && (#[trigger] track.audio_clips@[i]).buffer is Some
            && clip_end(track.audio_clips@[i]) == end
    ||| exists|i: int|
        0 <= i < track.take_folders@.len() && folder_end(#[trigger] track.take_folders@[i]) == end
}

/// Nothing in the song reaches past the arrangement's length: looping never cuts a region, a
/// recording or a take folder short.
pub proof fn law_nothing_reaches_past_the_arrangement(song: Song, t: int)
    requires
        0 <= t < song.tracks@.len(),
    ensures
        forall|i: int|
            0 <= i < song.tracks@[t].regions@.len() ==> region_end(
                #[trigger] song.tracks@[t].regions@[i],
            ) <= arrangement_length(song),
        forall|i: int|
            0 <= i < song.tracks@[t].audio_clips@.len() && (
            #[trigger] song.tracks@[t].audio_clips@[i]).buffer is Some ==> clip_end(
                song.tracks@[t].audio_clips@[i],
            ) <= arrangement_length(song),
        forall|i: int|
            0 <= i < song.tracks@[t].take_folders@.len() ==> folder_end(
                #[trigger] song.tracks@[t].take_folders@[i],
            ) <= arrangement_length(song),
{
    let track = song.tracks@[t];
    lemma_tracks_reach(song.tracks@, song.tracks@.len());
    lemma_regions_reach(track.regions@, track.regions@.len());
    lemma_clips_reach(track.audio_clips@, track.audio_clips@.len());
    lemma_folders_reach(track.take_folders@, track.take_folders@.len());
}

/// The arrangement is no longer than it has to be: at least one step, and beyond that exactly as
/// long as the last thing on some track.
pub proof fn law_arrangement_is_as_short_as_its_content(song: Song)
    ensures
        arrangement_length(song) >= TICKS_PER_STEP,
        arrangement_length(song) == TICKS_PER_STEP || exists|t: int|
            0 <= t < song.tracks@.len() && ends_at(
                #[trigger] song.tracks@[t],
                arrangement_length(song),
            ),
{
    let tracks = song.tracks@;
    let length = arrangement_length(song);
    lemma_tracks_reach(tracks, tracks.len());
    if length > TICKS_PER_STEP {
        let t = choose|t: int| 0 <= t < tracks.len() && track_reach(#[trigger] tracks[t]) == length;
        let track = tracks[t];
        lemma_regions_reach(track.regions@, track.regions@.len());
        lemma_clips_reach(track.audio_clips@, track.audio_clips@.len());
        lemma_folders_reach(track.take_folders@, track.take_folders@.len());
        assert(ends_at(tracks[t], length));
    }
}

/// How far a song's tracks reach does not depend on which of them are frozen.
pub proof fn law_reach_ignores_freeze(a: Seq<Track>, b: Seq<Track>, n: nat)
    requires
        n <= a.len(),
        a.len() == b.len(),
        forall|t: int|
            0 <= t < a.len() ==> (#[trigger] b[t]) == (Track {
                frozen: b[t].frozen,
                frozen_clip: b[t].frozen_clip,
                ..a[t]
            }),
    ensures
        tracks_reach(a, n) == tracks_reach(b, n),
    decreases n,
{
    if n > 0 {
        law_reach_ignores_freeze(a, b, (n - 1) as nat);
        assert(b[n - 1] == (Track {
            frozen: b[n - 1].frozen,
            frozen_clip: b[n - 1].frozen_clip,
            ..a[n - 1]
        }));
    }
}

/// A region is active from its start tick on, for as many steps as its span has: not before, and not
/// on the tick it ends at.
pub proof fn law_a_region_is_active_for_its_span(region: Region, offset: int)
    ensures
        region_active(region, region.start_tick + offset) <==> 0 <= offset
            < region.loop_length_steps * TICKS_PER_STEP,
{
}

/// Content is played from the region's start on: there it is at its own first tick. One tick later is
/// one tick of the content later, and from its last tick it goes back to its first.
pub proof fn law_content_starts_with_its_region(region: Region, tick: int)
    requires
        region.start_tick <= tick,
        region.content_length_steps > 0,
    ensures
        ({
            let length = region.content_length_steps * TICKS_PER_STEP;
            let place = region_local_tick(region, tick);
            &&& region_local_tick(region, region.start_tick as int) == 0
            &&& 0 <= place < length
            &&& place + 1 < length ==> region_local_tick(region, tick + 1) == place + 1
            &&& place + 1 == length ==> region_local_tick(region, tick + 1) == 0
        }),
{
    let length = region.content_length_steps * TICKS_PER_STEP;
    let offset = tick - region.start_tick;
    assert(length > 1);
    vstd::arithmetic::div_mod::lemma_small_mod(0, length as nat);
    lemma_mod_step(offset, length);
}

/// Counting up by one goes to the next remainder, or round to zero.
pub(crate) proof fn lemma_mod_step(offset: int, length: int)
    requires
        0 <= offset,
        1 < length,
    ensures
        0 <= offset % length < length,
        offset % length + 1 < length ==> (offset + 1) % length == offset % length + 1,
        offset % length + 1 == length ==> (offset + 1) % length == 0,
{
    vstd::arithmetic::div_mod::lemma_fundamental_div_mod(offset, length);
    let q = offset / length;
    let r = offset % length;
    assert(q * length == length * q) by (nonlinear_arith);
    if r + 1 < length {
        vstd::arithmetic::div_mod::lemma_fundamental_div_mod_converse(
            offset + 1,
            length,
            q,
            r + 1,
        );
    } else {
        assert((q + 1) * length == q * length + length) by (nonlinear_arith);
        vstd::arithmetic::div_mod::lemma_fundamental_div_mod_converse(
            offset + 1,
            length,
            q + 1,
            0,
        );
    }
}

/// Where content comes round to: the tick `place` of it sounds `place` ticks after the region's start
/// and again after every full length of the content, and at no other tick.
pub proof fn law_content_comes_round(region: Region, tick: int, place: int)
    requires
        region.start_tick <= tick,
        region.content_length_steps > 0,
        0 <= place < region.content_length_steps * TICKS_PER_STEP,
    ensures
        region_local_tick(region, tick) == place <==> exists|k: nat|
            tick == region.start_tick + place + #[trigger] (k * (region.content_length_steps
                * TICKS_PER_STEP)),
{
    let length = (region.content_length_steps * TICKS_PER_STEP) as int;
    let offset = tick - region.start_tick;
    assert(length > 1);
    vstd::arithmetic::div_mod::lemma_fundamental_div_mod(offset, length);
    if region_local_tick(region, tick) == place {
        let k = (offset / length) as nat;
        assert(offset / length >= 0) by (nonlinear_arith)
            requires
                offset >= 0,
                length > 0,
        ;
        assert(length * k == k * length) by (nonlinear_arith);
        assert(tick == region.start_tick + place + k * (region.content_length_steps
            * TICKS_PER_STEP));
    }
    if exists|k: nat|
        tick == region.start_tick + place + #[trigger] (k * (region.content_length_steps
            * TICKS_PER_STEP)) {
        let k = choose|k: nat|
            tick == region.start_tick + place + #[trigger] (k * (region.content_length_steps
                * TICKS_PER_STEP));
        assert(length * k == k * length) by (nonlinear_arith);
        vstd::arithmetic::div_mod::lemma_fundamental_div_mod_converse(
            offset,
            length,
            k as int,
            place,
        );
    }
}

proof fn lemma_first_active(regions: Seq<Region>, tick: int, from: nat)
    ensures
        ({
            let i = first_active(regions, tick, from);
            &&& i < regions.len() ==> from <= i && regions[i as int].start_tick <= tick
                < regions[i as int].start_tick + regions[i as int].loop_length_steps
                * TICKS_PER_STEP
            &&& forall|k: int|
                from <= k < i && k < regions.len() ==> !((#[trigger] regions[k]).start_tick <= tick
                    < regions[k].start_tick + regions[k].loop_length_steps * TICKS_PER_STEP)
            &&& from <= regions.len() ==> i <= regions.len()
            &&& i >= regions.len() ==> i == regions.len()
        }),
    decreases regions.len() - from,
{
    if from < regions.len() && !region_active(regions[from as int], tick) {
        lemma_first_active(regions, tick, from + 1);
    }
}

/// The active region is the first on its track whose span the tick lies in, and there is none only
/// where the tick lies in no span.
pub proof fn law_the_first_region_around_the_tick_is_active(regions: Seq<Region>, tick: int)
    ensures
        ({
            let i = first_active(regions, tick, 0);
            &&& i <= regions.len()
            &&& i < regions.len() ==> regions[i as int].start_tick <= tick
                < regions[i as int].start_tick + regions[i as int].loop_length_steps
                * TICKS_PER_STEP
            &&& forall|k: int|
                0 <= k < i ==> !((#[trigger] regions[k]).start_tick <= tick < regions[k].start_tick
                    + regions[k].loop_length_steps * TICKS_PER_STEP)
        }),
{
    lemma_first_active(regions, tick, 0);
}

/// Every region that the tick lies in shapes its track's fade, in order and once each, by how far into
/// its span the tick is; no other region does.
pub proof fn law_fades_come_from_the_regions_around_the_tick(
    regions: Seq<Region>,
    n: nat,
    tick: int,
)
    requires
        n <= regions.len() <= usize::MAX,
        0 <= tick <= usize::MAX,
    ensures
        ({
            let listed = active_offsets(regions, n, tick);
            &&& forall|j: int| #![trigger listed[j]]
                0 <= j < listed.len() ==> {
                    let region = regions[listed[j].region as int];
                    &&& listed[j].region < n
                    &&& listed[j].offset_ticks == tick - region.start_tick
                    &&& 0 <= tick - region.start_tick < region.loop_length_steps * TICKS_PER_STEP
                }
            &&& forall|j: int, k: int|
                0 <= j < k < listed.len() ==> (#[trigger] listed[j]).region < (
                #[trigger] listed[k]).region
            &&& forall|i: int|
                0 <= i < n && (#[trigger] regions[i]).start_tick <= tick < regions[i].start_tick
                    + regions[i].loop_length_steps * TICKS_PER_STEP ==> exists|j: int|
                    0 <= j < listed.len() && (#[trigger] listed[j]).region == i
        }),
    decreases n,
{
    if n > 0 {
        law_fades_come_from_the_regions_around_the_tick(regions, (n - 1) as nat, tick);
        let earlier = active_offsets(regions, (n - 1) as nat, tick);
        let listed = active_offsets(regions, n, tick);
        assert forall|i: int|
            0 <= i < n && (#[trigger] regions[i]).start_tick <= tick < regions[i].start_tick
                + regions[i].loop_length_steps * TICKS_PER_STEP implies exists|j: int|
            0 <= j < listed.len() && (#[trigger] listed[j]).region == i by {
            if i < n - 1 {
                let j = choose|j: int|
                    0 <= j < earlier.len() && (#[trigger] earlier[j]).region == i;
                assert(listed[j].region == i);
            } else {
                assert(listed[earlier.len() as int].region == i);
            }
        }
    }
}

/// Every step sounds at its own place, nudged by its own offset, and whatever sounds is such a step:
/// with no step nudged by half a step or more, a lane fires at a tick exactly the step whose place
/// and offset add up to it.
pub proof fn law_a_step_sounds_at_its_place_and_offset(lane: Lane, i: int, tick: int)
    requires
        0 <= tick,
        0 <= i < lane.steps@.len(),
        forall|k: int|
            0 <= k < lane.steps@.len() && (#[trigger] lane.steps@[k]) is Some ==> -(
            TICKS_PER_STEP as int) < 2 * (lane.steps@[k]->0).timing_offset_ticks < TICKS_PER_STEP,
    ensures
        lane.steps@[i] is Some && i * TICKS_PER_STEP + (lane.steps@[i]->0).timing_offset_ticks
            == tick ==> step_at(lane, tick) == lane.steps@[i],
        (forall|k: int|
            0 <= k < lane.steps@.len() && (#[trigger] lane.steps@[k]) is Some ==> k * TICKS_PER_STEP
                + (lane.steps@[k]->0).timing_offset_ticks != tick) ==> step_at(lane, tick) is None,
{
    assert(offsets_within_half_step(lane)) by {
        assert forall|k: int| 0 <= k < lane.steps@.len() implies (
        (#[trigger] lane.steps@[k]) matches Some(step) ==> -(TICKS_PER_STEP as int) < 2
            * step.timing_offset_ticks < TICKS_PER_STEP) by {
            if lane.steps@[k] is Some {
                assert(-(TICKS_PER_STEP as int) < 2 * (lane.steps@[k]->0).timing_offset_ticks
                    < TICKS_PER_STEP);
            }
        }
    }
    if lane.steps@[i] is Some {
        law_step_fires_at_its_nudged_tick(lane, i, tick);
    }
}

/// However far steps are nudged, nothing sounds at a tick but a step whose place and offset add up to
/// it.
pub proof fn law_nothing_sounds_off_its_place(lane: Lane, tick: int)
    requires
        0 <= tick,
    ensures
        step_at(lane, tick) is Some ==> exists|k: int|
            0 <= k < lane.steps@.len() && (#[trigger] lane.steps@[k]) == step_at(lane, tick) && k
                * TICKS_PER_STEP + (step_at(lane, tick)->0).timing_offset_ticks == tick,
{
    if step_at(lane, tick) is Some {
        let floor = tick / TICKS_PER_STEP as int;
        if step_fires(lane, floor, tick) {
            assert(lane.steps@[floor] == step_at(lane, tick));
        } else {
            assert(lane.steps@[floor + 1] == step_at(lane, tick));
        }
    }
}

/// Everything in the song ends within the arrangement: each region's span, each loaded clip and each
/// take folder, wherever it starts.
pub proof fn law_the_arrangement_holds_everything(song: Song, t: int)
    requires
        0 <= t < song.tracks@.len(),
    ensures
        arrangement_length(song) >= TICKS_PER_STEP,
        forall|i: int|
            0 <= i < song.tracks@[t].regions@.len() ==> (
            #[trigger] song.tracks@[t].regions@[i]).start_tick
                + song.tracks@[t].regions@[i].loop_length_steps * TICKS_PER_STEP
                <= arrangement_length(song),
        forall|i: int|
            0 <= i < song.tracks@[t].audio_clips@.len() && (
            #[trigger] song.tracks@[t].audio_clips@[i]).buffer is Some
                ==> song.tracks@[t].audio_clips@[i].start_tick
                + song.tracks@[t].audio_clips@[i].length_ticks <= arrangement_length(song),
        forall|i: int|
            0 <= i < song.tracks@[t].take_folders@.len() ==> (
            #[trigger] song.tracks@[t].take_folders@[i]).start_tick
                + song.tracks@[t].take_folders@[i].length_ticks <= arrangement_length(song),
{
    law_nothing_reaches_past_the_arrangement(song, t);
    let track = song.tracks@[t];
    assert forall|i: int| 0 <= i < track.regions@.len() implies (
    #[trigger] track.regions@[i]).start_tick + track.regions@[i].loop_length_steps * TICKS_PER_STEP
        <= arrangement_length(song) by {
        assert(region_end(track.regions@[i]) <= arrangement_length(song));
    }
    assert forall|i: int| 0 <= i < track.take_folders@.len() implies (
    #[trigger] track.take_folders@[i]).start_tick + track.take_folders@[i].length_ticks
        <= arrangement_length(song) by {
        assert(folder_end(track.take_folders@[i]) <= arrangement_length(song));
    }
}

/// The arrangement is no longer than it has to be: where everything in the song ends by `end`, at one
/// step or later, it ends by then too.
pub proof fn law_the_arrangement_is_no_longer_than_its_content(song: Song, end: int)
    requires
        end >= TICKS_PER_STEP,
        forall|t: int, i: int|
            #![trigger song.tracks@[t].regions@[i]]
            0 <= t < song.tracks@.len() && 0 <= i < song.tracks@[t].regions@.len()
                ==> song.tracks@[t].regions@[i].start_tick
                + song.tracks@[t].regions@[i].loop_length_steps * TICKS_PER_STEP <= end,
        forall|t: int, i: int|
            #![trigger song.tracks@[t].audio_clips@[i]]
            0 <= t < song.tracks@.len() && 0 <= i < song.tracks@[t].audio_clips@.len()
                && song.tracks@[t].audio_clips@[i].buffer is Some
                ==> song.tracks@[t].audio_clips@[i].start_tick
                + song.tracks@[t].audio_clips@[i].length_ticks <= end,
        forall|t: int, i: int|
            #![trigger song.tracks@[t].take_folders@[i]]
            0 <= t < song.tracks@.len() && 0 <= i < song.tracks@[t].take_folders@.len()
                ==> song.tracks@[t].take_folders@[i].start_tick
                + song.tracks@[t].take_folders@[i].length_ticks <= end,
    ensures
        arrangement_length(song) <= end,
{
    law_arrangement_is_as_short_as_its_content(song);
    let length = arrangement_length(song);
    if length != TICKS_PER_STEP {
        let t = choose|t: int|
            0 <= t < song.tracks@.len() && ends_at(#[trigger] song.tracks@[t], length);
        let track = song.tracks@[t];
        if exists|i: int|
            0 <= i < track.regions@.len() && region_end(#[trigger] track.regions@[i]) == length {
            let i = choose|i: int|
                0 <= i < track.regions@.len() && region_end(#[trigger] track.regions@[i]) == length;
            assert(song.tracks@[t].regions@[i].start_tick
                + song.tracks@[t].regions@[i].loop_length_steps * TICKS_PER_STEP <= end);
        } else if exists|i: int|
            0 <= i < track.audio_clips@.len() && (#[trigger] track.audio_clips@[i]).buffer is Some
                && clip_end(track.audio_clips@[i]) == length {
            let i = choose|i: int|
                0 <= i < track.audio_clips@.len() && (
                #[trigger] track.audio_clips@[i]).buffer is Some && clip_end(track.audio_clips@[i])
                    == length;
            assert(song.tracks@[t].audio_clips@[i].buffer is Some);
        } else {
            let i = choose|i: int|
                0 <= i < track.take_folders@.len() && folder_end(#[trigger] track.take_folders@[i])
                    == length;
            assert(song.tracks@[t].take_folders@[i].start_tick
                + song.tracks@[t].take_folders@[i].length_ticks <= end);
        }
    }
}

/// Content of no length is always at its first tick.
pub proof fn law_content_of_no_length_stands_still(region: Region, tick: int)
    requires
        region.content_length_steps == 0,
    ensures
        region_local_tick(region, tick) == 0,
{
}

/// A song fits exactly while every position in it can be counted: the end of each region's span and
/// the length of its content, the end of each loaded clip, and the end of each take folder.
pub proof fn law_a_song_fits_while_its_ends_can_be_counted(song: Song)
    ensures
        song.fits() <==> {
            &&& forall|t: int, i: int|
                #![trigger song.tracks@[t].regions@[i]]
                0 <= t < song.tracks@.len() && 0 <= i < song.tracks@[t].regions@.len()
                    ==> song.tracks@[t].regions@[i].start_tick
                    + song.tracks@[t].regions@[i].loop_length_steps * TICKS_PER_STEP <= usize::MAX
                    && song.tracks@[t].regions@[i].content_length_steps * TICKS_PER_STEP
                    <= usize::MAX
            &&& forall|t: int, i: int|
                #![trigger song.tracks@[t].audio_clips@[i]]
                0 <= t < song.tracks@.len() && 0 <= i < song.tracks@[t].audio_clips@.len()
                    && song.tracks@[t].audio_clips@[i].buffer is Some
                    ==> song.tracks@[t].audio_clips@[i].start_tick
                    + song.tracks@[t].audio_clips@[i].length_ticks <= usize::MAX
            &&& forall|t: int, i: int|
                #![trigger song.tracks@[t].take_folders@[i]]
                0 <= t < song.tracks@.len() && 0 <= i < song.tracks@[t].take_folders@.len()
                    ==> song.tracks@[t].take_folders@[i].start_tick
                    + song.tracks@[t].take_folders@[i].length_ticks <= usize::MAX
        },
{
    if song.fits() {
        assert forall|t: int, i: int|
            #![trigger song.tracks@[t].regions@[i]]
            0 <= t < song.tracks@.len() && 0 <= i
                < song.tracks@[t].regions@.len() implies song.tracks@[t].regions@[i].start_tick
            + song.tracks@[t].regions@[i].loop_length_steps * TICKS_PER_STEP <= usize::MAX
            && song.tracks@[t].regions@[i].content_length_steps * TICKS_PER_STEP <= usize::MAX by {
            assert(song.tracks@[t].fits());
            assert(song.tracks@[t].regions@[i].fits());
        }
        assert forall|t: int, i: int|
            #![trigger song.tracks@[t].audio_clips@[i]]
            0 <= t < song.tracks@.len() && 0 <= i < song.tracks@[t].audio_clips@.len()
                && song.tracks@[t].audio_clips@[i].buffer
                is Some implies song.tracks@[t].audio_clips@[i].start_tick
            + song.tracks@[t].audio_clips@[i].length_ticks <= usize::MAX by {
            assert(song.tracks@[t].fits());
        }
        assert forall|t: int, i: int|
            #![trigger song.tracks@[t].take_folders@[i]]
            0 <= t < song.tracks@.len() && 0 <= i
                < song.tracks@[t].take_folders@.len() implies song.tracks@[t].take_folders@[i].start_tick
            + song.tracks@[t].take_folders@[i].length_ticks <= usize::MAX by {
            assert(song.tracks@[t].fits());
            assert(folder_end(song.tracks@[t].take_folders@[i]) <= usize::MAX);
        }
    }
    if (forall|t: int, i: int|
        #![trigger song.tracks@[t].regions@[i]]
        0 <= t < song.tracks@.len() && 0 <= i < song.tracks@[t].regions@.len()
            ==> song.tracks@[t].regions@[i].start_tick
            + song.tracks@[t].regions@[i].loop_length_steps * TICKS_PER_STEP <= usize::MAX
            && song.tracks@[t].regions@[i].content_length_steps * TICKS_PER_STEP <= usize::MAX) && (
    forall|t: int, i: int|
        #![trigger song.tracks@[t].audio_clips@[i]]
        0 <= t < song.tracks@.len() && 0 <= i < song.tracks@[t].audio_clips@.len()
            && song.tracks@[t].audio_clips@[i].buffer is Some
            ==> song.tracks@[t].audio_clips@[i].start_tick
            + song.tracks@[t].audio_clips@[i].length_ticks <= usize::MAX) && (forall|t: int, i: int|
        #![trigger song.tracks@[t].take_folders@[i]]
        0 <= t < song.tracks@.len() && 0 <= i < song.tracks@[t].take_folders@.len()
            ==> song.tracks@[t].take_folders@[i].start_tick
            + song.tracks@[t].take_folders@[i].length_ticks <= usize::MAX) {
        assert forall|t: int| 0 <= t < song.tracks@.len() implies (
        #[trigger] song.tracks@[t]).fits() by {
            let track = song.tracks@[t];
            assert forall|i: int| 0 <= i < track.regions@.len() implies (
            #[trigger] track.regions@[i]).fits() by {
                assert(song.tracks@[t].regions@[i].start_tick
                    + song.tracks@[t].regions@[i].loop_length_steps * TICKS_PER_STEP
                    <= usize::MAX);
            }
            assert forall|i: int|
                0 <= i < track.audio_clips@.len() && (
                #[trigger] track.audio_clips@[i]).buffer is Some implies clip_end(
                track.audio_clips@[i],
            ) <= usize::MAX by {
                assert(song.tracks@[t].audio_clips@[i].buffer is Some);
            }
            assert forall|i: int| 0 <= i < track.take_folders@.len() implies folder_end(
                #[trigger] track.take_folders@[i],
            ) <= usize::MAX by {
                assert(song.tracks@[t].take_folders@[i].start_tick
                    + song.tracks@[t].take_folders@[i].length_ticks <= usize::MAX);
            }
        }
    }
}

} // verus!
