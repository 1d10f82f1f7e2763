//! What the arrangement sets off at a tick: region content first, track by track, then audio
//! clips, frozen clips and take-folder segments.

use vstd::prelude::*;

use crate::model::{
    AudioClip, CompSegment, Region, Song, TakeFolder, Track, TrackKind, TICKS_PER_STEP,
};
use crate::solo::{
    any_solo, has_solo, hushed, plays_frozen, track_hushed, track_plays_frozen, Selection,
};
use crate::timeline::{
    content_length, is_active, law_content_comes_round, law_content_starts_with_its_region,
    region_active, region_local_tick, step_at,
};
use crate::trigger::{
    called_for, content_triggers, item_of, law_content_ignores_switches,
    law_content_takes_voices_in_turn,
    law_content_triggers_what_it_calls_for, lemma_turn_pushed, lemma_turns_join, plays_lane,
    plays_next_voice, plays_note, pools_after, same_but_for_switches, taken_in_turn,
    trigger_content, ContentSource, TrackVoices, Trigger, SAMPLE_VOICE_COUNT,
};

verus! {

/// What the first `n` regions of a track set off at `tick`, in order, and the pools after them.
/// Regions may overlap: every active one contributes.
pub open spec fn region_triggers(
    voices: TrackVoices,
    track_index: usize,
    track: Track,
    n: nat,
    tick: int,
) -> (Seq<Trigger>, TrackVoices)
    decreases n,
{
    if n == 0 {
        (Seq::empty(), voices)
    } else {
        let (earlier, pools) = region_triggers(
            voices,
            track_index,
            track,
            (n - 1) as nat,
            tick,
        );
        let region = track.regions@[n - 1];
        if region_active(region, tick) {
            let (added, after) = content_triggers(
                pools,
                track_index,
                ContentSource::Region((n - 1) as usize),
                track,
                region.content,
                region_local_tick(region, tick),
            );
            (earlier + added, after)
        } else {
            (earlier, pools)
        }
    }
}

/// What a track's regions set off at `tick`. A track that is left out sets off nothing, and
/// neither does one that plays its frozen clip, which already carries that content.
pub open spec fn track_region_triggers(
    song: Song,
    selection: Selection,
    voices: TrackVoices,
    track_index: usize,
    tick: int,
) -> (Seq<Trigger>, TrackVoices) {
    let track = song.tracks@[track_index as int];
    if hushed(song, selection, track) || plays_frozen(selection, track, track_index as int) {
        (Seq::empty(), voices)
    } else {
        region_triggers(voices, track_index, track, track.regions@.len(), tick)
    }
}

/// Whether a clip starts at `tick` with its audio loaded.
pub open spec fn clip_starts(clip: AudioClip, tick: int) -> bool {
    clip.start_tick == tick && clip.buffer is Some
}

/// What the first `n` audio clips of a track set off at `tick`, and the pools after them.
pub open spec fn clip_triggers(
    voices: TrackVoices,
    track_index: usize,
    clips: Seq<AudioClip>,
    n: nat,
    tick: int,
) -> (Seq<Trigger>, TrackVoices)
    decreases n,
{
    if n == 0 {
        (Seq::empty(), voices)
    } else {
        let (earlier, pools) = clip_triggers(voices, track_index, clips, (n - 1) as nat, tick);
        if clip_starts(clips[n - 1], tick) {
            (
                earlier.push(
                    Trigger::Clip {
                        track: track_index,
                        clip: (n - 1) as usize,
                        voice: pools.next_sample_voice,
                    },
                ),
                pools.after_sample(),
            )
        } else {
            (earlier, pools)
        }
    }
}

/// Whether a comp segment starts at `tick` and picks a take whose audio is loaded.
pub open spec fn segment_starts(folder: TakeFolder, segment: CompSegment, tick: int) -> bool {
    &&& folder.start_tick + segment.start_tick == tick
    &&& segment.take_index < folder.takes@.len()
    &&& folder.takes@[segment.take_index as int].buffer is Some
}

/// What the first `n` comp segments of a folder set off at `tick`, and the pools after them.
pub open spec fn segment_triggers(
    voices: TrackVoices,
    track_index: usize,
    folder_index: usize,
    folder: TakeFolder,
    n: nat,
    tick: int,
) -> (Seq<Trigger>, TrackVoices)
    decreases n,
{
    if n == 0 {
        (Seq::empty(), voices)
    } else {
        let (earlier, pools) = segment_triggers(
            voices,
            track_index,
            folder_index,
            folder,
            (n - 1) as nat,
            tick,
        );
        let segment = folder.comp@[n - 1];
        if segment_starts(folder, segment, tick) {
            (
                earlier.push(
                    Trigger::TakeSegment {
                        track: track_index,
                        folder: folder_index,
                        segment: (n - 1) as usize,
                        take: segment.take_index,
                        voice: pools.next_sample_voice,
                    },
                ),
                pools.after_sample(),
            )
        } else {
            (earlier, pools)
        }
    }
}

/// What the first `n` take folders of a track set off at `tick`, and the pools after them.
pub open spec fn folder_triggers(
    voices: TrackVoices,
    track_index: usize,
    folders: Seq<TakeFolder>,
    n: nat,
    tick: int,
) -> (Seq<Trigger>, TrackVoices)
    decreases n,
{
    if n == 0 {
        (Seq::empty(), voices)
    } else {
        let (earlier, pools) = folder_triggers(voices, track_index, folders, (n - 1) as nat, tick);
        let folder = folders[n - 1];
        let (added, after) = segment_triggers(
            pools,
            track_index,
            (n - 1) as usize,
            folder,
            folder.comp@.len(),
            tick,
        );
        (earlier + added, after)
    }
}

/// What a track's audio sets off at `tick`: its frozen clip alone where it plays that, otherwise
/// its audio clips and then its take folders, on audio tracks only.
pub open spec fn track_audio_triggers(
    song: Song,
    selection: Selection,
    voices: TrackVoices,
    track_index: usize,
    tick: int,
) -> (Seq<Trigger>, TrackVoices) {
    let track = song.tracks@[track_index as int];
    if hushed(song, selection, track) {
        (Seq::empty(), voices)
    } else if plays_frozen(selection, track, track_index as int) {
        if track.frozen_clip matches Some(clip) && clip_starts(clip, tick) {
            (
                seq![Trigger::FrozenClip { track: track_index, voice: voices.next_sample_voice }],
                voices.after_sample(),
            )
        } else {
            (Seq::empty(), voices)
        }
    } else if track.kind != TrackKind::Audio {
        (Seq::empty(), voices)
    } else {
        let (clips, pools) = clip_triggers(
            voices,
            track_index,
            track.audio_clips@,
            track.audio_clips@.len(),
            tick,
        );
        let (segments, after) = folder_triggers(
            pools,
            track_index,
            track.take_folders@,
            track.take_folders@.len(),
            tick,
        );
        (clips + segments, after)
    }
}

/// The pools of a track once its regions have had their turn.
pub open spec fn voices_after_regions(
    song: Song,
    selection: Selection,
    voices: Seq<TrackVoices>,
    tick: int,
    t: int,
) -> TrackVoices {
    track_region_triggers(song, selection, voices[t], t as usize, tick).1
}

/// What the regions of the first `n` tracks set off at `tick`, track by track.
pub open spec fn all_region_triggers(
    song: Song,
    selection: Selection,
    voices: Seq<TrackVoices>,
    n: nat,
    tick: int,
) -> Seq<Trigger>
    decreases n,
{
    if n == 0 {
        Seq::empty()
    } else {
        all_region_triggers(song, selection, voices, (n - 1) as nat, tick) + track_region_triggers(
            song,
            selection,
            voices[n - 1],
            (n - 1) as usize,
            tick,
        ).0
    }
}

/// What the audio of the first `n` tracks sets off at `tick`, track by track.
pub open spec fn all_audio_triggers(
    song: Song,
    selection: Selection,
    voices: Seq<TrackVoices>,
    n: nat,
    tick: int,
) -> Seq<Trigger>
    decreases n,
{
    if n == 0 {
        Seq::empty()
    } else {
        all_audio_triggers(song, selection, voices, (n - 1) as nat, tick) + track_audio_triggers(
            song,
            selection,
            voices_after_regions(song, selection, voices, tick, n - 1),
            (n - 1) as usize,
            tick,
        ).0
    }
}

/// What the whole arrangement sets off at `tick`.
pub open spec fn arrangement_triggers(
    song: Song,
    selection: Selection,
    voices: Seq<TrackVoices>,
    tick: int,
) -> Seq<Trigger> {
    all_region_triggers(song, selection, voices, song.tracks@.len(), tick) + all_audio_triggers(
        song,
        selection,
        voices,
        song.tracks@.len(),
        tick,
    )
}

/// Every track's pools once the arrangement has had its tick.
pub open spec fn arrangement_voices(
    song: Song,
    selection: Selection,
    voices: Seq<TrackVoices>,
    tick: int,
) -> Seq<TrackVoices> {
    Seq::new(
        song.tracks@.len(),
        |t: int|
            track_audio_triggers(
                song,
                selection,
                voices_after_regions(song, selection, voices, tick, t),
                t as usize,
                tick,
            ).1,
    )
}

/// Triggers what `track`'s regions have at `tick`.
fn trigger_regions(
    voices: &mut TrackVoices,
    track_index: usize,
    track: &Track,
    tick: usize,
    triggers: &mut Vec<Trigger>,
)
    requires
        old(voices).wf(),
        track.fits(),
    ensures
        final(voices).wf(),
        (final(triggers)@, *final(voices)) == ({
            let done = region_triggers(
                *old(voices),
                track_index,
                *track,
                track.regions@.len(),
                tick as int,
            );
            (old(triggers)@ + done.0, done.1)
        }),
{
    let ghost start = *voices;
    let ghost before = triggers@;
    let mut i: usize = 0;
    while i < track.regions.len()
        invariant
            track.fits(),
            voices.wf(),
            i <= track.regions@.len(),
            (triggers@, *voices) == ({
                let done = region_triggers(start, track_index, *track, i as nat, tick as int);
                (before + done.0, done.1)
            }),
        decreases track.regions@.len() - i,
    {
        let region = &track.regions[i];
        assert(track.regions@[i as int].fits());
        if is_active(region, tick) {
            let offset: usize = tick - region.start_tick;
            let content_ticks: usize = region.content_length_steps * TICKS_PER_STEP;
            let local_tick: usize = offset % (if content_ticks > 1 { content_ticks } else { 1 });
            trigger_content(
                voices,
                track_index,
                ContentSource::Region(i),
                track,
                &region.content,
                local_tick,
                triggers,
            );
        }
        i += 1;
    }
}

/// Triggers `track`'s audio clips that start at `tick`.
fn trigger_clips(
    voices: &mut TrackVoices,
    track_index: usize,
    track: &Track,
    tick: usize,
    triggers: &mut Vec<Trigger>,
)
    requires
        old(voices).wf(),
    ensures
        final(voices).wf(),
        (final(triggers)@, *final(voices)) == ({
            let done = clip_triggers(
                *old(voices),
                track_index,
                track.audio_clips@,
                track.audio_clips@.len(),
                tick as int,
            );
            (old(triggers)@ + done.0, done.1)
        }),
{
    let ghost start = *voices;
    let ghost before = triggers@;
    let mut i: usize = 0;
    while i < track.audio_clips.len()
        invariant
            voices.wf(),
            i <= track.audio_clips@.len(),
            (triggers@, *voices) == ({
                let done = clip_triggers(
                    start,
                    track_index,
                    track.audio_clips@,
                    i as nat,
                    tick as int,
                );
                (before + done.0, done.1)
            }),
        decreases track.audio_clips@.len() - i,
    {
        let clip = &track.audio_clips[i];
        if clip.start_tick == tick && clip.buffer.is_some() {
            let voice: usize = voices.take_sample();
            triggers.push(Trigger::Clip { track: track_index, clip: i, voice });
        }
        i += 1;
    }
}

/// Triggers the comp segments of `folder` that start at `tick`.
fn trigger_segments(
    voices: &mut TrackVoices,
    track_index: usize,
    folder_index: usize,
    folder: &TakeFolder,
    tick: usize,
    triggers: &mut Vec<Trigger>,
)
    requires
        old(voices).wf(),
    ensures
        final(voices).wf(),
        (final(triggers)@, *final(voices)) == ({
            let done = segment_triggers(
                *old(voices),
                track_index,
                folder_index,
                *folder,
                folder.comp@.len(),
                tick as int,
            );
            (old(triggers)@ + done.0, done.1)
        }),
{
    let ghost start = *voices;
    let ghost before = triggers@;
    let mut i: usize = 0;
    while i < folder.comp.len()
        invariant
            voices.wf(),
            i <= folder.comp@.len(),
            (triggers@, *voices) == ({
                let done = segment_triggers(
                    start,
                    track_index,
                    folder_index,
                    *folder,
                    i as nat,
                    tick as int,
                );
                (before + done.0, done.1)
            }),
        decreases folder.comp@.len() - i,
    {
        let segment = folder.comp[i];
        if folder.start_tick <= tick && tick - folder.start_tick == segment.start_tick {
            let take: usize = segment.take_index;
            if take < folder.takes.len() && folder.takes[take].buffer.is_some() {
                let voice: usize = voices.take_sample();
                triggers.push(
                    Trigger::TakeSegment {
                        track: track_index,
                        folder: folder_index,
                        segment: i,
                        take,
                        voice,
                    },
                );
            }
        }
        i += 1;
    }
}

/// Triggers what a track's audio has at `tick`: its frozen clip, or its clips and take folders.
fn trigger_audio(
    voices: &mut TrackVoices,
    song: &Song,
    selection: Selection,
    track_index: usize,
    tick: usize,
    triggers: &mut Vec<Trigger>,
)
    requires
        old(voices).wf(),
        track_index < song.tracks@.len(),
        !hushed(*song, selection, song.tracks@[track_index as int]),
    ensures
        final(voices).wf(),
        (final(triggers)@, *final(voices)) == ({
            let done = track_audio_triggers(*song, selection, *old(voices), track_index, tick as int);
            (old(triggers)@ + done.0, done.1)
        }),
{
    let track = &song.tracks[track_index];
    let ghost before = triggers@;
    if track_plays_frozen(selection, track, track_index) {
        if let Some(clip) = &track.frozen_clip {
            if clip.start_tick == tick && clip.buffer.is_some() {
                let voice: usize = voices.take_sample();
                triggers.push(Trigger::FrozenClip { track: track_index, voice });
                assert(triggers@ == before + seq![Trigger::FrozenClip { track: track_index, voice }]);
                return;
            }
        }
        assert(triggers@ == before + Seq::empty());
        return;
    }
    if track.kind != TrackKind::Audio {
        assert(triggers@ == before + Seq::empty());
        return;
    }
    trigger_clips(voices, track_index, track, tick, triggers);
    let ghost pools = *voices;
    let ghost clips = triggers@;
    let mut i: usize = 0;
    while i < track.take_folders.len()
        invariant
            voices.wf(),
            i <= track.take_folders@.len(),
            (triggers@, *voices) == ({
                let done = folder_triggers(
                    pools,
                    track_index,
                    track.take_folders@,
                    i as nat,
                    tick as int,
                );
                (clips + done.0, done.1)
            }),
        decreases track.take_folders@.len() - i,
    {
        trigger_segments(voices, track_index, i, &track.take_folders[i], tick, triggers);
        i += 1;
    }
}

/// Triggers everything the arrangement has at `tick`.
pub fn trigger_arrangement(
    voices: &mut Vec<TrackVoices>,
    song: &Song,
    selection: Selection,
    tick: usize,
) -> (triggers: Vec<Trigger>)
    requires
        song.fits(),
        old(voices)@.len() == song.tracks@.len(),
        forall|t: int| 0 <= t < old(voices)@.len() ==> (#[trigger] old(voices)@[t]).wf(),
    ensures
        triggers@ == arrangement_triggers(*song, selection, old(voices)@, tick as int),
        final(voices)@ == arrangement_voices(*song, selection, old(voices)@, tick as int),
        forall|t: int| 0 <= t < final(voices)@.len() ==> (#[trigger] final(voices)@[t]).wf(),
{
    let ghost start = voices@;
    let solo_active: bool = has_solo(song);
    let mut triggers: Vec<Trigger> = Vec::new();
    let mut t: usize = 0;
    while t < song.tracks.len()
        invariant
            song.fits(),
            solo_active == any_solo(*song),
            t <= song.tracks@.len(),
            voices@.len() == song.tracks@.len(),
            start.len() == song.tracks@.len(),
            triggers@ == all_region_triggers(*song, selection, start, t as nat, tick as int),
            forall|k: int| 0 <= k < voices@.len() ==> (#[trigger] voices@[k]).wf(),
            forall|k: int|
                0 <= k < t ==> #[trigger] voices@[k] == voices_after_regions(
                    *song,
                    selection,
                    start,
                    tick as int,
                    k,
                ),
            forall|k: int| t <= k < voices@.len() ==> #[trigger] voices@[k] == start[k],
        decreases song.tracks@.len() - t,
    {
        let track = &song.tracks[t];
        assert(song.tracks@[t as int].fits());
        assert(voices@[t as int] == start[t as int]);
        if !track_hushed(song, selection, track, solo_active) && !track_plays_frozen(
            selection,
            track,
            t,
        ) {
            trigger_regions(&mut voices[t], t, track, tick, &mut triggers);
        }
        t += 1;
    }
    let ghost pools = voices@;
    let ghost done = triggers@;
    let mut t: usize = 0;
    while t < song.tracks.len()
        invariant
            solo_active == any_solo(*song),
            t <= song.tracks@.len(),
            voices@.len() == song.tracks@.len(),
            pools.len() == song.tracks@.len(),
            triggers@ == done + all_audio_triggers(*song, selection, start, t as nat, tick as int),
            forall|k: int| 0 <= k < voices@.len() ==> (#[trigger] voices@[k]).wf(),
            forall|k: int|
                0 <= k < pools.len() ==> #[trigger] pools[k] == voices_after_regions(
                    *song,
                    selection,
                    start,
                    tick as int,
                    k,
                ),
            forall|k: int|
                0 <= k < t ==> #[trigger] voices@[k] == track_audio_triggers(
                    *song,
                    selection,
                    pools[k],
                    k as usize,
                    tick as int,
                ).1,
            forall|k: int| t <= k < voices@.len() ==> #[trigger] voices@[k] == pools[k],
        decreases song.tracks@.len() - t,
    {
        assert(voices@[t as int] == pools[t as int]);
        if !track_hushed(song, selection, &song.tracks[t], solo_active) {
            trigger_audio(&mut voices[t], song, selection, t, tick, &mut triggers);
        }
        t += 1;
    }
    assert(voices@ =~= arrangement_voices(*song, selection, start, tick as int));
    triggers
}

/// Whether a trigger is one that the arrangement calls for at `tick`: its track is heard, and what
/// it plays lies there at that tick.
pub open spec fn arranged(song: Song, selection: Selection, tick: int, trigger: Trigger) -> bool {
    match trigger {
        Trigger::LaneSample { track, source, .. } => arranged_content(
            song,
            selection,
            tick,
            track,
            source,
            trigger,
        ),
        Trigger::LaneSynth { track, source, .. } => arranged_content(
            song,
            selection,
            tick,
            track,
            source,
            trigger,
        ),
        Trigger::Note { track, source, .. } => arranged_content(
            song,
            selection,
            tick,
            track,
            source,
            trigger,
        ),
        Trigger::FrozenClip { track, voice } => {
            &&& track < song.tracks@.len() && voice < SAMPLE_VOICE_COUNT
            &&& frozen_clip_starts(song, selection, track as int, tick)
        },
        Trigger::Clip { track, clip, voice } => {
            &&& track < song.tracks@.len() && voice < SAMPLE_VOICE_COUNT
            &&& plays_audio(song, selection, track as int) && {
                let clips = song.tracks@[track as int].audio_clips@;
                clip < clips.len() && clip_starts(clips[clip as int], tick)
            }
        },
        Trigger::TakeSegment { track, folder, segment, take, voice } => {
            &&& track < song.tracks@.len() && voice < SAMPLE_VOICE_COUNT
            &&& plays_audio(song, selection, track as int) && {
                let folders = song.tracks@[track as int].take_folders@;
                folder < folders.len() && segment < folders[folder as int].comp@.len() && {
                    let picked = folders[folder as int].comp@[segment as int];
                    segment_starts(folders[folder as int], picked, tick) && picked.take_index
                        == take
                }
            }
        },
        Trigger::SlotAudio { .. } => false,
        Trigger::SlotTake { .. } => false,
        Trigger::Cut { .. } => false,
    }
}

/// Whether a track's frozen clip starts at `tick` and is heard.
pub open spec fn frozen_clip_starts(song: Song, selection: Selection, t: int, tick: int) -> bool {
    let track = song.tracks@[t];
    !hushed(song, selection, track) && plays_frozen(selection, track, t) && (
    track.frozen_clip matches Some(clip) && clip_starts(clip, tick))
}

/// Whether a track plays its audio clips and take folders.
pub open spec fn plays_audio(song: Song, selection: Selection, t: int) -> bool {
    let track = song.tracks@[t];
    !hushed(song, selection, track) && !plays_frozen(selection, track, t) && track.kind == TrackKind::Audio
}

/// Whether a track plays its regions.
pub open spec fn plays_regions(song: Song, selection: Selection, t: int) -> bool {
    let track = song.tracks@[t];
    !hushed(song, selection, track) && !plays_frozen(selection, track, t)
}

/// Whether a step or note is called for by an active region of a track that plays its regions.
pub open spec fn arranged_content(
    song: Song,
    selection: Selection,
    tick: int,
    track: usize,
    source: ContentSource,
    trigger: Trigger,
) -> bool {
    &&& track < song.tracks@.len() && plays_regions(song, selection, track as int)
    &&& source matches ContentSource::Region(r) && r < song.tracks@[track as int].regions@.len() && {
        let region = song.tracks@[track as int].regions@[r as int];
        region_active(region, tick) && called_for(
            track,
            source,
            song.tracks@[track as int],
            region.content,
            region_local_tick(region, tick),
            trigger,
        )
    }
}

/// Whether every trigger of a list is called for.
pub open spec fn all_arranged(song: Song, selection: Selection, tick: int, triggers: Seq<Trigger>)
    -> bool {
    forall|i: int|
        0 <= i < triggers.len() ==> arranged(song, selection, tick, #[trigger] triggers[i])
}

proof fn lemma_region_triggers(
    song: Song,
    selection: Selection,
    voices: TrackVoices,
    track_index: usize,
    n: nat,
    tick: int,
)
    requires
        voices.wf(),
        track_index < song.tracks@.len(),
        plays_regions(song, selection, track_index as int),
        n <= song.tracks@[track_index as int].regions@.len(),
    ensures
        ({
            let (added, after) = region_triggers(
                voices,
                track_index,
                song.tracks@[track_index as int],
                n,
                tick,
            );
            after.wf() && all_arranged(song, selection, tick, added)
        }),
    decreases n,
{
    if n > 0 {
        lemma_region_triggers(song, selection, voices, track_index, (n - 1) as nat, tick);
        let track = song.tracks@[track_index as int];
        assert(track.regions.len() == track.regions@.len());
        let region = track.regions@[n - 1];
        let (earlier, pools) = region_triggers(voices, track_index, track, (n - 1) as nat, tick);
        if region_active(region, tick) {
            let source = ContentSource::Region((n - 1) as usize);
            let local = region_local_tick(region, tick);
            law_content_triggers_what_it_calls_for(
                pools,
                track_index,
                source,
                track,
                region.content,
                local,
            );
            let added = content_triggers(
                pools,
                track_index,
                source,
                track,
                region.content,
                local,
            ).0;
            let all = region_triggers(voices, track_index, track, n, tick).0;
            assert forall|i: int| 0 <= i < all.len() implies arranged(
                song,
                selection,
                tick,
                #[trigger] all[i],
            ) by {
                if i >= earlier.len() {
                    let trigger = added[i - earlier.len()];
                    assert(all[i] == trigger);
                    assert(called_for(track_index, source, track, region.content, local, trigger));
                } else {
                    assert(all[i] == earlier[i]);
                }
            }
        }
    }
}

proof fn lemma_track_regions(song: Song, selection: Selection, voices: TrackVoices, t: usize, tick: int)
    requires
        voices.wf(),
        t < song.tracks@.len(),
    ensures
        track_region_triggers(song, selection, voices, t, tick).1.wf(),
        all_arranged(
            song,
            selection,
            tick,
            track_region_triggers(song, selection, voices, t, tick).0,
        ),
{
    if plays_regions(song, selection, t as int) {
        lemma_region_triggers(song, selection, voices, t, song.tracks@[t as int].regions@.len(), tick);
    }
}

proof fn lemma_clip_triggers(
    song: Song,
    selection: Selection,
    voices: TrackVoices,
    t: usize,
    n: nat,
    tick: int,
)
    requires
        voices.wf(),
        t < song.tracks@.len(),
        plays_audio(song, selection, t as int),
        n <= song.tracks@[t as int].audio_clips@.len(),
    ensures
        ({
            let clips = song.tracks@[t as int].audio_clips@;
            let (added, after) = clip_triggers(voices, t, clips, n, tick);
            &&& after.wf()
            &&& all_arranged(song, selection, tick, added)
            &&& forall|k: int|
                0 <= k < n && clip_starts(#[trigger] clips[k], tick) ==> exists|i: int|
                    0 <= i < added.len() && plays_clip(#[trigger] added[i], t, k)
        }),
    decreases n,
{
    if n > 0 {
        lemma_clip_triggers(song, selection, voices, t, (n - 1) as nat, tick);
        let track = song.tracks@[t as int];
        let clips = track.audio_clips@;
        assert(track.audio_clips.len() == clips.len());
        let earlier = clip_triggers(voices, t, clips, (n - 1) as nat, tick).0;
        let added = clip_triggers(voices, t, clips, n, tick).0;
        assert forall|i: int| 0 <= i < added.len() implies arranged(
            song,
            selection,
            tick,
            #[trigger] added[i],
        ) by {
            if i < earlier.len() {
                assert(added[i] == earlier[i]);
            }
        }
        assert forall|k: int| 0 <= k < n && clip_starts(#[trigger] clips[k], tick) implies exists|
            i: int,
        |
            0 <= i < added.len() && plays_clip(#[trigger] added[i], t, k) by {
            if k == n - 1 {
                assert(plays_clip(added[added.len() - 1], t, k));
            } else {
                let i = choose|i: int|
                    0 <= i < earlier.len() && plays_clip(#[trigger] earlier[i], t, k);
                assert(added[i] == earlier[i]);
            }
        }
    }
}

/// Whether a trigger plays the given audio clip of a track.
pub open spec fn plays_clip(trigger: Trigger, t: usize, k: int) -> bool {
    trigger matches Trigger::Clip { track, clip, .. } && track == t && clip == k
}

/// Whether a trigger plays the given comp segment of a track.
pub open spec fn plays_segment(trigger: Trigger, t: usize, f: int, k: int) -> bool {
    trigger matches Trigger::TakeSegment { track, folder, segment, .. } && track == t && folder == f
        && segment == k
}

proof fn lemma_segment_triggers(
    song: Song,
    selection: Selection,
    voices: TrackVoices,
    t: usize,
    f: usize,
    n: nat,
    tick: int,
)
    requires
        voices.wf(),
        t < song.tracks@.len(),
        plays_audio(song, selection, t as int),
        f < song.tracks@[t as int].take_folders@.len(),
        n <= song.tracks@[t as int].take_folders@[f as int].comp@.len(),
    ensures
        ({
            let folder = song.tracks@[t as int].take_folders@[f as int];
            let (added, after) = segment_triggers(voices, t, f, folder, n, tick);
            &&& after.wf()
            &&& all_arranged(song, selection, tick, added)
            &&& forall|k: int|
                0 <= k < n && segment_starts(folder, #[trigger] folder.comp@[k], tick) ==> exists|
                    i: int,
                |
                    0 <= i < added.len() && plays_segment(#[trigger] added[i], t, f as int, k)
        }),
    decreases n,
{
    if n > 0 {
        lemma_segment_triggers(song, selection, voices, t, f, (n - 1) as nat, tick);
        let folder = song.tracks@[t as int].take_folders@[f as int];
        assert(folder.comp.len() == folder.comp@.len());
        let earlier = segment_triggers(voices, t, f, folder, (n - 1) as nat, tick).0;
        let added = segment_triggers(voices, t, f, folder, n, tick).0;
        assert forall|i: int| 0 <= i < added.len() implies arranged(
            song,
            selection,
            tick,
            #[trigger] added[i],
        ) by {
            if i < earlier.len() {
                assert(added[i] == earlier[i]);
            }
        }
        assert forall|k: int|
            0 <= k < n && segment_starts(folder, #[trigger] folder.comp@[k], tick) implies exists|
            i: int,
        |
            0 <= i < added.len() && plays_segment(#[trigger] added[i], t, f as int, k) by {
            if k == n - 1 {
                assert(plays_segment(added[added.len() - 1], t, f as int, k));
            } else {
                let i = choose|i: int|
                    0 <= i < earlier.len() && plays_segment(
                        #[trigger] earlier[i],
                        t,
                        f as int,
                        k,
                    );
                assert(added[i] == earlier[i]);
            }
        }
    }
}

proof fn lemma_folder_triggers(
    song: Song,
    selection: Selection,
    voices: TrackVoices,
    t: usize,
    n: nat,
    tick: int,
)
    requires
        voices.wf(),
        t < song.tracks@.len(),
        plays_audio(song, selection, t as int),
        n <= song.tracks@[t as int].take_folders@.len(),
    ensures
        ({
            let folders = song.tracks@[t as int].take_folders@;
            let (added, after) = folder_triggers(voices, t, folders, n, tick);
            &&& after.wf()
            &&& all_arranged(song, selection, tick, added)
            &&& forall|f: int, k: int|
                0 <= f < n && 0 <= k < folders[f].comp@.len() && segment_starts(
                    folders[f],
                    #[trigger] folders[f].comp@[k],
                    tick,
                ) ==> exists|i: int|
                    0 <= i < added.len() && plays_segment(#[trigger] added[i], t, f, k)
        }),
    decreases n,
{
    if n > 0 {
        lemma_folder_triggers(song, selection, voices, t, (n - 1) as nat, tick);
        let track = song.tracks@[t as int];
        let folders = track.take_folders@;
        assert(track.take_folders.len() == folders.len());
        let (earlier, pools) = folder_triggers(voices, t, folders, (n - 1) as nat, tick);
        let folder = folders[n - 1];
        lemma_segment_triggers(song, selection, pools, t, (n - 1) as usize, folder.comp@.len(), tick);
        let last = segment_triggers(pools, t, (n - 1) as usize, folder, folder.comp@.len(), tick).0;
        let added = folder_triggers(voices, t, folders, n, tick).0;
        assert(added == earlier + last);
        assert forall|i: int| 0 <= i < added.len() implies arranged(
            song,
            selection,
            tick,
            #[trigger] added[i],
        ) by {
            if i < earlier.len() {
                assert(added[i] == earlier[i]);
            } else {
                assert(added[i] == last[i - earlier.len()]);
            }
        }
        assert forall|f: int, k: int|
            0 <= f < n && 0 <= k < folders[f].comp@.len() && segment_starts(
                folders[f],
                #[trigger] folders[f].comp@[k],
                tick,
            ) implies exists|i: int|
            0 <= i < added.len() && plays_segment(#[trigger] added[i], t, f, k) by {
            if f == n - 1 {
                let i = choose|i: int|
                    0 <= i < last.len() && plays_segment(#[trigger] last[i], t, f, k);
                assert(added[earlier.len() + i] == last[i]);
            } else {
                let i = choose|i: int|
                    0 <= i < earlier.len() && plays_segment(#[trigger] earlier[i], t, f, k);
                assert(added[i] == earlier[i]);
            }
        }
    }
}

proof fn lemma_track_audio(song: Song, selection: Selection, voices: TrackVoices, t: usize, tick: int)
    requires
        voices.wf(),
        t < song.tracks@.len(),
    ensures
        track_audio_triggers(song, selection, voices, t, tick).1.wf(),
        all_arranged(
            song,
            selection,
            tick,
            track_audio_triggers(song, selection, voices, t, tick).0,
        ),
        ({
            let track = song.tracks@[t as int];
            let added = track_audio_triggers(song, selection, voices, t, tick).0;
            &&& plays_audio(song, selection, t as int) ==> forall|k: int|
                0 <= k < track.audio_clips@.len() && clip_starts(
                    #[trigger] track.audio_clips@[k],
                    tick,
                ) ==> exists|i: int| 0 <= i < added.len() && plays_clip(#[trigger] added[i], t, k)
            &&& plays_audio(song, selection, t as int) ==> forall|f: int, k: int|
                0 <= f < track.take_folders@.len() && 0 <= k < track.take_folders@[f].comp@.len()
                    && segment_starts(
                    track.take_folders@[f],
                    #[trigger] track.take_folders@[f].comp@[k],
                    tick,
                ) ==> exists|i: int|
                    0 <= i < added.len() && plays_segment(#[trigger] added[i], t, f, k)
        }),
{
    if plays_audio(song, selection, t as int) {
        let track = song.tracks@[t as int];
        lemma_clip_triggers(song, selection, voices, t, track.audio_clips@.len(), tick);
        let (clips, pools) = clip_triggers(
            voices,
            t,
            track.audio_clips@,
            track.audio_clips@.len(),
            tick,
        );
        lemma_folder_triggers(song, selection, pools, t, track.take_folders@.len(), tick);
        let segments = folder_triggers(
            pools,
            t,
            track.take_folders@,
            track.take_folders@.len(),
            tick,
        ).0;
        let added = track_audio_triggers(song, selection, voices, t, tick).0;
        assert(added == clips + segments);
        assert forall|i: int| 0 <= i < added.len() implies arranged(
            song,
            selection,
            tick,
            #[trigger] added[i],
        ) by {
            if i < clips.len() {
                assert(added[i] == clips[i]);
            } else {
                assert(added[i] == segments[i - clips.len()]);
            }
        }
        assert forall|k: int|
            0 <= k < track.audio_clips@.len() && clip_starts(
                #[trigger] track.audio_clips@[k],
                tick,
            ) implies exists|i: int|
            0 <= i < added.len() && plays_clip(#[trigger] added[i], t, k) by {
            let i = choose|i: int| 0 <= i < clips.len() && plays_clip(#[trigger] clips[i], t, k);
            assert(added[i] == clips[i]);
        }
        assert forall|f: int, k: int|
            0 <= f < track.take_folders@.len() && 0 <= k < track.take_folders@[f].comp@.len()
                && segment_starts(
                track.take_folders@[f],
                #[trigger] track.take_folders@[f].comp@[k],
                tick,
            ) implies exists|i: int|
            0 <= i < added.len() && plays_segment(#[trigger] added[i], t, f, k) by {
            let i = choose|i: int|
                0 <= i < segments.len() && plays_segment(#[trigger] segments[i], t, f, k);
            assert(added[clips.len() + i] == segments[i]);
        }
    }
}

proof fn lemma_all_regions(song: Song, selection: Selection, voices: Seq<TrackVoices>, n: nat, tick: int)
    requires
        forall|t: int| 0 <= t < voices.len() ==> (#[trigger] voices[t]).wf(),
        voices.len() == song.tracks@.len(),
        n <= song.tracks@.len(),
    ensures
        all_arranged(song, selection, tick, all_region_triggers(song, selection, voices, n, tick)),
        forall|t: int|
            0 <= t < n ==> (#[trigger] voices_after_regions(song, selection, voices, tick, t)).wf(),
    decreases n,
{
    if n > 0 {
        lemma_all_regions(song, selection, voices, (n - 1) as nat, tick);
        assert(song.tracks.len() == song.tracks@.len());
        assert(voices[n - 1].wf());
        lemma_track_regions(song, selection, voices[n - 1], (n - 1) as usize, tick);
    }
}

proof fn lemma_all_audio(song: Song, selection: Selection, voices: Seq<TrackVoices>, n: nat, tick: int)
    requires
        forall|t: int| 0 <= t < voices.len() ==> (#[trigger] voices[t]).wf(),
        voices.len() == song.tracks@.len(),
        n <= song.tracks@.len(),
    ensures
        all_arranged(song, selection, tick, all_audio_triggers(song, selection, voices, n, tick)),
    decreases n,
{
    if n > 0 {
        lemma_all_audio(song, selection, voices, (n - 1) as nat, tick);
        lemma_all_regions(song, selection, voices, n, tick);
        assert(song.tracks.len() == song.tracks@.len());
        assert(voices_after_regions(song, selection, voices, tick, n - 1).wf());
        lemma_track_audio(
            song,
            selection,
            voices_after_regions(song, selection, voices, tick, n - 1),
            (n - 1) as usize,
            tick,
        );
    }
}

/// The arrangement sets off nothing that it does not call for. In particular a track that
/// is left out sets off nothing, a frozen one nothing but its frozen clip, and a region nothing
/// outside its span.
pub proof fn law_arrangement_triggers_are_called_for(
    song: Song,
    selection: Selection,
    voices: Seq<TrackVoices>,
    tick: int,
)
    requires
        forall|t: int| 0 <= t < voices.len() ==> (#[trigger] voices[t]).wf(),
        voices.len() == song.tracks@.len(),
    ensures
        all_arranged(song, selection, tick, arrangement_triggers(song, selection, voices, tick)),
{
    let n = song.tracks@.len();
    lemma_all_regions(song, selection, voices, n, tick);
    lemma_all_audio(song, selection, voices, n, tick);
}

/// Where in a track's region triggers the `i`th trigger of region `r` stands.
proof fn lemma_find_in_regions(
    voices: TrackVoices,
    track_index: usize,
    track: Track,
    n: nat,
    tick: int,
    r: nat,
    i: int,
) -> (j: int)
    requires
        r < n <= track.regions@.len(),
        region_active(track.regions@[r as int], tick),
        ({
            let pools = region_triggers(voices, track_index, track, r, tick).1;
            let region = track.regions@[r as int];
            0 <= i < content_triggers(
                pools,
                track_index,
                ContentSource::Region(r as usize),
                track,
                region.content,
                region_local_tick(region, tick),
            ).0.len()
        }),
    ensures
        ({
            let pools = region_triggers(voices, track_index, track, r, tick).1;
            let region = track.regions@[r as int];
            let all = region_triggers(voices, track_index, track, n, tick).0;
            0 <= j < all.len() && all[j] == content_triggers(
                pools,
                track_index,
                ContentSource::Region(r as usize),
                track,
                region.content,
                region_local_tick(region, tick),
            ).0[i]
        }),
    decreases n,
{
    let earlier = region_triggers(voices, track_index, track, (n - 1) as nat, tick).0;
    if r == n - 1 {
        earlier.len() + i
    } else {
        lemma_find_in_regions(voices, track_index, track, (n - 1) as nat, tick, r, i)
    }
}

/// Where in all region triggers the `i`th trigger of track `t` stands.
proof fn lemma_find_in_all_regions(
    song: Song,
    selection: Selection,
    voices: Seq<TrackVoices>,
    n: nat,
    tick: int,
    t: nat,
    i: int,
) -> (j: int)
    requires
        t < n,
        0 <= i < track_region_triggers(song, selection, voices[t as int], t as usize, tick).0.len(),
    ensures
        0 <= j < all_region_triggers(song, selection, voices, n, tick).len(),
        all_region_triggers(song, selection, voices, n, tick)[j] == track_region_triggers(
            song,
            selection,
            voices[t as int],
            t as usize,
            tick,
        ).0[i],
    decreases n,
{
    let earlier = all_region_triggers(song, selection, voices, (n - 1) as nat, tick);
    if t == n - 1 {
        earlier.len() + i
    } else {
        lemma_find_in_all_regions(song, selection, voices, (n - 1) as nat, tick, t, i)
    }
}

/// Where in all audio triggers the `i`th trigger of track `t` stands.
proof fn lemma_find_in_all_audio(
    song: Song,
    selection: Selection,
    voices: Seq<TrackVoices>,
    n: nat,
    tick: int,
    t: nat,
    i: int,
) -> (j: int)
    requires
        t < n,
        0 <= i < track_audio_triggers(
            song,
            selection,
            voices_after_regions(song, selection, voices, tick, t as int),
            t as usize,
            tick,
        ).0.len(),
    ensures
        0 <= j < all_audio_triggers(song, selection, voices, n, tick).len(),
        all_audio_triggers(song, selection, voices, n, tick)[j] == track_audio_triggers(
            song,
            selection,
            voices_after_regions(song, selection, voices, tick, t as int),
            t as usize,
            tick,
        ).0[i],
    decreases n,
{
    let earlier = all_audio_triggers(song, selection, voices, (n - 1) as nat, tick);
    if t == n - 1 {
        earlier.len() + i
    } else {
        lemma_find_in_all_audio(song, selection, voices, (n - 1) as nat, tick, t, i)
    }
}

/// Whether a trigger stands for a step or note of the given region of a track.
pub open spec fn plays_region(trigger: Trigger, t: usize, r: usize) -> bool {
    match trigger {
        Trigger::LaneSample { track, source, .. } => track == t && source == ContentSource::Region(
            r,
        ),
        Trigger::LaneSynth { track, source, .. } => track == t && source == ContentSource::Region(
            r,
        ),
        Trigger::Note { track, source, .. } => track == t && source == ContentSource::Region(r),
        _ => false,
    }
}

/// Every note that falls on the tick is played: of each active region, on each track that plays
/// its regions.
pub proof fn law_every_note_on_the_tick_is_played(
    song: Song,
    selection: Selection,
    voices: Seq<TrackVoices>,
    tick: int,
    t: usize,
    r: usize,
    k: int,
)
    requires
        forall|t: int| 0 <= t < voices.len() ==> (#[trigger] voices[t]).wf(),
        voices.len() == song.tracks@.len(),
        t < song.tracks@.len(),
        plays_regions(song, selection, t as int),
        r < song.tracks@[t as int].regions@.len(),
        region_active(song.tracks@[t as int].regions@[r as int], tick),
        song.tracks@[t as int].regions@[r as int].content is PianoRoll,
        0 <= k < song.tracks@[t as int].regions@[r as int].content->PianoRoll_0@.len(),
        song.tracks@[t as int].regions@[r as int].content->PianoRoll_0@[k].start_tick
            == region_local_tick(song.tracks@[t as int].regions@[r as int], tick),
    ensures
        exists|j: int|
            0 <= j < arrangement_triggers(song, selection, voices, tick).len() && plays_note(
                #[trigger] arrangement_triggers(song, selection, voices, tick)[j],
                k,
            ) && plays_region(arrangement_triggers(song, selection, voices, tick)[j], t, r),
{
    let track = song.tracks@[t as int];
    let region = track.regions@[r as int];
    let local = region_local_tick(region, tick);
    let source = ContentSource::Region(r);
    assert(voices[t as int].wf());
    lemma_region_triggers(song, selection, voices[t as int], t, r as nat, tick);
    let pools = region_triggers(voices[t as int], t, track, r as nat, tick).1;
    law_content_triggers_what_it_calls_for(pools, t, source, track, region.content, local);
    let content = content_triggers(pools, t, source, track, region.content, local).0;
    let notes = region.content->PianoRoll_0@;
    assert(notes[k].start_tick == local);
    let i = choose|i: int| 0 <= i < content.len() && plays_note(#[trigger] content[i], k);
    assert(called_for(t, source, track, region.content, local, content[i]));
    let a = lemma_find_in_regions(
        voices[t as int],
        t,
        track,
        track.regions@.len(),
        tick,
        r as nat,
        i,
    );
    let n = song.tracks@.len();
    let b = lemma_find_in_all_regions(song, selection, voices, n, tick, t as nat, a);
    assert(arrangement_triggers(song, selection, voices, tick)[b] == content[i]);
}

/// Every step that falls on the tick is played: of each active region, on each track that plays
/// its regions.
pub proof fn law_every_step_on_the_tick_is_played(
    song: Song,
    selection: Selection,
    voices: Seq<TrackVoices>,
    tick: int,
    t: usize,
    r: usize,
    l: int,
)
    requires
        forall|t: int| 0 <= t < voices.len() ==> (#[trigger] voices[t]).wf(),
        voices.len() == song.tracks@.len(),
        t < song.tracks@.len(),
        plays_regions(song, selection, t as int),
        r < song.tracks@[t as int].regions@.len(),
        region_active(song.tracks@[t as int].regions@[r as int], tick),
        song.tracks@[t as int].regions@[r as int].content is StepGrid,
        0 <= l < song.tracks@[t as int].regions@[r as int].content->StepGrid_0@.len(),
        step_at(
            song.tracks@[t as int].regions@[r as int].content->StepGrid_0@[l],
            region_local_tick(song.tracks@[t as int].regions@[r as int], tick),
        ) is Some,
    ensures
        exists|j: int|
            0 <= j < arrangement_triggers(song, selection, voices, tick).len() && plays_lane(
                #[trigger] arrangement_triggers(song, selection, voices, tick)[j],
                l,
            ) && plays_region(arrangement_triggers(song, selection, voices, tick)[j], t, r),
{
    let track = song.tracks@[t as int];
    let region = track.regions@[r as int];
    let local = region_local_tick(region, tick);
    let source = ContentSource::Region(r);
    assert(voices[t as int].wf());
    lemma_region_triggers(song, selection, voices[t as int], t, r as nat, tick);
    let pools = region_triggers(voices[t as int], t, track, r as nat, tick).1;
    law_content_triggers_what_it_calls_for(pools, t, source, track, region.content, local);
    let content = content_triggers(pools, t, source, track, region.content, local).0;
    let lanes = region.content->StepGrid_0@;
    assert(step_at(lanes[l], local) is Some);
    let i = choose|i: int| 0 <= i < content.len() && plays_lane(#[trigger] content[i], l);
    assert(called_for(t, source, track, region.content, local, content[i]));
    let a = lemma_find_in_regions(
        voices[t as int],
        t,
        track,
        track.regions@.len(),
        tick,
        r as nat,
        i,
    );
    let n = song.tracks@.len();
    let b = lemma_find_in_all_regions(song, selection, voices, n, tick, t as nat, a);
    assert(arrangement_triggers(song, selection, voices, tick)[b] == content[i]);
}

/// Every loaded audio clip that starts on the tick is played, on each track that plays its audio.
pub proof fn law_every_clip_on_the_tick_is_played(
    song: Song,
    selection: Selection,
    voices: Seq<TrackVoices>,
    tick: int,
    t: usize,
    k: int,
)
    requires
        forall|t: int| 0 <= t < voices.len() ==> (#[trigger] voices[t]).wf(),
        voices.len() == song.tracks@.len(),
        t < song.tracks@.len(),
        plays_audio(song, selection, t as int),
        0 <= k < song.tracks@[t as int].audio_clips@.len(),
        clip_starts(song.tracks@[t as int].audio_clips@[k], tick),
    ensures
        exists|j: int|
            0 <= j < arrangement_triggers(song, selection, voices, tick).len() && plays_clip(
                #[trigger] arrangement_triggers(song, selection, voices, tick)[j],
                t,
                k,
            ),
{
    let n = song.tracks@.len();
    lemma_all_regions(song, selection, voices, n, tick);
    let pools = voices_after_regions(song, selection, voices, tick, t as int);
    lemma_track_audio(song, selection, pools, t, tick);
    let added = track_audio_triggers(song, selection, pools, t, tick).0;
    assert(clip_starts(song.tracks@[t as int].audio_clips@[k], tick));
    let i = choose|i: int| 0 <= i < added.len() && plays_clip(#[trigger] added[i], t, k);
    let b = lemma_find_in_all_audio(song, selection, voices, n, tick, t as nat, i);
    let regions = all_region_triggers(song, selection, voices, n, tick);
    assert(arrangement_triggers(song, selection, voices, tick)[regions.len() + b] == added[i]);
}

/// Every comp segment that starts on the tick, with its take loaded, is played, on each track that
/// plays its audio.
pub proof fn law_every_segment_on_the_tick_is_played(
    song: Song,
    selection: Selection,
    voices: Seq<TrackVoices>,
    tick: int,
    t: usize,
    f: int,
    k: int,
)
    requires
        forall|t: int| 0 <= t < voices.len() ==> (#[trigger] voices[t]).wf(),
        voices.len() == song.tracks@.len(),
        t < song.tracks@.len(),
        plays_audio(song, selection, t as int),
        0 <= f < song.tracks@[t as int].take_folders@.len(),
        0 <= k < song.tracks@[t as int].take_folders@[f].comp@.len(),
        segment_starts(
            song.tracks@[t as int].take_folders@[f],
            song.tracks@[t as int].take_folders@[f].comp@[k],
            tick,
        ),
    ensures
        exists|j: int|
            0 <= j < arrangement_triggers(song, selection, voices, tick).len() && plays_segment(
                #[trigger] arrangement_triggers(song, selection, voices, tick)[j],
                t,
                f,
                k,
            ),
{
    let n = song.tracks@.len();
    lemma_all_regions(song, selection, voices, n, tick);
    let pools = voices_after_regions(song, selection, voices, tick, t as int);
    lemma_track_audio(song, selection, pools, t, tick);
    let added = track_audio_triggers(song, selection, pools, t, tick).0;
    let folders = song.tracks@[t as int].take_folders@;
    assert(segment_starts(folders[f], folders[f].comp@[k], tick));
    let i = choose|i: int| 0 <= i < added.len() && plays_segment(#[trigger] added[i], t, f, k);
    let b = lemma_find_in_all_audio(song, selection, voices, n, tick, t as nat, i);
    let regions = all_region_triggers(song, selection, voices, n, tick);
    assert(arrangement_triggers(song, selection, voices, tick)[regions.len() + b] == added[i]);
}

/// A frozen track's clip is played when its tick comes.
pub proof fn law_frozen_clip_is_played(
    song: Song,
    selection: Selection,
    voices: Seq<TrackVoices>,
    tick: int,
    t: usize,
)
    requires
        voices.len() == song.tracks@.len(),
        t < song.tracks@.len(),
        frozen_clip_starts(song, selection, t as int, tick),
    ensures
        exists|j: int|
            0 <= j < arrangement_triggers(song, selection, voices, tick).len() && (
            #[trigger] arrangement_triggers(song, selection, voices, tick)[j] matches
                Trigger::FrozenClip { track, .. } && track == t),
{
    let n = song.tracks@.len();
    let pools = voices_after_regions(song, selection, voices, tick, t as int);
    let added = track_audio_triggers(song, selection, pools, t, tick).0;
    let b = lemma_find_in_all_audio(song, selection, voices, n, tick, t as nat, 0);
    let regions = all_region_triggers(song, selection, voices, n, tick);
    assert(arrangement_triggers(song, selection, voices, tick)[regions.len() + b] == added[0]);
}

/// Inside its span a region plays its content over and over: a full content length later the same
/// tick of the content comes round.
pub proof fn law_content_repeats(region: Region, tick: int)
    requires
        region.start_tick <= tick,
        content_length(region) > 0,
    ensures
        region_local_tick(region, tick + content_length(region)) == region_local_tick(region, tick),
        0 <= region_local_tick(region, tick) < content_length(region),
{
    let length = content_length(region);
    let offset = tick - region.start_tick;
    assert(length > 1);
    vstd::arithmetic::div_mod::lemma_mod_add_multiples_vanish(offset, length);
}

proof fn lemma_regions_ignore_switches(
    voices: TrackVoices,
    track_index: usize,
    a: Track,
    b: Track,
    n: nat,
    tick: int,
)
    requires
        same_but_for_switches(a, b),
    ensures
        region_triggers(voices, track_index, a, n, tick) == region_triggers(
            voices,
            track_index,
            b,
            n,
            tick,
        ),
    decreases n,
{
    if n > 0 {
        lemma_regions_ignore_switches(voices, track_index, a, b, (n - 1) as nat, tick);
        let region = a.regions@[n - 1];
        law_content_ignores_switches(
            region_triggers(voices, track_index, a, (n - 1) as nat, tick).1,
            track_index,
            ContentSource::Region((n - 1) as usize),
            a,
            b,
            region.content,
            region_local_tick(region, tick),
        );
    }
}

/// Whether a track sounds the same in two songs under a selection: it is heard in both or in
/// neither, plays its frozen clip in both or in neither, and differs in its switches at most.
spec fn track_sounds_the_same(a: Song, b: Song, selection: Selection, t: int) -> bool {
    let (x, y) = (a.tracks@[t], b.tracks@[t]);
    &&& same_but_for_switches(x, y)
    &&& hushed(a, selection, x) == hushed(b, selection, y)
    &&& plays_frozen(selection, x, t) == plays_frozen(selection, y, t)
    &&& plays_frozen(selection, x, t) ==> x.frozen_clip == y.frozen_clip
}

proof fn lemma_tracks_ignore_switches(
    a: Song,
    b: Song,
    selection: Selection,
    voices: Seq<TrackVoices>,
    n: nat,
    tick: int,
)
    requires
        n <= a.tracks@.len(),
        a.tracks@.len() == b.tracks@.len(),
        forall|t: int|
            0 <= t < a.tracks@.len() ==> #[trigger] track_sounds_the_same(a, b, selection, t),
    ensures
        all_region_triggers(a, selection, voices, n, tick) == all_region_triggers(
            b,
            selection,
            voices,
            n,
            tick,
        ),
        all_audio_triggers(a, selection, voices, n, tick) == all_audio_triggers(
            b,
            selection,
            voices,
            n,
            tick,
        ),
        forall|t: int|
            0 <= t < n ==> (#[trigger] arrangement_voices(a, selection, voices, tick)[t])
                == arrangement_voices(b, selection, voices, tick)[t],
    decreases n,
{
    if n > 0 {
        lemma_tracks_ignore_switches(a, b, selection, voices, (n - 1) as nat, tick);
        assert(a.tracks.len() == a.tracks@.len());
        let t = (n - 1) as usize;
        let track = a.tracks@[n - 1];
        assert(track_sounds_the_same(a, b, selection, n - 1));
        lemma_regions_ignore_switches(
            voices[n - 1],
            t,
            track,
            b.tracks@[n - 1],
            track.regions@.len(),
            tick,
        );
        let pools = voices_after_regions(a, selection, voices, tick, n - 1);
        assert(pools == voices_after_regions(b, selection, voices, tick, n - 1));
        assert(track_audio_triggers(a, selection, pools, t, tick) == track_audio_triggers(
            b,
            selection,
            pools,
            t,
            tick,
        ));
    }
}

/// Where every track is to play, as in a bounce of the whole song, mute and solo make no
/// difference: songs that differ only in those switches, on tracks and submix buses alike, set off
/// the same and take the same voices.
pub proof fn law_mute_and_solo_make_no_difference_where_every_track_plays(
    a: Song,
    b: Song,
    selection: Selection,
    voices: Seq<TrackVoices>,
    tick: int,
)
    requires
        selection.every_track,
        a.tracks@.len() == b.tracks@.len(),
        forall|t: int|
            0 <= t < a.tracks@.len() ==> (#[trigger] b.tracks@[t]) == (Track {
                muted: b.tracks@[t].muted,
                solo: b.tracks@[t].solo,
                ..a.tracks@[t]
            }),
    ensures
        arrangement_triggers(a, selection, voices, tick) == arrangement_triggers(
            b,
            selection,
            voices,
            tick,
        ),
        arrangement_voices(a, selection, voices, tick) == arrangement_voices(
            b,
            selection,
            voices,
            tick,
        ),
{
    assert forall|t: int| 0 <= t < a.tracks@.len() implies #[trigger] track_sounds_the_same(
        a,
        b,
        selection,
        t,
    ) by {
        assert(b.tracks@[t] == (Track {
            muted: b.tracks@[t].muted,
            solo: b.tracks@[t].solo,
            ..a.tracks@[t]
        }));
    }
    lemma_tracks_ignore_switches(a, b, selection, voices, a.tracks@.len(), tick);
    assert(arrangement_voices(a, selection, voices, tick) =~= arrangement_voices(
        b,
        selection,
        voices,
        tick,
    ));
}

/// Whether two songs differ at most in whether a track is frozen, and in the clip it was frozen to.
pub open spec fn same_but_for_freeze(a: Song, b: Song, t: int) -> bool {
    &&& b == (Song { tracks: b.tracks, ..a })
    &&& 0 <= t < a.tracks@.len()
    &&& b.tracks@ == a.tracks@.update(
        t,
        Track {
            frozen: b.tracks@[t].frozen,
            frozen_clip: b.tracks@[t].frozen_clip,
            ..a.tracks@[t]
        },
    )
}

/// A track that is baked down is rendered afresh, whether or not it is frozen: songs that differ only
/// in whether it is, and in the clip it was frozen to, set off the same and take the same voices.
pub proof fn law_a_bake_ignores_an_earlier_one(
    a: Song,
    b: Song,
    selection: Selection,
    voices: Seq<TrackVoices>,
    tick: int,
    track_index: usize,
)
    requires
        selection.live_track == Some(track_index),
        same_but_for_freeze(a, b, track_index as int),
    ensures
        arrangement_triggers(a, selection, voices, tick) == arrangement_triggers(
            b,
            selection,
            voices,
            tick,
        ),
        arrangement_voices(a, selection, voices, tick) == arrangement_voices(
            b,
            selection,
            voices,
            tick,
        ),
{
    assert forall|t: int| 0 <= t < a.tracks@.len() implies (#[trigger] a.tracks@[t]).solo
        == b.tracks@[t].solo by {}
    assert(a.submixes == b.submixes);
    if exists|t: int| 0 <= t < a.tracks@.len() && (#[trigger] a.tracks@[t]).solo {
        let t = choose|t: int| 0 <= t < a.tracks@.len() && (#[trigger] a.tracks@[t]).solo;
        assert(b.tracks@[t].solo);
    }
    if exists|t: int| 0 <= t < b.tracks@.len() && (#[trigger] b.tracks@[t]).solo {
        let t = choose|t: int| 0 <= t < b.tracks@.len() && (#[trigger] b.tracks@[t]).solo;
        assert(a.tracks@[t].solo);
    }
    assert(any_solo(a) == any_solo(b));
    assert forall|t: int| 0 <= t < a.tracks@.len() implies #[trigger] track_sounds_the_same(
        a,
        b,
        selection,
        t,
    ) by {}
    lemma_tracks_ignore_switches(a, b, selection, voices, a.tracks@.len(), tick);
    assert(arrangement_voices(a, selection, voices, tick) =~= arrangement_voices(
        b,
        selection,
        voices,
        tick,
    ));
}

/// A note of an audible region sounds as far after the region's start as it is written, and again
/// after every full length of the content, for as long as the region's span lasts: on those ticks, at
/// no other, and always at its own pitch, as hard and as long as it is written.
pub proof fn law_a_note_sounds_at_its_place_in_every_round(
    song: Song,
    selection: Selection,
    voices: Seq<TrackVoices>,
    tick: int,
    t: usize,
    r: usize,
    k: int,
)
    requires
        forall|i: int| 0 <= i < voices.len() ==> (#[trigger] voices[i]).wf(),
        voices.len() == song.tracks@.len(),
        t < song.tracks@.len(),
        !hushed(song, selection, song.tracks@[t as int]),
        !plays_frozen(selection, song.tracks@[t as int], t as int),
        r < song.tracks@[t as int].regions@.len(),
        song.tracks@[t as int].regions@[r as int].content_length_steps > 0,
        song.tracks@[t as int].regions@[r as int].content is PianoRoll,
        0 <= k < song.tracks@[t as int].regions@[r as int].content->PianoRoll_0@.len(),
    ensures
        ({
            let region = song.tracks@[t as int].regions@[r as int];
            let note = region.content->PianoRoll_0@[k];
            let length = region.content_length_steps * TICKS_PER_STEP;
            let due = region.start_tick <= tick < region.start_tick + region.loop_length_steps
                * TICKS_PER_STEP && note.start_tick < length && exists|round: nat|
                tick == region.start_tick + note.start_tick + #[trigger] (round * length);
            let triggers = arrangement_triggers(song, selection, voices, tick);
            &&& due ==> exists|j: int|
                0 <= j < triggers.len() && (#[trigger] triggers[j] matches Trigger::Note {
                    track,
                    source,
                    note: played,
                    pitch,
                    velocity,
                    length_ticks,
                    ..
                } && track == t && source == ContentSource::Region(r) && played == k && pitch
                    == note.pitch && velocity == note.velocity && length_ticks
                    == note.length_ticks)
            &&& !due ==> forall|j: int|
                0 <= j < triggers.len() ==> !(#[trigger] triggers[j] matches Trigger::Note {
                    track,
                    source,
                    note: played,
                    ..
                } && track == t && source == ContentSource::Region(r) && played == k)
        }),
{
    let region = song.tracks@[t as int].regions@[r as int];
    let note = region.content->PianoRoll_0@[k];
    let length = region.content_length_steps * TICKS_PER_STEP;
    let due = region.start_tick <= tick < region.start_tick + region.loop_length_steps
        * TICKS_PER_STEP && note.start_tick < length && exists|round: nat|
        tick == region.start_tick + note.start_tick + #[trigger] (round * length);
    let triggers = arrangement_triggers(song, selection, voices, tick);
    law_arrangement_triggers_are_called_for(song, selection, voices, tick);
    if region.start_tick <= tick {
        law_content_starts_with_its_region(region, tick);
        if note.start_tick < length {
            law_content_comes_round(region, tick, note.start_tick as int);
        }
    }
    if due {
        law_every_note_on_the_tick_is_played(song, selection, voices, tick, t, r, k);
        let j = choose|j: int|
            0 <= j < triggers.len() && plays_note(#[trigger] triggers[j], k) && plays_region(
                triggers[j],
                t,
                r,
            );
        assert(arranged(song, selection, tick, triggers[j]));
    } else {
        assert forall|j: int| 0 <= j < triggers.len() implies !(
        #[trigger] triggers[j] matches Trigger::Note { track, source, note: played, .. } && track
            == t && source == ContentSource::Region(r) && played == k) by {
            assert(arranged(song, selection, tick, triggers[j]));
        }
    }
}

/// A lane of an audible region sounds wherever it has a step: as far after the region's start as that
/// step lies, and again after every full length of the content, for as long as the span lasts, and at
/// no other tick.
pub proof fn law_a_lane_sounds_at_its_steps_in_every_round(
    song: Song,
    selection: Selection,
    voices: Seq<TrackVoices>,
    tick: int,
    t: usize,
    r: usize,
    l: int,
)
    requires
        forall|i: int| 0 <= i < voices.len() ==> (#[trigger] voices[i]).wf(),
        voices.len() == song.tracks@.len(),
        t < song.tracks@.len(),
        !hushed(song, selection, song.tracks@[t as int]),
        !plays_frozen(selection, song.tracks@[t as int], t as int),
        r < song.tracks@[t as int].regions@.len(),
        song.tracks@[t as int].regions@[r as int].content_length_steps > 0,
        song.tracks@[t as int].regions@[r as int].content is StepGrid,
        0 <= l < song.tracks@[t as int].regions@[r as int].content->StepGrid_0@.len(),
    ensures
        ({
            let region = song.tracks@[t as int].regions@[r as int];
            let lane = region.content->StepGrid_0@[l];
            let length = region.content_length_steps * TICKS_PER_STEP;
            let active = region.start_tick <= tick < region.start_tick + region.loop_length_steps
                * TICKS_PER_STEP;
            let triggers = arrangement_triggers(song, selection, voices, tick);
            &&& forall|place: int, round: nat|
                #![trigger step_at(lane, place), round * length]
                active && 0 <= place < length && tick == region.start_tick + place + round * length
                    && step_at(lane, place) is Some ==> exists|j: int|
                    0 <= j < triggers.len() && plays_lane(#[trigger] triggers[j], l)
                        && plays_region(triggers[j], t, r)
            &&& forall|j: int|
                0 <= j < triggers.len() && plays_lane(#[trigger] triggers[j], l) && plays_region(
                    triggers[j],
                    t,
                    r,
                ) ==> active && exists|place: int, round: nat|
                    #![trigger step_at(lane, place), round * length]
                    0 <= place < length && tick == region.start_tick + place + round * length
                        && step_at(lane, place) is Some
        }),
{
    let region = song.tracks@[t as int].regions@[r as int];
    let lane = region.content->StepGrid_0@[l];
    let length = region.content_length_steps * TICKS_PER_STEP;
    let active = region.start_tick <= tick < region.start_tick + region.loop_length_steps
        * TICKS_PER_STEP;
    let triggers = arrangement_triggers(song, selection, voices, tick);
    law_arrangement_triggers_are_called_for(song, selection, voices, tick);
    assert forall|place: int, round: nat|
        #![trigger step_at(lane, place), round * length]
        active && 0 <= place < length && tick == region.start_tick + place + round * length
            && step_at(lane, place) is Some implies exists|j: int|
        0 <= j < triggers.len() && plays_lane(#[trigger] triggers[j], l) && plays_region(
            triggers[j],
            t,
            r,
        ) by {
        law_content_comes_round(region, tick, place);
        assert(region_local_tick(region, tick) == place);
        law_every_step_on_the_tick_is_played(song, selection, voices, tick, t, r, l);
    }
    assert forall|j: int|
        0 <= j < triggers.len() && plays_lane(#[trigger] triggers[j], l) && plays_region(
            triggers[j],
            t,
            r,
        ) implies active && exists|place: int, round: nat|
        #![trigger step_at(lane, place), round * length]
        0 <= place < length && tick == region.start_tick + place + round * length && step_at(
            lane,
            place,
        ) is Some by {
        assert(arranged(song, selection, tick, triggers[j]));
        let place = region_local_tick(region, tick);
        law_content_starts_with_its_region(region, tick);
        law_content_comes_round(region, tick, place);
        let round = choose|round: nat|
            tick == region.start_tick + place + #[trigger] (round * (region.content_length_steps
                * TICKS_PER_STEP));
        assert(step_at(lane, place) is Some);
        assert(tick == region.start_tick + place + round * length);
    }
}

/// An audio clip sounds once, at the tick it starts at: on an audible audio track that is not frozen,
/// with its audio loaded, and in no other case.
pub proof fn law_a_clip_sounds_when_it_starts(
    song: Song,
    selection: Selection,
    voices: Seq<TrackVoices>,
    tick: int,
    t: usize,
    k: int,
)
    requires
        forall|i: int| 0 <= i < voices.len() ==> (#[trigger] voices[i]).wf(),
        voices.len() == song.tracks@.len(),
        t < song.tracks@.len(),
        0 <= k < song.tracks@[t as int].audio_clips@.len(),
    ensures
        ({
            let track = song.tracks@[t as int];
            let clip = track.audio_clips@[k];
            let due = !hushed(song, selection, track) && !plays_frozen(selection, track, t as int)
                && track.kind == TrackKind::Audio && clip.start_tick == tick && clip.buffer is Some;
            let triggers = arrangement_triggers(song, selection, voices, tick);
            due <==> exists|j: int|
                0 <= j < triggers.len() && (#[trigger] triggers[j] matches Trigger::Clip {
                    track: played_on,
                    clip: played,
                    ..
                } && played_on == t && played == k)
        }),
{
    let track = song.tracks@[t as int];
    let clip = track.audio_clips@[k];
    let triggers = arrangement_triggers(song, selection, voices, tick);
    law_arrangement_triggers_are_called_for(song, selection, voices, tick);
    if !hushed(song, selection, track) && !plays_frozen(selection, track, t as int) && track.kind
        == TrackKind::Audio && clip.start_tick == tick && clip.buffer is Some {
        law_every_clip_on_the_tick_is_played(song, selection, voices, tick, t, k);
        let j = choose|j: int| 0 <= j < triggers.len() && plays_clip(#[trigger] triggers[j], t, k);
        assert(triggers[j] is Clip);
    }
    if exists|j: int|
        0 <= j < triggers.len() && (#[trigger] triggers[j] matches Trigger::Clip {
            track: played_on,
            clip: played,
            ..
        } && played_on == t && played == k) {
        let j = choose|j: int|
            0 <= j < triggers.len() && (#[trigger] triggers[j] matches Trigger::Clip {
                track: played_on,
                clip: played,
                ..
            } && played_on == t && played == k);
        assert(arranged(song, selection, tick, triggers[j]));
    }
}

/// A comp segment sounds once, as far after its folder's start as it lies in it, and plays the take it
/// picks: on an audible audio track that is not frozen, with that take loaded, and in no other case.
pub proof fn law_a_segment_sounds_when_it_starts(
    song: Song,
    selection: Selection,
    voices: Seq<TrackVoices>,
    tick: int,
    t: usize,
    f: int,
    k: int,
)
    requires
        forall|i: int| 0 <= i < voices.len() ==> (#[trigger] voices[i]).wf(),
        voices.len() == song.tracks@.len(),
        t < song.tracks@.len(),
        0 <= f < song.tracks@[t as int].take_folders@.len(),
        0 <= k < song.tracks@[t as int].take_folders@[f].comp@.len(),
    ensures
        ({
            let track = song.tracks@[t as int];
            let folder = track.take_folders@[f];
            let segment = folder.comp@[k];
            let due = !hushed(song, selection, track) && !plays_frozen(selection, track, t as int)
                && track.kind == TrackKind::Audio && folder.start_tick + segment.start_tick == tick
                && segment.take_index < folder.takes@.len()
                && folder.takes@[segment.take_index as int].buffer is Some;
            let triggers = arrangement_triggers(song, selection, voices, tick);
            &&& due <==> exists|j: int|
                0 <= j < triggers.len() && (#[trigger] triggers[j] matches Trigger::TakeSegment {
                    track: played_on,
                    folder: found_in,
                    segment: played,
                    ..
                } && played_on == t && found_in == f && played == k)
            &&& forall|j: int|
                0 <= j < triggers.len() ==> (#[trigger] triggers[j] matches Trigger::TakeSegment {
                    track: played_on,
                    folder: found_in,
                    segment: played,
                    take,
                    ..
                } ==> (played_on == t && found_in == f && played == k ==> take
                    == segment.take_index))
        }),
{
    let track = song.tracks@[t as int];
    let folder = track.take_folders@[f];
    let segment = folder.comp@[k];
    let triggers = arrangement_triggers(song, selection, voices, tick);
    law_arrangement_triggers_are_called_for(song, selection, voices, tick);
    if !hushed(song, selection, track) && !plays_frozen(selection, track, t as int) && track.kind
        == TrackKind::Audio && folder.start_tick + segment.start_tick == tick && segment.take_index
        < folder.takes@.len() && folder.takes@[segment.take_index as int].buffer is Some {
        law_every_segment_on_the_tick_is_played(song, selection, voices, tick, t, f, k);
        let j = choose|j: int|
            0 <= j < triggers.len() && plays_segment(#[trigger] triggers[j], t, f, k);
        assert(triggers[j] is TakeSegment);
    }
    assert forall|j: int| 0 <= j < triggers.len() implies arranged(
        song,
        selection,
        tick,
        #[trigger] triggers[j],
    ) by {}
}

/// A frozen track's clip sounds at the tick it starts at, and while a track plays its frozen clip
/// nothing else of it sounds.
pub proof fn law_a_frozen_track_plays_its_clip_alone(
    song: Song,
    selection: Selection,
    voices: Seq<TrackVoices>,
    tick: int,
    t: usize,
)
    requires
        forall|i: int| 0 <= i < voices.len() ==> (#[trigger] voices[i]).wf(),
        voices.len() == song.tracks@.len(),
        t < song.tracks@.len(),
    ensures
        ({
            let track = song.tracks@[t as int];
            let due = !hushed(song, selection, track) && plays_frozen(selection, track, t as int)
                && track.frozen_clip is Some && (track.frozen_clip->0).start_tick == tick && (
            track.frozen_clip->0).buffer is Some;
            let triggers = arrangement_triggers(song, selection, voices, tick);
            &&& due <==> exists|j: int|
                0 <= j < triggers.len() && (#[trigger] triggers[j] matches Trigger::FrozenClip {
                    track: played_on,
                    ..
                } && played_on == t)
            &&& plays_frozen(selection, track, t as int) ==> forall|j: int|
                0 <= j < triggers.len() && track_of(#[trigger] triggers[j]) == t
                    ==> triggers[j] is FrozenClip
            &&& hushed(song, selection, track) ==> forall|j: int|
                0 <= j < triggers.len() ==> track_of(#[trigger] triggers[j]) != t
        }),
{
    let track = song.tracks@[t as int];
    let triggers = arrangement_triggers(song, selection, voices, tick);
    law_arrangement_triggers_are_called_for(song, selection, voices, tick);
    if !hushed(song, selection, track) && plays_frozen(selection, track, t as int)
        && track.frozen_clip is Some && (track.frozen_clip->0).start_tick == tick && (
    track.frozen_clip->0).buffer is Some {
        law_frozen_clip_is_played(song, selection, voices, tick, t);
    }
    assert forall|j: int| 0 <= j < triggers.len() implies arranged(
        song,
        selection,
        tick,
        #[trigger] triggers[j],
    ) by {}
}

/// The track that a trigger is for.
pub open spec fn track_of(trigger: Trigger) -> int {
    match trigger {
        Trigger::LaneSample { track, .. } => track as int,
        Trigger::LaneSynth { track, .. } => track as int,
        Trigger::Note { track, .. } => track as int,
        Trigger::FrozenClip { track, .. } => track as int,
        Trigger::Clip { track, .. } => track as int,
        Trigger::TakeSegment { track, .. } => track as int,
        Trigger::SlotAudio { track, .. } => track as int,
        Trigger::SlotTake { track, .. } => track as int,
        Trigger::Cut { track, .. } => track as int,
    }
}

/// Of the first `n` triggers, those for one track, in order.
pub open spec fn of_track(triggers: Seq<Trigger>, t: int, n: nat) -> Seq<Trigger>
    decreases n,
{
    if n == 0 {
        Seq::empty()
    } else {
        let earlier = of_track(triggers, t, (n - 1) as nat);
        if track_of(triggers[n - 1]) == t {
            earlier.push(triggers[n - 1])
        } else {
            earlier
        }
    }
}

proof fn lemma_of_track_agrees(a: Seq<Trigger>, b: Seq<Trigger>, t: int, n: nat)
    requires
        n <= a.len(),
        n <= b.len(),
        forall|i: int| 0 <= i < n ==> #[trigger] a[i] == b[i],
    ensures
        of_track(a, t, n) == of_track(b, t, n),
    decreases n,
{
    if n > 0 {
        lemma_of_track_agrees(a, b, t, (n - 1) as nat);
        assert(a[n - 1] == b[n - 1]);
    }
}

proof fn lemma_of_track_joins(a: Seq<Trigger>, b: Seq<Trigger>, t: int, n: nat)
    requires
        n <= b.len(),
    ensures
        of_track(a + b, t, a.len() + n) == of_track(a, t, a.len()) + of_track(b, t, n),
    decreases n,
{
    if n == 0 {
        lemma_of_track_agrees(a + b, a, t, a.len());
        assert(of_track(a, t, a.len()) + of_track(b, t, 0) =~= of_track(a, t, a.len()));
    } else {
        lemma_of_track_joins(a, b, t, (n - 1) as nat);
        assert((a + b)[a.len() + n - 1] == b[n - 1]);
        assert(of_track(a + b, t, a.len() + n) =~= of_track(a, t, a.len()) + of_track(b, t, n));
    }
}

proof fn lemma_of_own_track(triggers: Seq<Trigger>, own: int, t: int, n: nat)
    requires
        n <= triggers.len(),
        forall|i: int| 0 <= i < triggers.len() ==> track_of(#[trigger] triggers[i]) == own,
    ensures
        of_track(triggers, t, n) == (if own == t {
            triggers.take(n as int)
        } else {
            Seq::empty()
        }),
    decreases n,
{
    if n > 0 {
        lemma_of_own_track(triggers, own, t, (n - 1) as nat);
        assert(triggers.take(n as int) =~= triggers.take(n - 1).push(triggers[n - 1]));
        assert(track_of(triggers[n - 1]) == own);
    } else {
        assert(triggers.take(0) =~= Seq::empty());
    }
}

/// Whether a list of one track's triggers takes the track's voices in turn, all of them its own.
spec fn fair(voices: TrackVoices, triggers: Seq<Trigger>, after: TrackVoices, t: int) -> bool {
    &&& taken_in_turn(voices, triggers)
    &&& after == pools_after(voices, triggers, triggers.len())
    &&& forall|i: int| 0 <= i < triggers.len() ==> track_of(#[trigger] triggers[i]) == t
}

proof fn lemma_fair_joins(
    voices: TrackVoices,
    a: Seq<Trigger>,
    between: TrackVoices,
    b: Seq<Trigger>,
    after: TrackVoices,
    t: int,
)
    requires
        fair(voices, a, between, t),
        fair(between, b, after, t),
    ensures
        fair(voices, a + b, after, t),
{
    lemma_turns_join(voices, a, b);
    let all = a + b;
    assert forall|i: int| 0 <= i < all.len() implies track_of(#[trigger] all[i]) == t by {
        if i < a.len() {
            assert(all[i] == a[i]);
        } else {
            assert(all[i] == b[i - a.len()]);
        }
    }
}

proof fn lemma_fair_grows(
    voices: TrackVoices,
    earlier: Seq<Trigger>,
    pools: TrackVoices,
    trigger: Trigger,
    t: int,
)
    requires
        fair(voices, earlier, pools, t),
        track_of(trigger) == t,
        plays_next_voice(pools, trigger),
    ensures
        fair(voices, earlier.push(trigger), pools_after(pools, seq![trigger], 1), t),
{
    lemma_turn_pushed(voices, earlier, trigger);
    let all = earlier.push(trigger);
    assert forall|i: int| 0 <= i < all.len() implies track_of(#[trigger] all[i]) == t by {
        if i < earlier.len() {
            assert(all[i] == earlier[i]);
        }
    }
}

proof fn lemma_sample_taken(pools: TrackVoices, trigger: Trigger)
    requires
        trigger is FrozenClip || trigger is Clip || trigger is TakeSegment,
    ensures
        pools_after(pools, seq![trigger], 1) == pools.after_sample(),
{
    assert(pools_after(pools, seq![trigger], 0) == pools);
}

proof fn lemma_regions_are_fair(
    voices: TrackVoices,
    track_index: usize,
    track: Track,
    n: nat,
    tick: int,
)
    requires
        n <= track.regions@.len(),
        voices.wf(),
    ensures
        ({
            let (added, after) = region_triggers(voices, track_index, track, n, tick);
            fair(voices, added, after, track_index as int) && after.wf()
        }),
    decreases n,
{
    if n > 0 {
        lemma_regions_are_fair(voices, track_index, track, (n - 1) as nat, tick);
        let (earlier, pools) = region_triggers(voices, track_index, track, (n - 1) as nat, tick);
        let region = track.regions@[n - 1];
        if region_active(region, tick) {
            let source = ContentSource::Region((n - 1) as usize);
            let local = region_local_tick(region, tick);
            let (added, after) = content_triggers(
                pools,
                track_index,
                source,
                track,
                region.content,
                local,
            );
            law_content_takes_voices_in_turn(
                pools,
                track_index,
                source,
                track,
                region.content,
                local,
            );
            law_content_triggers_what_it_calls_for(
                pools,
                track_index,
                source,
                track,
                region.content,
                local,
            );
            assert forall|i: int| 0 <= i < added.len() implies track_of(#[trigger] added[i])
                == track_index by {
                assert(called_for(track_index, source, track, region.content, local, added[i]));
            }
            lemma_fair_joins(voices, earlier, pools, added, after, track_index as int);
        }
    }
}

proof fn lemma_clips_are_fair(
    voices: TrackVoices,
    track_index: usize,
    clips: Seq<AudioClip>,
    n: nat,
    tick: int,
)
    requires
        n <= clips.len(),
    ensures
        ({
            let (added, after) = clip_triggers(voices, track_index, clips, n, tick);
            fair(voices, added, after, track_index as int)
        }),
    decreases n,
{
    if n > 0 {
        lemma_clips_are_fair(voices, track_index, clips, (n - 1) as nat, tick);
        let (earlier, pools) = clip_triggers(voices, track_index, clips, (n - 1) as nat, tick);
        if clip_starts(clips[n - 1], tick) {
            let trigger = Trigger::Clip {
                track: track_index,
                clip: (n - 1) as usize,
                voice: pools.next_sample_voice,
            };
            lemma_fair_grows(voices, earlier, pools, trigger, track_index as int);
            lemma_sample_taken(pools, trigger);
        }
    }
}

proof fn lemma_segments_are_fair(
    voices: TrackVoices,
    track_index: usize,
    folder_index: usize,
    folder: TakeFolder,
    n: nat,
    tick: int,
)
    requires
        n <= folder.comp@.len(),
    ensures
        ({
            let (added, after) = segment_triggers(
                voices,
                track_index,
                folder_index,
                folder,
                n,
                tick,
            );
            fair(voices, added, after, track_index as int)
        }),
    decreases n,
{
    if n > 0 {
        lemma_segments_are_fair(voices, track_index, folder_index, folder, (n - 1) as nat, tick);
        let (earlier, pools) = segment_triggers(
            voices,
            track_index,
            folder_index,
            folder,
            (n - 1) as nat,
            tick,
        );
        let segment = folder.comp@[n - 1];
        if segment_starts(folder, segment, tick) {
            let trigger = Trigger::TakeSegment {
                track: track_index,
                folder: folder_index,
                segment: (n - 1) as usize,
                take: segment.take_index,
                voice: pools.next_sample_voice,
            };
            lemma_fair_grows(voices, earlier, pools, trigger, track_index as int);
            lemma_sample_taken(pools, trigger);
        }
    }
}

proof fn lemma_folders_are_fair(
    voices: TrackVoices,
    track_index: usize,
    folders: Seq<TakeFolder>,
    n: nat,
    tick: int,
)
    requires
        n <= folders.len(),
    ensures
        ({
            let (added, after) = folder_triggers(voices, track_index, folders, n, tick);
            fair(voices, added, after, track_index as int)
        }),
    decreases n,
{
    if n > 0 {
        lemma_folders_are_fair(voices, track_index, folders, (n - 1) as nat, tick);
        let (earlier, pools) = folder_triggers(voices, track_index, folders, (n - 1) as nat, tick);
        let folder = folders[n - 1];
        lemma_segments_are_fair(
            pools,
            track_index,
            (n - 1) as usize,
            folder,
            folder.comp@.len(),
            tick,
        );
        let (added, after) = segment_triggers(
            pools,
            track_index,
            (n - 1) as usize,
            folder,
            folder.comp@.len(),
            tick,
        );
        lemma_fair_joins(voices, earlier, pools, added, after, track_index as int);
    }
}

proof fn lemma_track_is_fair(
    song: Song,
    selection: Selection,
    voices: TrackVoices,
    t: usize,
    tick: int,
)
    requires
        t < song.tracks@.len(),
        voices.wf(),
    ensures
        ({
            let (regions, pools) = track_region_triggers(song, selection, voices, t, tick);
            let (audio, after) = track_audio_triggers(song, selection, pools, t, tick);
            &&& fair(voices, regions, pools, t as int)
            &&& fair(pools, audio, after, t as int)
        }),
{
    let track = song.tracks@[t as int];
    let (regions, pools) = track_region_triggers(song, selection, voices, t, tick);
    lemma_regions_are_fair(voices, t, track, track.regions@.len(), tick);
    let (audio, after) = track_audio_triggers(song, selection, pools, t, tick);
    let n = track.audio_clips@.len();
    lemma_clips_are_fair(pools, t, track.audio_clips@, n, tick);
    let (clips, between) = clip_triggers(pools, t, track.audio_clips@, n, tick);
    let m = track.take_folders@.len();
    lemma_folders_are_fair(between, t, track.take_folders@, m, tick);
    let (segments, last) = folder_triggers(between, t, track.take_folders@, m, tick);
    lemma_fair_joins(pools, clips, between, segments, last, t as int);
    let frozen = Trigger::FrozenClip { track: t, voice: pools.next_sample_voice };
    assert(fair(pools, Seq::empty(), pools, t as int));
    lemma_fair_grows(pools, Seq::empty(), pools, frozen, t as int);
    lemma_sample_taken(pools, frozen);
    assert(Seq::empty().push(frozen) =~= seq![frozen]);
}

proof fn lemma_regions_of_track(
    song: Song,
    selection: Selection,
    voices: Seq<TrackVoices>,
    n: nat,
    tick: int,
    t: int,
)
    requires
        n <= song.tracks@.len(),
        voices.len() == song.tracks@.len(),
        forall|i: int| 0 <= i < voices.len() ==> (#[trigger] voices[i]).wf(),
        0 <= t < song.tracks@.len(),
    ensures
        ({
            let all = all_region_triggers(song, selection, voices, n, tick);
            of_track(all, t, all.len()) == (if t < n {
                track_region_triggers(song, selection, voices[t], t as usize, tick).0
            } else {
                Seq::empty()
            })
        }),
    decreases n,
{
    if n > 0 {
        lemma_regions_of_track(song, selection, voices, (n - 1) as nat, tick, t);
        assert(song.tracks.len() == song.tracks@.len());
        assert(voices[n - 1].wf());
        let earlier = all_region_triggers(song, selection, voices, (n - 1) as nat, tick);
        let own = track_region_triggers(song, selection, voices[n - 1], (n - 1) as usize, tick).0;
        lemma_track_is_fair(song, selection, voices[n - 1], (n - 1) as usize, tick);
        lemma_of_track_joins(earlier, own, t, own.len());
        lemma_of_own_track(own, n - 1, t, own.len());
        assert(own.take(own.len() as int) =~= own);
        assert(of_track(earlier, t, earlier.len()) + of_track(own, t, own.len()) =~= (if t < n {
            track_region_triggers(song, selection, voices[t], t as usize, tick).0
        } else {
            Seq::empty()
        }));
    }
}

proof fn lemma_audio_of_track(
    song: Song,
    selection: Selection,
    voices: Seq<TrackVoices>,
    n: nat,
    tick: int,
    t: int,
)
    requires
        n <= song.tracks@.len(),
        voices.len() == song.tracks@.len(),
        forall|i: int| 0 <= i < voices.len() ==> (#[trigger] voices[i]).wf(),
        0 <= t < song.tracks@.len(),
    ensures
        ({
            let all = all_audio_triggers(song, selection, voices, n, tick);
            of_track(all, t, all.len()) == (if t < n {
                track_audio_triggers(
                    song,
                    selection,
                    voices_after_regions(song, selection, voices, tick, t),
                    t as usize,
                    tick,
                ).0
            } else {
                Seq::empty()
            })
        }),
    decreases n,
{
    if n > 0 {
        lemma_audio_of_track(song, selection, voices, (n - 1) as nat, tick, t);
        assert(song.tracks.len() == song.tracks@.len());
        assert(voices[n - 1].wf());
        let earlier = all_audio_triggers(song, selection, voices, (n - 1) as nat, tick);
        let pools = voices_after_regions(song, selection, voices, tick, n - 1);
        let own = track_audio_triggers(song, selection, pools, (n - 1) as usize, tick).0;
        lemma_track_is_fair(song, selection, voices[n - 1], (n - 1) as usize, tick);
        lemma_of_track_joins(earlier, own, t, own.len());
        lemma_of_own_track(own, n - 1, t, own.len());
        assert(own.take(own.len() as int) =~= own);
        assert(of_track(earlier, t, earlier.len()) + of_track(own, t, own.len()) =~= (if t < n {
            track_audio_triggers(
                song,
                selection,
                voices_after_regions(song, selection, voices, tick, t),
                t as usize,
                tick,
            ).0
        } else {
            Seq::empty()
        }));
    }
}

/// Every track takes its own voices in turn, whatever the others do: of all that the arrangement sets
/// off, the triggers of one track each play on the next voice of their pool, and its pools are left
/// where the last of them leads.
pub proof fn law_each_track_takes_its_own_voices_in_turn(
    song: Song,
    selection: Selection,
    voices: Seq<TrackVoices>,
    tick: int,
    t: int,
)
    requires
        voices.len() == song.tracks@.len(),
        forall|i: int| 0 <= i < voices.len() ==> (#[trigger] voices[i]).wf(),
        0 <= t < song.tracks@.len(),
    ensures
        ({
            let all = arrangement_triggers(song, selection, voices, tick);
            let own = of_track(all, t, all.len());
            &&& taken_in_turn(voices[t], own)
            &&& arrangement_voices(song, selection, voices, tick)[t] == pools_after(
                voices[t],
                own,
                own.len(),
            )
        }),
{
    let n = song.tracks@.len();
    assert(song.tracks.len() == song.tracks@.len());
    assert(voices[t].wf());
    let regions = all_region_triggers(song, selection, voices, n, tick);
    let audio = all_audio_triggers(song, selection, voices, n, tick);
    lemma_regions_of_track(song, selection, voices, n, tick, t);
    lemma_audio_of_track(song, selection, voices, n, tick, t);
    lemma_of_track_joins(regions, audio, t, audio.len());
    lemma_track_is_fair(song, selection, voices[t], t as usize, tick);
    let (first, pools) = track_region_triggers(song, selection, voices[t], t as usize, tick);
    let (second, after) = track_audio_triggers(song, selection, pools, t as usize, tick);
    lemma_fair_joins(voices[t], first, pools, second, after, t);
}

/// What on its track a trigger plays, as a place in the order of playing: steps and notes by region
/// and then by lane or note, audio clips after them, and comp segments last, by folder and segment.
pub open spec fn place_of(trigger: Trigger) -> (int, int, int) {
    match trigger {
        Trigger::LaneSample { source: ContentSource::Region(r), lane, .. } => (
            0,
            r as int,
            lane as int,
        ),
        Trigger::LaneSynth { source: ContentSource::Region(r), lane, .. } => (
            0,
            r as int,
            lane as int,
        ),
        Trigger::Note { source: ContentSource::Region(r), note, .. } => (0, r as int, note as int),
        Trigger::FrozenClip { .. } => (1, 0, 0),
        Trigger::Clip { clip, .. } => (1, 0, clip as int),
        Trigger::TakeSegment { folder, segment, .. } => (2, folder as int, segment as int),
        _ => (3, 0, 0),
    }
}

/// Whether one place comes before another.
pub open spec fn comes_before(a: (int, int, int), b: (int, int, int)) -> bool {
    a.0 < b.0 || (a.0 == b.0 && (a.1 < b.1 || (a.1 == b.1 && a.2 < b.2)))
}

/// Whether triggers are in the order of playing, none of them for the same thing as another.
pub open spec fn in_order(triggers: Seq<Trigger>) -> bool {
    forall|i: int, j: int|
        0 <= i < j < triggers.len() ==> comes_before(
            place_of(#[trigger] triggers[i]),
            place_of(#[trigger] triggers[j]),
        )
}

/// Whether all triggers lie from one place on and before another.
spec fn lie_within(triggers: Seq<Trigger>, from: (int, int, int), to: (int, int, int)) -> bool {
    forall|i: int|
        0 <= i < triggers.len() ==> !comes_before(place_of(#[trigger] triggers[i]), from)
            && comes_before(place_of(triggers[i]), to)
}

proof fn lemma_order_joins(
    a: Seq<Trigger>,
    b: Seq<Trigger>,
    from: (int, int, int),
    mid: (int, int, int),
    to: (int, int, int),
)
    requires
        in_order(a),
        in_order(b),
        lie_within(a, from, mid),
        lie_within(b, mid, to),
        !comes_before(mid, from),
        !comes_before(to, mid),
    ensures
        in_order(a + b),
        lie_within(a + b, from, to),
{
    let all = a + b;
    assert forall|i: int| 0 <= i < all.len() implies !comes_before(
        place_of(#[trigger] all[i]),
        from,
    ) && comes_before(place_of(all[i]), to) by {
        if i < a.len() {
            assert(all[i] == a[i]);
        } else {
            assert(all[i] == b[i - a.len()]);
        }
    }
    assert forall|i: int, j: int| 0 <= i < j < all.len() implies comes_before(
        place_of(#[trigger] all[i]),
        place_of(#[trigger] all[j]),
    ) by {
        if j < a.len() {
            assert(all[i] == a[i] && all[j] == a[j]);
        } else if i >= a.len() {
            assert(all[i] == b[i - a.len()] && all[j] == b[j - a.len()]);
        } else {
            assert(all[i] == a[i] && all[j] == b[j - a.len()]);
        }
    }
}

proof fn lemma_regions_in_order(
    voices: TrackVoices,
    track_index: usize,
    track: Track,
    n: nat,
    tick: int,
)
    requires
        n <= track.regions@.len(),
        voices.wf(),
    ensures
        ({
            let added = region_triggers(voices, track_index, track, n, tick).0;
            in_order(added) && lie_within(added, (0, 0, 0), (0, n as int, 0))
        }),
    decreases n,
{
    if n > 0 {
        lemma_regions_in_order(voices, track_index, track, (n - 1) as nat, tick);
        lemma_regions_are_fair(voices, track_index, track, (n - 1) as nat, tick);
        assert(track.regions.len() == track.regions@.len());
        let (earlier, pools) = region_triggers(voices, track_index, track, (n - 1) as nat, tick);
        let region = track.regions@[n - 1];
        if region_active(region, tick) {
            let source = ContentSource::Region((n - 1) as usize);
            let local = region_local_tick(region, tick);
            let added = content_triggers(
                pools,
                track_index,
                source,
                track,
                region.content,
                local,
            ).0;
            law_content_takes_voices_in_turn(
                pools,
                track_index,
                source,
                track,
                region.content,
                local,
            );
            law_content_triggers_what_it_calls_for(
                pools,
                track_index,
                source,
                track,
                region.content,
                local,
            );
            assert forall|i: int| 0 <= i < added.len() implies #[trigger] place_of(added[i]) == (
                0int,
                n - 1,
                item_of(added[i]),
            ) && item_of(added[i]) >= 0 by {
                assert(called_for(track_index, source, track, region.content, local, added[i]));
            }
            assert(in_order(added));
            assert(lie_within(added, (0, n - 1, 0), (0, n as int, 0)));
            lemma_order_joins(
                earlier,
                added,
                (0, 0, 0),
                (0, n - 1, 0),
                (0, n as int, 0),
            );
        } else {
            assert forall|i: int| 0 <= i < earlier.len() implies comes_before(
                place_of(#[trigger] earlier[i]),
                (0, n as int, 0),
            ) by {
                assert(comes_before(place_of(earlier[i]), (0, n - 1, 0)));
            }
        }
    }
}

proof fn lemma_clips_in_order(
    voices: TrackVoices,
    track_index: usize,
    clips: Seq<AudioClip>,
    n: nat,
    tick: int,
)
    requires
        n <= clips.len() <= usize::MAX,
    ensures
        ({
            let added = clip_triggers(voices, track_index, clips, n, tick).0;
            in_order(added) && lie_within(added, (1, 0, 0), (1, 0, n as int))
        }),
    decreases n,
{
    if n > 0 {
        lemma_clips_in_order(voices, track_index, clips, (n - 1) as nat, tick);
        let (earlier, pools) = clip_triggers(voices, track_index, clips, (n - 1) as nat, tick);
        let added = clip_triggers(voices, track_index, clips, n, tick).0;
        if clip_starts(clips[n - 1], tick) {
            let one = seq![added.last()];
            assert(in_order(one));
            assert(lie_within(one, (1, 0, n - 1), (1, 0, n as int)));
            lemma_order_joins(earlier, one, (1, 0, 0), (1, 0, n - 1), (1, 0, n as int));
            assert(earlier + one =~= added);
        } else {
            lemma_order_joins(
                earlier,
                Seq::empty(),
                (1, 0, 0),
                (1, 0, n - 1),
                (1, 0, n as int),
            );
            assert(earlier + Seq::empty() =~= added);
        }
    }
}

proof fn lemma_segments_in_order(
    voices: TrackVoices,
    track_index: usize,
    f: usize,
    folder: TakeFolder,
    n: nat,
    tick: int,
)
    requires
        n <= folder.comp@.len() <= usize::MAX,
    ensures
        ({
            let added = segment_triggers(voices, track_index, f, folder, n, tick).0;
            in_order(added) && lie_within(added, (2, f as int, 0), (2, f as int, n as int))
        }),
    decreases n,
{
    if n > 0 {
        lemma_segments_in_order(voices, track_index, f, folder, (n - 1) as nat, tick);
        let m = (n - 1) as nat;
        let earlier = segment_triggers(voices, track_index, f, folder, m, tick).0;
        let added = segment_triggers(voices, track_index, f, folder, n, tick).0;
        let (from, mid, to) = ((2, f as int, 0), (2, f as int, n - 1), (2, f as int, n as int));
        if segment_starts(folder, folder.comp@[n - 1], tick) {
            let one = seq![added.last()];
            assert(in_order(one));
            assert(lie_within(one, mid, to));
            lemma_order_joins(earlier, one, from, mid, to);
            assert(earlier + one =~= added);
        } else {
            lemma_order_joins(earlier, Seq::empty(), from, mid, to);
            assert(earlier + Seq::empty() =~= added);
        }
    }
}

proof fn lemma_folders_in_order(
    voices: TrackVoices,
    track_index: usize,
    folders: Seq<TakeFolder>,
    n: nat,
    tick: int,
)
    requires
        n <= folders.len() <= usize::MAX,
    ensures
        ({
            let added = folder_triggers(voices, track_index, folders, n, tick).0;
            in_order(added) && lie_within(added, (2, 0, 0), (2, n as int, 0))
        }),
    decreases n,
{
    if n > 0 {
        lemma_folders_in_order(voices, track_index, folders, (n - 1) as nat, tick);
        let (earlier, pools) = folder_triggers(voices, track_index, folders, (n - 1) as nat, tick);
        let folder = folders[n - 1];
        let f = (n - 1) as usize;
        assert(folder.comp.len() == folder.comp@.len());
        lemma_segments_in_order(pools, track_index, f, folder, folder.comp@.len(), tick);
        let added = segment_triggers(pools, track_index, f, folder, folder.comp@.len(), tick).0;
        assert forall|i: int| 0 <= i < added.len() implies !comes_before(
            place_of(#[trigger] added[i]),
            (2, n - 1, 0),
        ) && comes_before(place_of(added[i]), (2, n as int, 0)) by {
            assert(comes_before(place_of(added[i]), (2, f as int, folder.comp@.len() as int)));
        }
        lemma_order_joins(earlier, added, (2, 0, 0), (2, n - 1, 0), (2, n as int, 0));
    }
}

/// Nothing is set off twice: the triggers of a track come in the order of what it holds, regions before
/// audio clips and those before comp segments, each thing at most once.
pub proof fn law_nothing_is_set_off_twice(
    song: Song,
    selection: Selection,
    voices: Seq<TrackVoices>,
    tick: int,
    t: int,
)
    requires
        voices.len() == song.tracks@.len(),
        forall|i: int| 0 <= i < voices.len() ==> (#[trigger] voices[i]).wf(),
        0 <= t < song.tracks@.len(),
    ensures
        ({
            let all = arrangement_triggers(song, selection, voices, tick);
            in_order(of_track(all, t, all.len()))
        }),
{
    let n = song.tracks@.len();
    assert(song.tracks.len() == song.tracks@.len());
    assert(voices[t].wf());
    let track = song.tracks@[t];
    let regions = all_region_triggers(song, selection, voices, n, tick);
    let audio = all_audio_triggers(song, selection, voices, n, tick);
    lemma_regions_of_track(song, selection, voices, n, tick, t);
    lemma_audio_of_track(song, selection, voices, n, tick, t);
    lemma_of_track_joins(regions, audio, t, audio.len());
    let (first, pools) = track_region_triggers(song, selection, voices[t], t as usize, tick);
    let (second, _) = track_audio_triggers(song, selection, pools, t as usize, tick);
    let r = track.regions@.len();
    let c = track.audio_clips@.len();
    let f = track.take_folders@.len();
    assert(track.audio_clips.len() == c && track.take_folders.len() == f);
    lemma_regions_in_order(voices[t], t as usize, track, r, tick);
    lemma_clips_in_order(pools, t as usize, track.audio_clips@, c, tick);
    let (clips, between) = clip_triggers(pools, t as usize, track.audio_clips@, c, tick);
    lemma_folders_in_order(between, t as usize, track.take_folders@, f, tick);
    let (segments, _) = folder_triggers(between, t as usize, track.take_folders@, f, tick);
    assert forall|i: int| 0 <= i < first.len() implies !comes_before(
        place_of(#[trigger] first[i]),
        (0, 0, 0),
    ) && comes_before(place_of(first[i]), (1, 0, 0)) by {
        assert(comes_before(place_of(first[i]), (0, r as int, 0)));
    }
    assert forall|i: int| 0 <= i < clips.len() implies !comes_before(
        place_of(#[trigger] clips[i]),
        (1, 0, 0),
    ) && comes_before(place_of(clips[i]), (2, 0, 0)) by {
        assert(comes_before(place_of(clips[i]), (1, 0, c as int)));
    }
    assert forall|i: int| 0 <= i < segments.len() implies !comes_before(
        place_of(#[trigger] segments[i]),
        (2, 0, 0),
    ) && comes_before(place_of(segments[i]), (3, 0, 0)) by {
        assert(comes_before(place_of(segments[i]), (2, f as int, 0)));
    }
    lemma_order_joins(clips, segments, (1, 0, 0), (2, 0, 0), (3, 0, 0));
    assert(in_order(second));
    assert(lie_within(second, (1, 0, 0), (3, 0, 0)));
    lemma_order_joins(first, second, (0, 0, 0), (1, 0, 0), (3, 0, 0));
}

proof fn lemma_regions_by_track(
    song: Song,
    selection: Selection,
    voices: Seq<TrackVoices>,
    n: nat,
    tick: int,
)
    requires
        n <= song.tracks@.len(),
        voices.len() == song.tracks@.len(),
        forall|i: int| 0 <= i < voices.len() ==> (#[trigger] voices[i]).wf(),
    ensures
        ({
            let all = all_region_triggers(song, selection, voices, n, tick);
            &&& forall|i: int|
                0 <= i < all.len() ==> track_of(#[trigger] all[i]) < n && place_of(all[i]).0 == 0
            &&& forall|i: int, j: int|
                0 <= i < j < all.len() ==> track_of(#[trigger] all[i]) <= track_of(
                    #[trigger] all[j],
                )
        }),
    decreases n,
{
    if n > 0 {
        lemma_regions_by_track(song, selection, voices, (n - 1) as nat, tick);
        assert(song.tracks.len() == song.tracks@.len());
        assert(voices[n - 1].wf());
        let t = (n - 1) as usize;
        let track = song.tracks@[n - 1];
        let earlier = all_region_triggers(song, selection, voices, (n - 1) as nat, tick);
        let own = track_region_triggers(song, selection, voices[n - 1], t, tick).0;
        let all = all_region_triggers(song, selection, voices, n, tick);
        lemma_track_is_fair(song, selection, voices[n - 1], t, tick);
        lemma_regions_in_order(voices[n - 1], t, track, track.regions@.len(), tick);
        assert forall|i: int| 0 <= i < all.len() implies track_of(#[trigger] all[i]) < n && place_of(
            all[i],
        ).0 == 0 by {
            if i < earlier.len() {
                assert(all[i] == earlier[i]);
            } else {
                assert(all[i] == own[i - earlier.len()]);
                assert(track_of(own[i - earlier.len()]) == t);
                assert(comes_before(
                    place_of(own[i - earlier.len()]),
                    (0, track.regions@.len() as int, 0),
                ));
            }
        }
        assert forall|i: int, j: int| 0 <= i < j < all.len() implies track_of(#[trigger] all[i])
            <= track_of(#[trigger] all[j]) by {
            if j < earlier.len() {
                assert(all[i] == earlier[i] && all[j] == earlier[j]);
            } else {
                assert(all[j] == own[j - earlier.len()]);
                if i >= earlier.len() {
                    assert(all[i] == own[i - earlier.len()]);
                }
            }
        }
    }
}

proof fn lemma_audio_by_track(
    song: Song,
    selection: Selection,
    voices: Seq<TrackVoices>,
    n: nat,
    tick: int,
)
    requires
        n <= song.tracks@.len(),
        voices.len() == song.tracks@.len(),
        forall|i: int| 0 <= i < voices.len() ==> (#[trigger] voices[i]).wf(),
    ensures
        ({
            let all = all_audio_triggers(song, selection, voices, n, tick);
            &&& forall|i: int|
                0 <= i < all.len() ==> track_of(#[trigger] all[i]) < n && place_of(all[i]).0 > 0
            &&& forall|i: int, j: int|
                0 <= i < j < all.len() ==> track_of(#[trigger] all[i]) <= track_of(
                    #[trigger] all[j],
                )
        }),
    decreases n,
{
    if n > 0 {
        lemma_audio_by_track(song, selection, voices, (n - 1) as nat, tick);
        assert(song.tracks.len() == song.tracks@.len());
        assert(voices[n - 1].wf());
        let t = (n - 1) as usize;
        let track = song.tracks@[n - 1];
        let earlier = all_audio_triggers(song, selection, voices, (n - 1) as nat, tick);
        let pools = voices_after_regions(song, selection, voices, tick, n - 1);
        let own = track_audio_triggers(song, selection, pools, t, tick).0;
        let all = all_audio_triggers(song, selection, voices, n, tick);
        lemma_track_is_fair(song, selection, voices[n - 1], t, tick);
        let c = track.audio_clips@.len();
        let f = track.take_folders@.len();
        assert(track.audio_clips.len() == c && track.take_folders.len() == f);
        lemma_clips_in_order(pools, t, track.audio_clips@, c, tick);
        let (clips, between) = clip_triggers(pools, t, track.audio_clips@, c, tick);
        lemma_folders_in_order(between, t, track.take_folders@, f, tick);
        let segments = folder_triggers(between, t, track.take_folders@, f, tick).0;
        assert forall|i: int| 0 <= i < own.len() implies place_of(#[trigger] own[i]).0 > 0 by {
            if own == clips + segments {
                if i < clips.len() {
                    assert(own[i] == clips[i]);
                } else {
                    assert(own[i] == segments[i - clips.len()]);
                }
            }
        }
        assert forall|i: int| 0 <= i < all.len() implies track_of(#[trigger] all[i]) < n && place_of(
            all[i],
        ).0 > 0 by {
            if i < earlier.len() {
                assert(all[i] == earlier[i]);
            } else {
                assert(all[i] == own[i - earlier.len()]);
                assert(track_of(own[i - earlier.len()]) == t);
            }
        }
        assert forall|i: int, j: int| 0 <= i < j < all.len() implies track_of(#[trigger] all[i])
            <= track_of(#[trigger] all[j]) by {
            if j < earlier.len() {
                assert(all[i] == earlier[i] && all[j] == earlier[j]);
            } else {
                assert(all[j] == own[j - earlier.len()]);
                if i >= earlier.len() {
                    assert(all[i] == own[i - earlier.len()]);
                }
            }
        }
    }
}

/// The arrangement sets off the steps and notes of every track first, track by track, and then their
/// audio, track by track again.
pub proof fn law_steps_and_notes_come_before_audio(
    song: Song,
    selection: Selection,
    voices: Seq<TrackVoices>,
    tick: int,
    i: int,
    j: int,
)
    requires
        voices.len() == song.tracks@.len(),
        forall|k: int| 0 <= k < voices.len() ==> (#[trigger] voices[k]).wf(),
        0 <= i < j < arrangement_triggers(song, selection, voices, tick).len(),
    ensures
        ({
            let triggers = arrangement_triggers(song, selection, voices, tick);
            let is_audio = |k: int|
                triggers[k] is FrozenClip || triggers[k] is Clip || triggers[k] is TakeSegment;
            &&& is_audio(i) ==> is_audio(j)
            &&& is_audio(i) == is_audio(j) ==> track_of(triggers[i]) <= track_of(triggers[j])
        }),
{
    let n = song.tracks@.len();
    let regions = all_region_triggers(song, selection, voices, n, tick);
    let audio = all_audio_triggers(song, selection, voices, n, tick);
    let triggers = arrangement_triggers(song, selection, voices, tick);
    lemma_regions_by_track(song, selection, voices, n, tick);
    lemma_audio_by_track(song, selection, voices, n, tick);
    law_arrangement_triggers_are_called_for(song, selection, voices, tick);
    assert(arranged(song, selection, tick, triggers[i]));
    assert(arranged(song, selection, tick, triggers[j]));
    if j < regions.len() {
        assert(triggers[i] == regions[i] && triggers[j] == regions[j]);
    } else {
        assert(triggers[j] == audio[j - regions.len()]);
        if i < regions.len() {
            assert(triggers[i] == regions[i]);
        } else {
            assert(triggers[i] == audio[i - regions.len()]);
        }
    }
}

} // verus!
