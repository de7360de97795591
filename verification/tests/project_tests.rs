//! Integration tests for the core project editing model: tracks, clips,
//! cut/copy/paste/duplicate/split/join/trim, sample-moving effects, and
//! undo/redo. Samples travel as the bit patterns of `f32` values.

use rakunator::project::{fade_toggle_plan, is_audible, Clip, ClipId, Project, TrackId};

fn project_with_one_track() -> Project {
    Project::new(48_000)
}

fn bits(samples: &[f32]) -> Vec<u32> {
    samples.iter().map(|s| s.to_bits()).collect()
}

fn floats(samples: &[u32]) -> Vec<f32> {
    samples.iter().map(|&s| f32::from_bits(s)).collect()
}

fn average(a: u32, b: u32) -> u32 {
    ((f32::from_bits(a) + f32::from_bits(b)) / 2.0).to_bits()
}

fn sum(a: u32, b: u32) -> u32 {
    (f32::from_bits(a) + f32::from_bits(b)).to_bits()
}

fn limit(s: u32) -> u32 {
    f32::from_bits(s).clamp(-1.0, 1.0).to_bits()
}

#[test]
fn new_project_starts_with_one_track() {
    let project = project_with_one_track();
    assert_eq!(project.tracks.len(), 1);
    assert_eq!(project.tracks[0].name, "Track 1");
}

#[test]
fn add_track_appends_and_names_sequentially() {
    let mut project = project_with_one_track();
    let second = project.add_track();
    assert_eq!(project.tracks.len(), 2);
    assert_eq!(project.track(second).unwrap().name, "Track 2");
}

#[test]
fn remove_track_drops_it() {
    let mut project = project_with_one_track();
    let track = project.tracks[0].id;
    project.remove_track(track);
    assert!(project.tracks.is_empty());
}

#[test]
fn move_track_reorders_the_list() {
    let mut project = project_with_one_track();
    let first = project.tracks[0].id;
    let second = project.add_track();
    project.move_track(first, 1);
    assert_eq!(project.tracks[0].id, second);
    assert_eq!(project.tracks[1].id, first);
}

#[test]
fn move_track_to_top_and_bottom() {
    let mut project = project_with_one_track();
    let first = project.tracks[0].id;
    let second = project.add_track();
    let third = project.add_track();

    project.move_track_to_top(third);
    assert_eq!(project.tracks[0].id, third);

    project.move_track_to_bottom(third);
    assert_eq!(project.tracks.last().unwrap().id, third);
    assert_eq!(project.tracks[0].id, first);
    assert_eq!(project.tracks[1].id, second);
}

#[test]
fn duplicate_track_copies_clips_with_fresh_ids() {
    let mut project = project_with_one_track();
    let track = project.tracks[0].id;
    let clip_id = project.add_clip(track, "c".into(), 0, bits(&[1.0; 10])).unwrap();

    let dup_track = project.duplicate_track(track).unwrap();

    assert_ne!(dup_track, track);
    let dup_clip = project.track(dup_track).unwrap().clips[0].id;
    assert_ne!(dup_clip, clip_id);
}

#[test]
fn add_clip_reports_correct_position_and_length() {
    let mut project = project_with_one_track();
    let track = project.tracks[0].id;
    let clip_id = project.add_clip(track, "c".into(), 5, bits(&[0.0; 100])).unwrap();

    let clip = project.track(track).unwrap().clips.iter().find(|c| c.id == clip_id).unwrap();
    assert_eq!(clip.start_sample, 5);
    assert_eq!(clip.len_samples(), 100);
    assert_eq!(clip.end_sample(), 105);
}

#[test]
fn move_clip_updates_position_and_can_change_track() {
    let mut project = project_with_one_track();
    let track_a = project.tracks[0].id;
    let track_b = project.add_track();
    let clip_id = project.add_clip(track_a, "c".into(), 0, bits(&[1.0; 10])).unwrap();

    project.move_clip(clip_id, track_b, 50);

    assert!(project.track(track_a).unwrap().clips.is_empty());
    let moved = &project.track(track_b).unwrap().clips[0];
    assert_eq!(moved.start_sample, 50);
}

#[test]
fn split_clip_produces_two_contiguous_pieces() {
    let mut project = project_with_one_track();
    let track = project.tracks[0].id;
    let clip_id = project.add_clip(track, "c".into(), 0, bits(&[1.0; 100])).unwrap();

    let (first, second) = project.split_clip(clip_id, 40).unwrap();

    let clips = &project.track(track).unwrap().clips;
    let c1 = clips.iter().find(|c| c.id == first).unwrap();
    let c2 = clips.iter().find(|c| c.id == second).unwrap();
    assert_eq!(c1.start_sample, 0);
    assert_eq!(c1.len_samples(), 40);
    assert_eq!(c2.start_sample, 40);
    assert_eq!(c2.len_samples(), 60);
}

#[test]
fn split_clip_rejects_points_at_or_outside_its_edges() {
    let mut project = project_with_one_track();
    let track = project.tracks[0].id;
    let clip_id = project.add_clip(track, "c".into(), 0, bits(&[1.0; 100])).unwrap();

    assert!(project.split_clip(clip_id, 0).is_none());
    assert!(project.split_clip(clip_id, 100).is_none());
    assert!(project.split_clip(clip_id, 200).is_none());
}

#[test]
fn cut_then_paste_round_trips_a_clip() {
    let mut project = project_with_one_track();
    let track = project.tracks[0].id;
    let clip_id = project.add_clip(track, "c".into(), 10, bits(&[1.0; 20])).unwrap();

    project.cut_clips(&[clip_id]);
    assert!(project.track(track).unwrap().clips.is_empty());

    let pasted = project.paste(track, 100);
    assert_eq!(pasted.len(), 1);
    let clip = &project.track(track).unwrap().clips[0];
    assert_eq!(clip.start_sample, 100);
    assert_eq!(clip.len_samples(), 20);
}

#[test]
fn cut_clips_drops_the_cut_ids_from_selection() {
    let mut project = project_with_one_track();
    let track = project.tracks[0].id;
    let clip_id = project.add_clip(track, "c".into(), 0, bits(&[1.0; 10])).unwrap();
    project.selection.push(clip_id);

    project.cut_clips(&[clip_id]);

    assert!(project.selection.is_empty());
}

#[test]
fn delete_clips_drops_the_deleted_ids_from_selection() {
    let mut project = project_with_one_track();
    let track = project.tracks[0].id;
    let clip_id = project.add_clip(track, "c".into(), 0, bits(&[1.0; 10])).unwrap();
    project.selection.push(clip_id);

    project.delete_clips(&[clip_id]);

    assert!(project.selection.is_empty());
}

#[test]
fn splitting_a_selected_clip_hands_the_selection_to_both_halves() {
    let mut project = project_with_one_track();
    let track = project.tracks[0].id;
    let clip_id = project.add_clip(track, "c".into(), 0, bits(&[1.0; 100])).unwrap();
    project.selection.push(clip_id);

    let (first, second) = project.split_clip(clip_id, 40).unwrap();

    assert_eq!(project.selection, vec![first, second]);
}

#[test]
fn copy_paste_preserves_relative_layout_across_tracks() {
    let mut project = project_with_one_track();
    let track_a = project.tracks[0].id;
    let track_b = project.add_track();
    let clip_a = project.add_clip(track_a, "a".into(), 0, bits(&[1.0; 10])).unwrap();
    let clip_b = project.add_clip(track_b, "b".into(), 20, bits(&[1.0; 10])).unwrap();

    project.copy_clips(&[clip_a, clip_b]);
    let new_ids = project.paste(track_a, 100);

    assert_eq!(new_ids.len(), 2);
    let mut starts: Vec<u64> = project
        .tracks
        .iter()
        .flat_map(|t| &t.clips)
        .filter(|c| new_ids.contains(&c.id))
        .map(|c| c.start_sample)
        .collect();
    starts.sort();
    // Anchor clip lands at 100; the other keeps its +20 relative offset.
    assert_eq!(starts, vec![100, 120]);
}

#[test]
fn duplicate_clip_creates_an_independent_copy() {
    let mut project = project_with_one_track();
    let track = project.tracks[0].id;
    let clip_id = project.add_clip(track, "c".into(), 0, bits(&[1.0; 10])).unwrap();

    let dup_id = project.duplicate_clip(clip_id, track, 50).unwrap();

    assert_ne!(dup_id, clip_id);
    assert_eq!(project.track(track).unwrap().clips.len(), 2);
    let dup = project.track(track).unwrap().clips.iter().find(|c| c.id == dup_id).unwrap();
    assert_eq!(dup.start_sample, 50);
}

#[test]
fn duplicate_selection_duplicates_every_clip_once() {
    let mut project = project_with_one_track();
    let track = project.tracks[0].id;
    let a = project.add_clip(track, "a".into(), 0, bits(&[1.0; 10])).unwrap();
    let b = project.add_clip(track, "b".into(), 100, bits(&[1.0; 10])).unwrap();

    project.duplicate_selection(&[a, b]);

    assert_eq!(project.track(track).unwrap().clips.len(), 4);
}

#[test]
fn join_clips_spans_from_earliest_start_to_latest_end() {
    let mut project = project_with_one_track();
    let track = project.tracks[0].id;
    let a = project.add_clip(track, "a".into(), 0, bits(&[1.0; 10])).unwrap();
    let b = project.add_clip(track, "b".into(), 20, bits(&[0.5; 10])).unwrap();

    let new_ids = project.join_clips(&[a, b]);

    assert_eq!(new_ids.len(), 1);
    let clips = &project.track(track).unwrap().clips;
    assert_eq!(clips.len(), 1);
    let joined = &clips[0];
    assert_eq!(joined.start_sample, 0);
    assert_eq!(joined.len_samples(), 30);
}

#[test]
fn join_clips_does_nothing_for_a_single_clip() {
    let mut project = project_with_one_track();
    let track = project.tracks[0].id;
    let a = project.add_clip(track, "a".into(), 0, bits(&[1.0; 10])).unwrap();

    let new_ids = project.join_clips(&[a]);

    assert!(new_ids.is_empty());
    assert_eq!(project.track(track).unwrap().clips.len(), 1);
}

#[test]
fn trim_start_shortens_and_advances_the_start() {
    let mut project = project_with_one_track();
    let track = project.tracks[0].id;
    let clip_id = project.add_clip(track, "c".into(), 100, bits(&[1.0; 100])).unwrap();

    project.trim_clip_start(clip_id, 20);

    let clip = &project.track(track).unwrap().clips[0];
    assert_eq!(clip.start_sample, 120);
    assert_eq!(clip.len_samples(), 80);
}

#[test]
fn trim_end_shortens_from_the_right() {
    let mut project = project_with_one_track();
    let track = project.tracks[0].id;
    let clip_id = project.add_clip(track, "c".into(), 0, bits(&[1.0; 100])).unwrap();

    project.trim_clip_end(clip_id, 20);

    let clip = &project.track(track).unwrap().clips[0];
    assert_eq!(clip.start_sample, 0);
    assert_eq!(clip.len_samples(), 80);
}

#[test]
fn trimmed_audio_can_be_dragged_back_out() {
    let mut project = project_with_one_track();
    let track = project.tracks[0].id;
    let clip_id = project.add_clip(track, "c".into(), 0, bits(&[1.0; 100])).unwrap();

    project.trim_clip_start(clip_id, 20);
    project.trim_clip_start(clip_id, -20);

    let clip = &project.track(track).unwrap().clips[0];
    assert_eq!(clip.start_sample, 0);
    assert_eq!(clip.len_samples(), 100);
}

#[test]
fn mute_range_silences_only_the_given_span() {
    let mut project = project_with_one_track();
    let track = project.tracks[0].id;
    project.track_mut(track).unwrap().channels = 1;
    let clip_id = project.add_clip(track, "c".into(), 0, bits(&[1.0; 10])).unwrap();

    project.mute_range(clip_id, 3, 6);

    let clip = &project.track(track).unwrap().clips[0];
    let samples = floats(&clip.visible_samples());
    assert_eq!(samples[0..3], [1.0, 1.0, 1.0]);
    assert_eq!(samples[3..6], [0.0, 0.0, 0.0]);
    assert_eq!(samples[6..10], [1.0, 1.0, 1.0, 1.0]);
}

#[test]
fn undo_reverts_the_last_edit_and_redo_reapplies_it() {
    let mut project = project_with_one_track();
    let track = project.tracks[0].id;
    project.add_clip(track, "c".into(), 0, bits(&[1.0; 10])).unwrap();
    assert_eq!(project.track(track).unwrap().clips.len(), 1);

    project.undo();
    assert_eq!(project.track(track).unwrap().clips.len(), 0);

    project.redo();
    assert_eq!(project.track(track).unwrap().clips.len(), 1);
}

#[test]
fn undo_with_nothing_to_undo_is_a_no_op() {
    let mut project = project_with_one_track();
    let track_count_before = project.tracks.len();
    project.undo();
    assert_eq!(project.tracks.len(), track_count_before);
}

#[test]
fn effect_targets_prefers_selected_tracks_over_clip_selection() {
    let mut project = project_with_one_track();
    let track_a = project.tracks[0].id;
    let track_b = project.add_track();
    let clip_a = project.add_clip(track_a, "a".into(), 0, bits(&[1.0; 10])).unwrap();
    let clip_b = project.add_clip(track_b, "b".into(), 0, bits(&[1.0; 10])).unwrap();

    project.selection.push(clip_a);
    assert_eq!(project.effect_targets(), vec![clip_a]);

    project.selected_tracks.push(track_b);
    assert_eq!(project.effect_targets(), vec![clip_b]);
}

#[test]
fn effect_targets_can_span_multiple_selected_tracks() {
    let mut project = project_with_one_track();
    let track_a = project.tracks[0].id;
    let track_b = project.add_track();
    let clip_a = project.add_clip(track_a, "a".into(), 0, bits(&[1.0; 10])).unwrap();
    let clip_b = project.add_clip(track_b, "b".into(), 0, bits(&[1.0; 10])).unwrap();

    project.selected_tracks.push(track_a);
    project.selected_tracks.push(track_b);

    let mut targets = project.effect_targets();
    targets.sort_by_key(|id| id.0);
    let mut expected = vec![clip_a, clip_b];
    expected.sort_by_key(|id| id.0);
    assert_eq!(targets, expected);
}

#[test]
fn cloning_a_project_does_not_carry_over_undo_history() {
    let mut project = project_with_one_track();
    let track = project.tracks[0].id;
    project.add_clip(track, "c".into(), 0, bits(&[1.0; 10])).unwrap();

    let mut cloned = project.clone();
    // The clone has no undo history of its own, so undo is a no-op even
    // though the original project could still undo the add_clip above.
    let clips_before = cloned.track(track).unwrap().clips.len();
    cloned.undo();
    assert_eq!(cloned.track(track).unwrap().clips.len(), clips_before);
}

#[test]
fn add_clip_channels_sets_track_channel_count_from_first_clip() {
    let mut project = project_with_one_track();
    let track_id = project.tracks[0].id;
    project.add_clip_channels(track_id, "stereo".into(), 0, bits(&[0.1, 0.2, 0.3, 0.4]), 2, average);

    let track = project.track(track_id).unwrap();
    assert_eq!(track.channels, 2);
    assert_eq!(track.clips[0].channels(), 2);
    assert_eq!(track.clips[0].len_samples(), 2);
}

#[test]
fn add_clip_channels_converts_mismatched_input_to_the_track_s_existing_channel_count() {
    let mut project = project_with_one_track();
    let track_id = project.tracks[0].id;
    // Force the track to mono (tracks default to stereo) so a stereo clip
    // added afterwards has to be downmixed to match.
    project.track_mut(track_id).unwrap().channels = 1;
    project.add_clip_channels(track_id, "mono".into(), 0, bits(&[1.0; 4]), 1, average);
    // A stereo clip added afterwards is downmixed to match.
    project.add_clip_channels(track_id, "stereo".into(), 10, bits(&[1.0, 0.0, 1.0, 0.0]), 2, average);

    let track = project.track(track_id).unwrap();
    assert_eq!(track.channels, 1);
    let second = &track.clips[1];
    assert_eq!(second.channels(), 1);
    assert_eq!(floats(&second.visible_samples()), &[0.5, 0.5]);
}

#[test]
fn split_track_to_mono_creates_two_mono_tracks_and_removes_the_original() {
    let mut project = project_with_one_track();
    let track_id = project.tracks[0].id;
    project.add_clip_channels(track_id, "stereo".into(), 0, bits(&[0.4, -0.2, 0.4, -0.2]), 2, average);

    let (left_id, right_id) = project.split_track_to_mono(track_id, sum).unwrap();

    assert!(project.track(track_id).is_none());
    let left = project.track(left_id).unwrap();
    let right = project.track(right_id).unwrap();
    assert_eq!(left.channels, 1);
    assert_eq!(right.channels, 1);
    assert_eq!(floats(&left.clips[0].visible_samples()), &[0.4, 0.4]);
    assert_eq!(floats(&right.clips[0].visible_samples()), &[-0.2, -0.2]);
}

#[test]
fn merge_track_with_below_creates_one_stereo_track() {
    let mut project = project_with_one_track();
    let top_id = project.tracks[0].id;
    let bottom_id = project.add_track();
    // Tracks default to stereo; force both to mono, as merge requires.
    project.track_mut(top_id).unwrap().channels = 1;
    project.track_mut(bottom_id).unwrap().channels = 1;
    project.add_clip(top_id, "l".into(), 0, bits(&[0.6, 0.6])).unwrap();
    project.add_clip(bottom_id, "r".into(), 0, bits(&[-0.3, -0.3])).unwrap();

    let merged_id = project.merge_track_with_below(top_id, sum, limit).unwrap();

    assert!(project.track(top_id).is_none());
    assert!(project.track(bottom_id).is_none());
    let merged = project.track(merged_id).unwrap();
    assert_eq!(merged.channels, 2);
    assert_eq!(merged.clips[0].channels(), 2);
    assert_eq!(floats(&merged.clips[0].visible_samples()), &[0.6, -0.3, 0.6, -0.3]);
}

#[test]
fn invert_flips_the_sign_of_every_sample() {
    let mut project = project_with_one_track();
    let track = project.tracks[0].id;
    project.track_mut(track).unwrap().channels = 1;
    let clip_id = project.add_clip(track, "c".into(), 0, bits(&[0.5, -0.25, 0.0])).unwrap();

    project.apply_invert(clip_id);

    let samples = floats(&project.track(track).unwrap().clips[0].visible_samples());
    assert_eq!(samples, vec![-0.5, 0.25, 0.0]);
}

#[test]
fn reverse_flips_frame_order_keeping_channels_together() {
    let mut project = project_with_one_track();
    let track = project.tracks[0].id;
    project.track_mut(track).unwrap().channels = 2;
    let clip_id = project
        .add_clip_channels(track, "c".into(), 0, bits(&[1.0, -1.0, 2.0, -2.0, 3.0, -3.0]), 2, average)
        .unwrap();

    project.apply_reverse(clip_id);

    let samples = floats(&project.track(track).unwrap().clips[0].visible_samples());
    assert_eq!(samples, vec![3.0, -3.0, 2.0, -2.0, 1.0, -1.0]);
}

#[test]
fn swap_channels_swaps_left_and_right() {
    let mut project = project_with_one_track();
    let track = project.tracks[0].id;
    let clip_id = project.add_clip_channels(track, "c".into(), 0, bits(&[0.1, 0.9, 0.2, 0.8]), 2, average).unwrap();

    project.apply_swap_channels(clip_id);

    let samples = floats(&project.track(track).unwrap().clips[0].visible_samples());
    assert_eq!(samples, vec![0.9, 0.1, 0.8, 0.2]);
}

#[test]
fn swap_channels_is_a_no_op_on_mono() {
    let mut project = project_with_one_track();
    let track = project.tracks[0].id;
    project.track_mut(track).unwrap().channels = 1;
    let clip_id = project.add_clip(track, "c".into(), 0, bits(&[0.1, 0.2, 0.3])).unwrap();

    project.apply_swap_channels(clip_id);

    let samples = floats(&project.track(track).unwrap().clips[0].visible_samples());
    assert_eq!(samples, vec![0.1, 0.2, 0.3]);
}

#[test]
fn mute_always_wins_over_solo() {
    let mut project = Project::new(48_000);
    let track_id = project.tracks[0].id;
    {
        let track = project.track_mut(track_id).unwrap();
        track.muted = true;
        track.soloed = true;
    }
    assert!(!is_audible(&project.tracks[0], true));
}

#[test]
fn solo_suppresses_non_soloed_tracks() {
    let mut project = Project::new(48_000);
    let track_a = project.tracks[0].id;
    let track_b = project.add_track();
    project.track_mut(track_b).unwrap().soloed = true;

    let any_soloed = project.tracks.iter().any(|t| t.soloed);
    assert!(any_soloed);
    assert!(!is_audible(project.track(track_a).unwrap(), any_soloed));
    assert!(is_audible(project.track(track_b).unwrap(), any_soloed));
}

#[test]
fn with_no_solo_all_unmuted_tracks_are_audible() {
    let project = Project::new(48_000);
    assert!(is_audible(&project.tracks[0], false));
}

// ---- further cases ----

#[test]
fn undo_right_after_an_edit_restores_the_previous_content() {
    let mut project = project_with_one_track();
    let track = project.tracks[0].id;
    let a = project.add_clip(track, "a".into(), 0, bits(&[1.0; 10])).unwrap();
    project.move_clip(a, track, 500);
    project.undo();
    assert_eq!(project.track(track).unwrap().clips[0].start_sample, 0);
    project.redo();
    assert_eq!(project.track(track).unwrap().clips[0].start_sample, 500);
}

#[test]
fn undo_history_is_capped() {
    let mut project = project_with_one_track();
    for _ in 0..60 {
        project.add_track();
    }
    assert_eq!(project.tracks.len(), 61);
    for _ in 0..60 {
        project.undo();
    }
    // Only the newest 50 steps were kept.
    assert_eq!(project.tracks.len(), 11);
}

#[test]
fn joined_clip_layers_later_clips_over_earlier_ones_and_fills_gaps_with_silence() {
    let mut project = project_with_one_track();
    let track = project.tracks[0].id;
    project.track_mut(track).unwrap().channels = 1;
    let a = project.add_clip(track, "a".into(), 0, bits(&[1.0; 4])).unwrap();
    let b = project.add_clip(track, "b".into(), 2, bits(&[0.5; 4])).unwrap();
    let c = project.add_clip(track, "c".into(), 8, bits(&[0.25; 2])).unwrap();

    let new_ids = project.join_clips(&[c, a, b]);

    assert_eq!(new_ids.len(), 1);
    let clips = &project.track(track).unwrap().clips;
    assert_eq!(clips.len(), 1);
    assert_eq!(clips[0].id, new_ids[0]);
    assert_eq!(clips[0].name, "a");
    assert_eq!(
        floats(&clips[0].visible_samples()),
        vec![1.0, 1.0, 0.5, 0.5, 0.5, 0.5, 0.0, 0.0, 0.25, 0.25]
    );
}

#[test]
fn join_clips_joins_each_track_on_its_own() {
    let mut project = project_with_one_track();
    let track_a = project.tracks[0].id;
    let track_b = project.add_track();
    let a1 = project.add_clip(track_a, "a1".into(), 0, bits(&[1.0; 2])).unwrap();
    let a2 = project.add_clip(track_a, "a2".into(), 4, bits(&[1.0; 2])).unwrap();
    let b1 = project.add_clip(track_b, "b1".into(), 0, bits(&[1.0; 2])).unwrap();

    let new_ids = project.join_clips(&[a1, a2, b1]);

    // Only the track with two named clips is joined.
    assert_eq!(new_ids.len(), 1);
    assert_eq!(project.track(track_a).unwrap().clips.len(), 1);
    assert_eq!(project.track(track_b).unwrap().clips.len(), 1);
    assert_eq!(project.track(track_b).unwrap().clips[0].id, b1);
}

#[test]
fn content_end_and_clip_edges() {
    let mut project = project_with_one_track();
    let track = project.tracks[0].id;
    let a = project.add_clip(track, "a".into(), 10, bits(&[1.0; 5])).unwrap();
    let b = project.add_clip(track, "b".into(), 40, bits(&[1.0; 5])).unwrap();
    assert_eq!(project.content_end(), 45);
    assert_eq!(project.all_clip_edges(), vec![10, 15, 40, 45]);
    assert_eq!(project.other_clip_edges(track, a), vec![40, 45]);
    assert_eq!(project.other_clip_edges(track, b), vec![10, 15]);
    assert!(project.other_clip_edges(TrackId(999), a).is_empty());
}

#[test]
fn clip_ids_on_track_and_find_clip_track() {
    let mut project = project_with_one_track();
    let track = project.tracks[0].id;
    let a = project.add_clip(track, "a".into(), 0, bits(&[1.0; 5])).unwrap();
    let b = project.add_clip(track, "b".into(), 10, bits(&[1.0; 5])).unwrap();
    assert_eq!(project.clip_ids_on_track(track), vec![a, b]);
    assert_eq!(project.find_clip_track(b), Some(track));
    assert_eq!(project.find_clip_track(ClipId(12345)), None);
}

#[test]
fn stereo_track_duplicates_a_mono_clip_to_both_channels() {
    let mut project = project_with_one_track();
    let track = project.tracks[0].id;
    // The first clip decides the track's channel count; a stereo one keeps it stereo.
    project.add_clip_channels(track, "s".into(), 100, bits(&[0.0, 0.0]), 2, average).unwrap();
    let id = project.add_clip(track, "m".into(), 0, bits(&[0.25, 0.5])).unwrap();
    let clip = project.track(track).unwrap().clips.iter().find(|c| c.id == id).unwrap();
    assert_eq!(clip.channels(), 2);
    assert_eq!(floats(&clip.visible_samples()), vec![0.25, 0.25, 0.5, 0.5]);
    assert_eq!(clip.channel_sample_at(1, 1), Some(0.5f32.to_bits()));
    assert_eq!(clip.channel_sample_at(2, 0), None);
}

#[test]
fn replace_clip_samples_rebakes_the_clip() {
    let mut project = project_with_one_track();
    let track = project.tracks[0].id;
    project.track_mut(track).unwrap().channels = 1;
    let id = project.add_clip(track, "c".into(), 7, bits(&[1.0; 4])).unwrap();
    project.trim_clip_start(id, 1);
    project.replace_clip_samples(id, bits(&[0.5; 6]));
    let clip = &project.track(track).unwrap().clips[0];
    assert_eq!(clip.start_sample, 8);
    assert_eq!(clip.len_samples(), 6);
    assert_eq!(clip.trimmable_before(), 0);
}

#[test]
fn reversing_swapping_or_inverting_twice_restores_the_clip() {
    let mut project = project_with_one_track();
    let track = project.tracks[0].id;
    let original = bits(&[0.1, -0.2, 0.3, -0.4, 0.5, 0.0]);
    let id = project.add_clip_channels(track, "c".into(), 0, original.clone(), 2, average).unwrap();

    project.apply_reverse(id);
    assert_ne!(project.track(track).unwrap().clips[0].visible_samples(), original);
    project.apply_reverse(id);
    assert_eq!(project.track(track).unwrap().clips[0].visible_samples(), original);

    project.apply_swap_channels(id);
    project.apply_swap_channels(id);
    assert_eq!(project.track(track).unwrap().clips[0].visible_samples(), original);

    project.apply_invert(id);
    project.apply_invert(id);
    assert_eq!(project.track(track).unwrap().clips[0].visible_samples(), original);
}

#[test]
fn split_halves_meet_and_rejoin_to_the_original_audio() {
    let mut project = project_with_one_track();
    let track = project.tracks[0].id;
    project.track_mut(track).unwrap().channels = 1;
    let samples = bits(&[0.0, 0.1, 0.2, 0.3, 0.4, 0.5]);
    let id = project.add_clip(track, "c".into(), 10, samples.clone()).unwrap();
    project.trim_clip_start(id, 1);

    let (first, second) = project.split_clip(id, 13).unwrap();

    let clips = &project.track(track).unwrap().clips;
    let c1 = clips.iter().find(|c| c.id == first).unwrap();
    let c2 = clips.iter().find(|c| c.id == second).unwrap();
    assert_eq!(c1.name, "c (1)");
    assert_eq!(c2.name, "c (2)");
    assert_eq!(c1.end_sample(), c2.start_sample);
    let mut rejoined = c1.visible_samples();
    rejoined.extend(c2.visible_samples());
    assert_eq!(rejoined, samples[1..].to_vec());
}

#[test]
fn pasting_keeps_the_anchor_at_the_paste_point() {
    let mut project = project_with_one_track();
    let track = project.tracks[0].id;
    let a = project.add_clip(track, "a".into(), 30, bits(&[1.0; 4])).unwrap();
    let b = project.add_clip(track, "b".into(), 50, bits(&[1.0; 4])).unwrap();
    project.copy_clips(&[b, a]);
    let pasted = project.paste(track, 0);
    let starts: Vec<u64> = pasted
        .iter()
        .map(|id| project.track(track).unwrap().clips.iter().find(|c| c.id == *id).unwrap().start_sample)
        .collect();
    // Clipboard order follows the copied ids: b then a.
    assert_eq!(starts, vec![20, 0]);
}

#[test]
fn saving_then_loading_keeps_tracks_and_audible_audio() {
    let mut project = project_with_one_track();
    let track = project.tracks[0].id;
    project.tracks[0].name = "Vocals".to_string();
    project.tracks[0].pan_percent = -20;
    project.tracks[0].muted = true;
    let samples = bits(&[0.25, 0.5, -0.25, -0.5]);
    project.add_clip(track, "take".to_string(), 100, samples.clone()).unwrap();

    let saved = project.saved_tracks();
    assert_eq!(saved.len(), 1);
    assert_eq!(saved[0].name, "Vocals");
    assert_eq!(saved[0].clips[0].samples, samples);

    let loaded = Project::from_saved_tracks(48_000, &saved, average);
    assert_eq!(loaded.tracks.len(), 1);
    let t = &loaded.tracks[0];
    assert_eq!(t.name, "Vocals");
    assert_eq!(t.pan_percent, -20);
    assert!(t.muted);
    assert!(!t.soloed);
    assert_eq!(t.channels, project.tracks[0].channels);
    assert_eq!(t.clips.len(), 1);
    assert_eq!(t.clips[0].name, "take");
    assert_eq!(t.clips[0].start_sample, 100);
    assert_eq!(t.clips[0].visible_samples(), samples);
    let mut undone = loaded;
    undone.undo();
    assert_eq!(undone.tracks.len(), 1);
    assert_eq!(undone.tracks[0].name, "Vocals");
}

#[test]
fn local_frame_range_clips_an_absolute_range_to_the_clip() {
    let clip = Clip::from_samples(ClipId(1), "c".to_string(), 100, bits(&[0.1, 0.2, 0.3, 0.4]));
    assert_eq!(clip.local_frame_range(98, 102), Some((0, 2)));
    assert_eq!(clip.local_frame_range(103, 200), Some((3, 4)));
    assert_eq!(clip.local_frame_range(0, 100), None);
    assert_eq!(clip.local_frame_range(104, 110), None);
    assert_eq!(clip.local_frame_range(102, 101), None);
}

#[test]
fn fade_toggle_alternates_along_the_timeline() {
    let mut project = project_with_one_track();
    let track = project.tracks[0].id;
    let mut ids = Vec::new();
    for start in [300u64, 100, 200, 100] {
        ids.push(project.add_clip(track, "c".to_string(), start, bits(&[0.5, 0.5])).unwrap());
    }
    let plan = fade_toggle_plan(&project.tracks[0], true);
    assert_eq!(plan, vec![(ids[0], false), (ids[1], true), (ids[2], true), (ids[3], false)]);
    let plan = fade_toggle_plan(&project.tracks[0], false);
    assert_eq!(plan, vec![(ids[0], true), (ids[1], false), (ids[2], false), (ids[3], true)]);
}

#[test]
fn select_range_carves_out_the_middle_of_a_clip() {
    let mut project = project_with_one_track();
    let track = project.tracks[0].id;
    project.add_clip(track, "c".into(), 0, bits(&[1.0; 100])).unwrap();

    project.select_range(&[track], 30, 70);

    let clips = &project.track(track).unwrap().clips;
    assert_eq!(clips.len(), 3);
    assert_eq!(project.selection.len(), 1);
    let selected_id = *project.selection.iter().next().unwrap();
    let selected = clips.iter().find(|c| c.id == selected_id).unwrap();
    assert_eq!(selected.start_sample, 30);
    assert_eq!(selected.len_samples(), 40);
}

#[test]
fn select_range_keeps_a_fully_covered_clip_whole() {
    let mut project = project_with_one_track();
    let track = project.tracks[0].id;
    let clip_id = project.add_clip(track, "c".into(), 10, bits(&[1.0; 20])).unwrap();

    project.select_range(&[track], 0, 100);

    let clips = &project.track(track).unwrap().clips;
    assert_eq!(clips.len(), 1);
    assert_eq!(project.selection, vec![clip_id]);
}

#[test]
fn select_range_spans_every_given_track() {
    let mut project = project_with_one_track();
    let track_a = project.tracks[0].id;
    let track_b = project.add_track();
    project.add_clip(track_a, "a".into(), 0, bits(&[1.0; 100])).unwrap();
    project.add_clip(track_b, "b".into(), 0, bits(&[1.0; 100])).unwrap();

    project.select_range(&[track_a, track_b], 20, 80);

    assert_eq!(project.selection.len(), 2);
    for id in &project.selection {
        let track_id = project.find_clip_track(*id).unwrap();
        let clip = project.track(track_id).unwrap().clips.iter().find(|c| c.id == *id).unwrap();
        assert_eq!(clip.start_sample, 20);
        assert_eq!(clip.len_samples(), 60);
    }
}

#[test]
fn select_range_ignores_tracks_outside_the_given_list() {
    let mut project = project_with_one_track();
    let track_a = project.tracks[0].id;
    let track_b = project.add_track();
    project.add_clip(track_b, "b".into(), 0, bits(&[1.0; 100])).unwrap();

    project.select_range(&[track_a], 0, 100);

    assert!(project.selection.is_empty());
    assert_eq!(project.track(track_b).unwrap().clips.len(), 1);
}

#[test]
fn select_range_undoes_as_a_single_step() {
    let mut project = project_with_one_track();
    let track = project.tracks[0].id;
    project.add_clip(track, "c".into(), 0, bits(&[1.0; 100])).unwrap();

    project.select_range(&[track], 30, 70);
    assert_eq!(project.track(track).unwrap().clips.len(), 3);

    project.undo();

    let clips = &project.track(track).unwrap().clips;
    assert_eq!(clips.len(), 1);
    assert_eq!(clips[0].start_sample, 0);
    assert_eq!(clips[0].len_samples(), 100);
}

#[test]
fn select_range_splits_only_where_a_clip_sticks_out() {
    let mut project = project_with_one_track();
    let track = project.tracks[0].id;
    project.add_clip(track, "left".into(), 0, bits(&[0.5; 50])).unwrap();
    project.add_clip(track, "right".into(), 60, bits(&[0.5; 40])).unwrap();
    project.selected_tracks.push(track);

    project.select_range(&[track], 40, 70);

    let clips = &project.track(track).unwrap().clips;
    assert_eq!(clips.len(), 4);
    assert!(project.selected_tracks.is_empty());
    let mut spans: Vec<(u64, u64)> = project
        .selection
        .iter()
        .map(|id| {
            let c = clips.iter().find(|c| c.id == *id).unwrap();
            (c.start_sample, c.len_samples())
        })
        .collect();
    spans.sort();
    assert_eq!(spans, vec![(40, 10), (60, 10)]);
}

#[test]
fn selection_edits_keep_each_id_once() {
    let mut project = project_with_one_track();
    let track = project.tracks[0].id;
    let a = project.add_clip(track, "a".into(), 0, bits(&[0.1])).unwrap();
    let b = project.add_clip(track, "b".into(), 10, bits(&[0.1])).unwrap();
    project.toggle_track_selection(track);
    assert_eq!(project.selected_tracks, vec![track]);
    project.select_clips(&[a, b, a]);
    assert_eq!(project.selection, vec![a, b]);
    assert!(project.selected_tracks.is_empty());
    project.toggle_clip_selection(a);
    assert_eq!(project.selection, vec![b]);
    project.toggle_clip_selection(a);
    assert_eq!(project.selection, vec![b, a]);
    project.toggle_track_selection(track);
    project.toggle_track_selection(track);
    assert!(project.selected_tracks.is_empty());
    project.clear_selection();
    assert!(project.selection.is_empty());
}
