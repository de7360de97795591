//! Tests for the naming, dialog, metering, transport and timeline helpers.

use rakunator::effect_dialog::{active_effect_dialog_title, ActiveEffectDialog};
use rakunator::export::{export_file_names, sanitize_file_name, trim_chars, ExportDir, EXPORT_DIR};
use rakunator::export_dialog::ExportDialogState;
use rakunator::help::{contains_text, help_matches, help_sections, shown_rows};
use rakunator::metadata::{mp3_tags, ProjectMetadata};
use rakunator::meter::{Meters, MAX_TRACKS};
use rakunator::nudge::{nudge_clip_start, nudge_position};
use rakunator::pan_toggle::PanToggleDirection;
use rakunator::project::default_channels;
use rakunator::recent::{forget_recent, remember_recent, same_path, MAX_RECENT_PROJECTS};
use rakunator::riff_info::{info_list_chunk, patched_riff_size};
use rakunator::shortcuts::{edit_action, paste_target, EditAction, EditKeys};
use rakunator::project::TrackId;
use rakunator::transport::{Transport, TransportCall};
use rakunator::trip_toggler::{build_segments, select_by_distance};
use rakunator::waveform::Waveform;

#[test]
fn sanitize_trims_and_strips_separators() {
    assert_eq!(sanitize_file_name("  my/song\\mix  "), "mysongmix");
    assert_eq!(sanitize_file_name("plain"), "plain");
    assert_eq!(sanitize_file_name("\u{3000}tabbed\t"), "tabbed");
}

#[test]
fn sanitize_falls_back_to_mixdown() {
    assert_eq!(sanitize_file_name(""), "mixdown");
    assert_eq!(sanitize_file_name("   "), "mixdown");
    assert_eq!(sanitize_file_name("//"), "mixdown");
    // Trimming comes first, so a space between separators survives.
    assert_eq!(sanitize_file_name(" / \\ "), " ");
}

#[test]
fn sanitize_keeps_inner_spaces_and_unicode() {
    assert_eq!(sanitize_file_name(" Café  Mix "), "Café  Mix");
}

#[test]
fn trim_matches_str_trim() {
    for s in ["", "  a  ", "\n\tb c\u{a0}", "\u{2003}x\u{2029}", "no-space"] {
        assert_eq!(trim_chars(s), s.trim());
    }
}

#[test]
fn export_file_names_add_both_extensions() {
    let (wav, mp3) = export_file_names(" Demo/Take ");
    assert_eq!(wav, "DemoTake.wav");
    assert_eq!(mp3, "DemoTake.mp3");
    let (wav, mp3) = export_file_names("");
    assert_eq!(wav, "mixdown.wav");
    assert_eq!(mp3, "mixdown.mp3");
}

#[test]
fn exports_go_to_downloads_by_default() {
    assert!(matches!(EXPORT_DIR, ExportDir::Downloads));
}

#[test]
fn contains_text_finds_runs_of_characters() {
    assert!(contains_text("hello world", "lo w"));
    assert!(contains_text("abc", ""));
    assert!(!contains_text("abc", "abcd"));
    assert!(!contains_text("abc", "ac"));
    assert!(contains_text("ééa", "éa"));
}

#[test]
fn help_has_every_section() {
    let sections = help_sections();
    assert_eq!(sections.len(), 12);
    assert_eq!(sections[0].title, "Playback");
    assert_eq!(sections[0].rows[0], ("Space", "Play/Pause — pausing jumps back to where playback started"));
    assert_eq!(sections[11].title, "Files");
    let total: usize = sections.iter().map(|s| s.rows.len()).sum();
    assert_eq!(total, 71);
}

#[test]
fn empty_help_query_shows_everything() {
    let sections = help_sections();
    let shown = help_matches(&sections, "   ");
    assert_eq!(shown.len(), sections.len());
    for (i, (index, rows)) in shown.iter().enumerate() {
        assert_eq!(*index, i);
        assert_eq!(rows.len(), sections[i].rows.len());
    }
}

#[test]
fn help_query_matching_a_title_shows_the_whole_section_in_any_case() {
    let sections = help_sections();
    let shown = help_matches(&sections, "  RECORDING ");
    assert!(!shown.is_empty());
    let (index, rows) = &shown[0];
    assert_eq!(sections[*index].title, "Recording");
    assert_eq!(rows.len(), sections[*index].rows.len());
}

#[test]
fn help_query_filters_rows_case_insensitively() {
    let sections = help_sections();
    let shown = help_matches(&sections, "F11");
    assert_eq!(shown.len(), 1);
    assert_eq!(shown[0].0, 0);
    assert_eq!(shown[0].1.len(), 1);
    assert_eq!(sections[0].rows[shown[0].1[0]].0, "F11");

    let lower = help_matches(&sections, "fullscreen");
    assert_eq!(lower, shown);
}

#[test]
fn help_query_with_no_match_shows_nothing() {
    let sections = help_sections();
    assert!(help_matches(&sections, "zzz-no-such-thing").is_empty());
}

#[test]
fn shown_rows_checks_title_action_and_description() {
    let rows = vec![("space".to_string(), "play".to_string()), ("f11".to_string(), "fullscreen".to_string())];
    assert_eq!(shown_rows("", "playback", &rows), vec![0, 1]);
    assert_eq!(shown_rows("back", "playback", &rows), vec![0, 1]);
    assert_eq!(shown_rows("full", "playback x", &rows), vec![1]);
    assert_eq!(shown_rows("spa", "t", &rows), vec![0]);
    assert_eq!(shown_rows("nope", "t", &rows), Vec::<usize>::new());
}

#[test]
fn nudging_the_playhead_docks_against_the_first_edge() {
    let edges = [10u64, 50, 30];
    assert_eq!(nudge_position(&edges, 0, 100), (10, Some(10)));
    assert_eq!(nudge_position(&edges, 10, 100), (30, Some(30)));
    assert_eq!(nudge_position(&edges, 60, 5), (65, None));
    assert_eq!(nudge_position(&edges, 60, -100), (50, Some(50)));
    assert_eq!(nudge_position(&edges, 5, -100), (0, None));
    assert_eq!(nudge_position(&[], 5, -3), (2, None));
}

#[test]
fn nudging_a_clip_docks_its_end_or_start() {
    // A clip at 100..110 nudged right by 50 stops with its end on the edge at 130.
    assert_eq!(nudge_clip_start(&[130, 200], 100, 10, 50), (120, Some(130)));
    // Nothing in the way.
    assert_eq!(nudge_clip_start(&[300], 100, 10, 50), (150, None));
    // Nudged left by 50, its start stops on the edge at 80.
    assert_eq!(nudge_clip_start(&[20, 80], 100, 10, -50), (80, Some(80)));
    // Floored at 0.
    assert_eq!(nudge_clip_start(&[], 5, 10, -50), (0, None));
}

#[test]
fn segments_are_sorted_and_deduplicated() {
    assert_eq!(build_segments(&[30, 10, 30, 0], 50), vec![0, 10, 30, 50]);
    assert_eq!(build_segments(&[], 0), vec![0]);
    assert_eq!(build_segments(&[70], 50), vec![0, 50, 70]);
}

#[test]
fn meters_store_read_and_reset() {
    let mut meters = Meters::new();
    assert_eq!(meters.read(3), (0, 0));
    meters.store(3, 0.5f32.to_bits(), 0.25f32.to_bits());
    assert_eq!(meters.read(3), (0.5f32.to_bits(), 0.25f32.to_bits()));
    meters.store(MAX_TRACKS, 1, 1);
    assert_eq!(meters.read(MAX_TRACKS), (0, 0));
    meters.reset(3);
    assert_eq!(meters.read(3), (0, 0));
    meters.store(7, 9, 9);
    meters.reset_all();
    assert_eq!(meters.read(7), (0, 0));
    assert_eq!(Meters::default().read(0), (0, 0));
}

#[test]
fn transport_plays_pauses_stops_and_seeks() {
    let mut t = Transport::new();
    assert!(!t.is_playing());
    assert_eq!(t.position(), 0);
    t.play();
    assert!(t.is_playing());
    t.advance(100);
    assert_eq!(t.position(), 100);
    t.pause();
    assert!(!t.is_playing());
    assert_eq!(t.position(), 100);
    t.seek(42);
    assert_eq!(t.position(), 42);
    t.stop();
    assert!(!t.is_playing());
    assert_eq!(t.position(), 0);
}

#[test]
fn metadata_defaults() {
    let m = ProjectMetadata::with_year(2025);
    assert_eq!(m.artist_name, "Rakuel");
    assert_eq!(m.genre, "Gangsta Rap");
    assert_eq!(m.software, "Rakunator");
    assert_eq!(m.track_number, 1);
    assert!(m.export_file_name.is_empty());
    assert_eq!(m.year, 2025);
    assert_eq!(ProjectMetadata::with_year(-3).year, 0);
}

#[test]
fn export_dialog_falls_back_to_the_project_name_only_while_unset() {
    let mut dialog = ExportDialogState::with_year(2025);
    assert_eq!(dialog.file_name, "Untitled Project");
    let mut metadata = ProjectMetadata::with_year(2025);
    metadata.year = 1999;
    dialog.open_for_project(Some("Song"), &metadata);
    assert_eq!(dialog.file_name, "Song");
    assert_eq!(dialog.track_title, "Song");
    assert_eq!(dialog.album_title, "Song");
    assert_eq!(dialog.artist_name, "Rakuel");
    assert_eq!(dialog.year, 1999);

    metadata.export_file_name = "Final".to_string();
    metadata.track_title = "Title".to_string();
    dialog.open_for_project(None, &metadata);
    assert_eq!(dialog.file_name, "Final");
    assert_eq!(dialog.track_title, "Title");
    // No project name: falls back to the name the dialog showed before.
    assert_eq!(dialog.album_title, "Song");
}

#[test]
fn export_dialog_confirms_before_overwriting() {
    let mut dialog = ExportDialogState::with_year(2025);
    dialog.open_with(Some("Mix"), &ProjectMetadata::with_year(2025));
    assert!(dialog.open);
    assert!(dialog.focus_export_button);
    assert_eq!(dialog.request_export(false), Some("Mix".to_string()));
    assert_eq!(dialog.request_export(true), None);
    assert_eq!(dialog.confirm_overwrite, Some("Mix".to_string()));
    assert!(dialog.focus_overwrite_button);
    assert_eq!(dialog.resolve_overwrite(true), Some("Mix".to_string()));
    assert_eq!(dialog.confirm_overwrite, None);
    dialog.request_export(true);
    assert_eq!(dialog.resolve_overwrite(false), None);
    assert_eq!(dialog.confirm_overwrite, None);
    let m = dialog.to_metadata();
    assert_eq!(m.export_file_name, "Mix");
}

#[test]
fn effect_dialog_titles() {
    assert_eq!(active_effect_dialog_title(ActiveEffectDialog::Distortion), "Distortion (Hard Clip)");
    assert_eq!(active_effect_dialog_title(ActiveEffectDialog::PitchUp), "Pitch Up");
    assert_eq!(active_effect_dialog_title(ActiveEffectDialog::TripToggler), "Trip Toggler");
}

#[test]
fn small_names_and_defaults() {
    assert_eq!(Waveform::Sawtooth.name(), "sawtooth");
    assert_eq!(Waveform::Sine.name(), "sine");
    assert_eq!(PanToggleDirection::default(), PanToggleDirection::Left);
    assert_eq!(default_channels(), 1);
}

#[test]
fn help_query_in_upper_case_finds_a_lower_case_title() {
    let sections = help_sections();
    let shown = help_matches(&sections, "PLAYBACK");
    assert_eq!(shown[0].0, 0);
    assert_eq!(shown[0].1.len(), sections[0].rows.len());
}

fn song_metadata() -> ProjectMetadata {
    let mut m = ProjectMetadata::with_year(2025);
    m.track_title = "Song".to_string();
    m.year = 2024;
    m
}

#[test]
fn info_chunk_holds_the_non_empty_tags_then_year_and_track() {
    let chunk = info_list_chunk(&song_metadata());
    let expected: Vec<u8> = vec![
        76, 73, 83, 84, 96, 0, 0, 0, 73, 78, 70, 79, 73, 78, 65, 77, 5, 0, 0, 0, 83, 111, 110, 103, 0, 0, 73, 65, 82,
        84, 7, 0, 0, 0, 82, 97, 107, 117, 101, 108, 0, 0, 73, 71, 78, 82, 12, 0, 0, 0, 71, 97, 110, 103, 115, 116, 97,
        32, 82, 97, 112, 0, 73, 83, 70, 84, 10, 0, 0, 0, 82, 97, 107, 117, 110, 97, 116, 111, 114, 0, 73, 67, 82, 68, 5,
        0, 0, 0, 50, 48, 50, 52, 0, 0, 73, 84, 82, 75, 2, 0, 0, 0, 49, 0,
    ];
    assert_eq!(chunk, expected);
}

#[test]
fn info_chunk_sizes_are_even_and_declared() {
    let mut m = song_metadata();
    m.comments = "é".to_string();
    m.track_number = 12;
    let chunk = info_list_chunk(&m);
    assert_eq!(chunk.len() % 2, 0);
    let declared = u32::from_le_bytes([chunk[4], chunk[5], chunk[6], chunk[7]]) as usize;
    assert_eq!(declared, chunk.len() - 8);
    let at = chunk.windows(4).position(|w| w == b"ICMT").unwrap();
    assert_eq!(&chunk[at + 4..at + 8], &[3, 0, 0, 0]);
    assert_eq!(&chunk[at + 8..at + 12], &[0xc3, 0xa9, 0, 0]);
    assert!(chunk.ends_with(b"ITRK\x03\x00\x00\x0012\x00\x00"));
}

#[test]
fn riff_size_grows_by_the_appended_chunk() {
    let field = 1000u32.to_le_bytes();
    assert_eq!(patched_riff_size(&field, 104), Some(1104u32.to_le_bytes().to_vec()));
    let full = (u32::MAX - 10).to_le_bytes();
    assert_eq!(patched_riff_size(&full, 10), Some(u32::MAX.to_le_bytes().to_vec()));
    assert_eq!(patched_riff_size(&full, 11), None);
}

#[test]
fn distance_filter_keeps_the_tallest_peak_of_each_cluster() {
    // Heights (shortest to tallest): peak 0, 3, 2, 4, 1.
    let peaks = [10, 12, 30, 31, 50];
    let order = [0, 3, 2, 4, 1];
    assert_eq!(select_by_distance(&peaks, &order, 5), vec![12, 30, 50]);
    assert_eq!(select_by_distance(&peaks, &order, 0), peaks.to_vec());
    assert_eq!(select_by_distance(&peaks, &order, 100), vec![12]);
    assert!(select_by_distance(&[], &[], 3).is_empty());
}

#[test]
fn remembering_a_project_moves_it_to_the_front_once() {
    let mut recent: Vec<String> = vec!["a".into(), "b".into(), "c".into()];
    remember_recent(&mut recent, "b".to_string());
    assert_eq!(recent, vec!["b", "a", "c"]);
    remember_recent(&mut recent, "d".to_string());
    assert_eq!(recent, vec!["d", "b", "a", "c"]);
}

#[test]
fn recent_projects_are_capped() {
    let mut recent: Vec<String> = Vec::new();
    for name in ["1", "2", "3", "4", "5", "6"] {
        remember_recent(&mut recent, name.to_string());
    }
    assert_eq!(recent.len(), MAX_RECENT_PROJECTS);
    assert_eq!(recent, vec!["6", "5", "4", "3", "2"]);
}

#[test]
fn forgetting_a_project_keeps_the_others_in_order() {
    let mut recent: Vec<String> = vec!["a".into(), "b".into(), "a".into(), "c".into()];
    forget_recent(&mut recent, &"a".to_string());
    assert_eq!(recent, vec!["b", "c"]);
    forget_recent(&mut recent, &"zzz".to_string());
    assert_eq!(recent, vec!["b", "c"]);
}

fn no_keys() -> EditKeys {
    EditKeys {
        cut: false,
        copy: false,
        paste: false,
        duplicate: false,
        split: false,
        delete: false,
        nudge_left: false,
        nudge_right: false,
        jump_start: false,
        jump_end: false,
    }
}

#[test]
fn edit_keys_follow_their_priority() {
    assert_eq!(edit_action(no_keys(), true, true), EditAction::Nothing);
    let paste_and_cut = EditKeys { paste: true, cut: true, ..no_keys() };
    assert_eq!(edit_action(paste_and_cut, true, true), EditAction::Paste);
    let delete = EditKeys { delete: true, ..no_keys() };
    assert_eq!(edit_action(delete, true, true), EditAction::RemoveTracks);
    assert_eq!(edit_action(delete, false, true), EditAction::DeleteClips);
    assert_eq!(edit_action(delete, false, false), EditAction::Nothing);
    let dup = EditKeys { duplicate: true, ..no_keys() };
    assert_eq!(edit_action(dup, true, false), EditAction::DuplicateTracks);
    assert_eq!(edit_action(dup, false, true), EditAction::DuplicateClips);
    let both_nudges = EditKeys { nudge_left: true, nudge_right: true, ..no_keys() };
    assert_eq!(edit_action(both_nudges, false, false), EditAction::NudgePlayhead { left: true });
    assert_eq!(edit_action(both_nudges, false, true), EditAction::NudgeClips { left: true });
    let jumps = EditKeys { jump_start: true, jump_end: true, ..no_keys() };
    assert_eq!(edit_action(jumps, false, false), EditAction::SeekStart);
    assert_eq!(edit_action(jumps, false, true), EditAction::Nothing);
    let cut_split = EditKeys { cut: true, split: true, ..no_keys() };
    assert_eq!(edit_action(cut_split, false, true), EditAction::CutClips);
    let split = EditKeys { split: true, ..no_keys() };
    assert_eq!(edit_action(split, false, true), EditAction::SplitClips);
}

#[test]
fn paste_lands_at_the_last_click_or_the_first_track_start() {
    assert_eq!(paste_target(Some((TrackId(3), 500)), Some(TrackId(1))), Some((TrackId(3), 500)));
    assert_eq!(paste_target(None, Some(TrackId(1))), Some((TrackId(1), 0)));
    assert_eq!(paste_target(None, None), None);
}

#[test]
fn mp3_tags_skip_empty_text_fields() {
    let mut m = ProjectMetadata::with_year(2024);
    m.track_title = "Song".to_string();
    m.track_number = 3;
    let t = mp3_tags(&m);
    assert_eq!(t.artist.as_deref(), Some("Rakuel"));
    assert_eq!(t.title.as_deref(), Some("Song"));
    assert_eq!(t.album, None);
    assert_eq!(t.comments, None);
    assert_eq!(t.genre.as_deref(), Some("Gangsta Rap"));
    assert_eq!(t.software.as_deref(), Some("Rakunator"));
    assert_eq!(t.track, 3);
    assert_eq!(t.year, 2024);
}

#[test]
fn transport_follows_its_last_mode_and_seek() {
    let mut t = Transport::new();
    for call in [
        TransportCall::Play,
        TransportCall::Advance(100),
        TransportCall::Seek(40),
        TransportCall::Advance(10),
        TransportCall::Pause,
        TransportCall::Advance(5),
    ] {
        t.apply(call);
    }
    assert!(!t.is_playing());
    assert_eq!(t.position(), 55);
    t.apply(TransportCall::Play);
    t.apply(TransportCall::Seek(u64::MAX));
    t.apply(TransportCall::Advance(2));
    assert!(t.is_playing());
    assert_eq!(t.position(), 1);
    t.apply(TransportCall::Stop);
    assert!(!t.is_playing());
    assert_eq!(t.position(), 0);
}

#[test]
fn recent_paths_compare_by_components() {
    assert!(same_path("a//b.raku", "a/b.raku"));
    assert!(same_path("/home/x/./p.raku", "/home/x/p.raku"));
    assert!(same_path("dir/p.raku/", "dir/p.raku"));
    assert!(same_path("./p.raku", "./p.raku"));
    assert!(!same_path("./p.raku", "p.raku"));
    assert!(!same_path("/p.raku", "p.raku"));
    assert!(!same_path("a/../b", "b"));
    let mut recent: Vec<String> = vec!["a/b.raku".into(), "c.raku".into()];
    remember_recent(&mut recent, "a//b.raku".to_string());
    assert_eq!(recent, vec!["a//b.raku", "c.raku"]);
    forget_recent(&mut recent, &"./c.raku/".to_string());
    assert_eq!(recent, vec!["a//b.raku", "c.raku"]);
    forget_recent(&mut recent, &"c.raku/".to_string());
    assert_eq!(recent, vec!["a//b.raku"]);
}
