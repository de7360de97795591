//! Tests for the Bethoven piano-roll data model: scale tables, instruments,
//! and the note / section / melody mutators.

use rakunator::bethoven::instrument::Xorshift32;
use rakunator::bethoven::melody::{
    self, bars_to_ticks, ensure_active, next_id, snap_ticks, Section, DEFAULT_BPM, GRID_TICKS, MIN_NOTE_TICKS, PPQ, UNITY_GAIN,
};
use rakunator::bethoven::scales::{self, is_in_scale, note_name, pitch_classes, scale_intervals, scale_name, SCALE_COUNT};
use rakunator::bethoven::{Instrument, Melody};

fn gain_step(delta: f32) -> impl Fn(u32) -> u32 {
    move |g: u32| (f32::from_bits(g) + delta).clamp(0.0, 1.0).to_bits()
}

#[test]
fn percussion_instruments_are_not_pitched() {
    assert!(!Instrument::Drum.is_pitched());
    assert!(!Instrument::Snare.is_pitched());
    assert!(!Instrument::HiHat.is_pitched());
    assert!(Instrument::Piano.is_pitched());
}

#[test]
fn total_scale_count_matches_reference() {
    assert_eq!(SCALE_COUNT, 43);
}

#[test]
fn c_major_pitch_classes() {
    let pcs = pitch_classes(0, 0); // C, Major (Ionian)
    // C D E F G A B -> pitch classes 0,2,4,5,7,9,11
    let expected = [0, 2, 4, 5, 7, 9, 11];
    for i in 0..12u8 {
        assert_eq!(pcs[i as usize], expected.contains(&i), "pitch class {i}");
    }
}

#[test]
fn a_natural_minor_matches_c_major_relative() {
    // A Natural Minor (Aeolian) shares the same pitch classes as C Major
    // (relative minor).
    let a_index = (0..SCALE_COUNT).position(|i| scale_name(i) == "Natural Minor (Aeolian)").unwrap();
    let a_minor = pitch_classes(9, a_index); // root = A
    let c_major = pitch_classes(0, 0);
    assert_eq!(a_minor, c_major);
}

#[test]
fn e_phrygian_pitch_classes() {
    let idx = (0..SCALE_COUNT).position(|i| scale_name(i) == "Phrygian").unwrap();
    let pcs = pitch_classes(4, idx); // root E
    // E F G A B C D -> pitch classes 4,5,7,9,11,0,2
    let expected = [4, 5, 7, 9, 11, 0, 2];
    for i in 0..12u8 {
        assert_eq!(pcs[i as usize], expected.contains(&i), "pitch class {i}");
    }
}

#[test]
fn note_name_middle_c() {
    assert_eq!(note_name(60), "C4");
}

#[test]
fn scale_table_has_43_types_and_valid_pitch_classes() {
    assert_eq!(SCALE_COUNT, 43);
    for index in 0..SCALE_COUNT {
        for root in 0..12u8 {
            let pcs = pitch_classes(root, index);
            // The root itself is always a member of its own scale.
            assert!(pcs[root as usize], "root {root} missing from scale {index}");
        }
    }
}

#[test]
fn melody_starts_with_one_section_and_sane_defaults() {
    let melody = Melody::new(0, "Test".to_string());
    assert_eq!(melody.sections.len(), 1);
    assert_eq!(melody.default_note_length_ticks, PPQ);
    assert_eq!(melody.default_instrument, Instrument::Piano);
    assert_eq!(f32::from_bits(melody.bpm), 120.0);
}

#[test]
fn new_melody_marks_its_own_section_as_last_open() {
    let melody = Melody::new(0, "Test".into());
    assert_eq!(melody.last_section_id, Some(melody.sections[0].id));
}

#[test]
fn add_move_resize_delete_notes() {
    let mut section = Section::new(0, "S".into(), 0, 0, bars_to_ticks(4));
    let id = section.add_note(60, 0, PPQ, Instrument::Piano);
    assert_eq!(section.notes.len(), 1);

    section.move_notes(&[id], PPQ as i64, 2);
    assert_eq!(section.note(id).unwrap().start_tick, PPQ);
    assert_eq!(section.note(id).unwrap().pitch, 62);

    section.resize_note(id, PPQ, PPQ * 2);
    assert_eq!(section.note(id).unwrap().length_ticks, PPQ * 2);

    section.delete_notes(&[id]);
    assert!(section.notes.is_empty());
}

#[test]
fn resize_and_add_note_only_floor_at_a_single_tick_not_a_16th_note() {
    let mut section = Section::new(0, "S".into(), 0, 0, bars_to_ticks(4));
    let id = section.add_note(60, 0, PPQ, Instrument::Piano);
    section.resize_note(id, 0, 3);
    assert_eq!(section.note(id).unwrap().length_ticks, 3);

    let short_id = section.add_note(60, PPQ, 3, Instrument::Piano);
    assert_eq!(section.note(short_id).unwrap().length_ticks, 3);

    section.resize_note(id, 0, 0);
    assert_eq!(section.note(id).unwrap().length_ticks, MIN_NOTE_TICKS);
}

#[test]
fn move_notes_by_row_stays_on_a_visible_scale_row() {
    // C Major rows near middle C: ... A3(57) B3(59) C4(60) D4(62) E4(64) ...
    let visible_rows: Vec<u8> = vec![64, 62, 60, 59, 57]; // high-to-low, as drawn
    let mut section = Section::new(0, "S".into(), 0, 0, bars_to_ticks(4));
    let id = section.add_note(60, 0, PPQ, Instrument::Piano); // C4, row index 2

    section.move_notes_by_row(&[id], 0, 1, &visible_rows);
    assert_eq!(section.note(id).unwrap().pitch, 62);

    section.move_notes_by_row(&[id], 0, -2, &visible_rows);
    assert_eq!(section.note(id).unwrap().pitch, 59);

    section.move_notes_by_row(&[id], 0, -100, &visible_rows);
    assert_eq!(section.note(id).unwrap().pitch, 57);
}

#[test]
fn move_notes_by_row_leaves_off_scale_pitch_untouched() {
    let visible_rows: Vec<u8> = vec![64, 62, 60, 59, 57];
    let mut section = Section::new(0, "S".into(), 0, 0, bars_to_ticks(4));
    let id = section.add_note(61, 0, PPQ, Instrument::Piano); // not in visible_rows
    section.move_notes_by_row(&[id], PPQ as i64, -1, &visible_rows);
    assert_eq!(section.note(id).unwrap().pitch, 61);
    assert_eq!(section.note(id).unwrap().start_tick, PPQ);
}

#[test]
fn duplicate_notes_get_fresh_ids_and_offset() {
    let mut section = Section::new(0, "S".into(), 0, 0, bars_to_ticks(4));
    let id = section.add_note(60, 0, PPQ, Instrument::Piano);
    let new_ids = section.duplicate_notes(&[id], PPQ as i64);
    assert_eq!(new_ids.len(), 1);
    assert_ne!(new_ids[0], id);
    assert_eq!(section.note(new_ids[0]).unwrap().start_tick, PPQ);
    assert_eq!(section.notes.len(), 2);
}

#[test]
fn gain_pan_adjust_clamp_and_reset() {
    let mut section = Section::new(0, "S".into(), 0, 0, bars_to_ticks(4));
    let id = section.add_note(60, 0, PPQ, Instrument::Piano);
    section.adjust_gain(&[id], gain_step(-2.0));
    assert_eq!(f32::from_bits(section.note(id).unwrap().gain), 0.0);
    section.adjust_pan(&[id], 500);
    assert_eq!(section.note(id).unwrap().pan, 100);
    section.reset_gain_pan(&[id]);
    assert_eq!(f32::from_bits(section.note(id).unwrap().gain), 1.0);
    assert_eq!(section.note(id).unwrap().pan, 0);
}

#[test]
fn used_instruments_lists_only_instruments_with_notes() {
    let mut section = Section::new(0, "S".into(), 0, 0, bars_to_ticks(1));
    section.add_note(60, 0, PPQ, Instrument::Piano);
    section.add_note(40, PPQ, PPQ, Instrument::Drum);
    let used = section.used_instruments();
    assert_eq!(used, vec![Instrument::Piano, Instrument::Drum]);

    let mut melody = Melody::new(0, "M".into());
    let melody_section_id = melody.sections[0].id;
    *melody.section_mut(melody_section_id).unwrap() = section;
    assert_eq!(melody.used_instruments(), vec![Instrument::Piano, Instrument::Drum]);
}

#[test]
fn is_instrument_audible_respects_mute_and_solo() {
    let mut melody = Melody::new(0, "M".into());
    assert!(melody.is_instrument_audible(Instrument::Drum));

    melody.muted_instruments.push(Instrument::Drum);
    assert!(!melody.is_instrument_audible(Instrument::Drum));
    assert!(melody.is_instrument_audible(Instrument::Piano));

    // Soloing Piano overrides Drum's mute state entirely: only the soloed
    // instrument is audible, regardless of what's muted.
    melody.soloed_instruments.push(Instrument::Piano);
    assert!(melody.is_instrument_audible(Instrument::Piano));
    assert!(!melody.is_instrument_audible(Instrument::Guitar));
}

#[test]
fn instrument_names_match_the_menu() {
    assert_eq!(Instrument::Piano.name(), "Piano");
    assert_eq!(Instrument::HiHat.name(), "Hi-Hat");
    assert_eq!(Instrument::all().len(), 8);
    assert_eq!(Instrument::all()[5], Instrument::Drum);
}

#[test]
fn scale_names_and_intervals_come_from_the_table() {
    assert_eq!(scale_name(0), "Major (Ionian)");
    assert_eq!(scale_name(42), "Acoustic / Overtone");
    assert_eq!(scale_intervals(15), vec![0, 2, 4, 7, 9]); // Major Pentatonic
    assert_eq!(scale_intervals(23).len(), 12); // Chromatic
}

#[test]
fn out_of_range_scale_has_no_pitch_classes() {
    assert_eq!(pitch_classes(0, SCALE_COUNT), [false; 12]);
    assert!(!is_in_scale(0, 500, 60));
}

#[test]
fn is_in_scale_ignores_the_octave() {
    // D major: D E F# G A B C#.
    assert!(is_in_scale(2, 0, 61)); // C#4
    assert!(is_in_scale(2, 0, 73)); // C#5
    assert!(!is_in_scale(2, 0, 60)); // C4
}

#[test]
fn note_names_cover_sharps_and_the_lowest_octave() {
    assert_eq!(note_name(0), "C-1");
    assert_eq!(note_name(61), "C#4");
    assert_eq!(note_name(69), "A4");
    assert_eq!(note_name(127), "G9");
    assert_eq!(scales::root_name(11), "B");
}

#[test]
fn snap_ticks_rounds_down_to_the_grid_with_a_one_step_floor() {
    assert_eq!(snap_ticks(-50), GRID_TICKS);
    assert_eq!(snap_ticks(0), GRID_TICKS);
    assert_eq!(snap_ticks(47), 24);
    assert_eq!(snap_ticks(48), 48);
    assert_eq!(snap_ticks(100), 96);
}

#[test]
fn bars_to_ticks_counts_four_quarters_per_bar() {
    assert_eq!(bars_to_ticks(0), 0);
    assert_eq!(bars_to_ticks(1), 384);
    assert_eq!(bars_to_ticks(8), 3072);
}

#[test]
fn next_id_is_one_past_the_largest() {
    assert_eq!(next_id(&[]), 0);
    assert_eq!(next_id(&[3, 9, 4]), 10);
    assert_eq!(next_id(&[0]), 1);
}

#[test]
fn new_notes_get_fresh_ids_even_after_deletes() {
    let mut section = Section::new(0, "S".into(), 0, 0, bars_to_ticks(1));
    let a = section.add_note(60, 0, PPQ, Instrument::Piano);
    let b = section.add_note(62, 0, PPQ, Instrument::Piano);
    section.delete_notes(&[a]);
    let c = section.add_note(64, 0, PPQ, Instrument::Piano);
    assert_ne!(c, b);
    assert_eq!(c, b + 1);
    assert_eq!(section.note(c).unwrap().gain, UNITY_GAIN);
}

#[test]
fn move_notes_floors_at_tick_zero_and_clamps_pitch() {
    let mut section = Section::new(0, "S".into(), 0, 0, bars_to_ticks(1));
    let id = section.add_note(120, 10, PPQ, Instrument::Piano);
    let other = section.add_note(60, 10, PPQ, Instrument::Piano);
    section.move_notes(&[id], -100, 20);
    assert_eq!(section.note(id).unwrap().start_tick, 0);
    assert_eq!(section.note(id).unwrap().pitch, 127);
    assert_eq!(section.note(other).unwrap().start_tick, 10);
    assert_eq!(section.note(other).unwrap().pitch, 60);
}

#[test]
fn set_instrument_only_touches_the_named_notes() {
    let mut section = Section::new(0, "S".into(), 0, 0, bars_to_ticks(1));
    let a = section.add_note(60, 0, PPQ, Instrument::Piano);
    let b = section.add_note(62, 0, PPQ, Instrument::Piano);
    section.set_instrument(&[b], Instrument::Bass);
    assert_eq!(section.note(a).unwrap().instrument, Instrument::Piano);
    assert_eq!(section.note(b).unwrap().instrument, Instrument::Bass);
}

#[test]
fn sections_get_fresh_ids_and_a_one_step_minimum_length() {
    let mut melody = Melody::new(0, "M".into());
    assert_eq!(melody.bpm, DEFAULT_BPM);
    let second = melody.add_section("Verse".into(), 2, 1, 5);
    assert_eq!(second, 1);
    assert_eq!(melody.section(second).unwrap().length_ticks, GRID_TICKS);
    assert_eq!(melody.section(second).unwrap().name, "Verse");
    melody.remove_section(0);
    assert_eq!(melody.sections.len(), 1);
    assert!(melody.section(0).is_none());
    assert_eq!(melody.sections[0].id, second);
}

#[test]
fn xorshift_never_gets_stuck_at_zero() {
    let mut zero_seeded = Xorshift32::new(0);
    let mut one_seeded = Xorshift32::new(1);
    for _ in 0..1000 {
        let a = zero_seeded.next_u32();
        let b = one_seeded.next_u32();
        assert_ne!(a, 0);
        assert_eq!(a, b);
    }
    // The first xorshift32 step from state 1.
    assert_eq!(Xorshift32::new(1).next_u32(), 270369);
}

#[test]
fn default_section_is_eight_bars() {
    let melody = Melody::new(3, "M".into());
    assert_eq!(melody.sections[0].length_ticks, melody::bars_to_ticks(melody::DEFAULT_SECTION_BARS));
    assert_eq!(melody.sections[0].name, "Section 1");
}

#[test]
fn copied_notes_paste_from_the_section_start_with_fresh_ids() {
    let mut section = Section::new(1, "A".to_string(), 0, 0, bars_to_ticks(4));
    let a = section.add_note(60, 96, 48, Instrument::Piano);
    let b = section.add_note(64, 192, 24, Instrument::Bass);
    let _c = section.add_note(67, 288, 24, Instrument::Synth);
    section.notes[1].gain = 0.5f32.to_bits();
    section.notes[1].pan = -40;

    let clipboard = section.copy_notes(&[b, a]);
    assert_eq!(clipboard.len(), 2);
    assert_eq!(clipboard[0].id, a);
    assert_eq!(clipboard[1].id, b);

    let new_ids = section.paste_notes(&clipboard);
    assert_eq!(new_ids, vec![3, 4]);
    assert_eq!(section.notes.len(), 5);
    let first = section.note(3).unwrap();
    assert_eq!((first.pitch, first.start_tick, first.length_ticks), (60, 0, 48));
    let second = section.note(4).unwrap();
    assert_eq!((second.pitch, second.start_tick, second.instrument), (64, 96, Instrument::Bass));
    assert_eq!(second.gain, 0.5f32.to_bits());
    assert_eq!(second.pan, -40);
}

#[test]
fn pasting_nothing_changes_nothing() {
    let mut section = Section::new(1, "A".to_string(), 0, 0, bars_to_ticks(1));
    section.add_note(60, 10, 5, Instrument::Piano);
    assert!(section.paste_notes(&[]).is_empty());
    assert_eq!(section.notes.len(), 1);
}

#[test]
fn a_note_can_set_the_melody_defaults() {
    let mut m = Melody::new(1, "M".to_string());
    let mut section = Section::new(9, "S".to_string(), 0, 0, bars_to_ticks(1));
    let id = section.add_note(50, 0, 72, Instrument::Guitar);
    m.take_defaults_from(section.note(id).unwrap());
    assert_eq!(m.default_note_length_ticks, 72);
    assert_eq!(m.default_instrument, Instrument::Guitar);
}

#[test]
fn muting_and_soloing_keep_each_instrument_once() {
    let mut m = Melody::new(1, "M".to_string());
    m.set_instrument_muted(Instrument::Drum, true);
    m.set_instrument_muted(Instrument::Drum, true);
    m.set_instrument_muted(Instrument::Bass, true);
    assert_eq!(m.muted_instruments, vec![Instrument::Drum, Instrument::Bass]);
    assert!(!m.is_instrument_audible(Instrument::Drum));
    m.set_instrument_muted(Instrument::Drum, false);
    assert_eq!(m.muted_instruments, vec![Instrument::Bass]);
    m.set_instrument_soloed(Instrument::Piano, true);
    assert!(m.is_instrument_audible(Instrument::Piano));
    assert!(!m.is_instrument_audible(Instrument::Synth));
    m.set_instrument_soloed(Instrument::Piano, false);
    assert!(m.soloed_instruments.is_empty());
}

#[test]
fn the_piano_roll_falls_back_to_a_valid_melody_and_section() {
    let mut melodies: Vec<Melody> = Vec::new();
    let r = ensure_active(&mut melodies, Some(7), Some(3));
    assert_eq!(melodies.len(), 1);
    assert_eq!(melodies[0].name, "Melody 1");
    assert_eq!((r.melody, r.section, r.selection_cleared), (Some(0), Some(0), true));

    let mut second = Melody::new(5, "B".to_string());
    let extra = second.add_section("Bridge".to_string(), 0, 0, bars_to_ticks(2));
    melodies.push(second);
    let r = ensure_active(&mut melodies, Some(5), Some(extra));
    assert_eq!((r.melody, r.section, r.selection_cleared), (Some(5), Some(extra), false));
    let r = ensure_active(&mut melodies, Some(5), Some(99));
    assert_eq!((r.melody, r.section, r.selection_cleared), (Some(5), Some(0), true));
    let r = ensure_active(&mut melodies, None, Some(extra));
    assert_eq!((r.melody, r.section, r.selection_cleared), (Some(0), Some(0), true));
    assert_eq!(melodies.len(), 2);
}
