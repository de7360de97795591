//! Scale reference data: 43 scale types, each a formula of semitone
//! offsets from the root. Roots and pitch classes are named with sharps
//! only (C, C#, D, D#, E, F, F#, G, G#, A, A#, B); a scale's notes for any
//! root come from rotating its formula.
use vstd::prelude::*;
use vstd::string::StringExecFns;
use crate::text::{signed_decimal, push_signed_decimal};

verus! {

/// How many scale types there are.
pub const SCALE_COUNT: usize = 43;

/// The name of root / pitch class `pc` (0..=11 = C..B, sharps only).
pub open spec fn root_name_spec(pc: int) -> Seq<char> {
    if pc == 0 {
        "C"@
    } else if pc == 1 {
        "C#"@
    } else if pc == 2 {
        "D"@
    } else if pc == 3 {
        "D#"@
    } else if pc == 4 {
        "E"@
    } else if pc == 5 {
        "F"@
    } else if pc == 6 {
        "F#"@
    } else if pc == 7 {
        "G"@
    } else if pc == 8 {
        "G#"@
    } else if pc == 9 {
        "A"@
    } else if pc == 10 {
        "A#"@
    } else {
        "B"@
    }
}

/// The name of scale type `i` (meaningful for `i < SCALE_COUNT`).
pub open spec fn scale_name_spec(i: int) -> Seq<char> {
    if i == 0 {
        "Major (Ionian)"@
    } else if i == 1 {
        "Dorian"@
    } else if i == 2 {
        "Phrygian"@
    } else if i == 3 {
        "Lydian"@
    } else if i == 4 {
        "Mixolydian"@
    } else if i == 5 {
        "Natural Minor (Aeolian)"@
    } else if i == 6 {
        "Locrian"@
    } else if i == 7 {
        "Harmonic Minor"@
    } else if i == 8 {
        "Melodic Minor (ascending / jazz)"@
    } else if i == 9 {
        "Dorian b2"@
    } else if i == 10 {
        "Lydian Augmented"@
    } else if i == 11 {
        "Lydian Dominant"@
    } else if i == 12 {
        "Mixolydian b6"@
    } else if i == 13 {
        "Locrian #2"@
    } else if i == 14 {
        "Altered / Super Locrian"@
    } else if i == 15 {
        "Major Pentatonic"@
    } else if i == 16 {
        "Minor Pentatonic"@
    } else if i == 17 {
        "Major Blues"@
    } else if i == 18 {
        "Minor Blues"@
    } else if i == 19 {
        "Egyptian / Suspended Pentatonic"@
    } else if i == 20 {
        "Hirajoshi"@
    } else if i == 21 {
        "In Sen"@
    } else if i == 22 {
        "Iwato"@
    } else if i == 23 {
        "Chromatic"@
    } else if i == 24 {
        "Whole Tone"@
    } else if i == 25 {
        "Diminished - Whole/Half"@
    } else if i == 26 {
        "Diminished - Half/Whole"@
    } else if i == 27 {
        "Augmented"@
    } else if i == 28 {
        "Tritone"@
    } else if i == 29 {
        "Bebop Dominant"@
    } else if i == 30 {
        "Bebop Major"@
    } else if i == 31 {
        "Bebop Dorian"@
    } else if i == 32 {
        "Bebop Melodic Minor"@
    } else if i == 33 {
        "Phrygian Dominant"@
    } else if i == 34 {
        "Double Harmonic Major / Byzantine"@
    } else if i == 35 {
        "Hungarian Minor"@
    } else if i == 36 {
        "Hungarian Major"@
    } else if i == 37 {
        "Neapolitan Minor"@
    } else if i == 38 {
        "Neapolitan Major"@
    } else if i == 39 {
        "Persian"@
    } else if i == 40 {
        "Enigmatic"@
    } else if i == 41 {
        "Prometheus"@
    } else {
        "Acoustic / Overtone"@
    }
}

/// The semitone offsets from the root of scale type `i` (meaningful for
/// `i < SCALE_COUNT`).
pub open spec fn scale_intervals_spec(i: int) -> Seq<i8> {
    if i == 0 {
        seq![0i8, 2, 4, 5, 7, 9, 11]
    } else if i == 1 {
        seq![0i8, 2, 3, 5, 7, 9, 10]
    } else if i == 2 {
        seq![0i8, 1, 3, 5, 7, 8, 10]
    } else if i == 3 {
        seq![0i8, 2, 4, 6, 7, 9, 11]
    } else if i == 4 {
        seq![0i8, 2, 4, 5, 7, 9, 10]
    } else if i == 5 {
        seq![0i8, 2, 3, 5, 7, 8, 10]
    } else if i == 6 {
        seq![0i8, 1, 3, 5, 6, 8, 10]
    } else if i == 7 {
        seq![0i8, 2, 3, 5, 7, 8, 11]
    } else if i == 8 {
        seq![0i8, 2, 3, 5, 7, 9, 11]
    } else if i == 9 {
        seq![0i8, 1, 3, 5, 7, 9, 10]
    } else if i == 10 {
        seq![0i8, 2, 4, 6, 8, 9, 11]
    } else if i == 11 {
        seq![0i8, 2, 4, 6, 7, 9, 10]
    } else if i == 12 {
        seq![0i8, 2, 4, 5, 7, 8, 10]
    } else if i == 13 {
        seq![0i8, 2, 3, 5, 6, 8, 10]
    } else if i == 14 {
        seq![0i8, 1, 3, 4, 6, 8, 10]
    } else if i == 15 {
        seq![0i8, 2, 4, 7, 9]
    } else if i == 16 {
        seq![0i8, 3, 5, 7, 10]
    } else if i == 17 {
        seq![0i8, 2, 3, 4, 7, 9]
    } else if i == 18 {
        seq![0i8, 3, 5, 6, 7, 10]
    } else if i == 19 {
        seq![0i8, 2, 5, 7, 10]
    } else if i == 20 {
        seq![0i8, 2, 3, 7, 8]
    } else if i == 21 {
        seq![0i8, 1, 5, 7, 10]
    } else if i == 22 {
        seq![0i8, 1, 5, 6, 10]
    } else if i == 23 {
        seq![0i8, 1, 2, 3, 4, 5, 6, 7, 8, 9, 10, 11]
    } else if i == 24 {
        seq![0i8, 2, 4, 6, 8, 10]
    } else if i == 25 {
        seq![0i8, 2, 3, 5, 6, 8, 9, 11]
    } else if i == 26 {
        seq![0i8, 1, 3, 4, 6, 7, 9, 10]
    } else if i == 27 {
        seq![0i8, 3, 4, 7, 8, 11]
    } else if i == 28 {
        seq![0i8, 1, 4, 6, 7, 10]
    } else if i == 29 {
        seq![0i8, 2, 4, 5, 7, 9, 10, 11]
    } else if i == 30 {
        seq![0i8, 2, 4, 5, 7, 8, 9, 11]
    } else if i == 31 {
        seq![0i8, 2, 3, 4, 5, 7, 9, 10]
    } else if i == 32 {
        seq![0i8, 2, 3, 5, 7, 8, 9, 11]
    } else if i == 33 {
        seq![0i8, 1, 4, 5, 7, 8, 10]
    } else if i == 34 {
        seq![0i8, 1, 4, 5, 7, 8, 11]
    } else if i == 35 {
        seq![0i8, 2, 3, 6, 7, 8, 11]
    } else if i == 36 {
        seq![0i8, 3, 4, 6, 7, 9, 10]
    } else if i == 37 {
        seq![0i8, 1, 3, 5, 7, 8, 11]
    } else if i == 38 {
        seq![0i8, 1, 3, 5, 7, 9, 11]
    } else if i == 39 {
        seq![0i8, 1, 4, 5, 6, 8, 11]
    } else if i == 40 {
        seq![0i8, 1, 4, 6, 8, 10, 11]
    } else if i == 41 {
        seq![0i8, 2, 4, 6, 9, 10]
    } else {
        seq![0i8, 2, 4, 6, 7, 9, 10]
    }
}

/// The name of root / pitch class `pc` (0..=11 = C..B, sharps only).
pub fn root_name(pc: usize) -> (s: &'static str)
    requires
        pc < 12,
    ensures
        s@ == root_name_spec(pc as int),
{
    if pc == 0 {
        "C"
    } else if pc == 1 {
        "C#"
    } else if pc == 2 {
        "D"
    } else if pc == 3 {
        "D#"
    } else if pc == 4 {
        "E"
    } else if pc == 5 {
        "F"
    } else if pc == 6 {
        "F#"
    } else if pc == 7 {
        "G"
    } else if pc == 8 {
        "G#"
    } else if pc == 9 {
        "A"
    } else if pc == 10 {
        "A#"
    } else {
        "B"
    }
}

/// The name of scale type `i`.
pub fn scale_name(i: usize) -> (s: &'static str)
    requires
        i < SCALE_COUNT,
    ensures
        s@ == scale_name_spec(i as int),
{
    if i == 0 {
        "Major (Ionian)"
    } else if i == 1 {
        "Dorian"
    } else if i == 2 {
        "Phrygian"
    } else if i == 3 {
        "Lydian"
    } else if i == 4 {
        "Mixolydian"
    } else if i == 5 {
        "Natural Minor (Aeolian)"
    } else if i == 6 {
        "Locrian"
    } else if i == 7 {
        "Harmonic Minor"
    } else if i == 8 {
        "Melodic Minor (ascending / jazz)"
    } else if i == 9 {
        "Dorian b2"
    } else if i == 10 {
        "Lydian Augmented"
    } else if i == 11 {
        "Lydian Dominant"
    } else if i == 12 {
        "Mixolydian b6"
    } else if i == 13 {
        "Locrian #2"
    } else if i == 14 {
        "Altered / Super Locrian"
    } else if i == 15 {
        "Major Pentatonic"
    } else if i == 16 {
        "Minor Pentatonic"
    } else if i == 17 {
        "Major Blues"
    } else if i == 18 {
        "Minor Blues"
    } else if i == 19 {
        "Egyptian / Suspended Pentatonic"
    } else if i == 20 {
        "Hirajoshi"
    } else if i == 21 {
        "In Sen"
    } else if i == 22 {
        "Iwato"
    } else if i == 23 {
        "Chromatic"
    } else if i == 24 {
        "Whole Tone"
    } else if i == 25 {
        "Diminished - Whole/Half"
    } else if i == 26 {
        "Diminished - Half/Whole"
    } else if i == 27 {
        "Augmented"
    } else if i == 28 {
        "Tritone"
    } else if i == 29 {
        "Bebop Dominant"
    } else if i == 30 {
        "Bebop Major"
    } else if i == 31 {
        "Bebop Dorian"
    } else if i == 32 {
        "Bebop Melodic Minor"
    } else if i == 33 {
        "Phrygian Dominant"
    } else if i == 34 {
        "Double Harmonic Major / Byzantine"
    } else if i == 35 {
        "Hungarian Minor"
    } else if i == 36 {
        "Hungarian Major"
    } else if i == 37 {
        "Neapolitan Minor"
    } else if i == 38 {
        "Neapolitan Major"
    } else if i == 39 {
        "Persian"
    } else if i == 40 {
        "Enigmatic"
    } else if i == 41 {
        "Prometheus"
    } else {
        "Acoustic / Overtone"
    }
}

/// The semitone offsets from the root of scale type `i`.
pub fn scale_intervals(i: usize) -> (v: Vec<i8>)
    requires
        i < SCALE_COUNT,
    ensures
        v@ == scale_intervals_spec(i as int),
{
    if i == 0 {
        vec![0i8, 2, 4, 5, 7, 9, 11]
    } else if i == 1 {
        vec![0i8, 2, 3, 5, 7, 9, 10]
    } else if i == 2 {
        vec![0i8, 1, 3, 5, 7, 8, 10]
    } else if i == 3 {
        vec![0i8, 2, 4, 6, 7, 9, 11]
    } else if i == 4 {
        vec![0i8, 2, 4, 5, 7, 9, 10]
    } else if i == 5 {
        vec![0i8, 2, 3, 5, 7, 8, 10]
    } else if i == 6 {
        vec![0i8, 1, 3, 5, 6, 8, 10]
    } else if i == 7 {
        vec![0i8, 2, 3, 5, 7, 8, 11]
    } else if i == 8 {
        vec![0i8, 2, 3, 5, 7, 9, 11]
    } else if i == 9 {
        vec![0i8, 1, 3, 5, 7, 9, 10]
    } else if i == 10 {
        vec![0i8, 2, 4, 6, 8, 9, 11]
    } else if i == 11 {
        vec![0i8, 2, 4, 6, 7, 9, 10]
    } else if i == 12 {
        vec![0i8, 2, 4, 5, 7, 8, 10]
    } else if i == 13 {
        vec![0i8, 2, 3, 5, 6, 8, 10]
    } else if i == 14 {
        vec![0i8, 1, 3, 4, 6, 8, 10]
    } else if i == 15 {
        vec![0i8, 2, 4, 7, 9]
    } else if i == 16 {
        vec![0i8, 3, 5, 7, 10]
    } else if i == 17 {
        vec![0i8, 2, 3, 4, 7, 9]
    } else if i == 18 {
        vec![0i8, 3, 5, 6, 7, 10]
    } else if i == 19 {
        vec![0i8, 2, 5, 7, 10]
    } else if i == 20 {
        vec![0i8, 2, 3, 7, 8]
    } else if i == 21 {
        vec![0i8, 1, 5, 7, 10]
    } else if i == 22 {
        vec![0i8, 1, 5, 6, 10]
    } else if i == 23 {
        vec![0i8, 1, 2, 3, 4, 5, 6, 7, 8, 9, 10, 11]
    } else if i == 24 {
        vec![0i8, 2, 4, 6, 8, 10]
    } else if i == 25 {
        vec![0i8, 2, 3, 5, 6, 8, 9, 11]
    } else if i == 26 {
        vec![0i8, 1, 3, 4, 6, 7, 9, 10]
    } else if i == 27 {
        vec![0i8, 3, 4, 7, 8, 11]
    } else if i == 28 {
        vec![0i8, 1, 4, 6, 7, 10]
    } else if i == 29 {
        vec![0i8, 2, 4, 5, 7, 9, 10, 11]
    } else if i == 30 {
        vec![0i8, 2, 4, 5, 7, 8, 9, 11]
    } else if i == 31 {
        vec![0i8, 2, 3, 4, 5, 7, 9, 10]
    } else if i == 32 {
        vec![0i8, 2, 3, 5, 7, 8, 9, 11]
    } else if i == 33 {
        vec![0i8, 1, 4, 5, 7, 8, 10]
    } else if i == 34 {
        vec![0i8, 1, 4, 5, 7, 8, 11]
    } else if i == 35 {
        vec![0i8, 2, 3, 6, 7, 8, 11]
    } else if i == 36 {
        vec![0i8, 3, 4, 6, 7, 9, 10]
    } else if i == 37 {
        vec![0i8, 1, 3, 5, 7, 8, 11]
    } else if i == 38 {
        vec![0i8, 1, 3, 5, 7, 9, 11]
    } else if i == 39 {
        vec![0i8, 1, 4, 5, 6, 8, 11]
    } else if i == 40 {
        vec![0i8, 1, 4, 6, 8, 10, 11]
    } else if i == 41 {
        vec![0i8, 2, 4, 6, 9, 10]
    } else {
        vec![0i8, 2, 4, 6, 7, 9, 10]
    }
}

/// Whether pitch class `pc` belongs to scale type `scale_index` rooted at
/// `root`: some offset of the formula lands on it, counting modulo 12. No
/// pitch class belongs to an out-of-range scale type.
pub open spec fn in_scale(root: int, scale_index: int, pc: int) -> bool {
    &&& 0 <= scale_index < SCALE_COUNT
    &&& exists|k: int|
        0 <= k < scale_intervals_spec(scale_index).len() && #[trigger] ((root + scale_intervals_spec(scale_index)[k]) % 12) == pc
}

/// The 12 pitch classes (C..B) that belong to scale type `scale_index`
/// rooted at `root`; an out-of-range `scale_index` yields none at all.
pub fn pitch_classes(root: u8, scale_index: usize) -> (pcs: [bool; 12])
    ensures
        forall|pc: int| 0 <= pc < 12 ==> #[trigger] pcs@[pc] == in_scale(root as int, scale_index as int, pc),
{
    let mut pcs = [false; 12];
    if scale_index < SCALE_COUNT {
        let intervals = scale_intervals(scale_index);
        let ghost ivs = intervals@;
        let mut k: usize = 0;
        while k < intervals.len()
            invariant
                k <= intervals@.len(),
                ivs == intervals@,
                ivs == scale_intervals_spec(scale_index as int),
                scale_index < SCALE_COUNT,
                pcs@.len() == 12,
                forall|pc: int|
                    0 <= pc < 12 ==> #[trigger] pcs@[pc] == exists|j: int| 0 <= j < k && #[trigger] ((root + ivs[j]) % 12) == pc,
            decreases intervals@.len() - k,
        {
            let iv = intervals[k];
            let pc = (root as i32 + iv as i32) % 12;
            let pc = if pc < 0 { pc + 12 } else { pc };
            assert(pc as int == (root + ivs[k as int]) % 12);
            pcs[pc as usize] = true;
            k += 1;
            assert forall|q: int| 0 <= q < 12 implies #[trigger] pcs@[q] == exists|j: int| 0 <= j < k && #[trigger] ((root + ivs[j]) % 12) == q by {
                if q == pc as int {
                    assert((root + ivs[k - 1]) % 12 == q);
                }
            }
        }
    }
    pcs
}

/// Whether `midi_note` (in any octave) belongs to scale type
/// `scale_index` rooted at `root`.
pub fn is_in_scale(root: u8, scale_index: usize, midi_note: u8) -> (b: bool)
    ensures
        b == in_scale(root as int, scale_index as int, midi_note as int % 12),
{
    let pcs = pitch_classes(root, scale_index);
    pcs[(midi_note as usize) % 12]
}

/// The display name of `midi_note`: its pitch class name and its octave,
/// where middle C (60) is "C4".
pub open spec fn note_name_spec(midi_note: int) -> Seq<char> {
    root_name_spec(midi_note % 12) + signed_decimal(midi_note / 12 - 1)
}

/// The display name of `midi_note`, e.g. 60 -> "C4".
pub fn note_name(midi_note: u8) -> (s: String)
    ensures
        s@ == note_name_spec(midi_note as int),
{
    let pc = (midi_note % 12) as usize;
    let octave = (midi_note as i64) / 12 - 1;
    let mut s = String::from_str(root_name(pc));
    push_signed_decimal(&mut s, octave);
    s
}


/// Every scale formula starts at its root, so a scale's root always
/// belongs to it.
pub proof fn lemma_root_in_scale(root: int, scale_index: int)
    requires
        root >= 0,
        0 <= scale_index < SCALE_COUNT,
    ensures
        in_scale(root, scale_index, root % 12),
{
    let ivs = scale_intervals_spec(scale_index);
    assert(ivs.len() > 0 && ivs[0] == 0);
    assert((root + ivs[0]) % 12 == root % 12);
}

/// The step pattern of the major scale, degree to degree: whole, whole,
/// half, whole, whole, whole, half (in semitones).
pub open spec fn major_steps() -> Seq<int> {
    seq![2int, 2, 1, 2, 2, 2, 1]
}

proof fn lemma_mode_steps(i: int, f: Seq<i8>)
    requires
        0 <= i < 7,
        f == scale_intervals_spec(i),
    ensures
        f.len() == 7,
        f[0] == 0,
        forall|j: int| 0 <= j < 6 ==> f[j + 1] - f[j] == #[trigger] major_steps()[(i + j) % 7],
{
    let w = major_steps();
    if i == 0 {
        assert(f =~= seq![0i8, 2, 4, 5, 7, 9, 11]);
    } else if i == 1 {
        assert(f =~= seq![0i8, 2, 3, 5, 7, 9, 10]);
    } else if i == 2 {
        assert(f =~= seq![0i8, 1, 3, 5, 7, 8, 10]);
    } else if i == 3 {
        assert(f =~= seq![0i8, 2, 4, 6, 7, 9, 11]);
    } else if i == 4 {
        assert(f =~= seq![0i8, 2, 4, 5, 7, 9, 10]);
    } else if i == 5 {
        assert(f =~= seq![0i8, 2, 3, 5, 7, 8, 10]);
    } else {
        assert(f =~= seq![0i8, 1, 3, 5, 6, 8, 10]);
    }
    assert forall|j: int| 0 <= j < 6 implies f[j + 1] - f[j] == #[trigger] w[(i + j) % 7] by {
        if j == 0 {
        } else if j == 1 {
        } else if j == 2 {
        } else if j == 3 {
        } else if j == 4 {
        } else {
        }
    }
}

/// The first seven scale types are the seven modes of the major scale in
/// their usual order (Ionian, Dorian, Phrygian, Lydian, Mixolydian,
/// Aeolian, Locrian): scale type `i` starts on the root and then climbs by
/// the major scale's step pattern begun at its `i`-th step. So Dorian
/// (type 1) is 0, 2, 3, 5, 7, 9, 10: a minor third and a major sixth.
pub proof fn lemma_first_scales_are_the_major_modes()
    ensures
        forall|i: int| 0 <= i < 7 ==> (#[trigger] scale_intervals_spec(i)).len() == 7 && scale_intervals_spec(i)[0] == 0,
        forall|i: int, j: int|
            #![trigger scale_intervals_spec(i)[j]]
            0 <= i < 7 && 0 <= j < 6 ==> scale_intervals_spec(i)[j + 1] - scale_intervals_spec(i)[j] == major_steps()[(i + j) % 7],
{
    assert forall|i: int| 0 <= i < 7 implies (#[trigger] scale_intervals_spec(i)).len() == 7 && scale_intervals_spec(i)[0] == 0 by {
        lemma_mode_steps(i, scale_intervals_spec(i));
    }
    assert forall|i: int, j: int|
        #![trigger scale_intervals_spec(i)[j]]
        0 <= i < 7 && 0 <= j < 6 implies scale_intervals_spec(i)[j + 1] - scale_intervals_spec(i)[j] == major_steps()[(i + j) % 7] by {
        lemma_mode_steps(i, scale_intervals_spec(i));
    }
}

/// Which pitch classes a scale rooted at `root` holds follows from its
/// formula alone; for Dorian on D that is D E F G A B C (B in, A# out).
pub proof fn lemma_dorian_has_a_major_sixth(root: int)
    requires
        0 <= root < 12,
    ensures
        in_scale(root, 1, (root + 9) % 12),
        !in_scale(root, 1, (root + 8) % 12),
        in_scale(root, 1, (root + 3) % 12),
        !in_scale(root, 1, (root + 4) % 12),
{
    let f = scale_intervals_spec(1);
    lemma_mode_steps(1, f);
    assert(f =~= seq![0i8, 2, 3, 5, 7, 9, 10]);
    assert((root + f[5]) % 12 == (root + 9) % 12);
    assert((root + f[2]) % 12 == (root + 3) % 12);
    assert forall|k: int| 0 <= k < f.len() implies #[trigger] ((root + f[k]) % 12) != (root + 8) % 12 && (root + f[k]) % 12 != (root + 4) % 12 by {
        if k == 0 {
        } else if k == 1 {
        } else if k == 2 {
        } else if k == 3 {
        } else if k == 4 {
        } else if k == 5 {
        } else {
        }
    }
}

/// The step pattern of the ascending melodic minor scale: whole, half,
/// whole, whole, whole, whole, half (in semitones).
pub open spec fn melodic_minor_steps() -> Seq<int> {
    seq![2int, 1, 2, 2, 2, 2, 1]
}

proof fn lemma_melodic_mode_steps(i: int, f: Seq<i8>)
    requires
        8 <= i < 15,
        f == scale_intervals_spec(i),
    ensures
        f.len() == 7,
        f[0] == 0,
        forall|j: int| 0 <= j < 6 ==> f[j + 1] - f[j] == #[trigger] melodic_minor_steps()[(i - 8 + j) % 7],
{
    let w = melodic_minor_steps();
    if i == 8 {
        assert(f =~= seq![0i8, 2, 3, 5, 7, 9, 11]);
    } else if i == 9 {
        assert(f =~= seq![0i8, 1, 3, 5, 7, 9, 10]);
    } else if i == 10 {
        assert(f =~= seq![0i8, 2, 4, 6, 8, 9, 11]);
    } else if i == 11 {
        assert(f =~= seq![0i8, 2, 4, 6, 7, 9, 10]);
    } else if i == 12 {
        assert(f =~= seq![0i8, 2, 4, 5, 7, 8, 10]);
    } else if i == 13 {
        assert(f =~= seq![0i8, 2, 3, 5, 6, 8, 10]);
    } else {
        assert(f =~= seq![0i8, 1, 3, 4, 6, 8, 10]);
    }
    assert forall|j: int| 0 <= j < 6 implies f[j + 1] - f[j] == #[trigger] w[(i - 8 + j) % 7] by {
        if j == 0 {
        } else if j == 1 {
        } else if j == 2 {
        } else if j == 3 {
        } else if j == 4 {
        } else {
        }
    }
}

/// Scale types 8 to 14 are the seven modes of the ascending melodic minor
/// scale in order (melodic minor, Dorian b2, Lydian augmented, Lydian
/// dominant, Mixolydian b6, Locrian #2, altered): type `i` starts on the
/// root and climbs by the melodic minor step pattern begun at its
/// `(i - 8)`-th step.
pub proof fn lemma_melodic_minor_modes()
    ensures
        forall|i: int| 8 <= i < 15 ==> (#[trigger] scale_intervals_spec(i)).len() == 7 && scale_intervals_spec(i)[0] == 0,
        forall|i: int, j: int|
            #![trigger scale_intervals_spec(i)[j]]
            8 <= i < 15 && 0 <= j < 6 ==> scale_intervals_spec(i)[j + 1] - scale_intervals_spec(i)[j]
                == melodic_minor_steps()[(i - 8 + j) % 7],
{
    assert forall|i: int| 8 <= i < 15 implies (#[trigger] scale_intervals_spec(i)).len() == 7 && scale_intervals_spec(i)[0] == 0 by {
        lemma_melodic_mode_steps(i, scale_intervals_spec(i));
    }
    assert forall|i: int, j: int|
        #![trigger scale_intervals_spec(i)[j]]
        8 <= i < 15 && 0 <= j < 6 implies scale_intervals_spec(i)[j + 1] - scale_intervals_spec(i)[j]
            == melodic_minor_steps()[(i - 8 + j) % 7] by {
        lemma_melodic_mode_steps(i, scale_intervals_spec(i));
    }
}

/// How some scales derive from the major and natural minor scales:
/// harmonic minor (type 7) is natural minor (type 5) with a raised
/// seventh; melodic minor (type 8) is major (type 0) with a lowered third;
/// the major pentatonic (type 15) is the major scale without its fourth
/// and seventh degrees; the minor pentatonic (type 16) is natural minor
/// without its second and sixth.
pub proof fn lemma_scales_derived_from_major_and_minor()
    ensures
        scale_intervals_spec(7) == scale_intervals_spec(5).update(6, (scale_intervals_spec(5)[6] + 1) as i8),
        scale_intervals_spec(8) == scale_intervals_spec(0).update(2, (scale_intervals_spec(0)[2] - 1) as i8),
        scale_intervals_spec(15) == seq![
            scale_intervals_spec(0)[0],
            scale_intervals_spec(0)[1],
            scale_intervals_spec(0)[2],
            scale_intervals_spec(0)[4],
            scale_intervals_spec(0)[5],
        ],
        scale_intervals_spec(16) == seq![
            scale_intervals_spec(5)[0],
            scale_intervals_spec(5)[2],
            scale_intervals_spec(5)[3],
            scale_intervals_spec(5)[4],
            scale_intervals_spec(5)[6],
        ],
{
    assert(scale_intervals_spec(7) =~= scale_intervals_spec(5).update(6, (scale_intervals_spec(5)[6] + 1) as i8));
    assert(scale_intervals_spec(8) =~= scale_intervals_spec(0).update(2, (scale_intervals_spec(0)[2] - 1) as i8));
    assert(scale_intervals_spec(15) =~= seq![
        scale_intervals_spec(0)[0],
        scale_intervals_spec(0)[1],
        scale_intervals_spec(0)[2],
        scale_intervals_spec(0)[4],
        scale_intervals_spec(0)[5],
    ]);
    assert(scale_intervals_spec(16) =~= seq![
        scale_intervals_spec(5)[0],
        scale_intervals_spec(5)[2],
        scale_intervals_spec(5)[3],
        scale_intervals_spec(5)[4],
        scale_intervals_spec(5)[6],
    ]);
}

} // verus!
