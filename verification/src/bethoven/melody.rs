//! The note / section / melody data model behind the piano roll: plain
//! data plus pure mutators. Note gains and the tempo are carried as the
//! 32-bit patterns of their `f32` values; rendering audio from them is the
//! caller's business.
use vstd::prelude::*;
use crate::bethoven::instrument::{Instrument, all_instruments};
use crate::project::{inserted, lemma_inserted_no_duplicates, lemma_without_no_duplicates, without};

verus! {

/// Ticks per quarter note: fine enough for 16th-note snapping without
/// fractional tick positions.
pub const PPQ: u32 = 96;

pub const BEATS_PER_BAR: u32 = 4;

/// The default grid / snap step: a 16th note.
pub const GRID_TICKS: u32 = PPQ / 4;

/// The shortest a note can ever be: one tick, just enough to keep a note
/// from collapsing to zero length.
pub const MIN_NOTE_TICKS: u32 = 1;

pub const DEFAULT_SECTION_BARS: u32 = 8;

/// A note's gain when placed (`1.0`), as its 32-bit pattern.
pub const UNITY_GAIN: u32 = 0x3F80_0000;

/// A new melody's tempo (120 BPM), as the 32-bit pattern of the `f32`.
pub const DEFAULT_BPM: u32 = 0x42F0_0000;

/// `ticks` rounded down to a whole number of grid steps, never below one
/// step, then taken modulo 2^32 (the low 32 bits are kept).
pub open spec fn snapped(ticks: int) -> u32 {
    let step = GRID_TICKS as int;
    let t = if ticks < step { step } else { ticks };
    ((t / step) * step) as u32
}

/// Rounds `ticks` down to the nearest grid step (never below one step).
pub fn snap_ticks(ticks: i64) -> (r: u32)
    ensures
        r == snapped(ticks as int),
{
    let step = GRID_TICKS as i64;
    let t = if ticks < step { step } else { ticks };
    let q = t / step;
    assert(q * step <= t) by (nonlinear_arith)
        requires
            q == t / step,
            step == 24,
            t >= 24,
    ;
    #[verifier::truncate]
    let r = (q * step) as u32;
    r
}

pub fn bars_to_ticks(bars: u32) -> (r: u32)
    requires
        bars * BEATS_PER_BAR * PPQ <= u32::MAX,
    ensures
        r == bars * BEATS_PER_BAR * PPQ,
{
    bars * BEATS_PER_BAR * PPQ
}

#[derive(Clone, Copy, PartialEq, Eq, Debug, Structural)]
pub struct Note {
    pub id: u32,
    /// MIDI-style note number (60 = C4).
    pub pitch: u8,
    pub start_tick: u32,
    pub length_ticks: u32,
    pub instrument: Instrument,
    /// Linear gain, 0.0..=1.0, as the 32-bit pattern of the `f32`.
    pub gain: u32,
    /// -100 (full left) ..= 100 (full right).
    pub pan: i8,
}

impl Note {
    pub fn end_tick(&self) -> (e: u32)
        requires
            self.start_tick + self.length_ticks <= u32::MAX,
        ensures
            e == self.start_tick + self.length_ticks,
    {
        self.start_tick + self.length_ticks
    }
}

/// The largest of `ids`, or -1 when there are none.
pub open spec fn max_id(ids: Seq<u32>) -> int
    decreases ids.len(),
{
    if ids.len() == 0 {
        -1
    } else {
        let m = max_id(ids.drop_last());
        if ids.last() > m {
            ids.last() as int
        } else {
            m
        }
    }
}

/// One more than the largest of `ids` (0 when there are none).
pub open spec fn next_id_spec(ids: Seq<u32>) -> int {
    max_id(ids) + 1
}

/// A fresh id is larger than, so different from, every id in use.
pub proof fn lemma_next_id_fresh(ids: Seq<u32>)
    ensures
        forall|i: int| 0 <= i < ids.len() ==> ids[i] < #[trigger] next_id_spec(ids),
        next_id_spec(ids) >= 0,
    decreases ids.len(),
{
    if ids.len() > 0 {
        lemma_next_id_fresh(ids.drop_last());
        assert forall|i: int| 0 <= i < ids.len() implies ids[i] < #[trigger] next_id_spec(ids) by {
            if i < ids.len() - 1 {
                assert(ids[i] == ids.drop_last()[i]);
            }
        }
    }
}

/// One more than the largest of `existing` (0 when there are none).
pub fn next_id(existing: &[u32]) -> (r: u32)
    requires
        max_id(existing@) < u32::MAX,
    ensures
        r == next_id_spec(existing@),
{
    let mut m: i64 = -1;
    let mut k: usize = 0;
    while k < existing.len()
        invariant
            k <= existing@.len(),
            m == max_id(existing@.take(k as int)),
            -1 <= m <= u32::MAX,
        decreases existing@.len() - k,
    {
        assert(existing@.take(k + 1).drop_last() =~= existing@.take(k as int));
        if existing[k] as i64 > m {
            m = existing[k] as i64;
        }
        k += 1;
    }
    assert(existing@.take(k as int) =~= existing@);
    (m + 1) as u32
}

pub open spec fn note_ids(notes: Seq<Note>) -> Seq<u32> {
    notes.map_values(|n: Note| n.id)
}

/// The notes of `notes` whose ids are in `ids`, in order.
pub open spec fn picked_notes(notes: Seq<Note>, ids: Seq<u32>) -> Seq<Note>
    decreases notes.len(),
{
    if notes.len() == 0 {
        notes
    } else {
        let r = picked_notes(notes.drop_last(), ids);
        if ids.contains(notes.last().id) {
            r.push(notes.last())
        } else {
            r
        }
    }
}

/// The notes of `notes` whose ids are not in `ids`, in order.
pub open spec fn kept_notes(notes: Seq<Note>, ids: Seq<u32>) -> Seq<Note>
    decreases notes.len(),
{
    if notes.len() == 0 {
        notes
    } else {
        let r = kept_notes(notes.drop_last(), ids);
        if ids.contains(notes.last().id) {
            r
        } else {
            r.push(notes.last())
        }
    }
}

/// A start tick moved by `delta` ticks, floored at 0, then taken modulo
/// 2^32 (the low 32 bits are kept).
pub open spec fn moved_start(start: u32, delta: int) -> u32 {
    (if start + delta < 0 { 0 } else { start + delta }) as u32
}

/// A pitch moved by `delta` semitones, clamped to 0..=127.
pub open spec fn moved_pitch(pitch: u8, delta: int) -> u8 {
    (if pitch + delta < 0 { 0 } else if pitch + delta > 127 { 127 } else { pitch + delta }) as u8
}

/// `n` moved by `delta_ticks` and `delta_pitch` when its id is in `ids`.
pub open spec fn note_moved(n: Note, ids: Seq<u32>, delta_ticks: int, delta_pitch: int) -> Note {
    if ids.contains(n.id) {
        Note { start_tick: moved_start(n.start_tick, delta_ticks), pitch: moved_pitch(n.pitch, delta_pitch), ..n }
    } else {
        n
    }
}

/// The position of the first note of `notes` with id `id` (meaningful when
/// there is one).
pub open spec fn first_note(notes: Seq<Note>, id: u32) -> int {
    choose|i: int| 0 <= i < notes.len() && notes[i].id == id && forall|j: int| 0 <= j < i ==> notes[j].id != id
}

pub open spec fn has_note(notes: Seq<Note>, id: u32) -> bool {
    exists|i: int| 0 <= i < notes.len() && notes[i].id == id
}

fn contains_id(ids: &[u32], id: u32) -> (b: bool)
    ensures
        b == ids@.contains(id),
{
    let mut i: usize = 0;
    while i < ids.len()
        invariant
            i <= ids.len(),
            forall|j: int| 0 <= j < i ==> ids@[j] != id,
        decreases ids.len() - i,
    {
        if ids[i] == id {
            assert(ids@[i as int] == id);
            return true;
        }
        i += 1;
    }
    false
}

fn moved_start_exec(start: u32, delta: i64) -> (r: u32)
    requires
        start + delta <= i64::MAX,
    ensures
        r == moved_start(start, delta as int),
{
    let v = start as i64 + delta;
    let v = if v < 0 { 0 } else { v };
    #[verifier::truncate]
    let r = v as u32;
    r
}

/// Where the first note with id `id` sits in `notes`, if any.
fn first_note_index(notes: &Vec<Note>, id: u32) -> (r: Option<usize>)
    ensures
        match r {
            Some(i) => has_note(notes@, id) && i == first_note(notes@, id) && i < notes@.len(),
            None => !has_note(notes@, id),
        },
{
    let mut i: usize = 0;
    while i < notes.len()
        invariant
            i <= notes@.len(),
            forall|j: int| 0 <= j < i ==> notes@[j].id != id,
        decreases notes@.len() - i,
    {
        if notes[i].id == id {
            proof {
                let f = first_note(notes@, id);
                assert(0 <= i < notes@.len() && notes@[i as int].id == id && forall|j: int| 0 <= j < i ==> notes@[j].id != id);
                assert(0 <= f < notes@.len() && notes@[f].id == id && forall|j: int| 0 <= j < f ==> notes@[j].id != id);
                if f < i {
                    assert(notes@[f].id != id);
                }
                if f > i {
                    assert(notes@[i as int].id != id);
                }
            }
            return Some(i);
        }
        i += 1;
    }
    None
}

/// A section of a melody: a named stretch of the piano roll in one key and
/// scale, holding its notes.
pub struct Section {
    pub id: u32,
    pub name: String,
    /// Root pitch class, 0..=11 (C..B).
    pub root: u8,
    /// The scale type, an index into the scale table.
    pub scale_index: usize,
    pub length_ticks: u32,
    pub notes: Vec<Note>,
}

/// Everything of a section but its notes is the same in `a` and `b`.
pub open spec fn same_header(a: Section, b: Section) -> bool {
    &&& a.id == b.id
    &&& a.name@ == b.name@
    &&& a.root == b.root
    &&& a.scale_index == b.scale_index
    &&& a.length_ticks == b.length_ticks
}

/// The note a freshly placed note becomes: full gain, centred, at least
/// one tick long.
pub open spec fn placed_note(id: u32, pitch: u8, start_tick: u32, length_ticks: u32, instrument: Instrument) -> Note {
    Note {
        id,
        pitch,
        start_tick,
        length_ticks: if length_ticks < MIN_NOTE_TICKS { MIN_NOTE_TICKS } else { length_ticks },
        instrument,
        gain: UNITY_GAIN,
        pan: 0,
    }
}

impl Section {
    pub fn new(id: u32, name: String, root: u8, scale_index: usize, length_ticks: u32) -> (s: Self)
        ensures
            s.id == id,
            s.name@ == name@,
            s.root == root,
            s.scale_index == scale_index,
            s.length_ticks == length_ticks,
            s.notes@ == Seq::<Note>::empty(),
    {
        Section { id, name, root, scale_index, length_ticks, notes: Vec::new() }
    }

    /// The first note with id `id`.
    pub fn note(&self, id: u32) -> (r: Option<&Note>)
        ensures
            match r {
                Some(n) => has_note(self.notes@, id) && *n == self.notes@[first_note(self.notes@, id)],
                None => !has_note(self.notes@, id),
            },
    {
        match first_note_index(&self.notes, id) {
            Some(i) => Some(&self.notes[i]),
            None => None,
        }
    }

    /// Places a new note (full gain, centred, at least one tick long) with
    /// a fresh id, one more than the largest in use; returns that id.
    pub fn add_note(&mut self, pitch: u8, start_tick: u32, length_ticks: u32, instrument: Instrument) -> (id: u32)
        requires
            max_id(note_ids(old(self).notes@)) < u32::MAX,
        ensures
            id == next_id_spec(note_ids(old(self).notes@)),
            final(self).notes@ == old(self).notes@.push(placed_note(id, pitch, start_tick, length_ticks, instrument)),
            same_header(*final(self), *old(self)),
    {
        let ids = self.note_id_list();
        let id = next_id(ids.as_slice());
        let length = if length_ticks < MIN_NOTE_TICKS { MIN_NOTE_TICKS } else { length_ticks };
        self.notes.push(Note { id, pitch, start_tick, length_ticks: length, instrument, gain: UNITY_GAIN, pan: 0 });
        id
    }

    fn note_id_list(&self) -> (ids: Vec<u32>)
        ensures
            ids@ == note_ids(self.notes@),
    {
        let mut ids: Vec<u32> = Vec::new();
        let mut k: usize = 0;
        while k < self.notes.len()
            invariant
                k <= self.notes@.len(),
                ids@ == note_ids(self.notes@.take(k as int)),
            decreases self.notes@.len() - k,
        {
            ids.push(self.notes[k].id);
            k += 1;
            assert(ids@ =~= note_ids(self.notes@.take(k as int)));
        }
        assert(self.notes@.take(k as int) =~= self.notes@);
        ids
    }

    /// Removes every note whose id is in `ids`.
    pub fn delete_notes(&mut self, ids: &[u32])
        ensures
            final(self).notes@ == kept_notes(old(self).notes@, ids@),
            same_header(*final(self), *old(self)),
    {
        let mut kept: Vec<Note> = Vec::new();
        let mut k: usize = 0;
        while k < self.notes.len()
            invariant
                k <= self.notes@.len(),
                self.notes@ == old(self).notes@,
                same_header(*self, *old(self)),
                kept@ == kept_notes(self.notes@.take(k as int), ids@),
            decreases self.notes@.len() - k,
        {
            assert(self.notes@.take(k + 1).drop_last() =~= self.notes@.take(k as int));
            let n = self.notes[k];
            if !contains_id(ids, n.id) {
                kept.push(n);
            }
            k += 1;
        }
        assert(self.notes@.take(k as int) =~= self.notes@);
        self.notes = kept;
    }

    /// Moves every note whose id is in `ids` by `delta_ticks` (floored at
    /// tick 0) and `delta_pitch` semitones (clamped to 0..=127), together.
    pub fn move_notes(&mut self, ids: &[u32], delta_ticks: i64, delta_pitch: i32)
        requires
            forall|i: int|
                0 <= i < old(self).notes@.len() && ids@.contains(#[trigger] old(self).notes@[i].id) ==> old(self).notes@[i].start_tick
                    + delta_ticks <= i64::MAX && old(self).notes@[i].pitch + delta_pitch <= i32::MAX,
        ensures
            final(self).notes@ == old(self).notes@.map_values(|n: Note| note_moved(n, ids@, delta_ticks as int, delta_pitch as int)),
            same_header(*final(self), *old(self)),
    {
        let mut k: usize = 0;
        while k < self.notes.len()
            invariant
                k <= self.notes@.len() == old(self).notes@.len(),
                same_header(*self, *old(self)),
                forall|i: int|
                    0 <= i < old(self).notes@.len() && ids@.contains(#[trigger] old(self).notes@[i].id) ==> old(self).notes@[i].start_tick
                        + delta_ticks <= i64::MAX && old(self).notes@[i].pitch + delta_pitch <= i32::MAX,
                forall|i: int| 0 <= i < k ==> #[trigger] self.notes@[i] == note_moved(old(self).notes@[i], ids@, delta_ticks as int, delta_pitch as int),
                forall|i: int| k <= i < self.notes@.len() ==> #[trigger] self.notes@[i] == old(self).notes@[i],
            decreases self.notes@.len() - k,
        {
            let n = self.notes[k];
            assert(n == old(self).notes@[k as int]);
            if contains_id(ids, n.id) {
                let p = n.pitch as i32 + delta_pitch;
                let p = if p < 0 { 0 } else if p > 127 { 127 } else { p };
                let moved = Note { start_tick: moved_start_exec(n.start_tick, delta_ticks), pitch: p as u8, ..n };
                assert(moved == note_moved(n, ids@, delta_ticks as int, delta_pitch as int));
                self.notes.set(k, moved);
            } else {
                assert(n == note_moved(n, ids@, delta_ticks as int, delta_pitch as int));
            }
            k += 1;
        }
        assert(self.notes@ =~= old(self).notes@.map_values(|n: Note| note_moved(n, ids@, delta_ticks as int, delta_pitch as int)));
    }
}


/// The position of the first row of `rows` holding pitch `p`, or -1 when
/// none does.
pub open spec fn row_of(rows: Seq<u8>, p: u8) -> int {
    if exists|i: int| 0 <= i < rows.len() && rows[i] == p {
        choose|i: int| 0 <= i < rows.len() && rows[i] == p && forall|j: int| 0 <= j < i ==> rows[j] != p
    } else {
        -1
    }
}

/// The pitch `delta_rows` visible rows away from `p` (positive = towards
/// the start of `rows`, i.e. higher), clamped to the first and last rows;
/// `p` itself when it is on no row or the move is zero rows.
pub open spec fn moved_by_row(p: u8, delta_rows: int, rows: Seq<u8>) -> u8 {
    let idx = row_of(rows, p);
    if delta_rows != 0 && idx >= 0 {
        let t = idx - delta_rows;
        let c = if t < 0 { 0 } else if t > rows.len() - 1 { rows.len() - 1 } else { t };
        rows[c]
    } else {
        p
    }
}

/// `n` moved by `delta_ticks` and by `delta_rows` visible rows when its id
/// is in `ids`.
pub open spec fn note_moved_by_row(n: Note, ids: Seq<u32>, delta_ticks: int, delta_rows: int, rows: Seq<u8>) -> Note {
    if ids.contains(n.id) {
        Note { start_tick: moved_start(n.start_tick, delta_ticks), pitch: moved_by_row(n.pitch, delta_rows, rows), ..n }
    } else {
        n
    }
}

fn row_index(rows: &[u8], p: u8) -> (r: Option<usize>)
    ensures
        match r {
            Some(i) => i < rows@.len() && i == row_of(rows@, p),
            None => row_of(rows@, p) == -1,
        },
{
    let mut i: usize = 0;
    while i < rows.len()
        invariant
            i <= rows@.len(),
            forall|j: int| 0 <= j < i ==> rows@[j] != p,
        decreases rows@.len() - i,
    {
        if rows[i] == p {
            proof {
                assert(rows@[i as int] == p);
                let f = row_of(rows@, p);
                assert(0 <= f < rows@.len() && rows@[f] == p && forall|j: int| 0 <= j < f ==> rows@[j] != p);
                if f < i {
                    assert(rows@[f] != p);
                }
                if f > i {
                    assert(rows@[i as int] != p);
                }
            }
            return Some(i);
        }
        i += 1;
    }
    None
}

/// The copies `duplicate_notes` makes of `picked`: ids from `next` on, in
/// order, each start moved by `offset` ticks.
pub open spec fn note_copies(picked: Seq<Note>, next: int, offset: int) -> Seq<Note> {
    Seq::new(picked.len(), |j: int| Note { id: (next + j) as u32, start_tick: moved_start(picked[j].start_tick, offset), ..picked[j] })
}

/// The instruments of `insts` that some note of `notes` uses, in order.
pub open spec fn used_of(insts: Seq<Instrument>, notes: Seq<Note>) -> Seq<Instrument>
    decreases insts.len(),
{
    if insts.len() == 0 {
        insts
    } else {
        let r = used_of(insts.drop_last(), notes);
        if exists|k: int| 0 <= k < notes.len() && notes[k].instrument == insts.last() {
            r.push(insts.last())
        } else {
            r
        }
    }
}

fn uses_instrument(notes: &Vec<Note>, inst: Instrument) -> (b: bool)
    ensures
        b == exists|k: int| 0 <= k < notes@.len() && notes@[k].instrument == inst,
{
    let mut k: usize = 0;
    while k < notes.len()
        invariant
            k <= notes@.len(),
            forall|j: int| 0 <= j < k ==> notes@[j].instrument != inst,
        decreases notes@.len() - k,
    {
        if notes[k].instrument == inst {
            assert(notes@[k as int].instrument == inst);
            return true;
        }
        k += 1;
    }
    false
}

impl Section {
    /// Like `move_notes`, but the vertical move is a number of visible rows
    /// (`visible_rows`, highest pitch first) rather than semitones, so a
    /// note always lands on a visible row: positive moves towards the start
    /// of `visible_rows` (higher), clamped at its ends. A note whose pitch
    /// is on no visible row is moved in time only.
    pub fn move_notes_by_row(&mut self, ids: &[u32], delta_ticks: i64, delta_rows: i32, visible_rows: &[u8])
        requires
            visible_rows@.len() <= i32::MAX,
            forall|i: int|
                0 <= i < old(self).notes@.len() && ids@.contains(#[trigger] old(self).notes@[i].id) ==> old(self).notes@[i].start_tick
                    + delta_ticks <= i64::MAX && (delta_rows != 0 && row_of(visible_rows@, old(self).notes@[i].pitch) >= 0
                    ==> i32::MIN <= row_of(visible_rows@, old(self).notes@[i].pitch) - delta_rows <= i32::MAX),
        ensures
            final(self).notes@ == old(self).notes@.map_values(
                |n: Note| note_moved_by_row(n, ids@, delta_ticks as int, delta_rows as int, visible_rows@),
            ),
            same_header(*final(self), *old(self)),
    {
        let mut k: usize = 0;
        while k < self.notes.len()
            invariant
                k <= self.notes@.len() == old(self).notes@.len(),
                same_header(*self, *old(self)),
                visible_rows@.len() <= i32::MAX,
                forall|i: int|
                    0 <= i < old(self).notes@.len() && ids@.contains(#[trigger] old(self).notes@[i].id) ==> old(self).notes@[i].start_tick
                        + delta_ticks <= i64::MAX && (delta_rows != 0 && row_of(visible_rows@, old(self).notes@[i].pitch) >= 0
                        ==> i32::MIN <= row_of(visible_rows@, old(self).notes@[i].pitch) - delta_rows <= i32::MAX),
                forall|i: int|
                    0 <= i < k ==> #[trigger] self.notes@[i] == note_moved_by_row(
                        old(self).notes@[i],
                        ids@,
                        delta_ticks as int,
                        delta_rows as int,
                        visible_rows@,
                    ),
                forall|i: int| k <= i < self.notes@.len() ==> #[trigger] self.notes@[i] == old(self).notes@[i],
            decreases self.notes@.len() - k,
        {
            let n = self.notes[k];
            assert(n == old(self).notes@[k as int]);
            if contains_id(ids, n.id) {
                let start = moved_start_exec(n.start_tick, delta_ticks);
                let mut pitch = n.pitch;
                if delta_rows != 0 {
                    if let Some(idx) = row_index(visible_rows, n.pitch) {
                        let last = visible_rows.len() as i32 - 1;
                        let t = idx as i32 - delta_rows;
                        let c = if t < 0 { 0 } else if t > last { last } else { t };
                        pitch = visible_rows[c as usize];
                    }
                }
                let moved = Note { start_tick: start, pitch, ..n };
                assert(moved == note_moved_by_row(n, ids@, delta_ticks as int, delta_rows as int, visible_rows@));
                self.notes.set(k, moved);
            } else {
                assert(n == note_moved_by_row(n, ids@, delta_ticks as int, delta_rows as int, visible_rows@));
            }
            k += 1;
        }
        assert(self.notes@ =~= old(self).notes@.map_values(
            |n: Note| note_moved_by_row(n, ids@, delta_ticks as int, delta_rows as int, visible_rows@),
        ));
    }

    /// Gives the first note with id `id` a new start and length (at least
    /// one tick); nothing changes when there is no such note.
    pub fn resize_note(&mut self, id: u32, new_start_tick: u32, new_length_ticks: u32)
        ensures
            final(self).notes@ == (if has_note(old(self).notes@, id) {
                let i = first_note(old(self).notes@, id);
                old(self).notes@.update(
                    i,
                    Note {
                        start_tick: new_start_tick,
                        length_ticks: if new_length_ticks < MIN_NOTE_TICKS { MIN_NOTE_TICKS } else { new_length_ticks },
                        ..old(self).notes@[i]
                    },
                )
            } else {
                old(self).notes@
            }),
            same_header(*final(self), *old(self)),
    {
        if let Some(i) = first_note_index(&self.notes, id) {
            let n = self.notes[i];
            let length = if new_length_ticks < MIN_NOTE_TICKS { MIN_NOTE_TICKS } else { new_length_ticks };
            self.notes.set(i, Note { start_tick: new_start_tick, length_ticks: length, ..n });
        }
    }

    /// Appends a copy of every note whose id is in `ids`, in order, shifted
    /// by `tick_offset` (floored at tick 0), with fresh ids counting up from
    /// one more than the largest in use; returns the copies' ids.
    pub fn duplicate_notes(&mut self, ids: &[u32], tick_offset: i64) -> (new_ids: Vec<u32>)
        requires
            next_id_spec(note_ids(old(self).notes@)) + picked_notes(old(self).notes@, ids@).len() <= u32::MAX,
            forall|i: int|
                0 <= i < old(self).notes@.len() && ids@.contains(#[trigger] old(self).notes@[i].id) ==> old(self).notes@[i].start_tick
                    + tick_offset <= i64::MAX,
        ensures
            ({
                let next = next_id_spec(note_ids(old(self).notes@));
                let picked = picked_notes(old(self).notes@, ids@);
                &&& final(self).notes@ == old(self).notes@ + note_copies(picked, next, tick_offset as int)
                &&& new_ids@ == Seq::new(picked.len(), |j: int| (next + j) as u32)
            }),
            same_header(*final(self), *old(self)),
    {
        let ghost next0 = next_id_spec(note_ids(old(self).notes@));
        let ghost notes0 = old(self).notes@;
        let id_list = self.note_id_list();
        let mut next = next_id(id_list.as_slice());
        let mut new_ids: Vec<u32> = Vec::new();
        let mut copies: Vec<Note> = Vec::new();
        let mut k: usize = 0;
        while k < self.notes.len()
            invariant
                k <= self.notes@.len(),
                self.notes@ == notes0,
                same_header(*self, *old(self)),
                notes0 == old(self).notes@,
                next0 + picked_notes(notes0, ids@).len() <= u32::MAX,
                forall|i: int|
                    0 <= i < notes0.len() && ids@.contains(#[trigger] notes0[i].id) ==> notes0[i].start_tick + tick_offset <= i64::MAX,
                copies@ == note_copies(picked_notes(notes0.take(k as int), ids@), next0, tick_offset as int),
                new_ids@ == Seq::new(picked_notes(notes0.take(k as int), ids@).len(), |j: int| (next0 + j) as u32),
                next == next0 + picked_notes(notes0.take(k as int), ids@).len(),
                picked_notes(notes0.take(k as int), ids@).len() <= picked_notes(notes0, ids@).len(),
            decreases self.notes@.len() - k,
        {
            let ghost p = picked_notes(notes0.take(k as int), ids@);
            assert(notes0.take(k + 1).drop_last() =~= notes0.take(k as int));
            assert(notes0.take(k + 1).last() == notes0[k as int]);
            proof {
                lemma_picked_prefix_len(notes0, ids@, k as int + 1);
            }
            let n = self.notes[k];
            if contains_id(ids, n.id) {
                let copy = Note { id: next, start_tick: moved_start_exec(n.start_tick, tick_offset), ..n };
                copies.push(copy);
                new_ids.push(next);
                next += 1;
                proof {
                    let p2 = p.push(n);
                    assert(copies@ =~= note_copies(p2, next0, tick_offset as int));
                    assert(new_ids@ =~= Seq::new(p2.len(), |j: int| (next0 + j) as u32));
                }
            }
            k += 1;
        }
        assert(notes0.take(k as int) =~= notes0);
        self.notes.append(&mut copies);
        new_ids
    }

    /// Gives every note whose id is in `ids` the instrument `instrument`.
    pub fn set_instrument(&mut self, ids: &[u32], instrument: Instrument)
        ensures
            final(self).notes@ == old(self).notes@.map_values(
                |n: Note|
                    if ids@.contains(n.id) {
                        Note { instrument, ..n }
                    } else {
                        n
                    },
            ),
            same_header(*final(self), *old(self)),
    {
        let mut k: usize = 0;
        while k < self.notes.len()
            invariant
                k <= self.notes@.len() == old(self).notes@.len(),
                same_header(*self, *old(self)),
                forall|i: int|
                    0 <= i < k ==> #[trigger] self.notes@[i] == (if ids@.contains(old(self).notes@[i].id) {
                        Note { instrument, ..old(self).notes@[i] }
                    } else {
                        old(self).notes@[i]
                    }),
                forall|i: int| k <= i < self.notes@.len() ==> #[trigger] self.notes@[i] == old(self).notes@[i],
            decreases self.notes@.len() - k,
        {
            let n = self.notes[k];
            if contains_id(ids, n.id) {
                self.notes.set(k, Note { instrument, ..n });
            }
            k += 1;
        }
        assert(self.notes@ =~= old(self).notes@.map_values(
            |n: Note|
                if ids@.contains(n.id) {
                    Note { instrument, ..n }
                } else {
                    n
                },
        ));
    }

    /// Passes the gain of every note whose id is in `ids` through `adjust`
    /// (for example a step up or down, clamped to 0.0..=1.0).
    pub fn adjust_gain<F: Fn(u32) -> u32>(&mut self, ids: &[u32], adjust: F)
        requires
            forall|g: u32| adjust.requires((g,)),
        ensures
            final(self).notes@.len() == old(self).notes@.len(),
            forall|i: int|
                0 <= i < old(self).notes@.len() ==> if ids@.contains(old(self).notes@[i].id) {
                    &&& call_ensures(adjust, (old(self).notes@[i].gain,), #[trigger] final(self).notes@[i].gain)
                    &&& final(self).notes@[i] == Note { gain: final(self).notes@[i].gain, ..old(self).notes@[i] }
                } else {
                    final(self).notes@[i] == old(self).notes@[i]
                },
            same_header(*final(self), *old(self)),
    {
        let mut k: usize = 0;
        while k < self.notes.len()
            invariant
                k <= self.notes@.len() == old(self).notes@.len(),
                same_header(*self, *old(self)),
                forall|g: u32| adjust.requires((g,)),
                forall|i: int|
                    0 <= i < k ==> if ids@.contains(old(self).notes@[i].id) {
                        &&& call_ensures(adjust, (old(self).notes@[i].gain,), #[trigger] self.notes@[i].gain)
                        &&& self.notes@[i] == Note { gain: self.notes@[i].gain, ..old(self).notes@[i] }
                    } else {
                        self.notes@[i] == old(self).notes@[i]
                    },
                forall|i: int| k <= i < self.notes@.len() ==> #[trigger] self.notes@[i] == old(self).notes@[i],
            decreases self.notes@.len() - k,
        {
            let n = self.notes[k];
            if contains_id(ids, n.id) {
                let g = adjust(n.gain);
                self.notes.set(k, Note { gain: g, ..n });
            }
            k += 1;
        }
    }

    /// Moves the pan of every note whose id is in `ids` by `delta`, clamped
    /// to -100..=100.
    pub fn adjust_pan(&mut self, ids: &[u32], delta: i32)
        requires
            forall|i: int|
                0 <= i < old(self).notes@.len() && ids@.contains(#[trigger] old(self).notes@[i].id) ==> i32::MIN
                    <= old(self).notes@[i].pan + delta <= i32::MAX,
        ensures
            final(self).notes@ == old(self).notes@.map_values(
                |n: Note|
                    if ids@.contains(n.id) {
                        Note { pan: clamped_pan(n.pan + delta), ..n }
                    } else {
                        n
                    },
            ),
            same_header(*final(self), *old(self)),
    {
        let mut k: usize = 0;
        while k < self.notes.len()
            invariant
                k <= self.notes@.len() == old(self).notes@.len(),
                same_header(*self, *old(self)),
                forall|i: int|
                    0 <= i < old(self).notes@.len() && ids@.contains(#[trigger] old(self).notes@[i].id) ==> i32::MIN
                        <= old(self).notes@[i].pan + delta <= i32::MAX,
                forall|i: int|
                    0 <= i < k ==> #[trigger] self.notes@[i] == (if ids@.contains(old(self).notes@[i].id) {
                        Note { pan: clamped_pan(old(self).notes@[i].pan + delta), ..old(self).notes@[i] }
                    } else {
                        old(self).notes@[i]
                    }),
                forall|i: int| k <= i < self.notes@.len() ==> #[trigger] self.notes@[i] == old(self).notes@[i],
            decreases self.notes@.len() - k,
        {
            let n = self.notes[k];
            assert(n == old(self).notes@[k as int]);
            if contains_id(ids, n.id) {
                let v = n.pan as i32 + delta;
                let v = if v < -100 { -100 } else if v > 100 { 100 } else { v };
                self.notes.set(k, Note { pan: v as i8, ..n });
            }
            k += 1;
        }
        assert(self.notes@ =~= old(self).notes@.map_values(
            |n: Note|
                if ids@.contains(n.id) {
                    Note { pan: clamped_pan(n.pan + delta), ..n }
                } else {
                    n
                },
        ));
    }

    /// Puts every note whose id is in `ids` back to full gain, centred.
    pub fn reset_gain_pan(&mut self, ids: &[u32])
        ensures
            final(self).notes@ == old(self).notes@.map_values(
                |n: Note|
                    if ids@.contains(n.id) {
                        Note { gain: UNITY_GAIN, pan: 0, ..n }
                    } else {
                        n
                    },
            ),
            same_header(*final(self), *old(self)),
    {
        let mut k: usize = 0;
        while k < self.notes.len()
            invariant
                k <= self.notes@.len() == old(self).notes@.len(),
                same_header(*self, *old(self)),
                forall|i: int|
                    0 <= i < k ==> #[trigger] self.notes@[i] == (if ids@.contains(old(self).notes@[i].id) {
                        Note { gain: UNITY_GAIN, pan: 0, ..old(self).notes@[i] }
                    } else {
                        old(self).notes@[i]
                    }),
                forall|i: int| k <= i < self.notes@.len() ==> #[trigger] self.notes@[i] == old(self).notes@[i],
            decreases self.notes@.len() - k,
        {
            let n = self.notes[k];
            if contains_id(ids, n.id) {
                self.notes.set(k, Note { gain: UNITY_GAIN, pan: 0, ..n });
            }
            k += 1;
        }
        assert(self.notes@ =~= old(self).notes@.map_values(
            |n: Note|
                if ids@.contains(n.id) {
                    Note { gain: UNITY_GAIN, pan: 0, ..n }
                } else {
                    n
                },
        ));
    }

    /// The instruments at least one note of this section uses, in menu
    /// order.
    pub fn used_instruments(&self) -> (v: Vec<Instrument>)
        ensures
            v@ == used_of(all_instruments(), self.notes@),
    {
        let all = Instrument::all();
        let mut v: Vec<Instrument> = Vec::new();
        let mut k: usize = 0;
        while k < 8
            invariant
                k <= 8,
                all@ == all_instruments(),
                v@ == used_of(all_instruments().take(k as int), self.notes@),
            decreases 8 - k,
        {
            assert(all_instruments().take(k + 1).drop_last() =~= all_instruments().take(k as int));
            let inst = all[k];
            if uses_instrument(&self.notes, inst) {
                v.push(inst);
            }
            k += 1;
        }
        assert(all_instruments().take(8) =~= all_instruments());
        v
    }
}

/// `p` clamped to -100..=100.
pub open spec fn clamped_pan(p: int) -> i8 {
    (if p < -100 { -100 } else if p > 100 { 100 } else { p }) as i8
}

pub proof fn lemma_picked_prefix_len(notes: Seq<Note>, ids: Seq<u32>, k: int)
    requires
        0 <= k <= notes.len(),
    ensures
        picked_notes(notes.take(k), ids).len() <= picked_notes(notes, ids).len(),
    decreases notes.len() - k,
{
    if k < notes.len() {
        lemma_picked_prefix_len(notes, ids, k + 1);
        assert(notes.take(k + 1).drop_last() =~= notes.take(k));
    } else {
        assert(notes.take(k) =~= notes);
    }
}


/// The earliest start tick among `notes` (0 when there are none).
pub open spec fn earliest_start(notes: Seq<Note>) -> int
    decreases notes.len(),
{
    if notes.len() == 0 {
        0
    } else {
        let rest = earliest_start(notes.drop_last());
        if notes.len() == 1 || notes.last().start_tick < rest {
            notes.last().start_tick as int
        } else {
            rest
        }
    }
}

/// `clipboard` pasted with fresh ids counting up from `next`, shifted so
/// the earliest starts at tick 0, each at least one tick long; pitch,
/// instrument, gain and pan are kept.
pub open spec fn pasted_notes(clipboard: Seq<Note>, next: int) -> Seq<Note> {
    let e = earliest_start(clipboard);
    Seq::new(
        clipboard.len(),
        |j: int|
            Note {
                id: (next + j) as u32,
                start_tick: (clipboard[j].start_tick - e) as u32,
                length_ticks: if clipboard[j].length_ticks < MIN_NOTE_TICKS {
                    MIN_NOTE_TICKS
                } else {
                    clipboard[j].length_ticks
                },
                ..clipboard[j]
            },
    )
}

proof fn lemma_earliest_is_lowest(notes: Seq<Note>)
    ensures
        forall|j: int| 0 <= j < notes.len() ==> earliest_start(notes) <= #[trigger] notes[j].start_tick,
        0 <= earliest_start(notes),
    decreases notes.len(),
{
    if notes.len() > 0 {
        let rest = notes.drop_last();
        lemma_earliest_is_lowest(rest);
        assert forall|j: int| 0 <= j < notes.len() implies earliest_start(notes) <= #[trigger] notes[j].start_tick by {
            if j < notes.len() - 1 {
                assert(notes[j] == rest[j]);
            }
        }
    }
}

impl Section {
    /// The notes whose ids are in `ids`, in the section's order: what
    /// copying a note selection puts on the clipboard.
    pub fn copy_notes(&self, ids: &[u32]) -> (copied: Vec<Note>)
        ensures
            copied@ == picked_notes(self.notes@, ids@),
    {
        let mut copied: Vec<Note> = Vec::new();
        let mut k: usize = 0;
        while k < self.notes.len()
            invariant
                k <= self.notes@.len(),
                copied@ == picked_notes(self.notes@.take(k as int), ids@),
            decreases self.notes@.len() - k,
        {
            assert(self.notes@.take(k + 1).drop_last() =~= self.notes@.take(k as int));
            let n = self.notes[k];
            if contains_id(ids, n.id) {
                copied.push(n);
            }
            k += 1;
        }
        assert(self.notes@.take(k as int) =~= self.notes@);
        copied
    }

    /// Pastes `clipboard` into the section: the copies get fresh ids
    /// counting up from one more than the largest in use and are shifted
    /// so the earliest starts at the section's first tick, keeping their
    /// pitch, length, instrument, gain and pan. Returns the new ids.
    pub fn paste_notes(&mut self, clipboard: &[Note]) -> (new_ids: Vec<u32>)
        requires
            next_id_spec(note_ids(old(self).notes@)) + clipboard@.len() <= u32::MAX,
        ensures
            ({
                let next = next_id_spec(note_ids(old(self).notes@));
                &&& final(self).notes@ == old(self).notes@ + pasted_notes(clipboard@, next)
                &&& new_ids@ == Seq::new(clipboard@.len(), |j: int| (next + j) as u32)
            }),
            same_header(*final(self), *old(self)),
    {
        let ghost cb = clipboard@;
        let mut earliest: u32 = 0;
        let mut k: usize = 0;
        while k < clipboard.len()
            invariant
                k <= cb.len(),
                cb == clipboard@,
                earliest == earliest_start(cb.take(k as int)),
            decreases cb.len() - k,
        {
            assert(cb.take(k + 1).drop_last() =~= cb.take(k as int));
            if k == 0 || clipboard[k].start_tick < earliest {
                earliest = clipboard[k].start_tick;
            }
            k += 1;
        }
        assert(cb.take(k as int) =~= cb);
        proof {
            lemma_earliest_is_lowest(cb);
        }
        let id_list = self.note_id_list();
        let next0 = next_id(id_list.as_slice());
        let mut copies: Vec<Note> = Vec::new();
        let mut new_ids: Vec<u32> = Vec::new();
        let mut j: usize = 0;
        while j < clipboard.len()
            invariant
                j <= cb.len(),
                cb == clipboard@,
                earliest == earliest_start(cb),
                forall|i: int| 0 <= i < cb.len() ==> earliest <= #[trigger] cb[i].start_tick,
                next0 == next_id_spec(note_ids(self.notes@)),
                next0 + cb.len() <= u32::MAX,
                copies@ == pasted_notes(cb, next0 as int).take(j as int),
                new_ids@ == Seq::new(j as nat, |i: int| (next0 + i) as u32),
            decreases cb.len() - j,
        {
            let n = clipboard[j];
            let length = if n.length_ticks < MIN_NOTE_TICKS { MIN_NOTE_TICKS } else { n.length_ticks };
            let id = next0 + j as u32;
            copies.push(Note { id, start_tick: n.start_tick - earliest, length_ticks: length, ..n });
            new_ids.push(id);
            j += 1;
            assert(copies@ =~= pasted_notes(cb, next0 as int).take(j as int));
            assert(new_ids@ =~= Seq::new(j as nat, |i: int| (next0 + i) as u32));
        }
        assert(pasted_notes(cb, next0 as int).take(j as int) =~= pasted_notes(cb, next0 as int));
        self.notes.append(&mut copies);
        new_ids
    }
}

/// A melody: a tempo and a run of sections, with the defaults new notes
/// take and the instruments muted or soloed for its own playback.
pub struct Melody {
    pub id: u32,
    pub name: String,
    /// Tempo in beats per minute, as the 32-bit pattern of the `f32`.
    pub bpm: u32,
    pub sections: Vec<Section>,
    /// The length newly placed notes get.
    pub default_note_length_ticks: u32,
    /// The instrument newly placed notes get.
    pub default_instrument: Instrument,
    /// The section open in the piano roll when this melody was last worked
    /// on.
    pub last_section_id: Option<u32>,
    /// Instruments muted for this melody's playback and export (each at
    /// most once); overridden whenever any instrument is soloed.
    pub muted_instruments: Vec<Instrument>,
    /// Instruments soloed for this melody (each at most once): when any
    /// is, only they play.
    pub soloed_instruments: Vec<Instrument>,
}

pub open spec fn section_ids(sections: Seq<Section>) -> Seq<u32> {
    sections.map_values(|s: Section| s.id)
}

/// The sections of `sections` whose id is not `id`, in order.
pub open spec fn sections_without(sections: Seq<Section>, id: u32) -> Seq<Section>
    decreases sections.len(),
{
    if sections.len() == 0 {
        sections
    } else {
        let r = sections_without(sections.drop_last(), id);
        if sections.last().id == id {
            r
        } else {
            r.push(sections.last())
        }
    }
}

pub open spec fn has_section(sections: Seq<Section>, id: u32) -> bool {
    exists|i: int| 0 <= i < sections.len() && sections[i].id == id
}

/// The position of the first section of `sections` with id `id`
/// (meaningful when there is one).
pub open spec fn first_section(sections: Seq<Section>, id: u32) -> int {
    choose|i: int| 0 <= i < sections.len() && sections[i].id == id && forall|j: int| 0 <= j < i ==> sections[j].id != id
}

/// Whether `inst` is heard in a melody with these muted and soloed
/// instruments: soloing anything makes exactly the soloed ones audible,
/// otherwise everything not muted is.
pub open spec fn audible(muted: Seq<Instrument>, soloed: Seq<Instrument>, inst: Instrument) -> bool {
    if soloed.len() > 0 {
        soloed.contains(inst)
    } else {
        !muted.contains(inst)
    }
}

/// The instruments of `insts` that some note of some section uses, in
/// order.
pub open spec fn used_in_sections(insts: Seq<Instrument>, sections: Seq<Section>) -> Seq<Instrument>
    decreases insts.len(),
{
    if insts.len() == 0 {
        insts
    } else {
        let r = used_in_sections(insts.drop_last(), sections);
        if exists|i: int, k: int| 0 <= i < sections.len() && 0 <= k < sections[i].notes@.len() && sections[i].notes@[k].instrument == insts.last() {
            r.push(insts.last())
        } else {
            r
        }
    }
}

fn contains_instrument(v: &Vec<Instrument>, inst: Instrument) -> (b: bool)
    ensures
        b == v@.contains(inst),
{
    let mut k: usize = 0;
    while k < v.len()
        invariant
            k <= v@.len(),
            forall|j: int| 0 <= j < k ==> v@[j] != inst,
        decreases v@.len() - k,
    {
        if v[k] == inst {
            assert(v@[k as int] == inst);
            return true;
        }
        k += 1;
    }
    false
}

/// `v` with `inst` in it (added at the end when it was missing) when `on`,
/// and without it otherwise; a list without repeats stays without repeats.
fn set_membership(v: &mut Vec<Instrument>, inst: Instrument, on: bool)
    ensures
        final(v)@ == (if on { inserted(old(v)@, inst) } else { without(old(v)@, inst) }),
        old(v)@.no_duplicates() ==> final(v)@.no_duplicates(),
{
    let ghost s = v@;
    if on {
        if !contains_instrument(v, inst) {
            v.push(inst);
        }
        proof {
            if s.no_duplicates() {
                lemma_inserted_no_duplicates(s, inst);
            }
        }
    } else {
        let mut out: Vec<Instrument> = Vec::new();
        let mut i: usize = 0;
        while i < v.len()
            invariant
                s == v@,
                i <= v.len(),
                out@ == without(s.take(i as int), inst),
            decreases v.len() - i,
        {
            assert(s.take(i + 1).drop_last() =~= s.take(i as int));
            if v[i] != inst {
                out.push(v[i]);
            }
            i += 1;
        }
        assert(s.take(i as int) =~= s);
        *v = out;
        proof {
            if s.no_duplicates() {
                lemma_without_no_duplicates(s, inst);
            }
        }
    }
}

impl Melody {
    /// The muted and the soloed instruments are sets: each instrument at
    /// most once in each list.
    pub open spec fn instrument_sets_ok(&self) -> bool {
        self.muted_instruments@.no_duplicates() && self.soloed_instruments@.no_duplicates()
    }

    /// Mutes (`muted`) or unmutes `instrument` for this melody's playback
    /// and export.
    pub fn set_instrument_muted(&mut self, instrument: Instrument, muted: bool)
        ensures
            final(self).muted_instruments@ == (if muted {
                inserted(old(self).muted_instruments@, instrument)
            } else {
                without(old(self).muted_instruments@, instrument)
            }),
            final(self).soloed_instruments@ == old(self).soloed_instruments@,
            old(self).instrument_sets_ok() ==> final(self).instrument_sets_ok(),
            final(self).sections@ == old(self).sections@,
            final(self).bpm == old(self).bpm,
    {
        set_membership(&mut self.muted_instruments, instrument, muted);
    }

    /// Solos (`soloed`) or unsolos `instrument` for this melody.
    pub fn set_instrument_soloed(&mut self, instrument: Instrument, soloed: bool)
        ensures
            final(self).soloed_instruments@ == (if soloed {
                inserted(old(self).soloed_instruments@, instrument)
            } else {
                without(old(self).soloed_instruments@, instrument)
            }),
            final(self).muted_instruments@ == old(self).muted_instruments@,
            old(self).instrument_sets_ok() ==> final(self).instrument_sets_ok(),
            final(self).sections@ == old(self).sections@,
            final(self).bpm == old(self).bpm,
    {
        set_membership(&mut self.soloed_instruments, instrument, soloed);
    }

    /// Makes `note`'s length and instrument the ones newly placed notes
    /// get.
    pub fn take_defaults_from(&mut self, note: &Note)
        ensures
            final(self).default_note_length_ticks == note.length_ticks,
            final(self).default_instrument == note.instrument,
            final(self).id == old(self).id,
            final(self).name@ == old(self).name@,
            final(self).bpm == old(self).bpm,
            final(self).sections@ == old(self).sections@,
            final(self).last_section_id == old(self).last_section_id,
            final(self).muted_instruments@ == old(self).muted_instruments@,
            final(self).soloed_instruments@ == old(self).soloed_instruments@,
    {
        self.default_note_length_ticks = note.length_ticks;
        self.default_instrument = note.instrument;
    }

    /// A melody at 120 BPM with quarter-note Piano defaults and one
    /// eight-bar "Section 1" (id 0, C, the first scale), which is marked as
    /// the one last open.
    pub fn new(id: u32, name: String) -> (m: Self)
        ensures
            m.id == id,
            m.name@ == name@,
            m.bpm == DEFAULT_BPM,
            m.default_note_length_ticks == PPQ,
            m.default_instrument == Instrument::Piano,
            m.muted_instruments@ == Seq::<Instrument>::empty(),
            m.soloed_instruments@ == Seq::<Instrument>::empty(),
            m.instrument_sets_ok(),
            m.sections@.len() == 1,
            m.sections@[0].id == 0,
            m.sections@[0].name@ == "Section 1"@,
            m.sections@[0].root == 0,
            m.sections@[0].scale_index == 0,
            m.sections@[0].length_ticks == DEFAULT_SECTION_BARS * BEATS_PER_BAR * PPQ,
            m.sections@[0].notes@ == Seq::<Note>::empty(),
            m.last_section_id == Some(0u32),
    {
        let mut melody = Melody {
            id,
            name,
            bpm: DEFAULT_BPM,
            sections: Vec::new(),
            default_note_length_ticks: PPQ,
            default_instrument: Instrument::Piano,
            last_section_id: None,
            muted_instruments: Vec::new(),
            soloed_instruments: Vec::new(),
        };
        let section_id = melody.add_section(String::from_str("Section 1"), 0, 0, bars_to_ticks(DEFAULT_SECTION_BARS));
        assert(section_ids(Seq::<Section>::empty()) =~= Seq::<u32>::empty());
        melody.last_section_id = Some(section_id);
        melody
    }

    fn section_id_list(&self) -> (ids: Vec<u32>)
        ensures
            ids@ == section_ids(self.sections@),
    {
        let mut ids: Vec<u32> = Vec::new();
        let mut k: usize = 0;
        while k < self.sections.len()
            invariant
                k <= self.sections@.len(),
                ids@ == section_ids(self.sections@.take(k as int)),
            decreases self.sections@.len() - k,
        {
            ids.push(self.sections[k].id);
            k += 1;
            assert(ids@ =~= section_ids(self.sections@.take(k as int)));
        }
        assert(self.sections@.take(k as int) =~= self.sections@);
        ids
    }

    /// Appends a new empty section (at least one grid step long) with a
    /// fresh id, one more than the largest in use; returns that id.
    pub fn add_section(&mut self, name: String, root: u8, scale_index: usize, length_ticks: u32) -> (id: u32)
        requires
            max_id(section_ids(old(self).sections@)) < u32::MAX,
        ensures
            id == next_id_spec(section_ids(old(self).sections@)),
            final(self).sections@.len() == old(self).sections@.len() + 1,
            final(self).sections@.drop_last() == old(self).sections@,
            final(self).sections@.last().id == id,
            final(self).sections@.last().name@ == name@,
            final(self).sections@.last().root == root,
            final(self).sections@.last().scale_index == scale_index,
            final(self).sections@.last().length_ticks == (if length_ticks < GRID_TICKS { GRID_TICKS } else { length_ticks }),
            final(self).sections@.last().notes@ == Seq::<Note>::empty(),
            final(self).id == old(self).id,
            final(self).name@ == old(self).name@,
            final(self).bpm == old(self).bpm,
            final(self).default_note_length_ticks == old(self).default_note_length_ticks,
            final(self).default_instrument == old(self).default_instrument,
            final(self).last_section_id == old(self).last_section_id,
            final(self).muted_instruments@ == old(self).muted_instruments@,
            final(self).soloed_instruments@ == old(self).soloed_instruments@,
    {
        let ids = self.section_id_list();
        let id = next_id(ids.as_slice());
        let length = if length_ticks < GRID_TICKS { GRID_TICKS } else { length_ticks };
        self.sections.push(Section::new(id, name, root, scale_index, length));
        assert(self.sections@.drop_last() =~= old(self).sections@);
        id
    }

    /// Removes every section with id `id`.
    pub fn remove_section(&mut self, id: u32)
        ensures
            final(self).sections@ == sections_without(old(self).sections@, id),
            final(self).id == old(self).id,
            final(self).name@ == old(self).name@,
            final(self).bpm == old(self).bpm,
            final(self).default_note_length_ticks == old(self).default_note_length_ticks,
            final(self).default_instrument == old(self).default_instrument,
            final(self).last_section_id == old(self).last_section_id,
            final(self).muted_instruments@ == old(self).muted_instruments@,
            final(self).soloed_instruments@ == old(self).soloed_instruments@,
    {
        let mut old_sections: Vec<Section> = Vec::new();
        std::mem::swap(&mut old_sections, &mut self.sections);
        let ghost secs = old_sections@;
        let mut kept: Vec<Section> = Vec::new();
        let mut rest: Vec<Section> = Vec::new();
        // Take the sections off from the back, then restore their order.
        while old_sections.len() > 0
            invariant
                secs == old(self).sections@,
                old_sections@ == secs.take(old_sections@.len() as int),
                old_sections@.len() <= secs.len(),
                rest@ == sections_without(secs.skip(old_sections@.len() as int), id).reverse(),
            decreases old_sections@.len(),
        {
            let ghost n0 = old_sections@.len() as int;
            let s = old_sections.pop().unwrap();
            proof {
                assert(secs.skip(n0 - 1) =~= seq![s] + secs.skip(n0));
                lemma_sections_without_prepend(s, secs.skip(n0), id);
            }
            if s.id != id {
                rest.push(s);
            }
            assert(old_sections@ =~= secs.take(old_sections@.len() as int));
        }
        assert(secs.skip(0) =~= secs);
        while rest.len() > 0
            invariant
                kept@ + rest@.reverse() == sections_without(secs, id),
            decreases rest@.len(),
        {
            let ghost r0 = rest@;
            let s = rest.pop().unwrap();
            assert(r0.reverse() =~= seq![s] + rest@.reverse());
            kept.push(s);
            assert(kept@ + rest@.reverse() =~= kept@.drop_last() + r0.reverse());
        }
        assert(kept@ =~= sections_without(secs, id));
        self.sections = kept;
    }

    /// The first section with id `id`.
    pub fn section(&self, id: u32) -> (r: Option<&Section>)
        ensures
            match r {
                Some(s) => has_section(self.sections@, id) && *s == self.sections@[first_section(self.sections@, id)],
                None => !has_section(self.sections@, id),
            },
    {
        match self.first_section_index(id) {
            Some(i) => Some(&self.sections[i]),
            None => None,
        }
    }

    /// Mutable access to the first section with id `id`; every other
    /// section and field stays as it is.
    pub fn section_mut(&mut self, id: u32) -> (r: Option<&mut Section>)
        ensures
            match r {
                Some(s) => {
                    let i = first_section(old(self).sections@, id);
                    &&& has_section(old(self).sections@, id)
                    &&& *s == old(self).sections@[i]
                    &&& final(self).sections@ == old(self).sections@.update(i, *final(s))
                },
                None => !has_section(old(self).sections@, id) && final(self).sections@ == old(self).sections@,
            },
            final(self).id == old(self).id,
            final(self).name@ == old(self).name@,
            final(self).bpm == old(self).bpm,
            final(self).default_note_length_ticks == old(self).default_note_length_ticks,
            final(self).default_instrument == old(self).default_instrument,
            final(self).last_section_id == old(self).last_section_id,
            final(self).muted_instruments@ == old(self).muted_instruments@,
            final(self).soloed_instruments@ == old(self).soloed_instruments@,
    {
        match self.first_section_index(id) {
            Some(i) => Some(&mut self.sections[i]),
            None => None,
        }
    }

    fn first_section_index(&self, id: u32) -> (r: Option<usize>)
        ensures
            match r {
                Some(i) => has_section(self.sections@, id) && i == first_section(self.sections@, id) && i < self.sections@.len(),
                None => !has_section(self.sections@, id),
            },
    {
        let mut i: usize = 0;
        while i < self.sections.len()
            invariant
                i <= self.sections@.len(),
                forall|j: int| 0 <= j < i ==> self.sections@[j].id != id,
            decreases self.sections@.len() - i,
        {
            if self.sections[i].id == id {
                proof {
                    let f = first_section(self.sections@, id);
                    assert(0 <= i < self.sections@.len() && self.sections@[i as int].id == id && forall|j: int|
                        0 <= j < i ==> self.sections@[j].id != id);
                    if f < i {
                        assert(self.sections@[f].id != id);
                    }
                    if f > i {
                        assert(self.sections@[i as int].id != id);
                    }
                }
                return Some(i);
            }
            i += 1;
        }
        None
    }

    /// Whether `instrument` is heard right now: soloing anything makes
    /// exactly the soloed instruments audible, otherwise every instrument
    /// not muted is.
    pub fn is_instrument_audible(&self, instrument: Instrument) -> (b: bool)
        ensures
            b == audible(self.muted_instruments@, self.soloed_instruments@, instrument),
    {
        if self.soloed_instruments.len() > 0 {
            contains_instrument(&self.soloed_instruments, instrument)
        } else {
            !contains_instrument(&self.muted_instruments, instrument)
        }
    }

    /// The instruments at least one note anywhere in this melody uses, in
    /// menu order.
    pub fn used_instruments(&self) -> (v: Vec<Instrument>)
        ensures
            v@ == used_in_sections(all_instruments(), self.sections@),
    {
        let all = Instrument::all();
        let mut v: Vec<Instrument> = Vec::new();
        let mut k: usize = 0;
        while k < 8
            invariant
                k <= 8,
                all@ == all_instruments(),
                v@ == used_in_sections(all_instruments().take(k as int), self.sections@),
            decreases 8 - k,
        {
            assert(all_instruments().take(k + 1).drop_last() =~= all_instruments().take(k as int));
            let inst = all[k];
            let mut found = false;
            let mut i: usize = 0;
            while i < self.sections.len()
                invariant
                    i <= self.sections@.len(),
                    found == exists|a: int, q: int|
                        0 <= a < i && 0 <= q < self.sections@[a].notes@.len() && self.sections@[a].notes@[q].instrument == inst,
                decreases self.sections@.len() - i,
            {
                if uses_instrument(&self.sections[i].notes, inst) {
                    found = true;
                }
                i += 1;
            }
            if found {
                v.push(inst);
            }
            k += 1;
        }
        assert(all_instruments().take(8) =~= all_instruments());
        v
    }
}

pub proof fn lemma_sections_without_prepend(s: Section, rest: Seq<Section>, id: u32)
    ensures
        sections_without(seq![s] + rest, id) == (if s.id == id {
            sections_without(rest, id)
        } else {
            seq![s] + sections_without(rest, id)
        }),
    decreases rest.len(),
{
    if rest.len() == 0 {
        assert((seq![s] + rest).drop_last() =~= Seq::<Section>::empty());
        assert(sections_without(Seq::<Section>::empty(), id) =~= Seq::<Section>::empty());
        if s.id != id {
            assert(Seq::<Section>::empty().push(s) =~= seq![s] + Seq::<Section>::empty());
        }
    } else {
        lemma_sections_without_prepend(s, rest.drop_last(), id);
        assert((seq![s] + rest).drop_last() =~= seq![s] + rest.drop_last());
        if s.id != id {
            assert((seq![s] + sections_without(rest.drop_last(), id)).push(rest.last()) =~= seq![s] + sections_without(
                rest.drop_last(),
                id,
            ).push(rest.last()));
        }
    }
}


proof fn lemma_first_row(rows: Seq<u8>, p: u8) -> (i: int)
    requires
        rows.contains(p),
    ensures
        0 <= i < rows.len(),
        rows[i] == p,
        forall|j: int| 0 <= j < i ==> rows[j] != p,
    decreases rows.len(),
{
    let d = rows.drop_last();
    if d.contains(p) {
        let i = lemma_first_row(d, p);
        assert forall|j: int| 0 <= j < i implies rows[j] != p by {
            assert(rows[j] == d[j]);
        }
        i
    } else {
        assert forall|j: int| 0 <= j < rows.len() - 1 implies rows[j] != p by {
            assert(rows[j] == d[j]);
            if rows[j] == p {
                assert(d.contains(p));
            }
        }
        let k = choose|k: int| 0 <= k < rows.len() && rows[k] == p;
        if k < rows.len() - 1 {
            assert(rows[k] != p);
        }
        rows.len() - 1
    }
}

/// Moving a note that sits on a visible row by any number of rows lands it
/// on a visible row again.
pub proof fn lemma_row_move_stays_visible(p: u8, delta_rows: int, rows: Seq<u8>)
    requires
        rows.contains(p),
    ensures
        rows.contains(moved_by_row(p, delta_rows, rows)),
{
    let first = lemma_first_row(rows, p);
    let idx = row_of(rows, p);
    assert(0 <= idx < rows.len());
    if delta_rows != 0 {
        let t = idx - delta_rows;
        let c = if t < 0 { 0 } else if t > rows.len() - 1 { rows.len() - 1 } else { t };
        assert(rows[c] == moved_by_row(p, delta_rows, rows));
    }
}

pub open spec fn has_melody(melodies: Seq<Melody>, id: u32) -> bool {
    exists|i: int| 0 <= i < melodies.len() && melodies[i].id == id
}

/// The position of the first melody of `melodies` with id `id`.
pub open spec fn first_melody(melodies: Seq<Melody>, id: u32) -> int {
    choose|i: int| 0 <= i < melodies.len() && melodies[i].id == id && forall|j: int| 0 <= j < i ==> melodies[j].id != id
}

fn first_melody_index(melodies: &Vec<Melody>, id: u32) -> (r: Option<usize>)
    ensures
        match r {
            Some(i) => has_melody(melodies@, id) && i == first_melody(melodies@, id) && i < melodies@.len(),
            None => !has_melody(melodies@, id),
        },
{
    let mut i: usize = 0;
    while i < melodies.len()
        invariant
            i <= melodies@.len(),
            forall|j: int| 0 <= j < i ==> melodies@[j].id != id,
        decreases melodies@.len() - i,
    {
        if melodies[i].id == id {
            proof {
                let f = first_melody(melodies@, id);
                assert(0 <= i < melodies@.len() && melodies@[i as int].id == id && forall|j: int|
                    0 <= j < i ==> melodies@[j].id != id);
                if f < i {
                    assert(melodies@[f].id != id);
                }
                if f > i {
                    assert(melodies@[i as int].id != id);
                }
            }
            return Some(i);
        }
        i += 1;
    }
    None
}

/// Which melody and section the piano roll shows, and whether the note
/// selection had to be dropped to get there.
pub struct ActiveIds {
    pub melody: Option<u32>,
    pub section: Option<u32>,
    pub selection_cleared: bool,
}

/// Makes sure the piano roll shows something valid: with no melody at all
/// a "Melody 1" (id 0) is created; a melody id that names no melody falls
/// back to the first melody (forgetting the section); a section id that
/// names no section of that melody falls back to its first section (or
/// none). The note selection is dropped whenever either falls back.
pub fn ensure_active(melodies: &mut Vec<Melody>, active_melody: Option<u32>, active_section: Option<u32>) -> (r: ActiveIds)
    ensures
        old(melodies)@.len() > 0 ==> final(melodies)@ == old(melodies)@,
        old(melodies)@.len() == 0 ==> {
            &&& final(melodies)@.len() == 1
            &&& final(melodies)@[0].id == 0
            &&& final(melodies)@[0].name@ == "Melody 1"@
            &&& final(melodies)@[0].sections@.len() == 1
        },
        ({
            let ms = final(melodies)@;
            let melody_ok = active_melody is Some && has_melody(ms, active_melody->0);
            let mid = if melody_ok { active_melody->0 } else { ms[0].id };
            let secs = ms[first_melody(ms, mid)].sections@;
            let section_ok = melody_ok && active_section is Some && has_section(secs, active_section->0);
            &&& r.melody == Some(mid)
            &&& r.section == (if section_ok {
                active_section
            } else if secs.len() > 0 {
                Some(secs[0].id)
            } else {
                None
            })
            &&& r.selection_cleared == !section_ok
        }),
{
    if melodies.len() == 0 {
        melodies.push(Melody::new(0, String::from_str("Melody 1")));
    }
    let ghost ms = melodies@;
    let (mid, melody_ok) = match active_melody {
        Some(id) => match first_melody_index(melodies, id) {
            Some(_) => (id, true),
            None => (melodies[0].id, false),
        },
        None => (melodies[0].id, false),
    };
    let k = match first_melody_index(melodies, mid) {
        Some(k) => k,
        None => {
            assert(ms[0].id == mid);
            assert(has_melody(ms, mid));
            0
        },
    };
    let melody = &melodies[k];
    let section_ok = melody_ok && match active_section {
        Some(sid) => melody.section(sid).is_some(),
        None => false,
    };
    let section = if section_ok {
        active_section
    } else if melody.sections.len() > 0 {
        Some(melody.sections[0].id)
    } else {
        None
    };
    ActiveIds { melody: Some(mid), section, selection_cleared: !section_ok }
}

} // verus!
