//! Per-track peak level meters (left / right), written once per mixed chunk
//! and read by the display every frame. Levels are carried as the 32-bit
//! patterns of their `f32` values.
use vstd::prelude::*;

verus! {

/// Fixed ceiling on the number of metered tracks; the display only reads
/// indices `0..tracks.len()`.
pub const MAX_TRACKS: usize = 64;

pub struct Meters {
    peak_l: Vec<u32>,
    peak_r: Vec<u32>,
}

impl Meters {
    /// The left levels, one per metered track.
    pub closed spec fn left(&self) -> Seq<u32> {
        self.peak_l@
    }

    /// The right levels, one per metered track.
    pub closed spec fn right(&self) -> Seq<u32> {
        self.peak_r@
    }

    /// Both level lists hold exactly `MAX_TRACKS` entries.
    pub open spec fn wf(&self) -> bool {
        self.left().len() == MAX_TRACKS && self.right().len() == MAX_TRACKS
    }

    /// Every meter at silence.
    pub fn new() -> (m: Self)
        ensures
            m.wf(),
            m.left() == Seq::new(MAX_TRACKS as nat, |i: int| 0u32),
            m.right() == Seq::new(MAX_TRACKS as nat, |i: int| 0u32),
    {
        let mut peak_l: Vec<u32> = Vec::new();
        let mut peak_r: Vec<u32> = Vec::new();
        let mut i: usize = 0;
        while i < MAX_TRACKS
            invariant
                i <= MAX_TRACKS,
                peak_l@ == Seq::new(i as nat, |j: int| 0u32),
                peak_r@ == Seq::new(i as nat, |j: int| 0u32),
            decreases MAX_TRACKS - i,
        {
            peak_l.push(0);
            peak_r.push(0);
            i += 1;
            assert(peak_l@ =~= Seq::new(i as nat, |j: int| 0u32));
            assert(peak_r@ =~= Seq::new(i as nat, |j: int| 0u32));
        }
        Meters { peak_l, peak_r }
    }

    /// Sets track `i`'s levels; an index past `MAX_TRACKS` is ignored.
    pub fn store(&mut self, i: usize, left: u32, right: u32)
        requires
            old(self).wf(),
        ensures
            final(self).wf(),
            final(self).left() == (if i < MAX_TRACKS { old(self).left().update(i as int, left) } else { old(self).left() }),
            final(self).right() == (if i < MAX_TRACKS { old(self).right().update(i as int, right) } else { old(self).right() }),
    {
        if i >= MAX_TRACKS {
            return;
        }
        self.peak_l.set(i, left);
        self.peak_r.set(i, right);
    }

    /// Puts track `i`'s meter back to silence; an index past `MAX_TRACKS`
    /// is ignored.
    pub fn reset(&mut self, i: usize)
        requires
            old(self).wf(),
        ensures
            final(self).wf(),
            final(self).left() == (if i < MAX_TRACKS { old(self).left().update(i as int, 0) } else { old(self).left() }),
            final(self).right() == (if i < MAX_TRACKS { old(self).right().update(i as int, 0) } else { old(self).right() }),
    {
        self.store(i, 0, 0);
    }

    /// Puts every meter back to silence (for pausing or stopping playback,
    /// when nothing decays them any more).
    pub fn reset_all(&mut self)
        requires
            old(self).wf(),
        ensures
            final(self).wf(),
            final(self).left() == Seq::new(MAX_TRACKS as nat, |i: int| 0u32),
            final(self).right() == Seq::new(MAX_TRACKS as nat, |i: int| 0u32),
    {
        let mut i: usize = 0;
        while i < MAX_TRACKS
            invariant
                i <= MAX_TRACKS,
                self.wf(),
                forall|j: int| 0 <= j < i ==> self.left()[j] == 0 && self.right()[j] == 0,
            decreases MAX_TRACKS - i,
        {
            self.reset(i);
            i += 1;
        }
        assert(self.left() =~= Seq::new(MAX_TRACKS as nat, |i: int| 0u32));
        assert(self.right() =~= Seq::new(MAX_TRACKS as nat, |i: int| 0u32));
    }

    /// Track `i`'s (left, right) levels; silence for an index past
    /// `MAX_TRACKS`.
    pub fn read(&self, i: usize) -> (r: (u32, u32))
        requires
            self.wf(),
        ensures
            r == (if i < MAX_TRACKS { (self.left()[i as int], self.right()[i as int]) } else { (0u32, 0u32) }),
    {
        if i >= MAX_TRACKS {
            return (0, 0);
        }
        (self.peak_l[i], self.peak_r[i])
    }
}

/// What was last stored for a meter is what reading it gives back.
pub proof fn lemma_read_after_store(m: Meters, m2: Meters, i: int, left: u32, right: u32)
    requires
        m.wf(),
        0 <= i < MAX_TRACKS,
        m2.left() == m.left().update(i, left),
        m2.right() == m.right().update(i, right),
    ensures
        m2.left()[i] == left,
        m2.right()[i] == right,
{
}

impl Default for Meters {
    fn default() -> (m: Self)
        ensures
            m.wf(),
            m.left() == Seq::new(MAX_TRACKS as nat, |i: int| 0u32),
            m.right() == Seq::new(MAX_TRACKS as nat, |i: int| 0u32),
    {
        Meters::new()
    }
}

} // verus!
