//! Bethoven's eight procedurally synthesised instruments: their names,
//! which of them follow the piano roll's pitch, and the small deterministic
//! noise generator the percussion voices are built on.
use vstd::prelude::*;

verus! {

#[derive(Clone, Copy, PartialEq, Eq, Hash, Debug, Structural)]
pub enum Instrument {
    Piano,
    Strings,
    Bass,
    Guitar,
    Synth,
    Drum,
    Snare,
    HiHat,
}

/// Every instrument, in menu order.
pub open spec fn all_instruments() -> Seq<Instrument> {
    seq![
        Instrument::Piano,
        Instrument::Strings,
        Instrument::Bass,
        Instrument::Guitar,
        Instrument::Synth,
        Instrument::Drum,
        Instrument::Snare,
        Instrument::HiHat,
    ]
}

pub open spec fn instrument_name(i: Instrument) -> Seq<char> {
    match i {
        Instrument::Piano => "Piano"@,
        Instrument::Strings => "Strings"@,
        Instrument::Bass => "Bass"@,
        Instrument::Guitar => "Guitar"@,
        Instrument::Synth => "Synth"@,
        Instrument::Drum => "Drum"@,
        Instrument::Snare => "Snare"@,
        Instrument::HiHat => "Hi-Hat"@,
    }
}

/// Whether the instrument follows the pitch of the piano-roll row it is
/// placed on; the three percussion voices are one-shot hits that ignore it.
pub open spec fn pitched(i: Instrument) -> bool {
    !(i is Drum || i is Snare || i is HiHat)
}

impl Instrument {
    /// Every instrument, in menu order.
    pub fn all() -> (v: [Instrument; 8])
        ensures
            v@ == all_instruments(),
    {
        let v = [
            Instrument::Piano,
            Instrument::Strings,
            Instrument::Bass,
            Instrument::Guitar,
            Instrument::Synth,
            Instrument::Drum,
            Instrument::Snare,
            Instrument::HiHat,
        ];
        assert(v@ =~= all_instruments());
        v
    }

    pub fn name(self) -> (s: &'static str)
        ensures
            s@ == instrument_name(self),
    {
        match self {
            Instrument::Piano => "Piano",
            Instrument::Strings => "Strings",
            Instrument::Bass => "Bass",
            Instrument::Guitar => "Guitar",
            Instrument::Synth => "Synth",
            Instrument::Drum => "Drum",
            Instrument::Snare => "Snare",
            Instrument::HiHat => "Hi-Hat",
        }
    }

    /// Whether this instrument is pitched by the piano-roll row it is
    /// placed on.
    pub fn is_pitched(self) -> (b: bool)
        ensures
            b == pitched(self),
    {
        match self {
            Instrument::Drum | Instrument::Snare | Instrument::HiHat => false,
            _ => true,
        }
    }
}

/// One xorshift32 step: the generator's next state.
pub open spec fn xorshift_step(x: u32) -> u32 {
    let a = x ^ (x << 13u32);
    let b = a ^ (a >> 17u32);
    b ^ (b << 5u32)
}

/// A tiny deterministic pseudo-random generator (xorshift32) for the
/// noise-based percussion voices, seeded per note so renders repeat
/// exactly.
pub struct Xorshift32 {
    state: u32,
}

impl Xorshift32 {
    pub closed spec fn spec_state(&self) -> u32 {
        self.state
    }

    /// A generator seeded with `seed`; a zero seed (the one state xorshift
    /// never leaves) is replaced by 1.
    pub fn new(seed: u32) -> (g: Self)
        ensures
            g.spec_state() == (if seed == 0 { 1 } else { seed }),
    {
        Xorshift32 { state: if seed >= 1 { seed } else { 1 } }
    }

    /// Advances the generator and returns its new state.
    pub fn next_u32(&mut self) -> (x: u32)
        ensures
            x == xorshift_step(old(self).spec_state()),
            final(self).spec_state() == x,
    {
        let mut x = self.state;
        x ^= x << 13u32;
        x ^= x >> 17u32;
        x ^= x << 5u32;
        self.state = x;
        x
    }
}

/// A non-zero state never steps to zero, so a generator made by `new`
/// never gets stuck.
pub proof fn lemma_xorshift_never_zero(x: u32)
    requires
        x != 0,
    ensures
        xorshift_step(x) != 0,
{
    let a = x ^ (x << 13u32);
    let b = a ^ (a >> 17u32);
    assert(x != 0 ==> x ^ (x << 13u32) != 0) by (bit_vector);
    assert(a != 0 ==> a ^ (a >> 17u32) != 0) by (bit_vector);
    assert(b != 0 ==> b ^ (b << 5u32) != 0) by (bit_vector);
}

} // verus!
