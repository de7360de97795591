//! The shapes of generated test tones.
use vstd::prelude::*;

verus! {

/// Waveform shapes shared by playback and export rendering.
#[derive(Clone, Copy, PartialEq, Eq, Debug, Structural)]
pub enum Waveform {
    Sine,
    Square,
    Triangle,
    Sawtooth,
}

pub open spec fn waveform_name(w: Waveform) -> Seq<char> {
    match w {
        Waveform::Sine => "sine"@,
        Waveform::Square => "square"@,
        Waveform::Triangle => "triangle"@,
        Waveform::Sawtooth => "sawtooth"@,
    }
}

impl Waveform {
    pub fn name(self) -> (s: &'static str)
        ensures
            s@ == waveform_name(self),
    {
        match self {
            Waveform::Sine => "sine",
            Waveform::Square => "square",
            Waveform::Triangle => "triangle",
            Waveform::Sawtooth => "sawtooth",
        }
    }
}

} // verus!
