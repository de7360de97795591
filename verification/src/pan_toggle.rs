//! Settings of the Pan Toggle effect that are not sample arithmetic.
use vstd::prelude::*;

verus! {

/// Which physical channel of a stereo clip gets the fade-in (the other
/// gets the fade-out).
#[derive(Clone, Copy, PartialEq, Eq, Debug, Structural)]
pub enum PanToggleDirection {
    Left,
    Right,
}

impl Default for PanToggleDirection {
    fn default() -> (d: Self)
        ensures
            d == PanToggleDirection::Left,
    {
        PanToggleDirection::Left
    }
}

} // verus!
