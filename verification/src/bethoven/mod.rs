//! Bethoven: the scale-constrained piano-roll composer's data model:
//! scales, instruments, and notes / sections / melodies.

pub mod instrument;
pub mod melody;
pub mod scales;

pub use instrument::Instrument;
pub use melody::{Melody, Note, Section};
