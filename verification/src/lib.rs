//! Rakunator's headless core: the multi-track editing model (tracks, clips,
//! clipboard, undo/redo, saving and loading), the Bethoven piano-roll data
//! model and scale tables, the playback transport and level meters, the
//! tag chunk of exported WAV files, the peak selection and segment layout of
//! the Trip Toggler effect, the keyboard edit priorities, and the small
//! pieces of naming and bookkeeping logic the application builds on.

pub mod bethoven;
pub mod effect_dialog;
pub mod export;
pub mod export_dialog;
pub mod help;
pub mod metadata;
pub mod meter;
pub mod nudge;
pub mod pan_toggle;
pub mod project;
pub mod recent;
pub mod riff_info;
pub mod shortcuts;
pub mod text;
pub mod transport;
pub mod trip_toggler;
pub mod waveform;
