//! The quick-edit dialog that opens when an effect is picked from the
//! Effects menu: which effect it is editing, and its title.
use vstd::prelude::*;

verus! {

/// The effect whose quick-edit dialog is open.
#[derive(Clone, Copy, PartialEq, Eq, Debug, Structural)]
pub enum ActiveEffectDialog {
    PitchUp,
    PitchDown,
    VolumeUp,
    VolumeDown,
    AdjustableFadeIn,
    AdjustableFadeOut,
    FadeToggle,
    TempoUp,
    TempoDown,
    Reverb,
    Echo,
    Distortion,
    SlidingStretch,
    PanToggle,
    Rattle,
    TripToggler,
}

pub open spec fn dialog_title(dialog: ActiveEffectDialog) -> Seq<char> {
    match dialog {
        ActiveEffectDialog::PitchUp => "Pitch Up"@,
        ActiveEffectDialog::PitchDown => "Pitch Down"@,
        ActiveEffectDialog::VolumeUp => "Volume Up"@,
        ActiveEffectDialog::VolumeDown => "Volume Down"@,
        ActiveEffectDialog::AdjustableFadeIn => "Adjustable Fade In"@,
        ActiveEffectDialog::AdjustableFadeOut => "Adjustable Fade Out"@,
        ActiveEffectDialog::FadeToggle => "Fade Toggle"@,
        ActiveEffectDialog::TempoUp => "Tempo Up"@,
        ActiveEffectDialog::TempoDown => "Tempo Down"@,
        ActiveEffectDialog::Reverb => "Reverb"@,
        ActiveEffectDialog::Echo => "Echo"@,
        ActiveEffectDialog::Distortion => "Distortion (Hard Clip)"@,
        ActiveEffectDialog::SlidingStretch => "Sliding Stretch"@,
        ActiveEffectDialog::PanToggle => "Pan Toggle"@,
        ActiveEffectDialog::Rattle => "Rattle"@,
        ActiveEffectDialog::TripToggler => "Trip Toggler"@,
    }
}

/// The title of the effect's quick-edit dialog (also the window's id).
pub fn active_effect_dialog_title(dialog: ActiveEffectDialog) -> (s: &'static str)
    ensures
        s@ == dialog_title(dialog),
{
    match dialog {
        ActiveEffectDialog::PitchUp => "Pitch Up",
        ActiveEffectDialog::PitchDown => "Pitch Down",
        ActiveEffectDialog::VolumeUp => "Volume Up",
        ActiveEffectDialog::VolumeDown => "Volume Down",
        ActiveEffectDialog::AdjustableFadeIn => "Adjustable Fade In",
        ActiveEffectDialog::AdjustableFadeOut => "Adjustable Fade Out",
        ActiveEffectDialog::FadeToggle => "Fade Toggle",
        ActiveEffectDialog::TempoUp => "Tempo Up",
        ActiveEffectDialog::TempoDown => "Tempo Down",
        ActiveEffectDialog::Reverb => "Reverb",
        ActiveEffectDialog::Echo => "Echo",
        ActiveEffectDialog::Distortion => "Distortion (Hard Clip)",
        ActiveEffectDialog::SlidingStretch => "Sliding Stretch",
        ActiveEffectDialog::PanToggle => "Pan Toggle",
        ActiveEffectDialog::Rattle => "Rattle",
        ActiveEffectDialog::TripToggler => "Trip Toggler",
    }
}

} // verus!
