//! Which timeline edit a frame's key presses ask for. Several keys can be
//! down in one frame; the edits are tried in a fixed priority order, and
//! what applies depends on whether tracks or clips are selected.
use vstd::prelude::*;
use crate::project::TrackId;

verus! {

/// The timeline editing keys pressed in one frame, each already matched
/// against its modifiers (Ctrl+X, Ctrl+C, Ctrl+V, Ctrl+D, S, Delete or
/// Backspace, Left, Right, Shift+Left, Shift+Right).
#[derive(Clone, Copy, PartialEq, Eq, Debug, Structural)]
pub struct EditKeys {
    pub cut: bool,
    pub copy: bool,
    pub paste: bool,
    pub duplicate: bool,
    pub split: bool,
    pub delete: bool,
    pub nudge_left: bool,
    pub nudge_right: bool,
    pub jump_start: bool,
    pub jump_end: bool,
}

/// The edit a frame's keys ask for.
#[derive(Clone, Copy, PartialEq, Eq, Debug, Structural)]
pub enum EditAction {
    Nothing,
    /// Paste the clipboard at the last clicked spot.
    Paste,
    /// Remove every selected track.
    RemoveTracks,
    /// Duplicate every selected track.
    DuplicateTracks,
    /// With no clip selected: move the playhead one nudge step.
    NudgePlayhead { left: bool },
    /// With no clip selected: move the playhead to the timeline's start.
    SeekStart,
    /// With no clip selected: move the playhead to where the content ends.
    SeekEnd,
    CutClips,
    DeleteClips,
    CopyClips,
    DuplicateClips,
    /// Split every selected clip at the playhead.
    SplitClips,
    /// Move every selected clip one nudge step.
    NudgeClips { left: bool },
}

/// The edit `keys` ask for: paste first; then removing or duplicating the
/// selected tracks when any are selected; then, with no clip selected, the
/// playhead moves (a nudge before a jump to the start before a jump to the
/// end); otherwise cut, delete, copy, duplicate, split and nudge of the
/// selected clips, in that order. Left wins when both nudge keys are down.
pub open spec fn edit_action_for(keys: EditKeys, tracks_selected: bool, clips_selected: bool) -> EditAction {
    if keys.paste {
        EditAction::Paste
    } else if keys.delete && tracks_selected {
        EditAction::RemoveTracks
    } else if keys.duplicate && tracks_selected {
        EditAction::DuplicateTracks
    } else if !clips_selected {
        if keys.nudge_left || keys.nudge_right {
            EditAction::NudgePlayhead { left: keys.nudge_left }
        } else if keys.jump_start {
            EditAction::SeekStart
        } else if keys.jump_end {
            EditAction::SeekEnd
        } else {
            EditAction::Nothing
        }
    } else if keys.cut {
        EditAction::CutClips
    } else if keys.delete {
        EditAction::DeleteClips
    } else if keys.copy {
        EditAction::CopyClips
    } else if keys.duplicate {
        EditAction::DuplicateClips
    } else if keys.split {
        EditAction::SplitClips
    } else if keys.nudge_left || keys.nudge_right {
        EditAction::NudgeClips { left: keys.nudge_left }
    } else {
        EditAction::Nothing
    }
}

/// The edit this frame's keys ask for (see `edit_action_for`).
pub fn edit_action(keys: EditKeys, tracks_selected: bool, clips_selected: bool) -> (a: EditAction)
    ensures
        a == edit_action_for(keys, tracks_selected, clips_selected),
{
    if keys.paste {
        EditAction::Paste
    } else if keys.delete && tracks_selected {
        EditAction::RemoveTracks
    } else if keys.duplicate && tracks_selected {
        EditAction::DuplicateTracks
    } else if !clips_selected {
        if keys.nudge_left || keys.nudge_right {
            EditAction::NudgePlayhead { left: keys.nudge_left }
        } else if keys.jump_start {
            EditAction::SeekStart
        } else if keys.jump_end {
            EditAction::SeekEnd
        } else {
            EditAction::Nothing
        }
    } else if keys.cut {
        EditAction::CutClips
    } else if keys.delete {
        EditAction::DeleteClips
    } else if keys.copy {
        EditAction::CopyClips
    } else if keys.duplicate {
        EditAction::DuplicateClips
    } else if keys.split {
        EditAction::SplitClips
    } else if keys.nudge_left || keys.nudge_right {
        EditAction::NudgeClips { left: keys.nudge_left }
    } else {
        EditAction::Nothing
    }
}

/// Where a paste lands: the last clicked track and sample, or else the
/// start of the first track; nowhere when there is neither.
pub fn paste_target(last_click: Option<(TrackId, u64)>, first_track: Option<TrackId>) -> (r: Option<(TrackId, u64)>)
    ensures
        r == (match last_click {
            Some(c) => Some(c),
            None => match first_track {
                Some(t) => Some((t, 0u64)),
                None => None,
            },
        }),
{
    match last_click {
        Some(c) => Some(c),
        None => match first_track {
            Some(t) => Some((t, 0)),
            None => None,
        },
    }
}

/// No key, no edit.
pub proof fn lemma_no_keys_no_edit(tracks_selected: bool, clips_selected: bool)
    ensures
        edit_action_for(
            EditKeys {
                cut: false,
                copy: false,
                paste: false,
                duplicate: false,
                split: false,
                delete: false,
                nudge_left: false,
                nudge_right: false,
                jump_start: false,
                jump_end: false,
            },
            tracks_selected,
            clips_selected,
        ) == EditAction::Nothing,
{
}

/// Each edit comes only from its own key: paste from the paste key; cut,
/// copy, delete, duplicate, split and nudge of clips from the key of that
/// name, and only with clips selected; removing or duplicating tracks from
/// the delete or duplicate key, and only with tracks selected; playhead
/// moves from the nudge and jump keys, and only with no clip selected. A
/// nudge goes left exactly when the left nudge key is down.
pub proof fn lemma_each_edit_needs_its_key(keys: EditKeys, tracks_selected: bool, clips_selected: bool)
    ensures
        ({
            let a = edit_action_for(keys, tracks_selected, clips_selected);
            &&& a == EditAction::Paste ==> keys.paste
            &&& a == EditAction::CutClips ==> keys.cut && clips_selected
            &&& a == EditAction::CopyClips ==> keys.copy && clips_selected
            &&& a == EditAction::DeleteClips ==> keys.delete && clips_selected
            &&& a == EditAction::DuplicateClips ==> keys.duplicate && clips_selected
            &&& a == EditAction::SplitClips ==> keys.split && clips_selected
            &&& a == EditAction::RemoveTracks ==> keys.delete && tracks_selected
            &&& a == EditAction::DuplicateTracks ==> keys.duplicate && tracks_selected
            &&& a == EditAction::SeekStart ==> keys.jump_start && !clips_selected
            &&& a == EditAction::SeekEnd ==> keys.jump_end && !clips_selected
            &&& a matches EditAction::NudgeClips { left } ==> clips_selected && (keys.nudge_left
                || keys.nudge_right) && (left <==> keys.nudge_left)
            &&& a matches EditAction::NudgePlayhead { left } ==> !clips_selected && (keys.nudge_left
                || keys.nudge_right) && (left <==> keys.nudge_left)
        }),
{
}

/// With clips selected and neither paste nor a track edit pending, the
/// clip keys act in the order cut, delete, copy, duplicate, split, nudge:
/// the first of them that is down picks the edit, so the copy key with no
/// cut or delete key copies the selected clips and leaves them in place.
pub proof fn lemma_clip_keys_act_on_selected_clips(keys: EditKeys, tracks_selected: bool)
    requires
        !keys.paste,
        !(tracks_selected && (keys.delete || keys.duplicate)),
    ensures
        ({
            let a = edit_action_for(keys, tracks_selected, true);
            &&& keys.cut ==> a == EditAction::CutClips
            &&& !keys.cut && keys.delete ==> a == EditAction::DeleteClips
            &&& !keys.cut && !keys.delete && keys.copy ==> a == EditAction::CopyClips
            &&& !keys.cut && !keys.delete && !keys.copy && keys.duplicate ==> a == EditAction::DuplicateClips
            &&& !keys.cut && !keys.delete && !keys.copy && !keys.duplicate && keys.split ==> a
                == EditAction::SplitClips
            &&& !keys.cut && !keys.delete && !keys.copy && !keys.duplicate && !keys.split && (keys.nudge_left
                || keys.nudge_right) ==> a == (EditAction::NudgeClips { left: keys.nudge_left })
        }),
{
}

} // verus!
