//! The state of the "Export Project" dialog: its fields, how they are
//! filled in from a project's saved metadata, and the confirm-overwrite
//! step between pressing "Export" and the export itself.
use vstd::prelude::*;
use vstd::string::StringExecFns;
use crate::metadata::ProjectMetadata;

verus! {

pub struct ExportDialogState {
    pub open: bool,
    pub file_name: String,
    pub artist_name: String,
    /// Prefilled from the project's current file name when the dialog
    /// opens and no title has been set yet.
    pub track_title: String,
    pub album_title: String,
    pub track_number: u32,
    pub year: u32,
    pub genre: String,
    pub comments: String,
    pub software: String,
    /// The export name waiting for the user to confirm overwriting files
    /// that already exist.
    pub confirm_overwrite: Option<String>,
    /// One-shot: give the "Export" button keyboard focus on the next frame.
    pub focus_export_button: bool,
    /// One-shot: give the "Overwrite" button keyboard focus on the next
    /// frame.
    pub focus_overwrite_button: bool,
}

/// `value` unless it is empty, in which case `fallback`.
pub open spec fn or_fallback(value: Seq<char>, fallback: Seq<char>) -> Seq<char> {
    if value.len() == 0 {
        fallback
    } else {
        value
    }
}

/// The string the dialog shows for `s` (used for an optional name).
pub open spec fn opt_view(s: Option<&str>) -> Option<Seq<char>> {
    match s {
        Some(x) => Some(x@),
        None => None,
    }
}

fn text_or(value: &String, fallback: &String) -> (s: String)
    ensures
        s@ == or_fallback(value@, fallback@),
{
    if value.as_str().is_empty() {
        fallback.clone()
    } else {
        value.clone()
    }
}

impl ExportDialogState {
    /// Closed, named "Untitled Project", with the default tags of a project
    /// made in calendar year `year` (see `ProjectMetadata::with_year`).
    pub fn with_year(year: i32) -> (d: Self)
        ensures
            !d.open,
            d.year == (if year < 0 { 0 } else { year as u32 }),
            d.file_name@ == "Untitled Project"@,
            d.artist_name@ == "Rakuel"@,
            d.track_title@ == Seq::<char>::empty(),
            d.album_title@ == Seq::<char>::empty(),
            d.track_number == 1,
            d.genre@ == "Gangsta Rap"@,
            d.comments@ == Seq::<char>::empty(),
            d.software@ == "Rakunator"@,
            d.confirm_overwrite.is_none(),
            !d.focus_export_button,
            !d.focus_overwrite_button,
    {
        let metadata = ProjectMetadata::with_year(year);
        ExportDialogState {
            open: false,
            file_name: String::from_str("Untitled Project"),
            artist_name: metadata.artist_name,
            track_title: metadata.track_title,
            album_title: metadata.album_title,
            track_number: metadata.track_number,
            year: metadata.year,
            genre: metadata.genre,
            comments: metadata.comments,
            software: metadata.software,
            confirm_overwrite: None,
            focus_export_button: false,
            focus_overwrite_button: false,
        }
    }
}

impl ExportDialogState {
    /// Fills the dialog from a project's saved `metadata`. The export name
    /// and the track and album titles fall back to `project_name` (or, with
    /// no project name, to the export name the dialog already shows) while
    /// they are still unset; every other tag is copied as it is.
    pub fn open_for_project(&mut self, project_name: Option<&str>, metadata: &ProjectMetadata)
        ensures
            ({
                let fallback = match opt_view(project_name) {
                    Some(n) => n,
                    None => old(self).file_name@,
                };
                &&& final(self).file_name@ == or_fallback(metadata.export_file_name@, fallback)
                &&& final(self).artist_name@ == metadata.artist_name@
                &&& final(self).track_title@ == or_fallback(metadata.track_title@, fallback)
                &&& final(self).album_title@ == or_fallback(metadata.album_title@, fallback)
            }),
            final(self).track_number == metadata.track_number,
            final(self).year == metadata.year,
            final(self).genre@ == metadata.genre@,
            final(self).comments@ == metadata.comments@,
            final(self).software@ == metadata.software@,
            final(self).open == old(self).open,
            final(self).confirm_overwrite == old(self).confirm_overwrite,
            final(self).focus_export_button == old(self).focus_export_button,
            final(self).focus_overwrite_button == old(self).focus_overwrite_button,
    {
        let fallback = match project_name {
            Some(n) => String::from_str(n),
            None => self.file_name.clone(),
        };
        self.file_name = text_or(&metadata.export_file_name, &fallback);
        self.artist_name = metadata.artist_name.clone();
        self.track_title = text_or(&metadata.track_title, &fallback);
        self.album_title = text_or(&metadata.album_title, &fallback);
        self.track_number = metadata.track_number;
        self.year = metadata.year;
        self.genre = metadata.genre.clone();
        self.comments = metadata.comments.clone();
        self.software = metadata.software.clone();
    }

    /// Opens the dialog filled from the project (see `open_for_project`),
    /// with keyboard focus on the "Export" button.
    pub fn open_with(&mut self, project_name: Option<&str>, metadata: &ProjectMetadata)
        ensures
            final(self).open,
            final(self).focus_export_button,
            ({
                let fallback = match opt_view(project_name) {
                    Some(n) => n,
                    None => old(self).file_name@,
                };
                &&& final(self).file_name@ == or_fallback(metadata.export_file_name@, fallback)
                &&& final(self).track_title@ == or_fallback(metadata.track_title@, fallback)
                &&& final(self).album_title@ == or_fallback(metadata.album_title@, fallback)
            }),
            final(self).artist_name@ == metadata.artist_name@,
            final(self).track_number == metadata.track_number,
            final(self).year == metadata.year,
            final(self).genre@ == metadata.genre@,
            final(self).comments@ == metadata.comments@,
            final(self).software@ == metadata.software@,
            final(self).confirm_overwrite == old(self).confirm_overwrite,
            final(self).focus_overwrite_button == old(self).focus_overwrite_button,
    {
        self.open_for_project(project_name, metadata);
        self.open = true;
        self.focus_export_button = true;
    }

    /// The dialog's name and tag fields as project metadata (what is saved
    /// with the project right before exporting).
    pub fn to_metadata(&self) -> (m: ProjectMetadata)
        ensures
            m.export_file_name@ == self.file_name@,
            m.artist_name@ == self.artist_name@,
            m.track_title@ == self.track_title@,
            m.album_title@ == self.album_title@,
            m.track_number == self.track_number,
            m.year == self.year,
            m.genre@ == self.genre@,
            m.comments@ == self.comments@,
            m.software@ == self.software@,
    {
        ProjectMetadata {
            export_file_name: self.file_name.clone(),
            artist_name: self.artist_name.clone(),
            track_title: self.track_title.clone(),
            album_title: self.album_title.clone(),
            track_number: self.track_number,
            year: self.year,
            genre: self.genre.clone(),
            comments: self.comments.clone(),
            software: self.software.clone(),
        }
    }

    /// "Export" was pressed. When the target files already exist, the
    /// export name waits for confirmation (with focus on "Overwrite") and
    /// nothing is exported yet (`None`); otherwise the name to export under
    /// is returned.
    pub fn request_export(&mut self, target_exists: bool) -> (r: Option<String>)
        ensures
            if target_exists {
                &&& r.is_none()
                &&& final(self).confirm_overwrite matches Some(n) && n@ == old(self).file_name@
                &&& final(self).focus_overwrite_button
            } else {
                &&& r matches Some(n) && n@ == old(self).file_name@
                &&& final(self).confirm_overwrite == old(self).confirm_overwrite
                &&& final(self).focus_overwrite_button == old(self).focus_overwrite_button
            },
            final(self).open == old(self).open,
            final(self).file_name == old(self).file_name,
            final(self).focus_export_button == old(self).focus_export_button,
    {
        if target_exists {
            self.confirm_overwrite = Some(self.file_name.clone());
            self.focus_overwrite_button = true;
            None
        } else {
            Some(self.file_name.clone())
        }
    }

    /// The user answered the overwrite question: confirming hands back the
    /// waiting export name, cancelling drops it; either way nothing waits
    /// any more.
    pub fn resolve_overwrite(&mut self, overwrite: bool) -> (r: Option<String>)
        ensures
            final(self).confirm_overwrite.is_none(),
            r == (if overwrite { old(self).confirm_overwrite } else { None }),
            final(self).open == old(self).open,
            final(self).file_name == old(self).file_name,
    {
        let waiting = self.confirm_overwrite.take();
        if overwrite {
            waiting
        } else {
            None
        }
    }
}

} // verus!
