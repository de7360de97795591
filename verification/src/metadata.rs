//! Export tag metadata for a project: the fields of the "Export Project"
//! dialog, written into the exported files as tags and saved with the
//! project so they stay the same from one export to the next.
use vstd::prelude::*;
use vstd::string::StringExecFns;

verus! {

pub struct ProjectMetadata {
    /// Base name (no directory or extension) the export dialog's "Name:"
    /// field is prefilled with; empty means not set yet.
    pub export_file_name: String,
    pub artist_name: String,
    /// Empty means not set yet.
    pub track_title: String,
    pub album_title: String,
    pub track_number: u32,
    pub year: u32,
    pub genre: String,
    pub comments: String,
    pub software: String,
}

impl ProjectMetadata {
    /// The defaults for a project made in calendar year `year` (the
    /// caller reads the clock): artist "Rakuel", track 1, that year
    /// (0 for a year before the common era), genre "Gangsta Rap", software
    /// "Rakunator", everything else empty.
    pub fn with_year(year: i32) -> (m: Self)
        ensures
            m.year == (if year < 0 { 0 } else { year as u32 }),
            m.export_file_name@ == Seq::<char>::empty(),
            m.artist_name@ == "Rakuel"@,
            m.track_title@ == Seq::<char>::empty(),
            m.album_title@ == Seq::<char>::empty(),
            m.track_number == 1,
            m.genre@ == "Gangsta Rap"@,
            m.comments@ == Seq::<char>::empty(),
            m.software@ == "Rakunator"@,
    {
        ProjectMetadata {
            export_file_name: String::new(),
            artist_name: String::from_str("Rakuel"),
            track_title: String::new(),
            album_title: String::new(),
            track_number: 1,
            year: if year < 0 { 0 } else { year as u32 },
            genre: String::from_str("Gangsta Rap"),
            comments: String::new(),
            software: String::from_str("Rakunator"),
        }
    }
}

impl Clone for ProjectMetadata {
    fn clone(&self) -> (m: Self)
        ensures
            m.export_file_name@ == self.export_file_name@,
            m.artist_name@ == self.artist_name@,
            m.track_title@ == self.track_title@,
            m.album_title@ == self.album_title@,
            m.track_number == self.track_number,
            m.year == self.year,
            m.genre@ == self.genre@,
            m.comments@ == self.comments@,
            m.software@ == self.software@,
    {
        ProjectMetadata {
            export_file_name: self.export_file_name.clone(),
            artist_name: self.artist_name.clone(),
            track_title: self.track_title.clone(),
            album_title: self.album_title.clone(),
            track_number: self.track_number,
            year: self.year,
            genre: self.genre.clone(),
            comments: self.comments.clone(),
            software: self.software.clone(),
        }
    }
}

/// The fields written into an exported MP3 file's ID3 tag. A text field
/// is `None` when the project leaves it empty, and is then not written.
pub struct Mp3Tags {
    pub artist: Option<String>,
    pub title: Option<String>,
    pub album: Option<String>,
    pub track: u32,
    pub year: i32,
    pub genre: Option<String>,
    /// Written as the `TSSE` (encoding software) frame.
    pub software: Option<String>,
    /// Written as an English comment frame with no description.
    pub comments: Option<String>,
}

/// `field` holds `text` when it is not empty, and nothing otherwise.
pub open spec fn tag_text(field: Option<String>, text: Seq<char>) -> bool {
    match field {
        Some(t) => text.len() > 0 && t@ == text,
        None => text.len() == 0,
    }
}

fn non_empty(s: &String) -> (r: Option<String>)
    ensures
        tag_text(r, s@),
{
    if s.as_str().is_empty() {
        None
    } else {
        Some(s.clone())
    }
}

/// What an MP3 export tags the file with: artist, title, album, genre,
/// software and comments where they are not empty, and always the track
/// number and the year (as a signed year; one beyond `i32::MAX` wraps).
pub fn mp3_tags(m: &ProjectMetadata) -> (t: Mp3Tags)
    ensures
        tag_text(t.artist, m.artist_name@),
        tag_text(t.title, m.track_title@),
        tag_text(t.album, m.album_title@),
        tag_text(t.genre, m.genre@),
        tag_text(t.software, m.software@),
        tag_text(t.comments, m.comments@),
        t.track == m.track_number,
        t.year == m.year as i32,
{
    Mp3Tags {
        artist: non_empty(&m.artist_name),
        title: non_empty(&m.track_title),
        album: non_empty(&m.album_title),
        track: m.track_number,
        year: m.year as i32,
        genre: non_empty(&m.genre),
        software: non_empty(&m.software),
        comments: non_empty(&m.comments),
    }
}

} // verus!
