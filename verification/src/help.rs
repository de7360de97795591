//! The Help window's content: every shortcut, mouse interaction and
//! effect, grouped by topic, and how a search query picks what is shown.
use vstd::prelude::*;
use vstd::string::StrSliceExecFns;
use crate::export::{trimmed, trim_chars};

verus! {

/// One topic of the Help window: a title and its (action, description)
/// rows.
pub struct HelpSection {
    pub title: &'static str,
    pub rows: Vec<(&'static str, &'static str)>,
}

/// A section as text: its title and its rows.
pub open spec fn section_text(s: HelpSection) -> (Seq<char>, Seq<(Seq<char>, Seq<char>)>) {
    (s.title@, s.rows@.map_values(|r: (&'static str, &'static str)| (r.0@, r.1@)))
}

/// All Help content, as text.
pub open spec fn help_text() -> Seq<(Seq<char>, Seq<(Seq<char>, Seq<char>)>)> {
    seq![
        ("Playback"@, seq![
            ("Space"@, "Play/Pause — pausing jumps back to where playback started"@),
            ("F11"@, "Toggle fullscreen"@),
            ("Ctrl+M"@, "Toggle maximize/restore the window"@),
            ("Ctrl+Escape"@, "Quit the application"@),
            ("Click the ruler / a track lane"@, "Seek the playhead there — snaps to a nearby clip edge if one's close (yellow flash), Audacity-style"@),
            ("Zoom In / Zoom Out (toolbar)"@, "Zoom the timeline"@),
            ("Ctrl+Scroll / Alt+Scroll on the timeline"@, "Zoom in/out (if one is grabbed by your window manager or remote-desktop client, try the other, or use the buttons)"@),
            ("Shift+Scroll on the ruler"@, "Pan horizontally"@),
            ("Horizontal scroll (trackpad swipe / tilt-wheel) on the ruler or a track"@, "Pan horizontally, no modifier needed"@),
            ("Shift+Scroll on a track"@, "Zoom that track's waveform vertically, to see quiet detail (visual only)"@),
            ("Scroll over the Pan / Vol slider"@, "Nudge it by one step (5% / 0.05)"@),
            ("Bottom scrollbar"@, "Click/drag to scroll through the song"@),
        ]),
        ("Recording"@, seq![
            ("\u{25cf} (toolbar, next to Play) / \"R\""@, "Capture the default microphone from wherever the playhead is, landing on the selected track, the track the current clip selection is on, the track last clicked, or (with none of those) an empty last track — otherwise a new track; click it again, or press R or Space, to stop (hover it to see elapsed time)"@),
            ("While recording"@, "Playback runs so you can hear/see existing tracks as you record; the capture grows live on its own track's lane, turning amber then red if it hits full scale, and the timeline follows it as it grows; the rest of the UI is locked until you stop"@),
            ("Stopping a recording"@, "Playback stops and the playhead returns to where the recording started"@),
        ]),
        ("Selecting clips & tracks"@, seq![
            ("Click the top half of a clip"@, "Select just that clip"@),
            ("Click the bottom half of a clip"@, "Move the playhead there, like clicking the lane behind it"@),
            ("Shift+Click a clip"@, "Add/remove that clip from the selection"@),
            ("Shift+Drag empty timeline space"@, "Marquee-select every clip the box touches"@),
            ("Click a track's empty header area"@, "Select the whole track"@),
            ("Shift+Click a track header"@, "Add/remove that track from the selection"@),
            ("Shift+Left / Shift+Right"@, "Jump the selected clip(s) to the very start / right after the last clip, or move the playhead there if nothing's selected"@),
        ]),
        ("Editing clips"@, seq![
            ("Drag a clip"@, "Move it in time (drop on another track to move it there)"@),
            ("Ctrl+Drag a clip"@, "Duplicate it instead of moving it"@),
            ("Drag a clip's left/right edge"@, "Trim it smaller — drag back out to recover trimmed audio"@),
            ("Left / Right arrows"@, "Nudge the selected clip(s) in time by a small step, or move the playhead if nothing's selected"@),
            ("\"S\""@, "Split the selected clip(s) at the playhead"@),
            ("\"I\" while hovering a clip"@, "Split that clip at the playhead (even if it isn't selected)"@),
            ("Ctrl+J"@, "Join the selected clips (on the same track) into one"@),
            ("Ctrl+X / Ctrl+C / Ctrl+V"@, "Cut / Copy / Paste the selected clip(s)"@),
            ("Delete / Backspace"@, "Delete the selected track(s), or the selected clip(s) if no track is selected"@),
            ("Ctrl+D (with clip(s) selected)"@, "Duplicate the selected clip(s) in place"@),
            ("Right-click a clip"@, "Cut/Copy/Duplicate/Split/\"Duplicate to track\" menu"@),
            ("Ctrl+Z / Ctrl+Shift+Z"@, "Undo / Redo"@),
        ]),
        ("Fade & mute"@, seq![
            ("Ctrl+F / Ctrl+Shift+F"@, "Fade in/out the selected track(s) or clip(s)"@),
            ("Ctrl+L"@, "Mute the selected track(s) or clip(s)"@),
            ("Adjustable Fade In/Out"@, "Fade between two configurable dB points (Edit steps...) instead of the fixed silence\u{2194}full fades above"@),
            ("Fade Toggle"@, "For each selected track, alternates Adjustable Fade In/Out across its clips in timeline order"@),
        ]),
        ("Effects — pitch, tempo & volume"@, seq![
            ("Pitch Up/Down"@, "\"Tape speed\" resample — changes pitch and duration together"@),
            ("Volume Up/Down"@, "Adjust gain by a configurable step (in dB)"@),
            ("Tempo Up/Down"@, "WSOLA time-stretch by a configurable percent (Audacity's \"Change Tempo\" convention) — changes duration only, pitch is untouched"@),
            ("Sliding Stretch"@, "Ramps tempo % and pitch (semitones) independently from an initial value (clip start) to a final value (clip end); each knob is fully configurable in Edit steps..."@),
            ("Ctrl+R"@, "Repeat the last-used pitch/volume/tempo effect (not fade — it has its own shortcut)"@),
        ]),
        ("Effects — EQ & tone"@, seq![
            ("Give to Speech"@, "Cuts -4 dB across roughly 2 kHz-5 kHz to tame harshness in that presence range"@),
            ("Telephone"@, "Bandpass EQ approximating classic telephone bandwidth (~300 Hz-3400 Hz), matching Audacity's \"Telephone\" Equalization preset"@),
        ]),
        ("Effects — dynamics, space & character"@, seq![
            ("Reverb"@, "Freeverb-style reverb with the same controls as Audacity's Reverb (Room Size, Reverberance, HF Damping, Tone Low/High, Wet/Dry Gain, Stereo Width, Pre-Delay, Wet Only), all configurable in Edit steps..."@),
            ("Echo"@, "Audacity-style recursive echo: output[n] = input[n] + decay \u{d7} output[n - delay]; Delay (seconds) and Decay (0.0-2.0, a decay \u{2265}1.0 builds up rather than fading) are configurable in Edit steps..."@),
            ("Distortion (Hard Clip)"@, "Boosts by a configurable Drive (dB) then hard-clips anything beyond a configurable threshold"@),
            ("Autotune"@, "Runs a full mastering chain in one click: blind noise reduction, an EQ filter curve, normalize, compressor, limiter, then reverb — approximates a specific Audacity effect-chain export using standard equivalents for each stage (not a byte-exact copy)"@),
            ("Rattle"@, "Builds pitch/tempo-shifted \"up\" and \"down\" copies of the clip, repeats the pair back-to-back (Repeat Count) into one clip placed right after the original, then applies its own Adjustable Fade In and its own Sliding Stretch — all values configurable in Edit steps..., separate from those effects' regular settings"@),
            ("Trip Toggler"@, "Finds clear quiet \"low points\" in the clip (a smoothed loudness envelope, peaks filtered by prominence and minimum spacing) and alternates a fade down and a fade up across the resulting segments — after a Python waveform-editing script, applied to the selection instead of whole files; every detection and fade value (High/Low dB points, Basic/Super detection mode, detail, Gradual/Instant shift mode, and the Instant-mode step/fade values) is configurable in Edit steps..., and it starts High or Low per the same setting, alternating across multiple targeted clips the way that script alternated across files"@),
        ]),
        ("Effects — utility"@, seq![
            ("Invert"@, "Multiplies every sample by -1 (phase invert)"@),
            ("Reverse"@, "Reverses the clip's audio in time"@),
            ("Swap Channels"@, "Swaps left/right on a stereo clip; no effect on mono clips"@),
            ("Pan Toggle"@, "Splits a stereo clip's left/right channels apart, ramps one side from a configurable Low dB up to a High dB (fading in) and the other from High down to Low (fading out) across the clip, then recombines them; which side fades in is a configurable direction (Left/Right), and the dB points are its own values in Edit steps... (default +6/-4). No effect on mono clips."@),
        ]),
        ("Effects — general"@, seq![
            ("\"Edit steps...\""@, "Every effect's adjustable values live in one dialog, grouped by effect"@),
            ("Effects apply to"@, "Every clip on the selected track(s) if any are selected, otherwise the clip selection"@),
        ]),
        ("Tracks"@, seq![
            ("Add Track (toolbar) / Ctrl+N"@, "Add a new empty track"@),
            ("Track \"...\" menu"@, "Move up/down/top/bottom/by N, duplicate, reset pan & volume, delete"@),
            ("Ctrl+D (with track(s) selected)"@, "Duplicate the selected track(s) — each copy lands directly below its original"@),
            ("Pan slider"@, "5% steps — left/right balance on stereo tracks, equal-power pan on mono tracks"@),
            ("Mute (M) / Solo (S)"@, "Standard mixing controls — soloing any track mutes all non-soloed ones"@),
            ("Stereo tracks"@, "Show the left channel's waveform on top and the right channel's below it, in the same clip"@),
            ("Track \"...\" menu \u{2192} Split to mono"@, "Splits a stereo track into two new mono tracks (L / R)"@),
            ("Track \"...\" menu \u{2192} Merge with track below"@, "Combines this mono track with the mono track below it into one stereo track"@),
            ("Amber hazard stripe on a lane"@, "Two or more clips overlap in time there (e.g. after recording landed on top of existing material)"@),
        ]),
        ("Files"@, seq![
            ("Create Wave... (toolbar)"@, "Generate a sine/square/triangle/sawtooth clip, or import an audio file"@),
            ("Drag a .wav file onto the window"@, "Import it as a new track (stereo files import as a stereo track)"@),
            ("Project File... (toolbar)"@, "Save/Load a .raku project file, with a native file picker"@),
            ("Ctrl+S"@, "Save straight to the project's current file (or the default path, if it's never been saved)"@),
            ("Export Project... (toolbar)"@, "Render the full mixdown to .wav/.mp3 under a name you choose"@),
        ]),
    ]
}

/// All Help content, as plain data, in display order.
pub fn help_sections() -> (v: Vec<HelpSection>)
    ensures
        v@.map_values(|s: HelpSection| section_text(s)) == help_text(),
{
    let v = vec![
        HelpSection {
            title: "Playback",
            rows: vec![
                ("Space", "Play/Pause — pausing jumps back to where playback started"),
                ("F11", "Toggle fullscreen"),
                ("Ctrl+M", "Toggle maximize/restore the window"),
                ("Ctrl+Escape", "Quit the application"),
                ("Click the ruler / a track lane", "Seek the playhead there — snaps to a nearby clip edge if one's close (yellow flash), Audacity-style"),
                ("Zoom In / Zoom Out (toolbar)", "Zoom the timeline"),
                ("Ctrl+Scroll / Alt+Scroll on the timeline", "Zoom in/out (if one is grabbed by your window manager or remote-desktop client, try the other, or use the buttons)"),
                ("Shift+Scroll on the ruler", "Pan horizontally"),
                ("Horizontal scroll (trackpad swipe / tilt-wheel) on the ruler or a track", "Pan horizontally, no modifier needed"),
                ("Shift+Scroll on a track", "Zoom that track's waveform vertically, to see quiet detail (visual only)"),
                ("Scroll over the Pan / Vol slider", "Nudge it by one step (5% / 0.05)"),
                ("Bottom scrollbar", "Click/drag to scroll through the song"),
            ],
        },
        HelpSection {
            title: "Recording",
            rows: vec![
                ("\u{25cf} (toolbar, next to Play) / \"R\"", "Capture the default microphone from wherever the playhead is, landing on the selected track, the track the current clip selection is on, the track last clicked, or (with none of those) an empty last track — otherwise a new track; click it again, or press R or Space, to stop (hover it to see elapsed time)"),
                ("While recording", "Playback runs so you can hear/see existing tracks as you record; the capture grows live on its own track's lane, turning amber then red if it hits full scale, and the timeline follows it as it grows; the rest of the UI is locked until you stop"),
                ("Stopping a recording", "Playback stops and the playhead returns to where the recording started"),
            ],
        },
        HelpSection {
            title: "Selecting clips & tracks",
            rows: vec![
                ("Click the top half of a clip", "Select just that clip"),
                ("Click the bottom half of a clip", "Move the playhead there, like clicking the lane behind it"),
                ("Shift+Click a clip", "Add/remove that clip from the selection"),
                ("Shift+Drag empty timeline space", "Marquee-select every clip the box touches"),
                ("Click a track's empty header area", "Select the whole track"),
                ("Shift+Click a track header", "Add/remove that track from the selection"),
                ("Shift+Left / Shift+Right", "Jump the selected clip(s) to the very start / right after the last clip, or move the playhead there if nothing's selected"),
            ],
        },
        HelpSection {
            title: "Editing clips",
            rows: vec![
                ("Drag a clip", "Move it in time (drop on another track to move it there)"),
                ("Ctrl+Drag a clip", "Duplicate it instead of moving it"),
                ("Drag a clip's left/right edge", "Trim it smaller — drag back out to recover trimmed audio"),
                ("Left / Right arrows", "Nudge the selected clip(s) in time by a small step, or move the playhead if nothing's selected"),
                ("\"S\"", "Split the selected clip(s) at the playhead"),
                ("\"I\" while hovering a clip", "Split that clip at the playhead (even if it isn't selected)"),
                ("Ctrl+J", "Join the selected clips (on the same track) into one"),
                ("Ctrl+X / Ctrl+C / Ctrl+V", "Cut / Copy / Paste the selected clip(s)"),
                ("Delete / Backspace", "Delete the selected track(s), or the selected clip(s) if no track is selected"),
                ("Ctrl+D (with clip(s) selected)", "Duplicate the selected clip(s) in place"),
                ("Right-click a clip", "Cut/Copy/Duplicate/Split/\"Duplicate to track\" menu"),
                ("Ctrl+Z / Ctrl+Shift+Z", "Undo / Redo"),
            ],
        },
        HelpSection {
            title: "Fade & mute",
            rows: vec![
                ("Ctrl+F / Ctrl+Shift+F", "Fade in/out the selected track(s) or clip(s)"),
                ("Ctrl+L", "Mute the selected track(s) or clip(s)"),
                ("Adjustable Fade In/Out", "Fade between two configurable dB points (Edit steps...) instead of the fixed silence\u{2194}full fades above"),
                ("Fade Toggle", "For each selected track, alternates Adjustable Fade In/Out across its clips in timeline order"),
            ],
        },
        HelpSection {
            title: "Effects — pitch, tempo & volume",
            rows: vec![
                ("Pitch Up/Down", "\"Tape speed\" resample — changes pitch and duration together"),
                ("Volume Up/Down", "Adjust gain by a configurable step (in dB)"),
                ("Tempo Up/Down", "WSOLA time-stretch by a configurable percent (Audacity's \"Change Tempo\" convention) — changes duration only, pitch is untouched"),
                ("Sliding Stretch", "Ramps tempo % and pitch (semitones) independently from an initial value (clip start) to a final value (clip end); each knob is fully configurable in Edit steps..."),
                ("Ctrl+R", "Repeat the last-used pitch/volume/tempo effect (not fade — it has its own shortcut)"),
            ],
        },
        HelpSection {
            title: "Effects — EQ & tone",
            rows: vec![
                ("Give to Speech", "Cuts -4 dB across roughly 2 kHz-5 kHz to tame harshness in that presence range"),
                ("Telephone", "Bandpass EQ approximating classic telephone bandwidth (~300 Hz-3400 Hz), matching Audacity's \"Telephone\" Equalization preset"),
            ],
        },
        HelpSection {
            title: "Effects — dynamics, space & character",
            rows: vec![
                ("Reverb", "Freeverb-style reverb with the same controls as Audacity's Reverb (Room Size, Reverberance, HF Damping, Tone Low/High, Wet/Dry Gain, Stereo Width, Pre-Delay, Wet Only), all configurable in Edit steps..."),
                ("Echo", "Audacity-style recursive echo: output[n] = input[n] + decay \u{d7} output[n - delay]; Delay (seconds) and Decay (0.0-2.0, a decay \u{2265}1.0 builds up rather than fading) are configurable in Edit steps..."),
                ("Distortion (Hard Clip)", "Boosts by a configurable Drive (dB) then hard-clips anything beyond a configurable threshold"),
                ("Autotune", "Runs a full mastering chain in one click: blind noise reduction, an EQ filter curve, normalize, compressor, limiter, then reverb — approximates a specific Audacity effect-chain export using standard equivalents for each stage (not a byte-exact copy)"),
                ("Rattle", "Builds pitch/tempo-shifted \"up\" and \"down\" copies of the clip, repeats the pair back-to-back (Repeat Count) into one clip placed right after the original, then applies its own Adjustable Fade In and its own Sliding Stretch — all values configurable in Edit steps..., separate from those effects' regular settings"),
                ("Trip Toggler", "Finds clear quiet \"low points\" in the clip (a smoothed loudness envelope, peaks filtered by prominence and minimum spacing) and alternates a fade down and a fade up across the resulting segments — after a Python waveform-editing script, applied to the selection instead of whole files; every detection and fade value (High/Low dB points, Basic/Super detection mode, detail, Gradual/Instant shift mode, and the Instant-mode step/fade values) is configurable in Edit steps..., and it starts High or Low per the same setting, alternating across multiple targeted clips the way that script alternated across files"),
            ],
        },
        HelpSection {
            title: "Effects — utility",
            rows: vec![
                ("Invert", "Multiplies every sample by -1 (phase invert)"),
                ("Reverse", "Reverses the clip's audio in time"),
                ("Swap Channels", "Swaps left/right on a stereo clip; no effect on mono clips"),
                ("Pan Toggle", "Splits a stereo clip's left/right channels apart, ramps one side from a configurable Low dB up to a High dB (fading in) and the other from High down to Low (fading out) across the clip, then recombines them; which side fades in is a configurable direction (Left/Right), and the dB points are its own values in Edit steps... (default +6/-4). No effect on mono clips."),
            ],
        },
        HelpSection {
            title: "Effects — general",
            rows: vec![
                ("\"Edit steps...\"", "Every effect's adjustable values live in one dialog, grouped by effect"),
                ("Effects apply to", "Every clip on the selected track(s) if any are selected, otherwise the clip selection"),
            ],
        },
        HelpSection {
            title: "Tracks",
            rows: vec![
                ("Add Track (toolbar) / Ctrl+N", "Add a new empty track"),
                ("Track \"...\" menu", "Move up/down/top/bottom/by N, duplicate, reset pan & volume, delete"),
                ("Ctrl+D (with track(s) selected)", "Duplicate the selected track(s) — each copy lands directly below its original"),
                ("Pan slider", "5% steps — left/right balance on stereo tracks, equal-power pan on mono tracks"),
                ("Mute (M) / Solo (S)", "Standard mixing controls — soloing any track mutes all non-soloed ones"),
                ("Stereo tracks", "Show the left channel's waveform on top and the right channel's below it, in the same clip"),
                ("Track \"...\" menu \u{2192} Split to mono", "Splits a stereo track into two new mono tracks (L / R)"),
                ("Track \"...\" menu \u{2192} Merge with track below", "Combines this mono track with the mono track below it into one stereo track"),
                ("Amber hazard stripe on a lane", "Two or more clips overlap in time there (e.g. after recording landed on top of existing material)"),
            ],
        },
        HelpSection {
            title: "Files",
            rows: vec![
                ("Create Wave... (toolbar)", "Generate a sine/square/triangle/sawtooth clip, or import an audio file"),
                ("Drag a .wav file onto the window", "Import it as a new track (stereo files import as a stereo track)"),
                ("Project File... (toolbar)", "Save/Load a .raku project file, with a native file picker"),
                ("Ctrl+S", "Save straight to the project's current file (or the default path, if it's never been saved)"),
                ("Export Project... (toolbar)", "Render the full mixdown to .wav/.mp3 under a name you choose"),
            ],
        },
    ];
    assert(v@.map_values(|s: HelpSection| section_text(s)) =~~= help_text());
    v
}


/// The lowercase form of `s` under Unicode's case mapping (mostly one
/// character at a time; a capital sigma at the end of a word becomes the
/// final form).
pub uninterp spec fn lowercase(s: Seq<char>) -> Seq<char>;

/// `str::to_lowercase`: the lowercase form of `s` under Unicode's
/// (locale-independent) case mapping. The mapping itself is not restated;
/// its result is named `lowercase`.
#[verifier::external_body]
fn to_lowercase(s: &str) -> (r: String)
    ensures
        r@ == lowercase(s@),
{
    s.to_lowercase()
}

/// `needle` occurs in `hay` as a run of consecutive characters (the empty
/// text occurs everywhere).
pub open spec fn has_substring(hay: Seq<char>, needle: Seq<char>) -> bool {
    exists|i: int| 0 <= i <= hay.len() - needle.len() && #[trigger] hay.subrange(i, i + needle.len()) == needle
}

/// Whether `needle` occurs in `hay`.
pub fn contains_text(hay: &str, needle: &str) -> (b: bool)
    ensures
        b == has_substring(hay@, needle@),
{
    let h = hay.unicode_len();
    let n = needle.unicode_len();
    if n > h {
        return false;
    }
    let mut i: usize = 0;
    while i <= h - n
        invariant
            h == hay@.len(),
            n == needle@.len(),
            n <= h,
            i <= h - n + 1,
            forall|j: int| 0 <= j < i ==> #[trigger] hay@.subrange(j, j + n) != needle@,
        decreases h - n + 1 - i,
    {
        let mut k: usize = 0;
        while k < n && hay.get_char(i + k) == needle.get_char(k)
            invariant
                h == hay@.len(),
                n == needle@.len(),
                i + n <= h,
                k <= n,
                forall|q: int| 0 <= q < k ==> hay@[i + q] == needle@[q],
            decreases n - k,
        {
            k += 1;
        }
        if k == n {
            assert(hay@.subrange(i as int, i + n) =~= needle@);
            return true;
        }
        assert(hay@.subrange(i as int, i + n)[k as int] != needle@[k as int]);
        i += 1;
    }
    false
}

/// Whether a search for `q` shows a row: always for an empty query,
/// otherwise when the query occurs in the section's title, the row's action
/// or its description.
pub open spec fn row_shown(q: Seq<char>, title: Seq<char>, action: Seq<char>, description: Seq<char>) -> bool {
    q.len() == 0 || has_substring(title, q) || has_substring(action, q) || has_substring(description, q)
}

/// The positions of the rows of `rows` a search for `q` shows, in order.
pub open spec fn shown_indices(q: Seq<char>, title: Seq<char>, rows: Seq<(Seq<char>, Seq<char>)>) -> Seq<usize>
    decreases rows.len(),
{
    if rows.len() == 0 {
        Seq::empty()
    } else {
        let r = shown_indices(q, title, rows.drop_last());
        if row_shown(q, title, rows.last().0, rows.last().1) {
            r.push((rows.len() - 1) as usize)
        } else {
            r
        }
    }
}

pub open spec fn string_pairs(rows: Seq<(String, String)>) -> Seq<(Seq<char>, Seq<char>)> {
    rows.map_values(|r: (String, String)| (r.0@, r.1@))
}

/// The rows (given by their text) a search for `q` shows, within a section
/// titled `title`.
pub fn shown_rows(q: &str, title: &str, rows: &Vec<(String, String)>) -> (r: Vec<usize>)
    ensures
        r@ == shown_indices(q@, title@, string_pairs(rows@)),
{
    let ghost rs = string_pairs(rows@);
    let empty = q.is_empty();
    let in_title = contains_text(title, q);
    let mut r: Vec<usize> = Vec::new();
    let mut k: usize = 0;
    while k < rows.len()
        invariant
            k <= rows@.len(),
            rs == string_pairs(rows@),
            empty == (q@.len() == 0),
            in_title == has_substring(title@, q@),
            r@ == shown_indices(q@, title@, rs.take(k as int)),
        decreases rows@.len() - k,
    {
        assert(rs.take(k + 1).drop_last() =~= rs.take(k as int));
        assert(rs.take(k + 1).last() == (rows@[k as int].0@, rows@[k as int].1@));
        let (action, description) = &rows[k];
        if empty || in_title || contains_text(action.as_str(), q) || contains_text(description.as_str(), q) {
            r.push(k);
        }
        k += 1;
    }
    assert(rs.take(k as int) =~= rs);
    r
}

/// Each (action, description) of `rows` in lowercase.
pub open spec fn lowered_rows(rows: Seq<(Seq<char>, Seq<char>)>) -> Seq<(Seq<char>, Seq<char>)> {
    rows.map_values(|r: (Seq<char>, Seq<char>)| (lowercase(r.0), lowercase(r.1)))
}

/// What a search for (the already trimmed and lowercased) `q` shows of
/// `sections`: for each section with at least one row shown, its position
/// and the positions of those rows, comparing in lowercase.
pub open spec fn search_results(q: Seq<char>, sections: Seq<(Seq<char>, Seq<(Seq<char>, Seq<char>)>)>) -> Seq<(usize, Seq<usize>)>
    decreases sections.len(),
{
    if sections.len() == 0 {
        Seq::empty()
    } else {
        let r = search_results(q, sections.drop_last());
        let s = sections.last();
        let shown = shown_indices(q, lowercase(s.0), lowered_rows(s.1));
        if shown.len() > 0 {
            r.push(((sections.len() - 1) as usize, shown))
        } else {
            r
        }
    }
}

pub open spec fn results_view(r: Seq<(usize, Vec<usize>)>) -> Seq<(usize, Seq<usize>)> {
    r.map_values(|p: (usize, Vec<usize>)| (p.0, p.1@))
}

/// What the Help window shows for the search box's `query`: the query is
/// trimmed and compared in lowercase; an empty query shows everything, a
/// query found in a section's title shows that whole section, and otherwise
/// a row shows when the query occurs in its action or description. Sections
/// with nothing to show are left out.
pub fn help_matches(sections: &Vec<HelpSection>, query: &str) -> (r: Vec<(usize, Vec<usize>)>)
    ensures
        results_view(r@) == search_results(lowercase(trimmed(query@)), sections@.map_values(|s: HelpSection| section_text(s))),
{
    let ghost secs = sections@.map_values(|s: HelpSection| section_text(s));
    let q = to_lowercase(trim_chars(query));
    let mut r: Vec<(usize, Vec<usize>)> = Vec::new();
    let mut i: usize = 0;
    while i < sections.len()
        invariant
            i <= sections@.len(),
            secs == sections@.map_values(|s: HelpSection| section_text(s)),
            q@ == lowercase(trimmed(query@)),
            results_view(r@) == search_results(q@, secs.take(i as int)),
        decreases sections@.len() - i,
    {
        let sec = &sections[i];
        let ghost st = section_text(*sec);
        assert(secs.take(i + 1).drop_last() =~= secs.take(i as int));
        assert(secs.take(i + 1).last() == st);
        let title = to_lowercase(sec.title);
        let mut rows: Vec<(String, String)> = Vec::new();
        let mut k: usize = 0;
        while k < sec.rows.len()
            invariant
                k <= sec.rows@.len(),
                st == section_text(*sec),
                rows@.len() == k,
                forall|j: int|
                    0 <= j < k ==> (#[trigger] rows@[j]).0@ == lowercase(st.1[j].0) && rows@[j].1@ == lowercase(st.1[j].1),
            decreases sec.rows@.len() - k,
        {
            let (action, description) = sec.rows[k];
            assert(st.1[k as int] == (action@, description@));
            rows.push((to_lowercase(action), to_lowercase(description)));
            k += 1;
        }
        assert(string_pairs(rows@) =~= lowered_rows(st.1));
        let shown = shown_rows(q.as_str(), title.as_str(), &rows);
        if shown.len() > 0 {
            r.push((i, shown));
        }
        assert(results_view(r@) =~= search_results(q@, secs.take(i + 1)));
        i += 1;
    }
    assert(secs.take(i as int) =~= secs);
    r
}

} // verus!
