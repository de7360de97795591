//! The editable multi-track project: tracks of clips, the clip clipboard,
//! selection, and bounded undo/redo history.
//!
//! Audio samples are carried as raw 32-bit patterns (`u32`, the bit pattern
//! of an IEEE-754 `f32` sample); every operation in this module only moves,
//! copies, slices or zeroes them, so the editing model is exact. Sample
//! arithmetic (gain, fades, resampling, mixing) is done by the caller on
//! the buffers this module hands out, and handed back through
//! [`Project::replace_clip_samples`].
use vstd::prelude::*;
use vstd::string::StringExecFns;
use crate::text::{decimal, push_decimal};

verus! {

/// The bit pattern of a silent (`0.0`) sample.
pub const SILENCE: u32 = 0;

/// Undo history is capped so it can't grow without bound over a long
/// editing session.
pub const MAX_UNDO_HISTORY: usize = 50;

#[derive(Clone, Copy, PartialEq, Eq, Hash, Debug, Structural)]
pub struct ClipId(pub u32);

#[derive(Clone, Copy, PartialEq, Eq, Hash, Debug, Structural)]
pub struct TrackId(pub u32);

/// The mathematical content of a clip: a window (`offset`, `len`, both in
/// frames) of an interleaved `source` buffer, placed on the timeline at
/// `start`.
#[verifier::ext_equal]
pub struct ClipModel {
    pub id: ClipId,
    pub name: Seq<char>,
    pub start: u64,
    pub channels: u8,
    pub source: Seq<u32>,
    pub offset: u64,
    pub len: u64,
}

pub proof fn lemma_mul_le_of_le_div(a: int, c: int, n: int)
    requires
        c >= 1,
        0 <= a <= n / c,
        n >= 0,
    ensures
        a * c <= n,
        0 <= a * c,
{
    assert(a * c <= (n / c) * c) by (nonlinear_arith)
        requires
            0 <= a <= n / c,
            c >= 1,
    ;
    assert((n / c) * c <= n) by (nonlinear_arith)
        requires
            c >= 1,
            n >= 0,
    ;
    assert(0 <= a * c) by (nonlinear_arith)
        requires
            0 <= a,
            c >= 1,
    ;
}

impl ClipModel {
    pub open spec fn ch(self) -> int {
        self.channels as int
    }

    /// How many whole frames the source buffer holds.
    pub open spec fn source_frames(self) -> int {
        self.source.len() as int / self.ch()
    }

    pub open spec fn end(self) -> int {
        self.start + self.len
    }

    /// The window lies inside the source buffer.
    pub open spec fn in_source(self) -> bool {
        &&& self.channels >= 1
        &&& self.offset + self.len <= self.source_frames()
    }

    /// Where the clip would end if its right edge were dragged all the way
    /// out (trimming never changes this).
    pub open spec fn reach(self) -> int {
        self.start + self.source_frames() - self.offset
    }

    /// Well-formed: the window lies inside the source, and every position
    /// and size fits the signed 64-bit range the trim arithmetic uses.
    pub open spec fn wf(self) -> bool {
        &&& self.in_source()
        &&& self.reach() <= i64::MAX
        &&& self.source.len() <= i64::MAX
    }

    /// The audible (post-trim) samples, interleaved.
    pub open spec fn visible(self) -> Seq<u32> {
        self.source.subrange(self.offset * self.ch(), (self.offset + self.len) * self.ch())
    }

    /// Hidden audio available after the window (how far the right edge can
    /// be dragged back out).
    pub open spec fn hidden_after(self) -> int {
        self.source_frames() - self.offset - self.len
    }

    /// The clip's sample on `channel` at absolute frame `n`; the channel is
    /// clamped to the clip's last channel.
    pub open spec fn channel_sample(self, n: int, channel: int) -> Option<u32> {
        if n < self.start || n >= self.end() {
            None
        } else {
            let frame = self.offset + (n - self.start);
            let c = if channel < self.ch() - 1 { channel } else { self.ch() - 1 };
            let idx = frame * self.ch() + c;
            if 0 <= idx < self.source.len() {
                Some(self.source[idx])
            } else {
                None
            }
        }
    }

    /// A clip whose whole (untrimmed) audio is `samples`.
    pub open spec fn baked(id: ClipId, name: Seq<char>, start: u64, samples: Seq<u32>, channels: u8) -> ClipModel {
        let ch: u8 = if channels >= 1 { channels } else { 1 };
        ClipModel {
            id,
            name,
            start,
            channels: ch,
            source: samples,
            offset: 0,
            len: (samples.len() / (ch as nat)) as u64,
        }
    }

    /// The effect of dragging the left edge by `delta` frames.
    pub open spec fn trimmed_start(self, delta: int) -> ClipModel {
        let lo = -(if self.offset <= self.start { self.offset as int } else { self.start as int });
        let hi = self.len - 1;
        let d = if delta < lo { lo } else if delta > hi { hi } else { delta };
        ClipModel {
            offset: (self.offset + d) as u64,
            len: (self.len - d) as u64,
            start: (self.start + d) as u64,
            ..self
        }
    }

    /// The effect of dragging the right edge by `delta` frames.
    pub open spec fn trimmed_end(self, delta: int) -> ClipModel {
        let lo = -self.hidden_after();
        let hi = self.len - 1;
        let d = if delta < lo { lo } else if delta > hi { hi } else { delta };
        ClipModel { len: (self.len - d) as u64, ..self }
    }
}

pub proof fn lemma_visible_len(c: ClipModel)
    requires
        c.in_source(),
    ensures
        c.visible().len() == c.len * c.ch(),
        0 <= c.offset * c.ch() <= (c.offset + c.len) * c.ch() <= c.source.len(),
        c.offset + c.len <= (c.offset + c.len) * c.ch(),
        c.offset <= c.offset * c.ch(),
{
    assert(c.offset + c.len <= (c.offset + c.len) * c.ch()) by (nonlinear_arith)
        requires
            c.ch() >= 1,
            c.offset + c.len >= 0,
    ;
    assert(c.offset <= c.offset * c.ch()) by (nonlinear_arith)
        requires
            c.ch() >= 1,
            c.offset >= 0,
    ;
    lemma_mul_le_of_le_div(c.offset + c.len, c.ch(), c.source.len() as int);
    assert(c.offset * c.ch() <= (c.offset + c.len) * c.ch()) by (nonlinear_arith)
        requires
            c.ch() >= 1,
    ;
    assert((c.offset + c.len) * c.ch() - c.offset * c.ch() == c.len * c.ch()) by (nonlinear_arith);
    assert(0 <= c.offset * c.ch()) by (nonlinear_arith)
        requires
            c.ch() >= 1,
    ;
}

/// Where an absolute range starting at frame `from` starts on clip `o`,
/// counted from the clip's start (0 when it starts before the clip).
pub open spec fn local_lo(o: ClipModel, from: int) -> int {
    (if from > o.start { from } else { o.start as int }) - o.start
}

/// Where an absolute range ending at frame `to` (exclusive) ends on clip
/// `o`, counted from the clip's start: cut at the clip's end, and 0 when it
/// ends before the clip.
pub open spec fn local_hi(o: ClipModel, to: int) -> int {
    let hi_abs = if to < o.end() { to } else { o.end() };
    if hi_abs >= o.start { hi_abs - o.start } else { 0 }
}

/// A clip places a window of `source` audio on the timeline at
/// `start_sample`. The window (`source_offset`, `length_samples`) is
/// normally the whole buffer, but dragging a clip's edge narrows it
/// non-destructively: trimmed-away audio stays in `source` and can be
/// dragged back out, up to the original recording's bounds.
///
/// `source_offset`/`length_samples`/`start_sample` are frame counts (one
/// frame = one sample per channel); `source` is interleaved frame-major.
pub struct Clip {
    pub id: ClipId,
    pub name: String,
    pub start_sample: u64,
    channels: u8,
    source: Vec<u32>,
    source_offset: u64,
    length_samples: u64,
}

impl View for Clip {
    type V = ClipModel;

    closed spec fn view(&self) -> ClipModel {
        ClipModel {
            id: self.id,
            name: self.name@,
            start: self.start_sample,
            channels: self.channels,
            source: self.source@,
            offset: self.source_offset,
            len: self.length_samples,
        }
    }
}

impl Clip {
    /// Builds a mono clip whose entire (untrimmed) audio is `samples`.
    pub fn from_samples(id: ClipId, name: String, start_sample: u64, samples: Vec<u32>) -> (c: Self)
        ensures
            c@ == ClipModel::baked(id, name@, start_sample, samples@, 1),
    {
        Self::from_samples_channels(id, name, start_sample, samples, 1)
    }

    /// Builds a clip whose entire (untrimmed) audio is `samples`,
    /// interleaved across `channels` channels (0 is treated as 1).
    pub fn from_samples_channels(id: ClipId, name: String, start_sample: u64, samples: Vec<u32>, channels: u8) -> (c: Self)
        ensures
            c@ == ClipModel::baked(id, name@, start_sample, samples@, channels),
    {
        let channels = if channels >= 1 { channels } else { 1 };
        let length_samples = (samples.len() / channels as usize) as u64;
        Clip { id, name, start_sample, channels, source: samples, source_offset: 0, length_samples }
    }

    pub fn channels(&self) -> (c: u8)
        ensures
            c == self@.channels,
    {
        self.channels
    }

    pub fn len_samples(&self) -> (n: u64)
        ensures
            n == self@.len,
    {
        self.length_samples
    }

    pub fn end_sample(&self) -> (e: u64)
        requires
            self@.end() <= u64::MAX,
        ensures
            e == self@.end(),
    {
        self.start_sample + self.length_samples
    }

    /// The part of the absolute frame range `[from_sample, to_sample)` that
    /// falls on this clip, as frame offsets from the clip's start, or
    /// `None` when the range misses the clip.
    pub fn local_frame_range(&self, from_sample: u64, to_sample: u64) -> (r: Option<(u64, u64)>)
        requires
            self@.end() <= u64::MAX,
        ensures
            match r {
                Some((lo, hi)) => lo == local_lo(self@, from_sample as int) && hi == local_hi(self@, to_sample as int) && lo < hi,
                None => local_lo(self@, from_sample as int) >= local_hi(self@, to_sample as int),
            },
    {
        let clip_start = self.start_sample;
        let clip_end = self.start_sample + self.length_samples;
        let from = (if from_sample > clip_start { from_sample } else { clip_start }) - clip_start;
        let to_abs = if to_sample < clip_end { to_sample } else { clip_end };
        let to = if to_abs >= clip_start { to_abs - clip_start } else { 0 };
        if from < to {
            Some((from, to))
        } else {
            None
        }
    }

    /// This clip's sample on `channel` at absolute frame `n`, or `None` if
    /// `n` falls outside the clip's (post-trim) span. `channel` is clamped
    /// to the clip's last channel, so channel 1 of a mono clip is its only
    /// channel.
    pub fn channel_sample_at(&self, n: u64, channel: u8) -> (s: Option<u32>)
        requires
            self@.wf(),
        ensures
            s == self@.channel_sample(n as int, channel as int),
            (self@.start <= n < self@.end()) ==> s is Some,
    {
        if n < self.start_sample || n >= self.start_sample + self.length_samples {
            return None;
        }
        let ghost c = self@;
        let frame = self.source_offset + (n - self.start_sample);
        let last = self.channels - 1;
        let ch = if channel < last { channel } else { last };
        proof {
            lemma_visible_len(c);
            lemma_mul_le_of_le_div(c.offset + c.len, c.ch(), c.source.len() as int);
            assert(frame <= frame * c.ch()) by (nonlinear_arith)
                requires
                    c.ch() >= 1,
                    frame >= 0,
            ;
            assert((frame + 1) * c.ch() <= (c.offset + c.len) * c.ch()) by (nonlinear_arith)
                requires
                    frame + 1 <= c.offset + c.len,
                    c.ch() >= 1,
            ;
            assert(frame * c.ch() + ch < (frame + 1) * c.ch()) by (nonlinear_arith)
                requires
                    ch < c.ch(),
            ;
        }
        let slen = self.source.len();
        assert(frame * c.ch() + ch < slen);
        assert(frame <= slen);
        let f = frame as usize;
        let cc = self.channels as usize;
        assert(f * cc == frame * c.ch());
        let idx = f * cc + ch as usize;
        if idx < self.source.len() {
            Some(self.source[idx])
        } else {
            None
        }
    }

    /// Channel 0 (a mono clip's only channel).
    pub fn sample_at(&self, n: u64) -> (s: Option<u32>)
        requires
            self@.wf(),
        ensures
            s == self@.channel_sample(n as int, 0),
    {
        self.channel_sample_at(n, 0)
    }

    /// The clip's audible window as a fresh interleaved buffer.
    pub fn visible_samples(&self) -> (v: Vec<u32>)
        requires
            self@.in_source(),
        ensures
            v@ == self@.visible(),
    {
        let ghost c = self@;
        proof {
            lemma_visible_len(c);
        }
        let channels = self.channels as usize;
        let slen = self.source.len();
        assert(c.offset <= slen);
        assert(c.offset + c.len <= slen);
        assert(c.offset + c.len <= c.source.len());
        let off = self.source_offset as usize;
        let stop = (self.source_offset + self.length_samples) as usize;
        assert(off * channels == c.offset * c.ch());
        assert(stop * channels == (c.offset + c.len) * c.ch());
        let start = off * channels;
        let end = stop * channels;
        let mut out: Vec<u32> = Vec::new();
        let mut i = start;
        while i < end
            invariant
                start <= i <= end <= self.source.len(),
                c == self@,
                start == c.offset * c.ch(),
                out@ == self.source@.subrange(start as int, i as int),
            decreases end - i,
        {
            out.push(self.source[i]);
            i += 1;
            assert(out@ =~= self.source@.subrange(start as int, i as int));
        }
        out
    }

    /// Hidden (trimmed-away) audio before the window.
    pub fn trimmable_before(&self) -> (n: u64)
        ensures
            n == self@.offset,
    {
        self.source_offset
    }

    /// Hidden (trimmed-away) audio after the window.
    pub fn trimmable_after(&self) -> (n: u64)
        requires
            self@.in_source(),
        ensures
            n == self@.hidden_after(),
    {
        (self.source.len() as u64 / self.channels as u64) - self.source_offset - self.length_samples
    }

    /// Moves the clip's left edge by `delta_samples` (positive shortens the
    /// clip by moving its start later; negative extends it back out, up to
    /// the hidden audio before the window and the timeline's start). Keeps
    /// at least one frame visible.
    pub fn trim_start(&mut self, delta_samples: i64)
        requires
            old(self)@.wf(),
            -(if old(self)@.offset <= old(self)@.start { old(self)@.offset as int } else { old(self)@.start as int })
                <= old(self)@.len - 1,
        ensures
            final(self)@ == old(self)@.trimmed_start(delta_samples as int),
            final(self)@.wf(),
    {
        let a = -(self.source_offset as i64);
        let b = -(self.start_sample as i64);
        let max_extend = if a > b { a } else { b };
        let max_trim = self.length_samples as i64 - 1;
        let delta = if delta_samples < max_extend { max_extend } else if delta_samples > max_trim { max_trim } else { delta_samples };
        self.source_offset = (self.source_offset as i64 + delta) as u64;
        self.length_samples = (self.length_samples as i64 - delta) as u64;
        self.start_sample = (self.start_sample as i64 + delta) as u64;
    }

    /// Moves the clip's right edge by `delta_samples` (positive shortens
    /// the clip; negative extends it back out, up to the hidden audio after
    /// the window). Keeps at least one frame visible.
    pub fn trim_end(&mut self, delta_samples: i64)
        requires
            old(self)@.wf(),
            -old(self)@.hidden_after() <= old(self)@.len - 1,
        ensures
            final(self)@ == old(self)@.trimmed_end(delta_samples as int),
            final(self)@.wf(),
    {
        let max_extend = -(self.trimmable_after() as i64);
        let max_trim = self.length_samples as i64 - 1;
        let delta = if delta_samples < max_extend { max_extend } else if delta_samples > max_trim { max_trim } else { delta_samples };
        self.length_samples = (self.length_samples as i64 - delta) as u64;
    }
}

/// Dragging a clip's left edge in and then back out by the same amount
/// restores it, as long as the first drag stayed inside the clip.
pub proof fn lemma_trim_start_round_trip(c: ClipModel, delta: int)
    requires
        c.wf(),
        0 <= delta < c.len,
    ensures
        c.trimmed_start(delta).trimmed_start(-delta) == c,
{
    let t = c.trimmed_start(delta);
    assert(t.trimmed_start(-delta) =~= c);
}

/// Dragging a clip's right edge in and then back out by the same amount
/// restores it, as long as the first drag stayed inside the clip.
pub proof fn lemma_trim_end_round_trip(c: ClipModel, delta: int)
    requires
        c.wf(),
        0 <= delta < c.len,
    ensures
        c.trimmed_end(delta).trimmed_end(-delta) == c,
{
    let t = c.trimmed_end(delta);
    assert(t.trimmed_end(-delta) =~= c);
}


impl Clone for Clip {
    fn clone(&self) -> (c: Self)
        ensures
            c@ == self@,
    {
        let source = self.source.clone();
        assert(source@ =~= self.source@);
        Clip {
            id: self.id,
            name: self.name.clone(),
            start_sample: self.start_sample,
            channels: self.channels,
            source,
            source_offset: self.source_offset,
            length_samples: self.length_samples,
        }
    }
}

/// The linear volume of a new track (`1.0`), as its 32-bit pattern.
pub const UNITY_VOLUME: u32 = 0x3F80_0000;

/// The mathematical content of a track.
#[verifier::ext_equal]
pub struct TrackModel {
    pub id: TrackId,
    pub name: Seq<char>,
    pub pan_percent: i8,
    pub volume: u32,
    pub muted: bool,
    pub soloed: bool,
    pub channels: u8,
    pub clips: Seq<ClipModel>,
}

impl TrackModel {
    /// A fresh track: centred, unity volume, audible, stereo, no clips.
    pub open spec fn fresh(id: TrackId, name: Seq<char>) -> TrackModel {
        TrackModel {
            id,
            name,
            pan_percent: 0,
            volume: UNITY_VOLUME,
            muted: false,
            soloed: false,
            channels: 2,
            clips: Seq::empty(),
        }
    }

    /// At least one channel, and every clip well-formed.
    pub open spec fn wf(self) -> bool {
        &&& self.channels >= 1
        &&& forall|i: int| 0 <= i < self.clips.len() ==> (#[trigger] self.clips[i]).wf()
    }
}

/// A track: a named lane of clips sharing one channel count, with its own
/// pan, volume, mute and solo controls.
pub struct Track {
    pub id: TrackId,
    pub name: String,
    /// Signed pan percentage, -100 (full left) ..= 100 (full right), in
    /// steps of 5.
    pub pan_percent: i8,
    /// Linear gain multiplier as a 32-bit float pattern; `UNITY_VOLUME` by
    /// default.
    pub volume: u32,
    pub muted: bool,
    pub soloed: bool,
    /// Channel count every clip on this track shares (1 = mono, 2 = stereo).
    pub channels: u8,
    pub clips: Vec<Clip>,
}

pub open spec fn clip_models(clips: Seq<Clip>) -> Seq<ClipModel> {
    clips.map_values(|c: Clip| c@)
}

impl View for Track {
    type V = TrackModel;

    open spec fn view(&self) -> TrackModel {
        TrackModel {
            id: self.id,
            name: self.name@,
            pan_percent: self.pan_percent,
            volume: self.volume,
            muted: self.muted,
            soloed: self.soloed,
            channels: self.channels,
            clips: clip_models(self.clips@),
        }
    }
}

fn clone_clips(clips: &Vec<Clip>) -> (out: Vec<Clip>)
    ensures
        clip_models(out@) == clip_models(clips@),
{
    let mut out: Vec<Clip> = Vec::new();
    let mut i: usize = 0;
    while i < clips.len()
        invariant
            i <= clips.len(),
            out@.len() == i,
            forall|k: int| 0 <= k < i ==> (#[trigger] out@[k])@ == clips@[k]@,
        decreases clips.len() - i,
    {
        out.push(clips[i].clone());
        i += 1;
    }
    assert(clip_models(out@) =~= clip_models(clips@));
    out
}

impl Track {
    pub fn new(id: TrackId, name: String) -> (t: Self)
        ensures
            t@ == TrackModel::fresh(id, name@),
    {
        let t = Track {
            id,
            name,
            pan_percent: 0,
            volume: UNITY_VOLUME,
            muted: false,
            soloed: false,
            channels: 2,
            clips: Vec::new(),
        };
        assert(t@ =~= TrackModel::fresh(id, t.name@));
        t
    }
}

impl Clone for Track {
    fn clone(&self) -> (t: Self)
        ensures
            t@ == self@,
    {
        let t = Track {
            id: self.id,
            name: self.name.clone(),
            pan_percent: self.pan_percent,
            volume: self.volume,
            muted: self.muted,
            soloed: self.soloed,
            channels: self.channels,
            clips: clone_clips(&self.clips),
        };
        assert(t@ =~= self@);
        t
    }
}


pub open spec fn track_models(tracks: Seq<Track>) -> Seq<TrackModel> {
    tracks.map_values(|t: Track| t@)
}

/// The persistent content of a project: what an undo/redo step restores
/// (deliberately not the selection or the clipboard).
#[verifier::ext_equal]
pub struct ProjectContent {
    pub sample_rate_hz: u32,
    pub tracks: Seq<TrackModel>,
    pub next_track_id: u32,
    pub next_clip_id: u32,
}

impl ProjectContent {
    pub open spec fn has_track(self, id: TrackId) -> bool {
        exists|i: int| 0 <= i < self.tracks.len() && self.tracks[i].id == id
    }

    /// The position of track `id` (meaningful when `has_track(id)`).
    pub open spec fn track_pos(self, id: TrackId) -> int {
        choose|i: int| 0 <= i < self.tracks.len() && self.tracks[i].id == id
    }

    pub open spec fn clip_at(self, i: int, k: int) -> ClipModel {
        self.tracks[i].clips[k]
    }

    pub open spec fn is_clip_addr(self, i: int, k: int) -> bool {
        0 <= i < self.tracks.len() && 0 <= k < self.tracks[i].clips.len()
    }

    pub open spec fn has_clip(self, id: ClipId) -> bool {
        exists|i: int, k: int| self.is_clip_addr(i, k) && #[trigger] self.clip_at(i, k).id == id
    }

    /// The (track position, clip position) of clip `id` (meaningful when
    /// `has_clip(id)`).
    pub open spec fn clip_addr(self, id: ClipId) -> (int, int) {
        choose|i: int, k: int| self.is_clip_addr(i, k) && #[trigger] self.clip_at(i, k).id == id
    }

    pub open spec fn clip(self, id: ClipId) -> ClipModel {
        self.clip_at(self.clip_addr(id).0, self.clip_addr(id).1)
    }

    /// The ids of the clips on track `id`, in track order (empty if there
    /// is no such track).
    pub open spec fn clip_ids_of(self, id: TrackId) -> Seq<ClipId> {
        if self.has_track(id) {
            self.tracks[self.track_pos(id)].clips.map_values(|c: ClipModel| c.id)
        } else {
            Seq::empty()
        }
    }

    pub open spec fn tracks_wf(self) -> bool {
        forall|i: int| 0 <= i < self.tracks.len() ==> (#[trigger] self.tracks[i]).wf()
    }

    pub open spec fn track_ids_fresh(self) -> bool {
        forall|i: int| 0 <= i < self.tracks.len() ==> (#[trigger] self.tracks[i]).id.0 < self.next_track_id
    }

    pub open spec fn track_ids_distinct(self) -> bool {
        forall|i: int, j: int|
            0 <= i < self.tracks.len() && 0 <= j < self.tracks.len() && i != j ==> #[trigger] self.tracks[i].id
                != #[trigger] self.tracks[j].id
    }

    pub open spec fn clip_ids_fresh(self) -> bool {
        forall|i: int, k: int| self.is_clip_addr(i, k) ==> (#[trigger] self.clip_at(i, k)).id.0 < self.next_clip_id
    }

    pub open spec fn clip_ids_distinct(self) -> bool {
        forall|i: int, k: int, j: int, l: int|
            self.is_clip_addr(i, k) && self.is_clip_addr(j, l) && (i != j || k != l) ==> #[trigger] self.clip_at(
                i,
                k,
            ).id != #[trigger] self.clip_at(j, l).id
    }

    /// Every clip is well-formed, and track ids and clip ids are each
    /// unique and below the next id to be handed out.
    pub open spec fn wf(self) -> bool {
        &&& self.tracks_wf()
        &&& self.track_ids_fresh()
        &&& self.track_ids_distinct()
        &&& self.clip_ids_fresh()
        &&& self.clip_ids_distinct()
    }
}

/// Rearranging (and possibly dropping) whole tracks keeps a project
/// well-formed: each new position holds a distinct old track.
pub proof fn lemma_reindex_wf(c: ProjectContent, c2: ProjectContent, f: spec_fn(int) -> int)
    requires
        c.wf(),
        c2.next_track_id >= c.next_track_id,
        c2.next_clip_id >= c.next_clip_id,
        forall|i: int| 0 <= i < c2.tracks.len() ==> 0 <= #[trigger] f(i) < c.tracks.len() && c2.tracks[i] == c.tracks[f(i)],
        forall|i: int, j: int| 0 <= i < c2.tracks.len() && 0 <= j < c2.tracks.len() && i != j ==> #[trigger] f(i) != #[trigger] f(j),
    ensures
        c2.wf(),
{
    assert forall|i: int| 0 <= i < c2.tracks.len() implies (#[trigger] c2.tracks[i]).wf() by {
        assert(c2.tracks[i] == c.tracks[f(i)]);
    }
    assert forall|i: int| 0 <= i < c2.tracks.len() implies (#[trigger] c2.tracks[i]).id.0 < c2.next_track_id by {
        assert(c2.tracks[i] == c.tracks[f(i)]);
    }
    assert forall|i: int, j: int| 0 <= i < c2.tracks.len() && 0 <= j < c2.tracks.len() && i != j implies #[trigger] c2.tracks[i].id
        != #[trigger] c2.tracks[j].id by {
        assert(c2.tracks[i] == c.tracks[f(i)]);
        assert(c2.tracks[j] == c.tracks[f(j)]);
    }
    assert forall|i: int, k: int| c2.is_clip_addr(i, k) implies (#[trigger] c2.clip_at(i, k)).id.0 < c2.next_clip_id by {
        assert(c2.tracks[i] == c.tracks[f(i)]);
        assert(c.is_clip_addr(f(i), k));
        assert(c2.clip_at(i, k) == c.clip_at(f(i), k));
        assert(c.clip_at(f(i), k).id.0 < c.next_clip_id);
    }
    assert forall|i: int, k: int, j: int, l: int|
        c2.is_clip_addr(i, k) && c2.is_clip_addr(j, l) && (i != j || k != l) implies #[trigger] c2.clip_at(i, k).id
        != #[trigger] c2.clip_at(j, l).id by {
        assert(c2.tracks[i] == c.tracks[f(i)]);
        assert(c2.tracks[j] == c.tracks[f(j)]);
        assert(c2.clip_at(i, k) == c.clip_at(f(i), k));
        assert(c2.clip_at(j, l) == c.clip_at(f(j), l));
        assert(c.is_clip_addr(f(i), k));
        assert(c.is_clip_addr(f(j), l));
    }
}

/// The general shape of every edit: each clip of the new content is
/// either a fresh one (an id handed out by this edit) or traces back to a
/// distinct clip of the old content with the same id.
pub proof fn lemma_wf_by_origin(c: ProjectContent, c2: ProjectContent, orig: spec_fn(int, int) -> (int, int))
    requires
        c.wf(),
        c2.tracks_wf(),
        c2.track_ids_fresh(),
        c2.track_ids_distinct(),
        c.next_clip_id <= c2.next_clip_id,
        forall|i: int, k: int|
            c2.is_clip_addr(i, k) ==> (#[trigger] c2.clip_at(i, k)).id.0 < c2.next_clip_id,
        forall|i: int, k: int|
            c2.is_clip_addr(i, k) && (#[trigger] c2.clip_at(i, k)).id.0 < c.next_clip_id ==> c.is_clip_addr(orig(i, k).0, orig(i, k).1)
                && c.clip_at(orig(i, k).0, orig(i, k).1).id == c2.clip_at(i, k).id,
        forall|i: int, k: int, j: int, l: int|
            c2.is_clip_addr(i, k) && c2.is_clip_addr(j, l) && (i != j || k != l) && (#[trigger] c2.clip_at(i, k)).id.0
                < c.next_clip_id && (#[trigger] c2.clip_at(j, l)).id.0 < c.next_clip_id ==> orig(i, k) != orig(j, l),
        forall|i: int, k: int, j: int, l: int|
            c2.is_clip_addr(i, k) && c2.is_clip_addr(j, l) && (i != j || k != l) && (#[trigger] c2.clip_at(i, k)).id.0
                >= c.next_clip_id && (#[trigger] c2.clip_at(j, l)).id.0 >= c.next_clip_id ==> c2.clip_at(i, k).id
                != c2.clip_at(j, l).id,
    ensures
        c2.wf(),
{
    assert forall|i: int, k: int, j: int, l: int|
        c2.is_clip_addr(i, k) && c2.is_clip_addr(j, l) && (i != j || k != l) implies #[trigger] c2.clip_at(i, k).id
        != #[trigger] c2.clip_at(j, l).id by {
        let a = c2.clip_at(i, k);
        let b = c2.clip_at(j, l);
        if a.id.0 < c.next_clip_id && b.id.0 < c.next_clip_id {
            let oa = orig(i, k);
            let ob = orig(j, l);
            assert(c.clip_at(oa.0, oa.1).id == a.id);
            assert(c.clip_at(ob.0, ob.1).id == b.id);
            assert(oa != ob);
        } else if a.id.0 < c.next_clip_id {
            assert(b.id.0 >= c.next_clip_id);
        } else if b.id.0 < c.next_clip_id {
            assert(a.id.0 >= c.next_clip_id);
        }
    }
}

/// A well-formed project has at most as many tracks as track ids handed
/// out so far (their ids are distinct and all below the next id).
pub proof fn lemma_track_count_bound(c: ProjectContent)
    requires
        c.wf(),
    ensures
        c.tracks.len() <= c.next_track_id,
{
    let ids = c.tracks.map_values(|t: TrackModel| t.id.0 as int);
    assert(ids.no_duplicates()) by {
        assert forall|i: int, j: int| 0 <= i < ids.len() && 0 <= j < ids.len() && i != j implies ids[i] != ids[j] by {
            assert(c.tracks[i].id != c.tracks[j].id);
        }
    }
    ids.unique_seq_to_set();
    let range = vstd::set_lib::set_int_range(0, c.next_track_id as int);
    vstd::set_lib::lemma_int_range(0, c.next_track_id as int);
    assert(ids.to_set().subset_of(range)) by {
        assert forall|x: int| ids.to_set().contains(x) implies range.contains(x) by {
            let j = choose|j: int| 0 <= j < ids.len() && ids[j] == x;
            assert(c.tracks[j].id.0 < c.next_track_id);
        }
    }
    vstd::set_lib::lemma_len_subset(ids.to_set(), range);
}

/// `h` after recording `c` as the newest undo step, dropping the oldest
/// step once more than `MAX_UNDO_HISTORY` are kept.
pub open spec fn recorded(h: Seq<ProjectContent>, c: ProjectContent) -> Seq<ProjectContent> {
    let h2 = h.push(c);
    if h2.len() > MAX_UNDO_HISTORY {
        h2.drop_first()
    } else {
        h2
    }
}

/// The content together with its undo and redo histories (newest last).
#[verifier::ext_equal]
pub struct EditState {
    pub content: ProjectContent,
    pub undo: Seq<ProjectContent>,
    pub redo: Seq<ProjectContent>,
}

/// The state after an undoable edit that turned the content into `next`.
pub open spec fn after_edit(s: EditState, next: ProjectContent) -> EditState {
    EditState { content: next, undo: recorded(s.undo, s.content), redo: Seq::empty() }
}

/// The state after undo: the newest undo step becomes the content, and
/// the content it replaces becomes the newest redo step.
pub open spec fn after_undo(s: EditState) -> EditState {
    if s.undo.len() == 0 {
        s
    } else {
        EditState { content: s.undo.last(), undo: s.undo.drop_last(), redo: s.redo.push(s.content) }
    }
}

/// The state after redo: the mirror image of `after_undo`.
pub open spec fn after_redo(s: EditState) -> EditState {
    if s.redo.len() == 0 {
        s
    } else {
        EditState { content: s.redo.last(), undo: recorded(s.undo, s.content), redo: s.redo.drop_last() }
    }
}

/// Undo right after an edit gives back exactly the content from before
/// the edit.
pub proof fn lemma_undo_reverts_edit(s: EditState, next: ProjectContent)
    ensures
        after_undo(after_edit(s, next)).content == s.content,
{
}

/// Redo right after undo gives back exactly the content that was undone.
pub proof fn lemma_redo_reapplies_undone(s: EditState)
    requires
        s.undo.len() > 0,
    ensures
        after_redo(after_undo(s)).content == s.content,
{
}

/// Redo brings back the newest undone content, and an undo right after
/// it gives back exactly the content from before the redo: a redone edit
/// can be undone again.
pub proof fn lemma_undo_reverts_redo(s: EditState)
    requires
        s.redo.len() > 0,
    ensures
        after_redo(s).content == s.redo.last(),
        after_redo(s).undo.len() > 0,
        after_undo(after_redo(s)).content == s.content,
        after_undo(after_redo(s)).redo == s.redo,
{
}

/// With the undo history below its cap, undo then redo, or redo then
/// undo, gives back the whole state: content, undo history and redo
/// history alike.
pub proof fn lemma_undo_redo_round_trip(s: EditState)
    requires
        s.undo.len() <= MAX_UNDO_HISTORY,
    ensures
        s.undo.len() > 0 ==> after_redo(after_undo(s)) == s,
        s.redo.len() > 0 && s.undo.len() < MAX_UNDO_HISTORY ==> after_undo(after_redo(s)) == s,
{
    if s.undo.len() > 0 {
        let u = after_undo(s);
        assert(u.undo.push(u.content) =~= s.undo);
        assert(u.redo.drop_last() =~= s.redo);
        assert(after_redo(u) =~= s);
    }
    if s.redo.len() > 0 && s.undo.len() < MAX_UNDO_HISTORY {
        let r = after_redo(s);
        assert(r.undo =~= s.undo.push(s.content));
        assert(r.undo.drop_last() =~= s.undo);
        assert(r.redo.push(r.content) =~= s.redo);
        assert(after_undo(r) =~= s);
    }
}

/// A new edit discards what was undone: redo right after it changes
/// nothing.
pub proof fn lemma_edit_clears_redo(s: EditState, next: ProjectContent)
    ensures
        after_edit(s, next).redo.len() == 0,
        after_redo(after_edit(s, next)) == after_edit(s, next),
{
}

/// Undo with nothing to undo changes nothing.
pub proof fn lemma_undo_without_history_is_no_op(s: EditState)
    requires
        s.undo.len() == 0,
    ensures
        after_undo(s) == s,
{
}

/// The undo history never grows past `MAX_UNDO_HISTORY` steps.
pub proof fn lemma_history_is_bounded(s: EditState, next: ProjectContent)
    requires
        s.undo.len() <= MAX_UNDO_HISTORY,
    ensures
        after_edit(s, next).undo.len() <= MAX_UNDO_HISTORY,
        after_undo(s).undo.len() <= MAX_UNDO_HISTORY,
        after_redo(s).undo.len() <= MAX_UNDO_HISTORY,
{
}

/// A point-in-time copy of a project's persistent content.
struct ProjectSnapshot {
    sample_rate_hz: u32,
    tracks: Vec<Track>,
    next_track_id: u32,
    next_clip_id: u32,
}

impl View for ProjectSnapshot {
    type V = ProjectContent;

    closed spec fn view(&self) -> ProjectContent {
        ProjectContent {
            sample_rate_hz: self.sample_rate_hz,
            tracks: track_models(self.tracks@),
            next_track_id: self.next_track_id,
            next_clip_id: self.next_clip_id,
        }
    }
}

fn clone_tracks(tracks: &Vec<Track>) -> (out: Vec<Track>)
    ensures
        track_models(out@) == track_models(tracks@),
{
    let mut out: Vec<Track> = Vec::new();
    let mut i: usize = 0;
    while i < tracks.len()
        invariant
            i <= tracks.len(),
            out@.len() == i,
            forall|k: int| 0 <= k < i ==> (#[trigger] out@[k])@ == tracks@[k]@,
        decreases tracks.len() - i,
    {
        out.push(tracks[i].clone());
        i += 1;
    }
    assert(track_models(out@) =~= track_models(tracks@));
    out
}

spec fn snapshot_models(s: Seq<ProjectSnapshot>) -> Seq<ProjectContent> {
    s.map_values(|x: ProjectSnapshot| x@)
}

/// One clipboard entry, positioned relative to the copied group's anchor
/// (its earliest clip's track index and start sample) so a multi-clip
/// paste preserves the clips' relative layout.
struct ClipboardEntry {
    track_offset: i64,
    start_offset: i64,
    clip: Clip,
}

/// The mathematical content of a clipboard entry.
pub struct ClipboardModel {
    pub track_offset: int,
    pub start_offset: int,
    pub clip: ClipModel,
}

spec fn clipboard_models(s: Seq<ClipboardEntry>) -> Seq<ClipboardModel> {
    s.map_values(|e: ClipboardEntry| ClipboardModel { track_offset: e.track_offset as int, start_offset: e.start_offset as int, clip: e.clip@ })
}

pub open spec fn history_wf(h: Seq<ProjectContent>) -> bool {
    forall|i: int| 0 <= i < h.len() ==> (#[trigger] h[i]).wf()
}

pub open spec fn clipboard_wf(c: Seq<ClipboardModel>) -> bool {
    forall|i: int| 0 <= i < c.len() ==> (#[trigger] c[i]).clip.wf()
}

pub proof fn lemma_history_wf_push(h: Seq<ProjectContent>, c: ProjectContent)
    requires
        history_wf(h),
        c.wf(),
    ensures
        history_wf(h.push(c)),
        history_wf(recorded(h, c)),
        h.len() > 0 ==> history_wf(h.drop_last()),
{
    assert forall|i: int| 0 <= i < h.push(c).len() implies (#[trigger] h.push(c)[i]).wf() by {
        if i < h.len() {
            assert(h.push(c)[i] == h[i]);
        }
    }
    let r = recorded(h, c);
    assert forall|i: int| 0 <= i < r.len() implies (#[trigger] r[i]).wf() by {
        if h.push(c).len() > MAX_UNDO_HISTORY {
            assert(r[i] == h.push(c)[i + 1]);
        } else {
            assert(r[i] == h.push(c)[i]);
        }
    }
    if h.len() > 0 {
        assert forall|i: int| 0 <= i < h.drop_last().len() implies (#[trigger] h.drop_last()[i]).wf() by {
            assert(h.drop_last()[i] == h[i]);
        }
    }
}

/// The whole editable project.
pub struct Project {
    pub sample_rate_hz: u32,
    pub tracks: Vec<Track>,
    next_track_id: u32,
    next_clip_id: u32,
    /// Multi-clip selection (a set: each id at most once).
    pub selection: Vec<ClipId>,
    /// Selected tracks (a set: each id at most once); when non-empty, the
    /// Effects menu applies to every clip on these tracks, taking priority
    /// over `selection`.
    pub selected_tracks: Vec<TrackId>,
    clipboard: Vec<ClipboardEntry>,
    undo_stack: Vec<ProjectSnapshot>,
    redo_stack: Vec<ProjectSnapshot>,
}

impl Project {
    pub closed spec fn content(&self) -> ProjectContent {
        ProjectContent {
            sample_rate_hz: self.sample_rate_hz,
            tracks: track_models(self.tracks@),
            next_track_id: self.next_track_id,
            next_clip_id: self.next_clip_id,
        }
    }

    pub closed spec fn undo_history(&self) -> Seq<ProjectContent> {
        snapshot_models(self.undo_stack@)
    }

    pub closed spec fn redo_history(&self) -> Seq<ProjectContent> {
        snapshot_models(self.redo_stack@)
    }

    pub closed spec fn selected_clips(&self) -> Seq<ClipId> {
        self.selection@
    }

    pub closed spec fn selected_track_ids(&self) -> Seq<TrackId> {
        self.selected_tracks@
    }

    pub closed spec fn clipboard(&self) -> Seq<ClipboardModel> {
        clipboard_models(self.clipboard@)
    }

    pub open spec fn edit_state(&self) -> EditState {
        EditState { content: self.content(), undo: self.undo_history(), redo: self.redo_history() }
    }

    /// Well-formed: the content and every recorded undo/redo step is
    /// well-formed, the undo history is within its cap, every clip on the
    /// clipboard is well-formed, and the clip and track selections are sets
    /// (each id at most once).
    pub closed spec fn wf(&self) -> bool {
        &&& self.content().wf()
        &&& history_wf(self.undo_history())
        &&& history_wf(self.redo_history())
        &&& self.undo_history().len() <= MAX_UNDO_HISTORY
        &&& clipboard_wf(self.clipboard())
        &&& self.selected_clips().no_duplicates()
        &&& self.selected_track_ids().no_duplicates()
    }

    /// The id the next new track gets.
    pub fn next_track_id(&self) -> (n: u32)
        ensures
            n == self.content().next_track_id,
    {
        self.next_track_id
    }

    /// The id the next new clip gets.
    pub fn next_clip_id(&self) -> (n: u32)
        ensures
            n == self.content().next_clip_id,
    {
        self.next_clip_id
    }

    /// A well-formed project has well-formed content, and each selection
    /// names every id at most once.
    pub proof fn lemma_wf_content(&self)
        requires
            self.wf(),
        ensures
            self.content().wf(),
            self.selected_clips().no_duplicates(),
            self.selected_track_ids().no_duplicates(),
    {
    }

    /// A project with no tracks at all, the starting point when rebuilding
    /// a project loaded from disk.
    pub fn empty(sample_rate_hz: u32) -> (p: Self)
        ensures
            p.wf(),
            p.content() == (ProjectContent { sample_rate_hz, tracks: Seq::empty(), next_track_id: 0, next_clip_id: 0 }),
            p.undo_history() == Seq::<ProjectContent>::empty(),
            p.redo_history() == Seq::<ProjectContent>::empty(),
            p.selected_clips() == Seq::<ClipId>::empty(),
            p.selected_track_ids() == Seq::<TrackId>::empty(),
            p.clipboard() == Seq::<ClipboardModel>::empty(),
    {
        let p = Project {
            sample_rate_hz,
            tracks: Vec::new(),
            next_track_id: 0,
            next_clip_id: 0,
            selection: Vec::new(),
            selected_tracks: Vec::new(),
            clipboard: Vec::new(),
            undo_stack: Vec::new(),
            redo_stack: Vec::new(),
        };
        assert(p.content() =~= (ProjectContent { sample_rate_hz, tracks: Seq::empty(), next_track_id: 0, next_clip_id: 0 }));
        assert(p.undo_history() =~= Seq::<ProjectContent>::empty());
        assert(p.redo_history() =~= Seq::<ProjectContent>::empty());
        assert(p.clipboard() =~= Seq::<ClipboardModel>::empty());
        p
    }

    fn snapshot(&self) -> (s: ProjectSnapshot)
        ensures
            s@ == self.content(),
    {
        ProjectSnapshot {
            sample_rate_hz: self.sample_rate_hz,
            tracks: clone_tracks(&self.tracks),
            next_track_id: self.next_track_id,
            next_clip_id: self.next_clip_id,
        }
    }

    /// Discards all undo/redo history.
    pub fn clear_undo_history(&mut self)
        requires
            old(self).wf(),
        ensures
            final(self).wf(),
            final(self).content() == old(self).content(),
            final(self).undo_history() == Seq::<ProjectContent>::empty(),
            final(self).redo_history() == Seq::<ProjectContent>::empty(),
            final(self).selected_clips() == old(self).selected_clips(),
            final(self).selected_track_ids() == old(self).selected_track_ids(),
            final(self).clipboard() == old(self).clipboard(),
    {
        self.undo_stack.clear();
        self.redo_stack.clear();
        assert(self.undo_history() =~= Seq::<ProjectContent>::empty());
        assert(self.redo_history() =~= Seq::<ProjectContent>::empty());
    }

    /// Records the current content as the newest undo step and clears the
    /// redo history.
    pub fn push_undo(&mut self)
        requires
            old(self).wf(),
        ensures
            final(self).wf(),
            final(self).edit_state() == after_edit(old(self).edit_state(), old(self).content()),
            final(self).content() == old(self).content(),
            final(self).selected_clips() == old(self).selected_clips(),
            final(self).selected_track_ids() == old(self).selected_track_ids(),
            final(self).clipboard() == old(self).clipboard(),
    {
        let snap = self.snapshot();
        let ghost h = self.undo_history();
        self.undo_stack.push(snap);
        assert(self.undo_history() =~= h.push(old(self).content()));
        if self.undo_stack.len() > MAX_UNDO_HISTORY {
            self.undo_stack.remove(0);
            assert(self.undo_history() =~= h.push(old(self).content()).drop_first());
        }
        self.redo_stack.clear();
        assert(self.redo_history() =~= Seq::<ProjectContent>::empty());
        assert(self.edit_state() =~= after_edit(old(self).edit_state(), old(self).content()));
        proof {
            lemma_history_wf_push(h, old(self).content());
        }
    }

    fn restore(&mut self, snap: ProjectSnapshot)
        requires
            old(self).wf(),
            snap@.wf(),
        ensures
            final(self).content() == snap@,
            final(self).undo_history() == old(self).undo_history(),
            final(self).redo_history() == old(self).redo_history(),
            final(self).clipboard() == old(self).clipboard(),
            final(self).selected_clips() == Seq::<ClipId>::empty(),
            final(self).selected_track_ids() == Seq::<TrackId>::empty(),
            final(self).wf(),
    {
        self.sample_rate_hz = snap.sample_rate_hz;
        self.tracks = snap.tracks;
        self.next_track_id = snap.next_track_id;
        self.next_clip_id = snap.next_clip_id;
        self.selection.clear();
        self.selected_tracks.clear();
        assert(self.content() =~= snap@);
    }

    /// Undoes the most recent edit, if any (clearing the selection).
    pub fn undo(&mut self)
        requires
            old(self).wf(),
        ensures
            final(self).wf(),
            final(self).edit_state() == after_undo(old(self).edit_state()),
            final(self).clipboard() == old(self).clipboard(),
            old(self).undo_history().len() > 0 ==> final(self).selected_clips() == Seq::<ClipId>::empty()
                && final(self).selected_track_ids() == Seq::<TrackId>::empty(),
            old(self).undo_history().len() == 0 ==> final(self).selected_clips() == old(self).selected_clips()
                && final(self).selected_track_ids() == old(self).selected_track_ids(),
    {
        let ghost h = self.undo_history();
        let ghost r = self.redo_history();
        if let Some(snap) = self.undo_stack.pop() {
            assert(self.undo_history() =~= h.drop_last());
            assert(snap@ == h.last());
            proof {
                lemma_history_wf_push(h, old(self).content());
                lemma_history_wf_push(r, old(self).content());
                assert(h.last() == h[h.len() - 1]);
            }
            let current = self.snapshot();
            self.redo_stack.push(current);
            assert(self.redo_history() =~= r.push(old(self).content()));
            self.restore(snap);
            assert(self.edit_state() =~= after_undo(old(self).edit_state()));
        }
    }

    /// Re-applies the most recently undone edit, if any (clearing the
    /// selection).
    pub fn redo(&mut self)
        requires
            old(self).wf(),
        ensures
            final(self).wf(),
            final(self).edit_state() == after_redo(old(self).edit_state()),
            final(self).clipboard() == old(self).clipboard(),
            old(self).redo_history().len() > 0 ==> final(self).selected_clips() == Seq::<ClipId>::empty()
                && final(self).selected_track_ids() == Seq::<TrackId>::empty(),
            old(self).redo_history().len() == 0 ==> final(self).selected_clips() == old(self).selected_clips()
                && final(self).selected_track_ids() == old(self).selected_track_ids(),
    {
        let ghost h = self.undo_history();
        let ghost r = self.redo_history();
        if let Some(snap) = self.redo_stack.pop() {
            assert(self.redo_history() =~= r.drop_last());
            assert(snap@ == r.last());
            proof {
                lemma_history_wf_push(h, old(self).content());
                lemma_history_wf_push(r, old(self).content());
                assert(r.last() == r[r.len() - 1]);
            }
            let current = self.snapshot();
            self.undo_stack.push(current);
            assert(self.undo_history() =~= h.push(old(self).content()));
            if self.undo_stack.len() > MAX_UNDO_HISTORY {
                self.undo_stack.remove(0);
                assert(self.undo_history() =~= h.push(old(self).content()).drop_first());
            }
            self.restore(snap);
            assert(self.edit_state() =~= after_redo(old(self).edit_state()));
        }
    }
}


impl Project {
    fn track_index(&self, id: TrackId) -> (r: Option<usize>)
        requires
            self.content().track_ids_distinct(),
        ensures
            match r {
                Some(i) => i < self.content().tracks.len() && self.content().tracks[i as int].id == id
                    && self.content().has_track(id) && i == self.content().track_pos(id),
                None => !self.content().has_track(id),
            },
    {
        let ghost c = self.content();
        let mut i: usize = 0;
        while i < self.tracks.len()
            invariant
                c == self.content(),
                c.tracks.len() == self.tracks.len(),
                c.track_ids_distinct(),
                i <= self.tracks.len(),
                forall|j: int| 0 <= j < i ==> (#[trigger] c.tracks[j]).id != id,
            decreases self.tracks.len() - i,
        {
            assert(c.tracks[i as int] == self.tracks@[i as int]@);
            if self.tracks[i].id == id {
                assert(c.tracks[i as int].id == id);
                let ghost p = c.track_pos(id);
                assert(c.has_track(id));
                assert(c.tracks[p].id == id);
                return Some(i);
            }
            i += 1;
        }
        None
    }

    pub fn track(&self, id: TrackId) -> (r: Option<&Track>)
        requires
            self.wf(),
        ensures
            match r {
                Some(t) => self.content().has_track(id) && t@ == self.content().tracks[self.content().track_pos(id)],
                None => !self.content().has_track(id),
            },
    {
        match self.track_index(id) {
            Some(i) => Some(&self.tracks[i]),
            None => None,
        }
    }

    /// Mutable access to track `id`. Every other track, the id counters and
    /// the histories are untouched; whatever the caller does to the track
    /// is all that changes.
    pub fn track_mut(&mut self, id: TrackId) -> (r: Option<&mut Track>)
        requires
            old(self).wf(),
        ensures
            match r {
                Some(t) => {
                    let c = old(self).content();
                    &&& c.has_track(id)
                    &&& (*t)@ == c.tracks[c.track_pos(id)]
                    &&& final(self).content() == (ProjectContent {
                        tracks: c.tracks.update(c.track_pos(id), (*final(t))@),
                        ..c
                    })
                },
                None => !old(self).content().has_track(id) && *final(self) == *old(self),
            },
            final(self).edit_state().undo == old(self).edit_state().undo,
            final(self).edit_state().redo == old(self).edit_state().redo,
            final(self).selected_clips() == old(self).selected_clips(),
            final(self).selected_track_ids() == old(self).selected_track_ids(),
            final(self).clipboard() == old(self).clipboard(),
    {
        match self.track_index(id) {
            Some(i) => Some(&mut self.tracks[i]),
            None => None,
        }
    }
}


/// "Track <n>".
pub open spec fn numbered_track_name(n: nat) -> Seq<char> {
    seq!['T', 'r', 'a', 'c', 'k', ' '] + decimal(n)
}

/// Moving the track at `from` to position `to` (the order every other
/// track keeps).
pub open spec fn moved<T>(s: Seq<T>, from: int, to: int) -> Seq<T> {
    s.remove(from).insert(to, s[from])
}

pub open spec fn moved_index(from: int, to: int, i: int) -> int {
    if i == to {
        from
    } else if from <= to {
        if from <= i < to { i + 1 } else { i }
    } else {
        if to < i <= from { i - 1 } else { i }
    }
}

pub proof fn lemma_moved_index<T>(s: Seq<T>, from: int, to: int)
    requires
        0 <= from < s.len(),
        0 <= to < s.len(),
    ensures
        moved(s, from, to).len() == s.len(),
        forall|i: int| 0 <= i < s.len() ==> 0 <= #[trigger] moved_index(from, to, i) < s.len()
            && moved(s, from, to)[i] == s[moved_index(from, to, i)],
        forall|i: int, j: int| 0 <= i < s.len() && 0 <= j < s.len() && i != j ==> #[trigger] moved_index(from, to, i)
            != #[trigger] moved_index(from, to, j),
{
}

impl Project {
    /// A new project with one empty track named "Track 1" and no undo
    /// history.
    pub fn new(sample_rate_hz: u32) -> (p: Self)
        ensures
            p.wf(),
            p.content() == (ProjectContent {
                sample_rate_hz,
                tracks: seq![TrackModel::fresh(TrackId(0), numbered_track_name(1))],
                next_track_id: 1,
                next_clip_id: 0,
            }),
            p.undo_history() == Seq::<ProjectContent>::empty(),
            p.redo_history() == Seq::<ProjectContent>::empty(),
            p.selected_clips() == Seq::<ClipId>::empty(),
            p.selected_track_ids() == Seq::<TrackId>::empty(),
            p.clipboard() == Seq::<ClipboardModel>::empty(),
    {
        let mut project = Self::empty(sample_rate_hz);
        project.add_track();
        // Building the project is not itself an undoable step.
        project.clear_undo_history();
        assert(project.content().tracks =~= seq![TrackModel::fresh(TrackId(0), numbered_track_name(1))]);
        project
    }

    /// Appends a new empty track named "Track <n>" (n = the new track
    /// count) and returns its id.
    pub fn add_track(&mut self) -> (id: TrackId)
        requires
            old(self).wf(),
            old(self).content().next_track_id < u32::MAX,
        ensures
            final(self).wf(),
            id == TrackId(old(self).content().next_track_id),
            final(self).content() == (ProjectContent {
                tracks: old(self).content().tracks.push(
                    TrackModel::fresh(id, numbered_track_name(old(self).content().tracks.len() + 1)),
                ),
                next_track_id: (old(self).content().next_track_id + 1) as u32,
                ..old(self).content()
            }),
            final(self).edit_state() == after_edit(old(self).edit_state(), final(self).content()),
            final(self).selected_clips() == old(self).selected_clips(),
            final(self).selected_track_ids() == old(self).selected_track_ids(),
            final(self).clipboard() == old(self).clipboard(),
    {
        let ghost c = self.content();
        self.push_undo();
        let id = TrackId(self.next_track_id);
        self.next_track_id += 1;
        let mut name = String::from_str("Track ");
        proof {
            reveal_strlit("Track ");
        }
        assert(name@ =~= seq!['T', 'r', 'a', 'c', 'k', ' ']);
        assert(self.content().tracks.len() == self.tracks.len());
        push_decimal(&mut name, self.tracks.len() as u128 + 1);
        assert(name@ =~= numbered_track_name(c.tracks.len() + 1));
        let t = Track::new(id, name);
        self.tracks.push(t);
        let ghost c2 = self.content();
        assert(c2.tracks =~= c.tracks.push(TrackModel::fresh(id, numbered_track_name(c.tracks.len() + 1))));
        proof {
            assert(c2.tracks_wf()) by {
                assert forall|i: int| 0 <= i < c2.tracks.len() implies (#[trigger] c2.tracks[i]).wf() by {
                    if i < c.tracks.len() {
                        assert(c2.tracks[i] == c.tracks[i]);
                    }
                }
            }
            assert forall|i: int, k: int| c2.is_clip_addr(i, k) implies c.is_clip_addr(i, k) && #[trigger] c2.clip_at(i, k) == c.clip_at(i, k) by {
                assert(i < c.tracks.len());
                assert(c2.tracks[i] == c.tracks[i]);
            }
            lemma_wf_by_origin(c, c2, |i: int, k: int| (i, k));
        }
        id
    }
}


/// `s` with every occurrence of `x` removed.
pub open spec fn without<T>(s: Seq<T>, x: T) -> Seq<T>
    decreases s.len(),
{
    if s.len() == 0 {
        s
    } else {
        let r = without(s.drop_last(), x);
        if s.last() == x {
            r
        } else {
            r.push(s.last())
        }
    }
}

fn remove_track_id(v: &mut Vec<TrackId>, id: TrackId)
    ensures
        final(v)@ == without(old(v)@, id),
{
    let ghost s = v@;
    let mut out: Vec<TrackId> = Vec::new();
    let mut i: usize = 0;
    while i < v.len()
        invariant
            s == v@,
            i <= v.len(),
            out@ == without(s.take(i as int), id),
        decreases v.len() - i,
    {
        assert(s.take(i + 1).drop_last() =~= s.take(i as int));
        if v[i] != id {
            out.push(v[i]);
        }
        i += 1;
    }
    assert(s.take(i as int) =~= s);
    *v = out;
}

fn remove_clip_id(v: &mut Vec<ClipId>, id: ClipId)
    ensures
        final(v)@ == without(old(v)@, id),
{
    let ghost s = v@;
    let mut out: Vec<ClipId> = Vec::new();
    let mut i: usize = 0;
    while i < v.len()
        invariant
            s == v@,
            i <= v.len(),
            out@ == without(s.take(i as int), id),
        decreases v.len() - i,
    {
        assert(s.take(i + 1).drop_last() =~= s.take(i as int));
        if v[i] != id {
            out.push(v[i]);
        }
        i += 1;
    }
    assert(s.take(i as int) =~= s);
    *v = out;
}

/// Where a track at `pos` lands when moved by `offset`, clamped to the
/// list's bounds.
pub open spec fn clamped_position(pos: int, offset: int, len: int) -> int {
    let p = pos + offset;
    if p < 0 {
        0
    } else if p > len - 1 {
        len - 1
    } else {
        p
    }
}

/// `clips` renumbered with consecutive ids starting at `base`.
pub open spec fn renumbered(clips: Seq<ClipModel>, base: int) -> Seq<ClipModel> {
    Seq::new(clips.len(), |k: int| ClipModel { id: ClipId((base + k) as u32), ..clips[k] })
}

impl Project {
    /// Removes track `id` (if present) and drops it from the track
    /// selection; recorded as one undo step either way.
    pub fn remove_track(&mut self, id: TrackId)
        requires
            old(self).wf(),
        ensures
            final(self).wf(),
            final(self).content() == (if old(self).content().has_track(id) {
                ProjectContent {
                    tracks: old(self).content().tracks.remove(old(self).content().track_pos(id)),
                    ..old(self).content()
                }
            } else {
                old(self).content()
            }),
            final(self).edit_state() == after_edit(old(self).edit_state(), final(self).content()),
            final(self).selected_clips() == old(self).selected_clips(),
            final(self).selected_track_ids() == without(old(self).selected_track_ids(), id),
            final(self).clipboard() == old(self).clipboard(),
    {
        let ghost c = self.content();
        self.push_undo();
        if let Some(i) = self.track_index(id) {
            self.tracks.remove(i);
            let ghost c2 = self.content();
            assert(c2.tracks =~= c.tracks.remove(i as int));
            proof {
                lemma_reindex_wf(c, c2, |k: int| if k < i { k } else { k + 1 });
            }
        }
        let ghost sel0 = self.selected_tracks@;
        remove_track_id(&mut self.selected_tracks, id);
        proof {
            lemma_without_no_duplicates(sel0, id);
        }
    }

    fn move_track_from_to(&mut self, pos: usize, new_pos: usize)
        requires
            old(self).wf(),
            pos < old(self).content().tracks.len(),
            new_pos < old(self).content().tracks.len(),
        ensures
            final(self).wf(),
            final(self).content() == (ProjectContent {
                tracks: moved(old(self).content().tracks, pos as int, new_pos as int),
                ..old(self).content()
            }),
            final(self).edit_state() == after_edit(old(self).edit_state(), final(self).content()),
            final(self).selected_clips() == old(self).selected_clips(),
            final(self).selected_track_ids() == old(self).selected_track_ids(),
            final(self).clipboard() == old(self).clipboard(),
    {
        let ghost c = self.content();
        self.push_undo();
        let track = self.tracks.remove(pos);
        self.tracks.insert(new_pos, track);
        let ghost c2 = self.content();
        assert(c2.tracks =~= moved(c.tracks, pos as int, new_pos as int));
        proof {
            lemma_moved_index(c.tracks, pos as int, new_pos as int);
            lemma_reindex_wf(c, c2, |k: int| moved_index(pos as int, new_pos as int, k));
        }
    }

    /// Moves a track by `offset` positions (negative = earlier), clamped
    /// to the list's bounds. A move that lands where the track already is
    /// changes nothing and records no undo step.
    pub fn move_track(&mut self, id: TrackId, offset: i32)
        requires
            old(self).wf(),
        ensures
            final(self).wf(),
            ({
                let c = old(self).content();
                let pos = c.track_pos(id);
                let new_pos = clamped_position(pos, offset as int, c.tracks.len() as int);
                if c.has_track(id) && new_pos != pos {
                    &&& final(self).content() == (ProjectContent { tracks: moved(c.tracks, pos, new_pos), ..c })
                    &&& final(self).edit_state() == after_edit(old(self).edit_state(), final(self).content())
                    &&& final(self).selected_clips() == old(self).selected_clips()
                    &&& final(self).selected_track_ids() == old(self).selected_track_ids()
                    &&& final(self).clipboard() == old(self).clipboard()
                } else {
                    *final(self) == *old(self)
                }
            }),
    {
        let pos = match self.track_index(id) {
            Some(p) => p,
            None => return,
        };
        let len = self.tracks.len();
        let target: i128 = pos as i128 + offset as i128;
        let new_pos: usize = if target < 0 {
            0
        } else if target > len as i128 - 1 {
            len - 1
        } else {
            target as usize
        };
        if new_pos != pos {
            self.move_track_from_to(pos, new_pos);
        }
    }

    /// Moves track `id` to the top of the list (recorded as an undo step
    /// whenever the track exists).
    pub fn move_track_to_top(&mut self, id: TrackId)
        requires
            old(self).wf(),
        ensures
            final(self).wf(),
            ({
                let c = old(self).content();
                if c.has_track(id) {
                    &&& final(self).content() == (ProjectContent { tracks: moved(c.tracks, c.track_pos(id), 0), ..c })
                    &&& final(self).edit_state() == after_edit(old(self).edit_state(), final(self).content())
                    &&& final(self).selected_clips() == old(self).selected_clips()
                    &&& final(self).selected_track_ids() == old(self).selected_track_ids()
                    &&& final(self).clipboard() == old(self).clipboard()
                } else {
                    *final(self) == *old(self)
                }
            }),
    {
        if let Some(pos) = self.track_index(id) {
            self.move_track_from_to(pos, 0);
        }
    }

    /// Moves track `id` to the bottom of the list (recorded as an undo step
    /// whenever the track exists).
    pub fn move_track_to_bottom(&mut self, id: TrackId)
        requires
            old(self).wf(),
        ensures
            final(self).wf(),
            ({
                let c = old(self).content();
                if c.has_track(id) {
                    &&& final(self).content() == (ProjectContent {
                        tracks: moved(c.tracks, c.track_pos(id), c.tracks.len() - 1),
                        ..c
                    })
                    &&& final(self).edit_state() == after_edit(old(self).edit_state(), final(self).content())
                    &&& final(self).selected_clips() == old(self).selected_clips()
                    &&& final(self).selected_track_ids() == old(self).selected_track_ids()
                    &&& final(self).clipboard() == old(self).clipboard()
                } else {
                    *final(self) == *old(self)
                }
            }),
    {
        if let Some(pos) = self.track_index(id) {
            let last = self.tracks.len() - 1;
            self.move_track_from_to(pos, last);
        }
    }
}


impl Project {
    fn clip_location(&self, id: ClipId) -> (r: Option<(usize, usize)>)
        requires
            self.wf(),
        ensures
            match r {
                Some((i, k)) => self.content().is_clip_addr(i as int, k as int) && self.content().clip_at(
                    i as int,
                    k as int,
                ).id == id && self.content().has_clip(id) && self.content().clip_addr(id) == (i as int, k as int),
                None => !self.content().has_clip(id),
            },
    {
        let ghost c = self.content();
        let mut i: usize = 0;
        while i < self.tracks.len()
            invariant
                self.wf(),
                c == self.content(),
                i <= self.tracks.len(),
                c.tracks.len() == self.tracks.len(),
                forall|j: int, k: int| 0 <= j < i && c.is_clip_addr(j, k) ==> (#[trigger] c.clip_at(j, k)).id != id,
            decreases self.tracks.len() - i,
        {
            let track = &self.tracks[i];
            assert(c.tracks[i as int] == track@);
            let mut k: usize = 0;
            while k < track.clips.len()
                invariant
                    c.tracks[i as int] == track@,
                    i < c.tracks.len(),
                    k <= track.clips.len(),
                    c.wf(),
                    c == self.content(),
                    c.tracks[i as int].clips.len() == track.clips.len(),
                    forall|l: int| 0 <= l < k ==> (#[trigger] c.clip_at(i as int, l)).id != id,
                decreases track.clips.len() - k,
            {
                assert(c.clip_at(i as int, k as int) == track.clips@[k as int]@);
                if track.clips[k].id == id {
                    proof {
                        assert(c.clip_at(i as int, k as int).id == id);
                        assert(c.is_clip_addr(i as int, k as int));
                        assert(c.has_clip(id));
                        let a = c.clip_addr(id);
                        assert(c.is_clip_addr(a.0, a.1) && c.clip_at(a.0, a.1).id == id);
                        assert(a == (i as int, k as int));
                    }
                    return Some((i, k));
                }
                k += 1;
            }
            i += 1;
        }
        None
    }

    /// Which track currently owns `clip_id`, if any.
    pub fn find_clip_track(&self, clip_id: ClipId) -> (r: Option<TrackId>)
        requires
            self.wf(),
        ensures
            r == (if self.content().has_clip(clip_id) {
                Some(self.content().tracks[self.content().clip_addr(clip_id).0].id)
            } else {
                None
            }),
    {
        match self.clip_location(clip_id) {
            Some((i, _)) => Some(self.tracks[i].id),
            None => None,
        }
    }

    /// Every clip id on track `track_id`, in track order (empty if there is
    /// no such track).
    pub fn clip_ids_on_track(&self, track_id: TrackId) -> (ids: Vec<ClipId>)
        requires
            self.wf(),
        ensures
            ids@ == self.content().clip_ids_of(track_id),
    {
        let mut ids: Vec<ClipId> = Vec::new();
        if let Some(i) = self.track_index(track_id) {
            let track = &self.tracks[i];
            let ghost t = self.content().tracks[i as int];
            assert(t == track@);
            let mut k: usize = 0;
            while k < track.clips.len()
                invariant
                    t == track@,
                    k <= track.clips.len(),
                    t.clips.len() == track.clips.len(),
                    ids@ =~= t.clips.take(k as int).map_values(|c: ClipModel| c.id),
                decreases track.clips.len() - k,
            {
                assert(t.clips[k as int] == track.clips@[k as int]@);
                ids.push(track.clips[k].id);
                k += 1;
                assert(ids@ =~= t.clips.take(k as int).map_values(|c: ClipModel| c.id));
            }
            assert(t.clips.take(k as int) =~= t.clips);
        }
        ids
    }

    fn alloc_clip_id(&mut self) -> (id: ClipId)
        requires
            old(self).content().next_clip_id < u32::MAX,
        ensures
            id == ClipId(old(self).content().next_clip_id),
            final(self).content() == (ProjectContent { next_clip_id: (old(self).content().next_clip_id + 1) as u32, ..old(self).content() }),
            final(self).edit_state().undo == old(self).edit_state().undo,
            final(self).edit_state().redo == old(self).edit_state().redo,
            final(self).selected_clips() == old(self).selected_clips(),
            final(self).selected_track_ids() == old(self).selected_track_ids(),
            final(self).clipboard() == old(self).clipboard(),
    {
        let id = ClipId(self.next_clip_id);
        self.next_clip_id += 1;
        id
    }

    /// Duplicates a track (name + " copy", controls, and all clips) as a new
    /// track directly below the original, with a fresh track id and fresh
    /// clip ids (handed out in clip order).
    pub fn duplicate_track(&mut self, id: TrackId) -> (r: Option<TrackId>)
        requires
            old(self).wf(),
            old(self).content().next_track_id < u32::MAX,
            old(self).content().has_track(id) ==> old(self).content().next_clip_id
                + old(self).content().tracks[old(self).content().track_pos(id)].clips.len() <= u32::MAX,
        ensures
            final(self).wf(),
            ({
                let c = old(self).content();
                if c.has_track(id) {
                    let pos = c.track_pos(id);
                    let src = c.tracks[pos];
                    let new_id = TrackId(c.next_track_id);
                    let copy = TrackModel {
                        id: new_id,
                        name: src.name + seq![' ', 'c', 'o', 'p', 'y'],
                        clips: renumbered(src.clips, c.next_clip_id as int),
                        ..src
                    };
                    &&& r == Some(new_id)
                    &&& final(self).content() == (ProjectContent {
                        tracks: c.tracks.insert(pos + 1, copy),
                        next_track_id: (c.next_track_id + 1) as u32,
                        next_clip_id: (c.next_clip_id + src.clips.len()) as u32,
                        ..c
                    })
                    &&& final(self).edit_state() == after_edit(old(self).edit_state(), final(self).content())
                    &&& final(self).selected_clips() == old(self).selected_clips()
                    &&& final(self).selected_track_ids() == old(self).selected_track_ids()
                    &&& final(self).clipboard() == old(self).clipboard()
                } else {
                    &&& r.is_none()
                    &&& *final(self) == *old(self)
                }
            }),
    {
        let ghost c = self.content();
        let pos = match self.track_index(id) {
            Some(p) => p,
            None => return None,
        };
        self.push_undo();
        let ghost src = c.tracks[pos as int];
        assert(self.tracks@[pos as int]@ == src);
        let new_id = TrackId(self.next_track_id);
        self.next_track_id += 1;
        let mut name = self.tracks[pos].name.clone();
        proof {
            reveal_strlit(" copy");
        }
        assert(" copy"@ =~= seq![' ', 'c', 'o', 'p', 'y']);
        name.append(" copy");
        let base = self.next_clip_id;
        let mut clips: Vec<Clip> = Vec::new();
        let src_track = &self.tracks[pos];
        let n = src_track.clips.len();
        let mut k: usize = 0;
        while k < n
            invariant
                k <= n,
                n == src.clips.len(),
                src_track@ == src,
                base == c.next_clip_id,
                c.next_clip_id + src.clips.len() <= u32::MAX,
                clips@.len() == k,
                forall|l: int| 0 <= l < k ==> (#[trigger] clips@[l])@ == renumbered(src.clips, c.next_clip_id as int)[l],
            decreases n - k,
        {
            let mut clip = src_track.clips[k].clone();
            assert(clip@ == src.clips[k as int]);
            clip.id = ClipId(base + k as u32);
            clips.push(clip);
            k += 1;
        }
        let cloned = Track {
            id: new_id,
            name,
            pan_percent: src_track.pan_percent,
            volume: src_track.volume,
            muted: src_track.muted,
            soloed: src_track.soloed,
            channels: src_track.channels,
            clips,
        };
        self.next_clip_id = base + n as u32;
        let ghost copy = cloned@;
        assert(copy.clips =~= renumbered(src.clips, c.next_clip_id as int));
        assert(self.content().tracks.len() == self.tracks.len());
        assert(pos < self.tracks.len());
        self.tracks.insert(pos + 1, cloned);
        let ghost c2 = self.content();
        assert(c2.tracks =~= c.tracks.insert(pos + 1, copy));
        proof {
            let p = pos as int;
            assert(copy.wf()) by {
                assert forall|l: int| 0 <= l < copy.clips.len() implies (#[trigger] copy.clips[l]).wf() by {
                    assert(src.clips[l].wf());
                }
            }
            assert(c2.tracks_wf()) by {
                assert forall|i: int| 0 <= i < c2.tracks.len() implies (#[trigger] c2.tracks[i]).wf() by {
                    if i <= p {
                        assert(c2.tracks[i] == c.tracks[i]);
                    } else if i > p + 1 {
                        assert(c2.tracks[i] == c.tracks[i - 1]);
                    }
                }
            }
            assert(c2.track_ids_fresh()) by {
                assert forall|i: int| 0 <= i < c2.tracks.len() implies (#[trigger] c2.tracks[i]).id.0 < c2.next_track_id by {
                    if i <= p {
                        assert(c2.tracks[i] == c.tracks[i]);
                    } else if i > p + 1 {
                        assert(c2.tracks[i] == c.tracks[i - 1]);
                    }
                }
            }
            assert(c2.track_ids_distinct()) by {
                assert forall|i: int, j: int|
                    0 <= i < c2.tracks.len() && 0 <= j < c2.tracks.len() && i != j implies #[trigger] c2.tracks[i].id
                    != #[trigger] c2.tracks[j].id by {
                    let oi = if i <= p { i } else { i - 1 };
                    let oj = if j <= p { j } else { j - 1 };
                    if i != p + 1 {
                        assert(c2.tracks[i] == c.tracks[oi]);
                    }
                    if j != p + 1 {
                        assert(c2.tracks[j] == c.tracks[oj]);
                    }
                }
            }
            let orig = |i: int, k: int| if i <= p { (i, k) } else { (i - 1, k) };
            let base = c.next_clip_id as int;
            assert(c2.next_clip_id == c.next_clip_id + src.clips.len());
            assert(c2.next_track_id == c.next_track_id + 1);
            assert(c2.sample_rate_hz == c.sample_rate_hz);
            assert(c2.tracks[p + 1] == copy);
            assert forall|k: int| 0 <= k < copy.clips.len() implies (#[trigger] c2.clip_at(p + 1, k)).id.0 == base + k by {
                assert(c2.clip_at(p + 1, k) == renumbered(src.clips, base)[k]);
            }
            assert forall|i: int, k: int| c2.is_clip_addr(i, k) implies (#[trigger] c2.clip_at(i, k)).id.0 < c2.next_clip_id by {
                if i != p + 1 {
                    let oi = if i <= p { i } else { i - 1 };
                    assert(c2.tracks[i] == c.tracks[oi]);
                    assert(c.is_clip_addr(oi, k));
                    assert(c2.clip_at(i, k) == c.clip_at(oi, k));
                    assert(c.clip_at(oi, k).id.0 < c.next_clip_id);
                    assert(c2.clip_at(i, k).id.0 < c2.next_clip_id);
                } else {
                    assert(k < copy.clips.len());
                    assert(c2.clip_at(p + 1, k).id.0 == base + k);
                    assert(c2.clip_at(i, k).id.0 < c2.next_clip_id);
                }
            }
            assert forall|i: int, k: int|
                c2.is_clip_addr(i, k) && (#[trigger] c2.clip_at(i, k)).id.0 < c.next_clip_id implies c.is_clip_addr(orig(i, k).0, orig(i, k).1)
                && c.clip_at(orig(i, k).0, orig(i, k).1).id == c2.clip_at(i, k).id by {
                let oi = if i <= p { i } else { i - 1 };
                if i == p + 1 {
                    assert(c2.clip_at(p + 1, k).id.0 == base + k);
                }
                assert(c2.tracks[i] == c.tracks[oi]);
            }
            assert forall|i: int, k: int, j: int, l: int|
                c2.is_clip_addr(i, k) && c2.is_clip_addr(j, l) && (i != j || k != l) && (#[trigger] c2.clip_at(i, k)).id.0
                    >= c.next_clip_id && (#[trigger] c2.clip_at(j, l)).id.0 >= c.next_clip_id implies c2.clip_at(i, k).id
                    != c2.clip_at(j, l).id by {
                if i != p + 1 {
                    let oi = if i <= p { i } else { i - 1 };
                    assert(c2.tracks[i] == c.tracks[oi]);
                    assert(c.is_clip_addr(oi, k));
                    assert(c2.clip_at(i, k) == c.clip_at(oi, k));
                    assert(c.clip_at(oi, k).id.0 < c.next_clip_id);
                } else if j != p + 1 {
                    let oj = if j <= p { j } else { j - 1 };
                    assert(c2.tracks[j] == c.tracks[oj]);
                    assert(c.is_clip_addr(oj, l));
                    assert(c2.clip_at(j, l) == c.clip_at(oj, l));
                    assert(c.clip_at(oj, l).id.0 < c.next_clip_id);
                } else {
                    assert(c2.clip_at(p + 1, k).id.0 == base + k);
                    assert(c2.clip_at(p + 1, l).id.0 == base + l);
                }
            }
            lemma_wf_by_origin(c, c2, orig);
            lemma_history_wf_push(old(self).undo_history(), c);
            assert(c.has_track(id));
            assert(c.track_pos(id) == p);
            assert(copy =~= TrackModel {
                id: new_id,
                name: src.name + seq![' ', 'c', 'o', 'p', 'y'],
                clips: renumbered(src.clips, c.next_clip_id as int),
                ..src
            });
            assert(self.edit_state() =~= after_edit(old(self).edit_state(), c2));
            assert(c2 =~= (ProjectContent {
                tracks: c.tracks.insert(p + 1, copy),
                next_track_id: (c.next_track_id + 1) as u32,
                next_clip_id: (c.next_clip_id + src.clips.len()) as u32,
                ..c
            }));
        }
        Some(new_id)
    }
}


/// A single track's clip list replaced: every other track is untouched,
/// and each clip of the new list is either fresh or one of the track's own
/// clips (with the same id), no two of them from the same original clip.
pub proof fn lemma_one_track_wf(c: ProjectContent, c2: ProjectContent, ti: int, orig: spec_fn(int) -> int)
    requires
        c.wf(),
        0 <= ti < c.tracks.len(),
        c2.tracks.len() == c.tracks.len(),
        c2.next_track_id == c.next_track_id,
        c.next_clip_id <= c2.next_clip_id,
        forall|i: int| 0 <= i < c.tracks.len() && i != ti ==> #[trigger] c2.tracks[i] == c.tracks[i],
        c2.tracks[ti].id == c.tracks[ti].id,
        c2.tracks[ti].wf(),
        forall|k: int| 0 <= k < c2.tracks[ti].clips.len() ==> (#[trigger] c2.tracks[ti].clips[k]).id.0 < c2.next_clip_id,
        forall|k: int|
            0 <= k < c2.tracks[ti].clips.len() && (#[trigger] c2.tracks[ti].clips[k]).id.0 < c.next_clip_id ==> 0 <= orig(k)
                < c.tracks[ti].clips.len() && c.tracks[ti].clips[orig(k)].id == c2.tracks[ti].clips[k].id,
        forall|k: int, l: int|
            0 <= k < c2.tracks[ti].clips.len() && 0 <= l < c2.tracks[ti].clips.len() && k != l && (#[trigger] c2.tracks[ti].clips[k]).id.0
                < c.next_clip_id && (#[trigger] c2.tracks[ti].clips[l]).id.0 < c.next_clip_id ==> orig(k) != orig(l),
        forall|k: int, l: int|
            0 <= k < c2.tracks[ti].clips.len() && 0 <= l < c2.tracks[ti].clips.len() && k != l && (#[trigger] c2.tracks[ti].clips[k]).id.0
                >= c.next_clip_id && (#[trigger] c2.tracks[ti].clips[l]).id.0 >= c.next_clip_id ==> c2.tracks[ti].clips[k].id
                != c2.tracks[ti].clips[l].id,
    ensures
        c2.wf(),
{
    assert forall|i: int| 0 <= i < c2.tracks.len() implies (#[trigger] c2.tracks[i]).wf() by {
        if i != ti {
            assert(c2.tracks[i] == c.tracks[i]);
        }
    }
    assert forall|i: int| 0 <= i < c2.tracks.len() implies (#[trigger] c2.tracks[i]).id.0 < c2.next_track_id by {
        if i != ti {
            assert(c2.tracks[i] == c.tracks[i]);
        }
    }
    assert forall|i: int, j: int| 0 <= i < c2.tracks.len() && 0 <= j < c2.tracks.len() && i != j implies #[trigger] c2.tracks[i].id
        != #[trigger] c2.tracks[j].id by {
        if i != ti {
            assert(c2.tracks[i] == c.tracks[i]);
        }
        if j != ti {
            assert(c2.tracks[j] == c.tracks[j]);
        }
    }
    let o = |i: int, k: int| if i == ti { (ti, orig(k)) } else { (i, k) };
    assert forall|i: int, k: int| c2.is_clip_addr(i, k) implies (#[trigger] c2.clip_at(i, k)).id.0 < c2.next_clip_id by {
        if i != ti {
            assert(c2.tracks[i] == c.tracks[i]);
            assert(c.is_clip_addr(i, k));
            assert(c.clip_at(i, k).id.0 < c.next_clip_id);
        } else {
            assert(c2.clip_at(i, k) == c2.tracks[ti].clips[k]);
        }
    }
    assert forall|i: int, k: int|
        c2.is_clip_addr(i, k) && (#[trigger] c2.clip_at(i, k)).id.0 < c.next_clip_id implies c.is_clip_addr(o(i, k).0, o(i, k).1)
        && c.clip_at(o(i, k).0, o(i, k).1).id == c2.clip_at(i, k).id by {
        if i != ti {
            assert(c2.tracks[i] == c.tracks[i]);
        } else {
            assert(c2.clip_at(i, k) == c2.tracks[ti].clips[k]);
        }
    }
    assert forall|i: int, k: int, j: int, l: int|
        c2.is_clip_addr(i, k) && c2.is_clip_addr(j, l) && (i != j || k != l) && (#[trigger] c2.clip_at(i, k)).id.0
            < c.next_clip_id && (#[trigger] c2.clip_at(j, l)).id.0 < c.next_clip_id implies o(i, k) != o(j, l) by {
        if i == ti && j == ti {
            assert(c2.clip_at(i, k) == c2.tracks[ti].clips[k]);
            assert(c2.clip_at(j, l) == c2.tracks[ti].clips[l]);
        }
    }
    assert forall|i: int, k: int, j: int, l: int|
        c2.is_clip_addr(i, k) && c2.is_clip_addr(j, l) && (i != j || k != l) && (#[trigger] c2.clip_at(i, k)).id.0
            >= c.next_clip_id && (#[trigger] c2.clip_at(j, l)).id.0 >= c.next_clip_id implies c2.clip_at(i, k).id
            != c2.clip_at(j, l).id by {
        if i != ti {
            assert(c2.tracks[i] == c.tracks[i]);
            assert(c.is_clip_addr(i, k));
            assert(c.clip_at(i, k).id.0 < c.next_clip_id);
        } else if j != ti {
            assert(c2.tracks[j] == c.tracks[j]);
            assert(c.is_clip_addr(j, l));
            assert(c.clip_at(j, l).id.0 < c.next_clip_id);
        } else {
            assert(c2.clip_at(i, k) == c2.tracks[ti].clips[k]);
            assert(c2.clip_at(j, l) == c2.tracks[ti].clips[l]);
        }
    }
    lemma_wf_by_origin(c, c2, o);
}

/// Appending one fresh, well-formed clip to a track keeps the project
/// well-formed.
pub proof fn lemma_push_fresh_clip(c: ProjectContent, ti: int, t2: TrackModel, clip: ClipModel)
    requires
        c.wf(),
        0 <= ti < c.tracks.len(),
        t2.id == c.tracks[ti].id,
        t2.clips == c.tracks[ti].clips.push(clip),
        t2.channels >= 1,
        clip.wf(),
        clip.id.0 == c.next_clip_id,
        c.next_clip_id < u32::MAX,
    ensures
        (ProjectContent { tracks: c.tracks.update(ti, t2), next_clip_id: (c.next_clip_id + 1) as u32, ..c }).wf(),
{
    let c2 = ProjectContent { tracks: c.tracks.update(ti, t2), next_clip_id: (c.next_clip_id + 1) as u32, ..c };
    let old_clips = c.tracks[ti].clips;
    assert forall|k: int| 0 <= k < t2.clips.len() implies (#[trigger] t2.clips[k]).wf() by {
        if k < old_clips.len() {
            assert(t2.clips[k] == old_clips[k]);
            assert(c.tracks[ti].wf());
        }
    }
    assert forall|k: int| 0 <= k < c2.tracks[ti].clips.len() implies (#[trigger] c2.tracks[ti].clips[k]).id.0 < c2.next_clip_id by {
        if k < old_clips.len() {
            assert(c.is_clip_addr(ti, k));
            assert(c.clip_at(ti, k).id.0 < c.next_clip_id);
        }
    }
    assert forall|k: int|
        0 <= k < c2.tracks[ti].clips.len() && (#[trigger] c2.tracks[ti].clips[k]).id.0 < c.next_clip_id implies 0 <= k
            < c.tracks[ti].clips.len() && c.tracks[ti].clips[k].id == c2.tracks[ti].clips[k].id by {
    }
    assert forall|k: int, l: int|
        0 <= k < c2.tracks[ti].clips.len() && 0 <= l < c2.tracks[ti].clips.len() && k != l && (#[trigger] c2.tracks[ti].clips[k]).id.0
            >= c.next_clip_id && (#[trigger] c2.tracks[ti].clips[l]).id.0 >= c.next_clip_id implies c2.tracks[ti].clips[k].id
            != c2.tracks[ti].clips[l].id by {
        if k < old_clips.len() {
            assert(c.is_clip_addr(ti, k));
            assert(c.clip_at(ti, k).id.0 < c.next_clip_id);
        } else if l < old_clips.len() {
            assert(c.is_clip_addr(ti, l));
            assert(c.clip_at(ti, l).id.0 < c.next_clip_id);
        }
    }
    lemma_one_track_wf(c, c2, ti, |k: int| k);
}

/// `samples` (interleaved, `from` channels) converted to `to` channels:
/// mono is duplicated to both sides going 1 -> 2, each stereo frame goes
/// through `downmix` going 2 -> 1, and any other pair leaves the samples as
/// they are.
pub open spec fn converted_ok<F: Fn(u32, u32) -> u32>(samples: Seq<u32>, from: u8, to: u8, downmix: F, out: Seq<u32>) -> bool {
    if from == to {
        out == samples
    } else if from == 1 && to == 2 {
        out == Seq::new(2 * samples.len(), |i: int| samples[i / 2])
    } else if from == 2 && to == 1 {
        &&& out.len() == samples.len() / 2
        &&& forall|i: int| 0 <= i < out.len() ==> call_ensures(downmix, (samples[2 * i], samples[2 * i + 1]), #[trigger] out[i])
    } else {
        out == samples
    }
}

fn convert_channel_count<F: Fn(u32, u32) -> u32>(samples: Vec<u32>, from: u8, to: u8, downmix: &F) -> (out: Vec<u32>)
    requires
        forall|a: u32, b: u32| downmix.requires((a, b)),
    ensures
        converted_ok(samples@, from, to, *downmix, out@),
        out@.len() <= 2 * samples@.len(),
{
    if from == to {
        return samples;
    }
    if from == 1 && to == 2 {
        let mut out: Vec<u32> = Vec::new();
        let mut i: usize = 0;
        while i < samples.len()
            invariant
                i <= samples.len(),
                out@ =~= Seq::new(2 * i as nat, |j: int| samples@[j / 2]),
            decreases samples.len() - i,
        {
            out.push(samples[i]);
            out.push(samples[i]);
            i += 1;
            assert(out@ =~= Seq::new(2 * i as nat, |j: int| samples@[j / 2]));
        }
        return out;
    }
    if from == 2 && to == 1 {
        let mut out: Vec<u32> = Vec::new();
        let n = samples.len() / 2;
        let mut i: usize = 0;
        while i < n
            invariant
                i <= n,
                n == samples.len() / 2,
                forall|a: u32, b: u32| downmix.requires((a, b)),
                out@.len() == i,
                forall|j: int| 0 <= j < i ==> call_ensures(*downmix, (samples@[2 * j], samples@[2 * j + 1]), #[trigger] out@[j]),
            decreases n - i,
        {
            let m = downmix(samples[2 * i], samples[2 * i + 1]);
            out.push(m);
            i += 1;
        }
        return out;
    }
    samples
}

impl Project {
    /// Adds a new clip built from interleaved `samples` (`source_channels`
    /// channels, 0 treated as 1) onto `track_id` at `start_sample`. An empty
    /// target track adopts the source channel count; a track that already
    /// has clips keeps its own, and the audio is converted to match (mono
    /// duplicated to both channels, stereo frames reduced by `downmix`).
    /// The undo step is recorded and the clip id handed out even when the
    /// track does not exist.
    pub fn add_clip_channels<F: Fn(u32, u32) -> u32>(
        &mut self,
        track_id: TrackId,
        name: String,
        start_sample: u64,
        samples: Vec<u32>,
        source_channels: u8,
        downmix: F,
    ) -> (r: Option<ClipId>)
        requires
            old(self).wf(),
            old(self).content().next_clip_id < u32::MAX,
            start_sample + 2 * samples@.len() <= i64::MAX,
            forall|a: u32, b: u32| downmix.requires((a, b)),
        ensures
            final(self).wf(),
            final(self).edit_state().undo == recorded(old(self).edit_state().undo, old(self).content()),
            final(self).edit_state().redo == Seq::<ProjectContent>::empty(),
            final(self).selected_clips() == old(self).selected_clips(),
            final(self).selected_track_ids() == old(self).selected_track_ids(),
            final(self).clipboard() == old(self).clipboard(),
            ({
                let c = old(self).content();
                let c2 = final(self).content();
                let id = ClipId(c.next_clip_id);
                &&& c2.next_clip_id == c.next_clip_id + 1
                &&& c2.next_track_id == c.next_track_id
                &&& c2.sample_rate_hz == c.sample_rate_hz
                &&& if c.has_track(track_id) {
                    let pos = c.track_pos(track_id);
                    let t = c.tracks[pos];
                    let src_ch: u8 = if source_channels >= 1 { source_channels } else { 1 };
                    let ch: u8 = if t.clips.len() == 0 { src_ch } else { t.channels };
                    let added = c2.tracks[pos].clips.last();
                    &&& r == Some(id)
                    &&& c2.tracks.len() == c.tracks.len()
                    &&& forall|i: int| 0 <= i < c.tracks.len() && i != pos ==> #[trigger] c2.tracks[i] == c.tracks[i]
                    &&& c2.tracks[pos] == (TrackModel { channels: ch, clips: t.clips.push(added), ..t })
                    &&& converted_ok(samples@, src_ch, ch, downmix, added.source)
                    &&& added == ClipModel::baked(id, name@, start_sample, added.source, ch)
                } else {
                    &&& r.is_none()
                    &&& c2.tracks == c.tracks
                }
            }),
    {
        let ghost c = self.content();
        self.push_undo();
        let id = self.alloc_clip_id();
        let ghost c1 = self.content();
        let pos = match self.track_index(track_id) {
            Some(p) => p,
            None => {
                proof {
                    lemma_reindex_wf(c, c1, |i: int| i);
                    lemma_history_wf_push(old(self).undo_history(), c);
                }
                return None;
            },
        };
        let source_channels = if source_channels >= 1 { source_channels } else { 1 };
        if self.tracks[pos].clips.len() == 0 {
            self.tracks[pos].channels = source_channels;
        }
        let target_channels = self.tracks[pos].channels;
        let converted = convert_channel_count(samples, source_channels, target_channels, &downmix);
        let clip = Clip::from_samples_channels(id, name, start_sample, converted, target_channels);
        let ghost cm = clip@;
        self.tracks[pos].clips.push(clip);
        let ghost c2 = self.content();
        proof {
            let t = c.tracks[pos as int];
            let ch = if t.clips.len() == 0 { source_channels } else { t.channels };
            let t2 = TrackModel { channels: ch, clips: t.clips.push(cm), ..t };
            assert(c2.tracks[pos as int].clips =~= t.clips.push(cm));
            assert(c2.tracks[pos as int] =~= t2);
            assert(c2.tracks =~= c.tracks.update(pos as int, t2));
            assert(cm.wf()) by {
                let chi = cm.ch();
                let n = cm.source.len() as int;
                assert(n / chi <= n) by (nonlinear_arith)
                    requires
                        chi >= 1,
                        n >= 0,
                ;
            }
            lemma_push_fresh_clip(c, pos as int, t2, cm);
            assert(c2 =~= (ProjectContent { tracks: c.tracks.update(pos as int, t2), next_clip_id: (c.next_clip_id + 1) as u32, ..c }));
            lemma_history_wf_push(old(self).undo_history(), c);
        }
        Some(id)
    }

    /// Adds a new mono clip built from `samples` onto `track_id` at
    /// `start_sample` (duplicated to both channels on a stereo track).
    pub fn add_clip(&mut self, track_id: TrackId, name: String, start_sample: u64, samples: Vec<u32>) -> (r: Option<ClipId>)
        requires
            old(self).wf(),
            old(self).content().next_clip_id < u32::MAX,
            start_sample + 2 * samples@.len() <= i64::MAX,
        ensures
            final(self).wf(),
            final(self).edit_state().undo == recorded(old(self).edit_state().undo, old(self).content()),
            final(self).edit_state().redo == Seq::<ProjectContent>::empty(),
            final(self).selected_clips() == old(self).selected_clips(),
            final(self).selected_track_ids() == old(self).selected_track_ids(),
            final(self).clipboard() == old(self).clipboard(),
            ({
                let c = old(self).content();
                let c2 = final(self).content();
                let id = ClipId(c.next_clip_id);
                &&& c2.next_clip_id == c.next_clip_id + 1
                &&& c2.next_track_id == c.next_track_id
                &&& c2.sample_rate_hz == c.sample_rate_hz
                &&& if c.has_track(track_id) {
                    let pos = c.track_pos(track_id);
                    let t = c.tracks[pos];
                    let ch: u8 = if t.clips.len() == 0 { 1 } else { t.channels };
                    let data = if ch == 2 { Seq::new(2 * samples@.len(), |i: int| samples@[i / 2]) } else { samples@ };
                    let added = ClipModel::baked(id, name@, start_sample, data, ch);
                    &&& r == Some(id)
                    &&& c2.tracks == c.tracks.update(pos, TrackModel { channels: ch, clips: t.clips.push(added), ..t })
                } else {
                    &&& r.is_none()
                    &&& c2.tracks == c.tracks
                }
            }),
    {
        let ghost c = self.content();
        let r = self.add_clip_channels(track_id, name, start_sample, samples, 1, |a: u32, b: u32| a);
        proof {
            let c2 = self.content();
            if c.has_track(track_id) {
                let pos = c.track_pos(track_id);
                let t = c.tracks[pos];
                let ch: u8 = if t.clips.len() == 0 { 1 } else { t.channels };
                let added = c2.tracks[pos].clips.last();
                assert(c2.tracks =~= c.tracks.update(pos, TrackModel { channels: ch, clips: t.clips.push(added), ..t }));
            }
        }
        r
    }
}


impl ProjectContent {
    /// This content with the clip at (`i`, `k`) replaced by `m`.
    pub open spec fn with_clip(self, i: int, k: int, m: ClipModel) -> ProjectContent {
        ProjectContent {
            tracks: self.tracks.update(i, TrackModel { clips: self.tracks[i].clips.update(k, m), ..self.tracks[i] }),
            ..self
        }
    }

    /// This content with clip `id` replaced by `m` (meaningful when
    /// `has_clip(id)`).
    pub open spec fn with_clip_id(self, id: ClipId, m: ClipModel) -> ProjectContent {
        self.with_clip(self.clip_addr(id).0, self.clip_addr(id).1, m)
    }
}

/// Replacing a clip with a well-formed clip of the same id keeps a project
/// well-formed.
pub proof fn lemma_with_clip_wf(c: ProjectContent, i: int, k: int, m: ClipModel)
    requires
        c.wf(),
        c.is_clip_addr(i, k),
        m.id == c.clip_at(i, k).id,
        m.wf(),
    ensures
        c.with_clip(i, k, m).wf(),
{
    let c2 = c.with_clip(i, k, m);
    let t2 = c2.tracks[i];
    assert(c.tracks[i].wf());
    assert forall|l: int| 0 <= l < t2.clips.len() implies (#[trigger] t2.clips[l]).wf() by {
        if l != k {
            assert(t2.clips[l] == c.tracks[i].clips[l]);
        }
    }
    assert forall|l: int| 0 <= l < c2.tracks[i].clips.len() implies (#[trigger] c2.tracks[i].clips[l]).id.0 < c2.next_clip_id by {
        assert(c.is_clip_addr(i, l));
        assert(c.clip_at(i, l).id.0 < c.next_clip_id);
    }
    assert forall|l: int|
        0 <= l < c2.tracks[i].clips.len() && (#[trigger] c2.tracks[i].clips[l]).id.0 < c.next_clip_id implies 0 <= l
            < c.tracks[i].clips.len() && c.tracks[i].clips[l].id == c2.tracks[i].clips[l].id by {
    }
    assert forall|l: int, q: int|
        0 <= l < c2.tracks[i].clips.len() && 0 <= q < c2.tracks[i].clips.len() && l != q && (#[trigger] c2.tracks[i].clips[l]).id.0
            >= c.next_clip_id && (#[trigger] c2.tracks[i].clips[q]).id.0 >= c.next_clip_id implies c2.tracks[i].clips[l].id
            != c2.tracks[i].clips[q].id by {
        assert(c.is_clip_addr(i, l));
        assert(c.clip_at(i, l).id.0 < c.next_clip_id);
    }
    lemma_one_track_wf(c, c2, i, |l: int| l);
}

/// `samples` (interleaved, `ch` channels) with frames `from..to` silenced.
pub open spec fn muted(samples: Seq<u32>, ch: int, from: int, to: int) -> Seq<u32> {
    Seq::new(samples.len(), |j: int| if from <= j / ch < to { SILENCE } else { samples[j] })
}

/// `samples` with frames in reverse order, each frame's channels kept
/// together.
pub open spec fn reversed_frames(samples: Seq<u32>, ch: int) -> Seq<u32> {
    let frames = samples.len() as int / ch;
    Seq::new((frames * ch) as nat, |j: int| samples[(frames - 1 - j / ch) * ch + j % ch])
}

/// Stereo `samples` with left and right swapped in every frame.
pub open spec fn swapped_channels(samples: Seq<u32>) -> Seq<u32> {
    let frames = samples.len() as int / 2;
    Seq::new((frames * 2) as nat, |j: int| if j % 2 == 0 { samples[j + 1] } else { samples[j - 1] })
}

/// The sign bit of a 32-bit float pattern.
pub const SIGN_BIT: u32 = 0x8000_0000;

/// Every sample negated (its sign bit flipped).
pub open spec fn inverted(samples: Seq<u32>) -> Seq<u32> {
    Seq::new(samples.len(), |j: int| samples[j] ^ SIGN_BIT)
}

impl Project {
    fn set_clip(&mut self, i: usize, k: usize, clip: Clip)
        requires
            old(self).wf(),
            old(self).content().is_clip_addr(i as int, k as int),
            clip@.id == old(self).content().clip_at(i as int, k as int).id,
            clip@.wf(),
        ensures
            final(self).wf(),
            final(self).content() == old(self).content().with_clip(i as int, k as int, clip@),
            final(self).edit_state().undo == old(self).edit_state().undo,
            final(self).edit_state().redo == old(self).edit_state().redo,
            final(self).selected_clips() == old(self).selected_clips(),
            final(self).selected_track_ids() == old(self).selected_track_ids(),
            final(self).clipboard() == old(self).clipboard(),
    {
        let ghost c = self.content();
        let ghost m = clip@;
        self.tracks[i].clips.set(k, clip);
        proof {
            let c2 = self.content();
            assert(c2.tracks[i as int].clips =~= c.tracks[i as int].clips.update(k as int, m));
            assert(c2.tracks[i as int] =~= (TrackModel { clips: c.tracks[i as int].clips.update(k as int, m), ..c.tracks[i as int] }));
            assert(c2 =~= c.with_clip(i as int, k as int, m));
            lemma_with_clip_wf(c, i as int, k as int, m);
        }
    }

    /// Replaces the clip at (`i`, `k`) with a freshly baked clip of the
    /// same id, name, start and channel count holding `samples`.
    fn rebake(&mut self, i: usize, k: usize, samples: Vec<u32>)
        requires
            old(self).wf(),
            old(self).content().is_clip_addr(i as int, k as int),
            old(self).content().clip_at(i as int, k as int).start + samples@.len() / (old(self).content().clip_at(i as int, k as int).ch() as nat)
                <= i64::MAX,
            samples@.len() <= i64::MAX,
        ensures
            final(self).wf(),
            ({
                let c = old(self).content();
                let o = c.clip_at(i as int, k as int);
                final(self).content() == c.with_clip(i as int, k as int, ClipModel::baked(o.id, o.name, o.start, samples@, o.channels))
            }),
            final(self).edit_state().undo == old(self).edit_state().undo,
            final(self).edit_state().redo == old(self).edit_state().redo,
            final(self).selected_clips() == old(self).selected_clips(),
            final(self).selected_track_ids() == old(self).selected_track_ids(),
            final(self).clipboard() == old(self).clipboard(),
    {
        let ghost o = self.content().clip_at(i as int, k as int);
        let old_clip = &self.tracks[i].clips[k];
        assert(old_clip@ == o);
        let clip = Clip::from_samples_channels(old_clip.id, old_clip.name.clone(), old_clip.start_sample, samples, old_clip.channels);
        self.set_clip(i, k, clip);
    }

    /// Replaces clip `clip_id`'s audio with `samples` (interleaved, in the
    /// clip's own channel count), as one undo step: the clip keeps its id,
    /// name, position and channel count, and any hidden trimmed-away audio
    /// is discarded. Does nothing (and records nothing) when there is no
    /// such clip. This is how sample-processing effects hand their result
    /// back to the project.
    pub fn replace_clip_samples(&mut self, clip_id: ClipId, samples: Vec<u32>)
        requires
            old(self).wf(),
            old(self).content().has_clip(clip_id) ==> old(self).content().clip(clip_id).start + samples@.len() / (old(
                self,
            ).content().clip(clip_id).ch() as nat) <= i64::MAX,
            samples@.len() <= i64::MAX,
        ensures
            final(self).wf(),
            ({
                let c = old(self).content();
                if c.has_clip(clip_id) {
                    let o = c.clip(clip_id);
                    &&& final(self).content() == c.with_clip_id(clip_id, ClipModel::baked(o.id, o.name, o.start, samples@, o.channels))
                    &&& final(self).edit_state() == after_edit(old(self).edit_state(), final(self).content())
                    &&& final(self).selected_clips() == old(self).selected_clips()
                    &&& final(self).selected_track_ids() == old(self).selected_track_ids()
                    &&& final(self).clipboard() == old(self).clipboard()
                } else {
                    *final(self) == *old(self)
                }
            }),
    {
        if let Some((i, k)) = self.clip_location(clip_id) {
            self.push_undo();
            self.rebake(i, k, samples);
        }
    }

    /// Moves clip `clip_id`'s left edge by `delta_samples` (positive
    /// shortens it). Always recorded as one undo step.
    pub fn trim_clip_start(&mut self, clip_id: ClipId, delta_samples: i64)
        requires
            old(self).wf(),
            old(self).content().has_clip(clip_id) ==> ({
                let o = old(self).content().clip(clip_id);
                -(if o.offset <= o.start { o.offset as int } else { o.start as int }) <= o.len - 1
            }),
        ensures
            final(self).wf(),
            final(self).content() == (if old(self).content().has_clip(clip_id) {
                old(self).content().with_clip_id(clip_id, old(self).content().clip(clip_id).trimmed_start(delta_samples as int))
            } else {
                old(self).content()
            }),
            final(self).edit_state() == after_edit(old(self).edit_state(), final(self).content()),
            final(self).selected_clips() == old(self).selected_clips(),
            final(self).selected_track_ids() == old(self).selected_track_ids(),
            final(self).clipboard() == old(self).clipboard(),
    {
        self.push_undo();
        if let Some((i, k)) = self.clip_location(clip_id) {
            let mut clip = self.tracks[i].clips[k].clone();
            clip.trim_start(delta_samples);
            self.set_clip(i, k, clip);
        }
    }

    /// Moves clip `clip_id`'s right edge by `delta_samples` (positive
    /// shortens it). Always recorded as one undo step.
    pub fn trim_clip_end(&mut self, clip_id: ClipId, delta_samples: i64)
        requires
            old(self).wf(),
            old(self).content().has_clip(clip_id) ==> ({
                let o = old(self).content().clip(clip_id);
                -o.hidden_after() <= o.len - 1
            }),
        ensures
            final(self).wf(),
            final(self).content() == (if old(self).content().has_clip(clip_id) {
                old(self).content().with_clip_id(clip_id, old(self).content().clip(clip_id).trimmed_end(delta_samples as int))
            } else {
                old(self).content()
            }),
            final(self).edit_state() == after_edit(old(self).edit_state(), final(self).content()),
            final(self).selected_clips() == old(self).selected_clips(),
            final(self).selected_track_ids() == old(self).selected_track_ids(),
            final(self).clipboard() == old(self).clipboard(),
    {
        self.push_undo();
        if let Some((i, k)) = self.clip_location(clip_id) {
            let mut clip = self.tracks[i].clips[k].clone();
            clip.trim_end(delta_samples);
            self.set_clip(i, k, clip);
        }
    }
}


pub proof fn lemma_div_mul_bound(j: int, ch: int, frames: int)
    requires
        ch >= 1,
        0 <= j < frames * ch,
    ensures
        0 <= j / ch < frames,
        0 <= j % ch < ch,
        j == (j / ch) * ch + j % ch,
        0 <= (frames - 1 - j / ch) * ch + j % ch < frames * ch,
{
    assert(j == (j / ch) * ch + j % ch && 0 <= j % ch < ch) by (nonlinear_arith)
        requires
            ch >= 1,
    ;
    assert(0 <= j / ch) by (nonlinear_arith)
        requires
            ch >= 1,
            j >= 0,
    ;
    assert(j / ch < frames) by (nonlinear_arith)
        requires
            ch >= 1,
            0 <= j < frames * ch,
    ;
    let f = j / ch;
    let r = j % ch;
    assert(0 <= (frames - 1 - f) * ch + r < frames * ch) by (nonlinear_arith)
        requires
            ch >= 1,
            0 <= f < frames,
            0 <= r < ch,
    ;
}

pub proof fn lemma_visible_frames(c: ClipModel)
    requires
        c.in_source(),
    ensures
        c.visible().len() == c.len * c.ch(),
        c.visible().len() as int / c.ch() == c.len,
{
    lemma_visible_len(c);
    let l = c.len as int;
    let ch = c.ch();
    assert((l * ch) / ch == l) by (nonlinear_arith)
        requires
            ch >= 1,
    ;
}

impl Project {
    /// Silences `[from_sample, to_sample)` (absolute frames, clipped to the
    /// clip's span) within clip `clip_id`, baking the clip's trim state into
    /// a fresh buffer. One undo step; nothing happens when the range misses
    /// the clip or there is no such clip.
    pub fn mute_range(&mut self, clip_id: ClipId, from_sample: u64, to_sample: u64)
        requires
            old(self).wf(),
        ensures
            final(self).wf(),
            ({
                let c = old(self).content();
                let o = c.clip(clip_id);
                let lo = local_lo(o, from_sample as int);
                let hi = local_hi(o, to_sample as int);
                if c.has_clip(clip_id) && lo < hi {
                    &&& final(self).content() == c.with_clip_id(
                        clip_id,
                        ClipModel::baked(o.id, o.name, o.start, muted(o.visible(), o.ch(), lo, hi), o.channels),
                    )
                    &&& final(self).edit_state() == after_edit(old(self).edit_state(), final(self).content())
                    &&& final(self).selected_clips() == old(self).selected_clips()
                    &&& final(self).selected_track_ids() == old(self).selected_track_ids()
                    &&& final(self).clipboard() == old(self).clipboard()
                } else {
                    *final(self) == *old(self)
                }
            }),
    {
        let (i, k) = match self.clip_location(clip_id) {
            Some(a) => a,
            None => return,
        };
        let ghost o = self.content().clip_at(i as int, k as int);
        let clip = &self.tracks[i].clips[k];
        assert(clip@ == o);
        assert(o.wf());
        let clip_start = clip.start_sample;
        let clip_end = clip.start_sample + clip.length_samples;
        let from = (if from_sample > clip_start { from_sample } else { clip_start }) - clip_start;
        let to_abs = if to_sample < clip_end { to_sample } else { clip_end };
        let to = if to_abs >= clip_start { to_abs - clip_start } else { 0 };
        if from >= to {
            return;
        }
        let channels = clip.channels as usize;
        let visible = clip.visible_samples();
        proof {
            lemma_visible_frames(o);
        }
        let mut out: Vec<u32> = Vec::new();
        let mut j: usize = 0;
        while j < visible.len()
            invariant
                j <= visible.len(),
                channels == o.ch(),
                channels >= 1,
                visible@ == o.visible(),
                out@ =~= muted(o.visible(), o.ch(), from as int, to as int).take(j as int),
            decreases visible.len() - j,
        {
            let frame = (j / channels) as u64;
            if from <= frame && frame < to {
                out.push(SILENCE);
            } else {
                out.push(visible[j]);
            }
            j += 1;
            assert(out@ =~= muted(o.visible(), o.ch(), from as int, to as int).take(j as int));
        }
        assert(out@ =~= muted(o.visible(), o.ch(), from as int, to as int));
        self.rebake_with(i, k, out);
    }

    /// Applies a frame-wise transformation that keeps at most the clip's
    /// visible length: shared tail of the effects below.
    fn rebake_with(&mut self, i: usize, k: usize, out: Vec<u32>)
        requires
            old(self).wf(),
            old(self).content().is_clip_addr(i as int, k as int),
            out@.len() <= old(self).content().clip_at(i as int, k as int).visible().len(),
        ensures
            final(self).wf(),
            ({
                let c = old(self).content();
                let o = c.clip_at(i as int, k as int);
                final(self).content() == c.with_clip(i as int, k as int, ClipModel::baked(o.id, o.name, o.start, out@, o.channels))
            }),
            final(self).edit_state() == after_edit(old(self).edit_state(), final(self).content()),
            final(self).selected_clips() == old(self).selected_clips(),
            final(self).selected_track_ids() == old(self).selected_track_ids(),
            final(self).clipboard() == old(self).clipboard(),
    {
        let ghost o = self.content().clip_at(i as int, k as int);
        proof {
            assert(self.content().tracks[i as int].wf());
            assert(o.wf());
            lemma_visible_frames(o);
            let n = out@.len() as int;
            let ch = o.ch();
            let l = o.len as int;
            assert(n / ch <= l) by (nonlinear_arith)
                requires
                    ch >= 1,
                    0 <= n <= l * ch,
            ;
            lemma_visible_len(o);
            assert(o.offset * o.ch() >= 0);
            assert(o.start + o.len <= o.reach()) by {
                assert(o.offset + o.len <= o.source_frames());
            }
            assert(o.visible().len() <= o.source.len());
        }
        self.push_undo();
        self.rebake(i, k, out);
    }

    /// Reverses the order of clip `clip_id`'s frames, keeping each frame's
    /// channels together. One undo step; nothing happens when there is no
    /// such clip.
    pub fn apply_reverse(&mut self, clip_id: ClipId)
        requires
            old(self).wf(),
        ensures
            final(self).wf(),
            ({
                let c = old(self).content();
                let o = c.clip(clip_id);
                if c.has_clip(clip_id) {
                    &&& final(self).content() == c.with_clip_id(
                        clip_id,
                        ClipModel::baked(o.id, o.name, o.start, reversed_frames(o.visible(), o.ch()), o.channels),
                    )
                    &&& final(self).edit_state() == after_edit(old(self).edit_state(), final(self).content())
                    &&& final(self).selected_clips() == old(self).selected_clips()
                    &&& final(self).selected_track_ids() == old(self).selected_track_ids()
                    &&& final(self).clipboard() == old(self).clipboard()
                } else {
                    *final(self) == *old(self)
                }
            }),
    {
        let (i, k) = match self.clip_location(clip_id) {
            Some(a) => a,
            None => return,
        };
        let ghost o = self.content().clip_at(i as int, k as int);
        let clip = &self.tracks[i].clips[k];
        assert(clip@ == o);
        assert(self.content().tracks[i as int].wf());
        let channels = clip.channels as usize;
        let visible = clip.visible_samples();
        proof {
            lemma_visible_frames(o);
        }
        let frames = visible.len() / channels;
        proof {
            let n = visible@.len() as int;
            let ch = channels as int;
            assert((n / ch) * ch <= n) by (nonlinear_arith)
                requires
                    ch >= 1,
                    n >= 0,
            ;
        }
        let total = frames * channels;
        let mut out: Vec<u32> = Vec::new();
        let mut j: usize = 0;
        while j < total
            invariant
                j <= total,
                total == frames * channels,
                total <= visible@.len(),
                frames == visible@.len() as int / o.ch(),
                channels == o.ch(),
                channels >= 1,
                visible@ == o.visible(),
                out@ =~= reversed_frames(o.visible(), o.ch()).take(j as int),
            decreases total - j,
        {
            proof {
                lemma_div_mul_bound(j as int, channels as int, frames as int);
            }
            let src = (frames - 1 - j / channels) * channels + j % channels;
            out.push(visible[src]);
            j += 1;
            assert(out@ =~= reversed_frames(o.visible(), o.ch()).take(j as int));
        }
        assert(out@ =~= reversed_frames(o.visible(), o.ch()));
        self.rebake_with(i, k, out);
    }

    /// Swaps the left and right channels of stereo clip `clip_id`. One undo
    /// step; a mono clip, or no such clip, is left alone.
    pub fn apply_swap_channels(&mut self, clip_id: ClipId)
        requires
            old(self).wf(),
        ensures
            final(self).wf(),
            ({
                let c = old(self).content();
                let o = c.clip(clip_id);
                if c.has_clip(clip_id) && o.channels == 2 {
                    &&& final(self).content() == c.with_clip_id(
                        clip_id,
                        ClipModel::baked(o.id, o.name, o.start, swapped_channels(o.visible()), o.channels),
                    )
                    &&& final(self).edit_state() == after_edit(old(self).edit_state(), final(self).content())
                    &&& final(self).selected_clips() == old(self).selected_clips()
                    &&& final(self).selected_track_ids() == old(self).selected_track_ids()
                    &&& final(self).clipboard() == old(self).clipboard()
                } else {
                    *final(self) == *old(self)
                }
            }),
    {
        let (i, k) = match self.clip_location(clip_id) {
            Some(a) => a,
            None => return,
        };
        let ghost o = self.content().clip_at(i as int, k as int);
        let clip = &self.tracks[i].clips[k];
        assert(clip@ == o);
        if clip.channels != 2 {
            return;
        }
        assert(self.content().tracks[i as int].wf());
        let visible = clip.visible_samples();
        proof {
            lemma_visible_frames(o);
        }
        let total = (visible.len() / 2) * 2;
        let mut out: Vec<u32> = Vec::new();
        let mut j: usize = 0;
        while j < total
            invariant
                j <= total,
                total == (visible@.len() as int / 2) * 2,
                total <= visible@.len(),
                visible@ == o.visible(),
                out@ =~= swapped_channels(o.visible()).take(j as int),
            decreases total - j,
        {
            if j % 2 == 0 {
                out.push(visible[j + 1]);
            } else {
                out.push(visible[j - 1]);
            }
            j += 1;
            assert(out@ =~= swapped_channels(o.visible()).take(j as int));
        }
        assert(out@ =~= swapped_channels(o.visible()));
        self.rebake_with(i, k, out);
    }

    /// Negates every sample of clip `clip_id` (flips each sample's sign
    /// bit). One undo step; nothing happens when there is no such clip.
    pub fn apply_invert(&mut self, clip_id: ClipId)
        requires
            old(self).wf(),
        ensures
            final(self).wf(),
            ({
                let c = old(self).content();
                let o = c.clip(clip_id);
                if c.has_clip(clip_id) {
                    &&& final(self).content() == c.with_clip_id(
                        clip_id,
                        ClipModel::baked(o.id, o.name, o.start, inverted(o.visible()), o.channels),
                    )
                    &&& final(self).edit_state() == after_edit(old(self).edit_state(), final(self).content())
                    &&& final(self).selected_clips() == old(self).selected_clips()
                    &&& final(self).selected_track_ids() == old(self).selected_track_ids()
                    &&& final(self).clipboard() == old(self).clipboard()
                } else {
                    *final(self) == *old(self)
                }
            }),
    {
        let (i, k) = match self.clip_location(clip_id) {
            Some(a) => a,
            None => return,
        };
        let ghost o = self.content().clip_at(i as int, k as int);
        let clip = &self.tracks[i].clips[k];
        assert(clip@ == o);
        assert(self.content().tracks[i as int].wf());
        let visible = clip.visible_samples();
        let mut out: Vec<u32> = Vec::new();
        let mut j: usize = 0;
        while j < visible.len()
            invariant
                j <= visible.len(),
                visible@ == o.visible(),
                out@ =~= inverted(o.visible()).take(j as int),
            decreases visible.len() - j,
        {
            out.push(visible[j] ^ SIGN_BIT);
            j += 1;
            assert(out@ =~= inverted(o.visible()).take(j as int));
        }
        assert(out@ =~= inverted(o.visible()));
        self.rebake_with(i, k, out);
    }
}


impl ProjectContent {
    /// This content with the clip at (`i`, `k`) taken off its track and `m`
    /// appended to track `ti` (which may be the same track).
    pub open spec fn with_clip_moved(self, i: int, k: int, ti: int, m: ClipModel) -> ProjectContent {
        let removed = self.tracks.update(i, TrackModel { clips: self.tracks[i].clips.remove(k), ..self.tracks[i] });
        ProjectContent {
            tracks: removed.update(ti, TrackModel { clips: removed[ti].clips.push(m), ..removed[ti] }),
            ..self
        }
    }
}

pub proof fn lemma_clip_moved_wf(c: ProjectContent, i: int, k: int, ti: int, m: ClipModel)
    requires
        c.wf(),
        c.is_clip_addr(i, k),
        0 <= ti < c.tracks.len(),
        m.id == c.clip_at(i, k).id,
        m.wf(),
    ensures
        c.with_clip_moved(i, k, ti, m).wf(),
{
    let c2 = c.with_clip_moved(i, k, ti, m);
    let removed = c.tracks.update(i, TrackModel { clips: c.tracks[i].clips.remove(k), ..c.tracks[i] });
    assert forall|a: int| 0 <= a < c2.tracks.len() implies (#[trigger] c2.tracks[a]).wf() by {
        assert(c.tracks[a].wf());
        assert(c.tracks[i].wf());
        if a == ti {
            assert forall|b: int| 0 <= b < c2.tracks[a].clips.len() implies (#[trigger] c2.tracks[a].clips[b]).wf() by {
                if b < removed[ti].clips.len() {
                    assert(c2.tracks[a].clips[b] == removed[ti].clips[b]);
                    if ti == i {
                        if b < k {
                            assert(removed[ti].clips[b] == c.tracks[i].clips[b]);
                        } else {
                            assert(removed[ti].clips[b] == c.tracks[i].clips[b + 1]);
                        }
                    }
                }
            }
        } else if a == i {
            assert forall|b: int| 0 <= b < c2.tracks[a].clips.len() implies (#[trigger] c2.tracks[a].clips[b]).wf() by {
                if b < k {
                    assert(c2.tracks[a].clips[b] == c.tracks[i].clips[b]);
                } else {
                    assert(c2.tracks[a].clips[b] == c.tracks[i].clips[b + 1]);
                }
            }
        }
    }
    assert forall|a: int| 0 <= a < c2.tracks.len() implies (#[trigger] c2.tracks[a]).id.0 < c2.next_track_id by {
    }
    assert forall|a: int, b: int| 0 <= a < c2.tracks.len() && 0 <= b < c2.tracks.len() && a != b implies #[trigger] c2.tracks[a].id
        != #[trigger] c2.tracks[b].id by {
    }
    let orig = |a: int, b: int|
        if a == ti && b == removed[ti].clips.len() {
            (i, k)
        } else if a == i && b >= k {
            (i, b + 1)
        } else {
            (a, b)
        };
    assert forall|a: int, b: int| c2.is_clip_addr(a, b) implies c.is_clip_addr(orig(a, b).0, orig(a, b).1) && (#[trigger] c2.clip_at(a, b))
        == (if a == ti && b == removed[ti].clips.len() { m } else { c.clip_at(orig(a, b).0, orig(a, b).1) }) by {
    }
    assert forall|a: int, b: int| c2.is_clip_addr(a, b) implies (#[trigger] c2.clip_at(a, b)).id.0 < c2.next_clip_id by {
        let o = orig(a, b);
        assert(c.is_clip_addr(o.0, o.1));
        assert(c.clip_at(o.0, o.1).id.0 < c.next_clip_id);
    }
    assert forall|a: int, b: int, x: int, y: int|
        c2.is_clip_addr(a, b) && c2.is_clip_addr(x, y) && (a != x || b != y) && (#[trigger] c2.clip_at(a, b)).id.0
            < c.next_clip_id && (#[trigger] c2.clip_at(x, y)).id.0 < c.next_clip_id implies orig(a, b) != orig(x, y) by {
    }
    assert forall|a: int, b: int, x: int, y: int|
        c2.is_clip_addr(a, b) && c2.is_clip_addr(x, y) && (a != x || b != y) && (#[trigger] c2.clip_at(a, b)).id.0
            >= c.next_clip_id && (#[trigger] c2.clip_at(x, y)).id.0 >= c.next_clip_id implies c2.clip_at(a, b).id
            != c2.clip_at(x, y).id by {
        let o = orig(a, b);
        assert(c.is_clip_addr(o.0, o.1));
        assert(c.clip_at(o.0, o.1).id.0 < c.next_clip_id);
    }
    lemma_wf_by_origin(c, c2, orig);
}

impl Project {
    /// Moves clip `clip_id` to `new_start` on `target_track` (appended to
    /// that track's clips); when the target track does not exist the clip
    /// goes back onto its own track at the new position. One undo step;
    /// nothing happens when there is no such clip.
    pub fn move_clip(&mut self, clip_id: ClipId, target_track: TrackId, new_start: u64)
        requires
            old(self).wf(),
            old(self).content().has_clip(clip_id) ==> new_start + old(self).content().clip(clip_id).source_frames()
                - old(self).content().clip(clip_id).offset <= i64::MAX,
        ensures
            final(self).wf(),
            ({
                let c = old(self).content();
                if c.has_clip(clip_id) {
                    let a = c.clip_addr(clip_id);
                    let ti = if c.has_track(target_track) { c.track_pos(target_track) } else { a.0 };
                    &&& final(self).content() == c.with_clip_moved(a.0, a.1, ti, ClipModel { start: new_start, ..c.clip(clip_id) })
                    &&& final(self).edit_state() == after_edit(old(self).edit_state(), final(self).content())
                    &&& final(self).selected_clips() == old(self).selected_clips()
                    &&& final(self).selected_track_ids() == old(self).selected_track_ids()
                    &&& final(self).clipboard() == old(self).clipboard()
                } else {
                    *final(self) == *old(self)
                }
            }),
    {
        let (i, k) = match self.clip_location(clip_id) {
            Some(a) => a,
            None => return,
        };
        let ghost c = self.content();
        let ti = match self.track_index(target_track) {
            Some(t) => t,
            None => i,
        };
        self.push_undo();
        let mut clip = self.tracks[i].clips.remove(k);
        let ghost removed = c.tracks.update(i as int, TrackModel { clips: c.tracks[i as int].clips.remove(k as int), ..c.tracks[i as int] });
        proof {
            let c1 = self.content();
            assert(c1.tracks[i as int].clips =~= c.tracks[i as int].clips.remove(k as int));
            assert(c1.tracks[i as int] =~= removed[i as int]);
            assert(c1.tracks =~= removed);
        }
        let ghost c1 = self.content();
        let ghost old_m = clip@;
        assert(old_m == c.clip_at(i as int, k as int));
        clip.start_sample = new_start;
        let ghost m = clip@;
        assert(m == ClipModel { start: new_start, ..old_m });
        self.tracks[ti].clips.push(clip);
        proof {
            let c2 = self.content();
            assert(c2.tracks[ti as int].clips =~= c1.tracks[ti as int].clips.push(m));
            assert(c2.tracks[ti as int] =~= (TrackModel { clips: removed[ti as int].clips.push(m), ..removed[ti as int] }));
            assert(c2.tracks =~= removed.update(ti as int, TrackModel { clips: removed[ti as int].clips.push(m), ..removed[ti as int] }));
            assert(c2 =~= c.with_clip_moved(i as int, k as int, ti as int, m));
            assert(c.tracks[i as int].wf());
            assert(old_m.wf());
            lemma_clip_moved_wf(c, i as int, k as int, ti as int, m);
            lemma_history_wf_push(old(self).undo_history(), c);
        }
    }
}


impl ProjectContent {
    /// This content with the clip at (`i`, `k`) removed.
    pub open spec fn without_clip(self, i: int, k: int) -> ProjectContent {
        ProjectContent {
            tracks: self.tracks.update(i, TrackModel { clips: self.tracks[i].clips.remove(k), ..self.tracks[i] }),
            ..self
        }
    }

    /// This content after removing, in turn, each clip named in `ids`
    /// (ids with no clip are skipped).
    pub open spec fn removing(self, ids: Seq<ClipId>) -> ProjectContent
        decreases ids.len(),
    {
        if ids.len() == 0 {
            self
        } else {
            let p = self.removing(ids.drop_last());
            let id = ids.last();
            if p.has_clip(id) {
                p.without_clip(p.clip_addr(id).0, p.clip_addr(id).1)
            } else {
                p
            }
        }
    }
}

/// `s` with every occurrence of each id in `ids` removed.
pub open spec fn without_each<T>(s: Seq<T>, ids: Seq<T>) -> Seq<T>
    decreases ids.len(),
{
    if ids.len() == 0 {
        s
    } else {
        without(without_each(s, ids.drop_last()), ids.last())
    }
}

pub proof fn lemma_without_clip_wf(c: ProjectContent, i: int, k: int)
    requires
        c.wf(),
        c.is_clip_addr(i, k),
    ensures
        c.without_clip(i, k).wf(),
        c.without_clip(i, k).tracks.len() == c.tracks.len(),
{
    let c2 = c.without_clip(i, k);
    assert forall|a: int| 0 <= a < c2.tracks.len() implies (#[trigger] c2.tracks[a]).wf() by {
        assert(c.tracks[a].wf());
        if a == i {
            assert forall|b: int| 0 <= b < c2.tracks[a].clips.len() implies (#[trigger] c2.tracks[a].clips[b]).wf() by {
                if b < k {
                    assert(c2.tracks[a].clips[b] == c.tracks[i].clips[b]);
                } else {
                    assert(c2.tracks[a].clips[b] == c.tracks[i].clips[b + 1]);
                }
            }
        }
    }
    assert forall|a: int| 0 <= a < c2.tracks.len() implies (#[trigger] c2.tracks[a]).id.0 < c2.next_track_id by {
    }
    assert forall|a: int, b: int| 0 <= a < c2.tracks.len() && 0 <= b < c2.tracks.len() && a != b implies #[trigger] c2.tracks[a].id
        != #[trigger] c2.tracks[b].id by {
    }
    let orig = |a: int, b: int| if a == i && b >= k { (i, b + 1) } else { (a, b) };
    assert forall|a: int, b: int| c2.is_clip_addr(a, b) implies c.is_clip_addr(orig(a, b).0, orig(a, b).1) && (#[trigger] c2.clip_at(a, b))
        == c.clip_at(orig(a, b).0, orig(a, b).1) by {
    }
    assert forall|a: int, b: int| c2.is_clip_addr(a, b) implies (#[trigger] c2.clip_at(a, b)).id.0 < c2.next_clip_id by {
        let o = orig(a, b);
        assert(c.is_clip_addr(o.0, o.1));
        assert(c.clip_at(o.0, o.1).id.0 < c.next_clip_id);
    }
    assert forall|a: int, b: int, x: int, y: int|
        c2.is_clip_addr(a, b) && c2.is_clip_addr(x, y) && (a != x || b != y) && (#[trigger] c2.clip_at(a, b)).id.0
            >= c.next_clip_id && (#[trigger] c2.clip_at(x, y)).id.0 >= c.next_clip_id implies c2.clip_at(a, b).id
            != c2.clip_at(x, y).id by {
        let o = orig(a, b);
        assert(c.is_clip_addr(o.0, o.1));
        assert(c.clip_at(o.0, o.1).id.0 < c.next_clip_id);
    }
    lemma_wf_by_origin(c, c2, orig);
}

pub proof fn lemma_removing_wf(c: ProjectContent, ids: Seq<ClipId>)
    requires
        c.wf(),
    ensures
        c.removing(ids).wf(),
        c.removing(ids).tracks.len() == c.tracks.len(),
        c.removing(ids).next_clip_id == c.next_clip_id,
        c.removing(ids).next_track_id == c.next_track_id,
        c.removing(ids).sample_rate_hz == c.sample_rate_hz,
    decreases ids.len(),
{
    if ids.len() > 0 {
        lemma_removing_wf(c, ids.drop_last());
        let p = c.removing(ids.drop_last());
        let id = ids.last();
        if p.has_clip(id) {
            let a = p.clip_addr(id);
            lemma_without_clip_wf(p, a.0, a.1);
        }
    }
}

fn contains_clip_id(ids: &[ClipId], id: ClipId) -> (b: bool)
    ensures
        b == ids@.contains(id),
{
    let mut i: usize = 0;
    while i < ids.len()
        invariant
            i <= ids.len(),
            forall|j: int| 0 <= j < i ==> ids@[j] != id,
        decreases ids.len() - i,
    {
        if ids[i] == id {
            assert(ids@[i as int] == id);
            return true;
        }
        i += 1;
    }
    false
}

impl Project {
    /// Removes, in turn, each clip named in `ids` from its track, and drops
    /// those ids from the clip selection. Records nothing by itself.
    fn remove_clips(&mut self, ids: &[ClipId])
        requires
            old(self).wf(),
        ensures
            final(self).wf(),
            final(self).content() == old(self).content().removing(ids@),
            final(self).selected_clips() == without_each(old(self).selected_clips(), ids@),
            final(self).edit_state().undo == old(self).edit_state().undo,
            final(self).edit_state().redo == old(self).edit_state().redo,
            final(self).selected_track_ids() == old(self).selected_track_ids(),
            final(self).clipboard() == old(self).clipboard(),
    {
        let ghost c = self.content();
        let mut q: usize = 0;
        while q < ids.len()
            invariant
                q <= ids.len(),
                self.wf(),
                c.wf(),
                self.content() == c.removing(ids@.take(q as int)),
                self.selected_clips() == without_each(old(self).selected_clips(), ids@.take(q as int)),
                self.edit_state().undo == old(self).edit_state().undo,
                self.edit_state().redo == old(self).edit_state().redo,
                self.selected_track_ids() == old(self).selected_track_ids(),
                self.clipboard() == old(self).clipboard(),
            decreases ids.len() - q,
        {
            let id = ids[q];
            let ghost p = self.content();
            assert(ids@.take(q + 1).drop_last() =~= ids@.take(q as int));
            assert(ids@.take(q + 1).last() == id);
            if let Some((i, k)) = self.clip_location(id) {
                self.tracks[i].clips.remove(k);
                proof {
                    let p2 = self.content();
                    assert(p2.tracks[i as int].clips =~= p.tracks[i as int].clips.remove(k as int));
                    assert(p2.tracks[i as int] =~= (TrackModel { clips: p.tracks[i as int].clips.remove(k as int), ..p.tracks[i as int] }));
                    assert(p2 =~= p.without_clip(i as int, k as int));
                    lemma_without_clip_wf(p, i as int, k as int);
                }
            }
            let ghost sel0 = self.selection@;
            remove_clip_id(&mut self.selection, id);
            proof {
                lemma_without_no_duplicates(sel0, id);
            }
            q += 1;
        }
        assert(ids@.take(q as int) =~= ids@);
    }

    /// Deletes every clip named in `clip_ids` (one undo step, recorded
    /// whenever at least one of them exists) and drops them from the clip
    /// selection.
    pub fn delete_clips(&mut self, clip_ids: &[ClipId])
        requires
            old(self).wf(),
        ensures
            final(self).wf(),
            ({
                let c = old(self).content();
                if exists|j: int| 0 <= j < clip_ids@.len() && c.has_clip(#[trigger] clip_ids@[j]) {
                    &&& final(self).content() == c.removing(clip_ids@)
                    &&& final(self).edit_state() == after_edit(old(self).edit_state(), final(self).content())
                    &&& final(self).selected_clips() == without_each(old(self).selected_clips(), clip_ids@)
                    &&& final(self).selected_track_ids() == old(self).selected_track_ids()
                    &&& final(self).clipboard() == old(self).clipboard()
                } else {
                    *final(self) == *old(self)
                }
            }),
    {
        let mut any = false;
        let mut j: usize = 0;
        while j < clip_ids.len()
            invariant
                j <= clip_ids.len(),
                self.wf(),
                any == exists|l: int| 0 <= l < j && self.content().has_clip(#[trigger] clip_ids@[l]),
            decreases clip_ids.len() - j,
        {
            if self.clip_location(clip_ids[j]).is_some() {
                any = true;
            }
            j += 1;
        }
        if !any {
            return;
        }
        let ghost c = self.content();
        self.push_undo();
        self.remove_clips(clip_ids);
        proof {
            lemma_history_wf_push(old(self).undo_history(), c);
        }
    }
}


/// The clips named in `ids` that exist, in order, each with its track
/// position.
pub open spec fn found_clips(c: ProjectContent, ids: Seq<ClipId>) -> Seq<(int, ClipModel)>
    decreases ids.len(),
{
    if ids.len() == 0 {
        Seq::empty()
    } else {
        let r = found_clips(c, ids.drop_last());
        let id = ids.last();
        if c.has_clip(id) {
            r.push((c.clip_addr(id).0, c.clip(id)))
        } else {
            r
        }
    }
}

pub open spec fn seq_min(s: Seq<int>) -> int
    decreases s.len(),
{
    if s.len() <= 1 {
        s[0]
    } else {
        let m = seq_min(s.drop_last());
        if s.last() < m {
            s.last()
        } else {
            m
        }
    }
}

/// The clipboard that copying `ids` produces: every found clip, positioned
/// relative to the earliest track position and the earliest start among
/// them.
pub open spec fn clipboard_for(c: ProjectContent, ids: Seq<ClipId>) -> Seq<ClipboardModel> {
    let f = found_clips(c, ids);
    let anchor_track = seq_min(f.map_values(|e: (int, ClipModel)| e.0));
    let anchor_start = seq_min(f.map_values(|e: (int, ClipModel)| e.1.start as int));
    Seq::new(
        f.len(),
        |q: int|
            ClipboardModel { track_offset: f[q].0 - anchor_track, start_offset: f[q].1.start - anchor_start, clip: f[q].1 },
    )
}

pub proof fn lemma_seq_min_is_least(s: Seq<int>)
    requires
        s.len() >= 1,
    ensures
        exists|j: int| 0 <= j < s.len() && s[j] == seq_min(s),
        forall|j: int| 0 <= j < s.len() ==> seq_min(s) <= #[trigger] s[j],
    decreases s.len(),
{
    if s.len() > 1 {
        lemma_seq_min_is_least(s.drop_last());
        let j0 = choose|j: int| 0 <= j < s.drop_last().len() && s.drop_last()[j] == seq_min(s.drop_last());
        assert(s[j0] == s.drop_last()[j0]);
        assert forall|j: int| 0 <= j < s.len() implies seq_min(s) <= #[trigger] s[j] by {
            if j < s.len() - 1 {
                assert(s[j] == s.drop_last()[j]);
            }
        }
    } else {
        assert(s[0] == seq_min(s));
    }
}

pub open spec fn paste_track(tpos: int, offset: int, len: int) -> int {
    clamped_position(tpos, offset, len)
}

pub open spec fn paste_start(start: int, offset: int) -> int {
    if start + offset < 0 {
        0
    } else {
        start + offset
    }
}

impl ProjectContent {
    /// This content after pasting `entries` in order relative to track
    /// position `tpos` and frame `start`: each becomes a fresh clip (the
    /// next clip id) on its clamped track at its clamped start.
    pub open spec fn pasting(self, entries: Seq<ClipboardModel>, tpos: int, start: int) -> ProjectContent
        decreases entries.len(),
    {
        if entries.len() == 0 {
            self
        } else {
            let p = self.pasting(entries.drop_last(), tpos, start);
            let e = entries.last();
            let ti = paste_track(tpos, e.track_offset, p.tracks.len() as int);
            let m = ClipModel { id: ClipId(p.next_clip_id), start: paste_start(start, e.start_offset) as u64, ..e.clip };
            ProjectContent {
                tracks: p.tracks.update(ti, TrackModel { clips: p.tracks[ti].clips.push(m), ..p.tracks[ti] }),
                next_clip_id: (p.next_clip_id + 1) as u32,
                ..p
            }
        }
    }
}

impl Project {
    fn build_clipboard(&self, clip_ids: &[ClipId]) -> (entries: Vec<ClipboardEntry>)
        requires
            self.wf(),
        ensures
            clipboard_models(entries@) == clipboard_for(self.content(), clip_ids@),
            clipboard_wf(clipboard_models(entries@)),
    {
        let ghost c = self.content();
        let mut found: Vec<(usize, Clip)> = Vec::new();
        let mut q: usize = 0;
        while q < clip_ids.len()
            invariant
                q <= clip_ids.len(),
                self.wf(),
                c == self.content(),
                found@.len() == found_clips(c, clip_ids@.take(q as int)).len(),
                forall|j: int| 0 <= j < found@.len() ==> #[trigger] found@[j].0 == found_clips(c, clip_ids@.take(q as int))[j].0
                    && found@[j].1@ == found_clips(c, clip_ids@.take(q as int))[j].1,
                forall|j: int| 0 <= j < found@.len() ==> (#[trigger] found@[j]).0 < c.tracks.len() && found@[j].1@.wf()
                    && found@[j].1@.start <= i64::MAX,
            decreases clip_ids.len() - q,
        {
            let id = clip_ids[q];
            assert(clip_ids@.take(q + 1).drop_last() =~= clip_ids@.take(q as int));
            if let Some((i, k)) = self.clip_location(id) {
                assert(c.tracks[i as int].wf());
                found.push((i, self.tracks[i].clips[k].clone()));
            }
            q += 1;
        }
        assert(clip_ids@.take(q as int) =~= clip_ids@);
        let ghost f = found_clips(c, clip_ids@);
        let mut entries: Vec<ClipboardEntry> = Vec::new();
        if found.len() == 0 {
            assert(clipboard_models(entries@) =~= clipboard_for(c, clip_ids@));
            return entries;
        }
        let ghost tracks_of = f.map_values(|e: (int, ClipModel)| e.0);
        let ghost starts_of = f.map_values(|e: (int, ClipModel)| e.1.start as int);
        proof {
            lemma_track_count_bound(c);
            lemma_seq_min_is_least(tracks_of);
            lemma_seq_min_is_least(starts_of);
        }
        let mut anchor_track = found[0].0;
        let mut anchor_start = found[0].1.start_sample;
        let mut j: usize = 1;
        assert(tracks_of.take(1) =~= seq![tracks_of[0]]);
        assert(starts_of.take(1) =~= seq![starts_of[0]]);
        while j < found.len()
            invariant
                1 <= j <= found.len(),
                found@.len() == f.len(),
                tracks_of == f.map_values(|e: (int, ClipModel)| e.0),
                starts_of == f.map_values(|e: (int, ClipModel)| e.1.start as int),
                forall|l: int| 0 <= l < found@.len() ==> #[trigger] found@[l].0 == f[l].0 && found@[l].1@ == f[l].1,
                anchor_track == seq_min(tracks_of.take(j as int)),
                anchor_start == seq_min(starts_of.take(j as int)),
            decreases found.len() - j,
        {
            assert(tracks_of.take(j + 1).drop_last() =~= tracks_of.take(j as int));
            assert(starts_of.take(j + 1).drop_last() =~= starts_of.take(j as int));
            if found[j].0 < anchor_track {
                anchor_track = found[j].0;
            }
            if found[j].1.start_sample < anchor_start {
                anchor_start = found[j].1.start_sample;
            }
            j += 1;
        }
        assert(tracks_of.take(j as int) =~= tracks_of);
        assert(starts_of.take(j as int) =~= starts_of);
        let mut q: usize = 0;
        while q < found.len()
            invariant
                q <= found.len(),
                found@.len() == f.len(),
                forall|l: int| 0 <= l < found@.len() ==> #[trigger] found@[l].0 == f[l].0 && found@[l].1@ == f[l].1,
                forall|l: int| 0 <= l < found@.len() ==> (#[trigger] found@[l]).0 < c.tracks.len() && found@[l].1@.wf()
                    && found@[l].1@.start <= i64::MAX,
                anchor_track == seq_min(f.map_values(|e: (int, ClipModel)| e.0)),
                anchor_start == seq_min(f.map_values(|e: (int, ClipModel)| e.1.start as int)),
                anchor_track < c.tracks.len() <= u32::MAX,
                anchor_start <= i64::MAX,
                c.tracks.len() == self.tracks.len(),
                clipboard_models(entries@) =~= clipboard_for(c, clip_ids@).take(q as int),
                clipboard_wf(clipboard_models(entries@)),
                found_clips(c, clip_ids@) == f,
            decreases found.len() - q,
        {
            let entry = ClipboardEntry {
                track_offset: found[q].0 as i64 - anchor_track as i64,
                start_offset: found[q].1.start_sample as i64 - anchor_start as i64,
                clip: found[q].1.clone(),
            };
            let ghost want = clipboard_for(c, clip_ids@)[q as int];
            assert(want.track_offset == f[q as int].0 - anchor_track);
            assert(want.start_offset == f[q as int].1.start - anchor_start);
            assert(want.clip == f[q as int].1);
            assert(entry.track_offset == f[q as int].0 - anchor_track);
            assert(entry.start_offset == f[q as int].1.start - anchor_start);
            assert(entry.clip@ == f[q as int].1);
            let ghost before = entries@;
            entries.push(entry);
            assert(clipboard_models(entries@) =~= clipboard_models(before).push(want));
            q += 1;
            assert(clipboard_models(entries@) =~= clipboard_for(c, clip_ids@).take(q as int));
        }
        assert(clipboard_for(c, clip_ids@).take(q as int) =~= clipboard_for(c, clip_ids@));
        entries
    }
}


/// Every entry of `entries` lands within the signed 64-bit timeline when
/// pasted at `start`.
pub open spec fn paste_fits(entries: Seq<ClipboardModel>, start: int) -> bool {
    forall|q: int|
        0 <= q < entries.len() ==> paste_start(start, (#[trigger] entries[q]).start_offset) + entries[q].clip.source_frames()
            - entries[q].clip.offset <= i64::MAX
}

pub proof fn lemma_pasting_wf(c: ProjectContent, entries: Seq<ClipboardModel>, tpos: int, start: int)
    requires
        c.wf(),
        c.tracks.len() >= 1,
        clipboard_wf(entries),
        paste_fits(entries, start),
        c.next_clip_id + entries.len() <= u32::MAX,
    ensures
        c.pasting(entries, tpos, start).wf(),
        c.pasting(entries, tpos, start).tracks.len() == c.tracks.len(),
        c.pasting(entries, tpos, start).next_clip_id == c.next_clip_id + entries.len(),
        c.pasting(entries, tpos, start).next_track_id == c.next_track_id,
        c.pasting(entries, tpos, start).sample_rate_hz == c.sample_rate_hz,
    decreases entries.len(),
{
    if entries.len() > 0 {
        let init = entries.drop_last();
        assert(clipboard_wf(init)) by {
            assert forall|q: int| 0 <= q < init.len() implies (#[trigger] init[q]).clip.wf() by {
                assert(init[q] == entries[q]);
            }
        }
        assert(paste_fits(init, start)) by {
            assert forall|q: int| 0 <= q < init.len() implies paste_start(start, (#[trigger] init[q]).start_offset)
                + init[q].clip.source_frames() - init[q].clip.offset <= i64::MAX by {
                assert(init[q] == entries[q]);
            }
        }
        lemma_pasting_wf(c, init, tpos, start);
        let p = c.pasting(init, tpos, start);
        let e = entries.last();
        assert(e == entries[entries.len() - 1]);
        assert(e.clip.wf());
        let ti = paste_track(tpos, e.track_offset, p.tracks.len() as int);
        let m = ClipModel { id: ClipId(p.next_clip_id), start: paste_start(start, e.start_offset) as u64, ..e.clip };
        assert(m.wf());
        lemma_push_fresh_clip(p, ti, TrackModel { clips: p.tracks[ti].clips.push(m), ..p.tracks[ti] }, m);
    }
}

impl Project {
    /// Copies the clips named in `clip_ids` into the clipboard (anchored to
    /// the earliest track and start among them), leaving them in place.
    /// The clipboard is left as it was when none of them exists.
    pub fn copy_clips(&mut self, clip_ids: &[ClipId])
        requires
            old(self).wf(),
        ensures
            final(self).wf(),
            final(self).content() == old(self).content(),
            final(self).edit_state() == old(self).edit_state(),
            final(self).selected_clips() == old(self).selected_clips(),
            final(self).selected_track_ids() == old(self).selected_track_ids(),
            final(self).clipboard() == (if clipboard_for(old(self).content(), clip_ids@).len() > 0 {
                clipboard_for(old(self).content(), clip_ids@)
            } else {
                old(self).clipboard()
            }),
    {
        let entries = self.build_clipboard(clip_ids);
        if entries.len() > 0 {
            self.clipboard = entries;
        }
    }

    /// Moves the clips named in `clip_ids` into the clipboard: they are
    /// removed from their tracks and dropped from the clip selection, as
    /// one undo step. Nothing happens when none of them exists.
    pub fn cut_clips(&mut self, clip_ids: &[ClipId])
        requires
            old(self).wf(),
        ensures
            final(self).wf(),
            ({
                let c = old(self).content();
                if clipboard_for(c, clip_ids@).len() > 0 {
                    &&& final(self).clipboard() == clipboard_for(c, clip_ids@)
                    &&& final(self).content() == c.removing(clip_ids@)
                    &&& final(self).edit_state() == after_edit(old(self).edit_state(), final(self).content())
                    &&& final(self).selected_clips() == without_each(old(self).selected_clips(), clip_ids@)
                    &&& final(self).selected_track_ids() == old(self).selected_track_ids()
                } else {
                    *final(self) == *old(self)
                }
            }),
    {
        let entries = self.build_clipboard(clip_ids);
        if entries.len() == 0 {
            return;
        }
        let ghost c = self.content();
        self.push_undo();
        self.clipboard = entries;
        self.remove_clips(clip_ids);
        proof {
            lemma_history_wf_push(old(self).undo_history(), c);
        }
    }

    /// Pastes the clipboard onto track `target_track` at `start_sample`,
    /// keeping the copied clips' relative track and time offsets (clamped
    /// to the track list and to the timeline's start). Each pasted clip
    /// gets a fresh id; the new ids are returned in clipboard order. One
    /// undo step; nothing happens when the track does not exist or the
    /// clipboard is empty.
    pub fn paste(&mut self, target_track: TrackId, start_sample: u64) -> (ids: Vec<ClipId>)
        requires
            old(self).wf(),
            old(self).content().next_clip_id + old(self).clipboard().len() <= u32::MAX,
            paste_fits(old(self).clipboard(), start_sample as int),
        ensures
            final(self).wf(),
            ({
                let c = old(self).content();
                let cb = old(self).clipboard();
                if c.has_track(target_track) && cb.len() > 0 {
                    &&& final(self).content() == c.pasting(cb, c.track_pos(target_track), start_sample as int)
                    &&& ids@ == Seq::new(cb.len(), |q: int| ClipId((c.next_clip_id + q) as u32))
                    &&& final(self).edit_state() == after_edit(old(self).edit_state(), final(self).content())
                    &&& final(self).selected_clips() == old(self).selected_clips()
                    &&& final(self).selected_track_ids() == old(self).selected_track_ids()
                    &&& final(self).clipboard() == cb
                } else {
                    &&& ids@ == Seq::<ClipId>::empty()
                    &&& *final(self) == *old(self)
                }
            }),
    {
        let mut new_ids: Vec<ClipId> = Vec::new();
        let target_index = match self.track_index(target_track) {
            Some(t) => t,
            None => return new_ids,
        };
        if self.clipboard.len() == 0 {
            return new_ids;
        }
        let ghost c = self.content();
        let ghost cb = self.clipboard();
        self.push_undo();
        let len = self.tracks.len();
        proof {
            lemma_track_count_bound(c);
        }
        let mut q: usize = 0;
        while q < self.clipboard.len()
            invariant
                q <= self.clipboard.len(),
                cb == self.clipboard(),
                cb.len() == self.clipboard@.len(),
                clipboard_wf(cb),
                paste_fits(cb, start_sample as int),
                c.wf(),
                c.tracks.len() == len,
                len <= u32::MAX,
                target_index < len,
                c.next_clip_id + cb.len() <= u32::MAX,
                self.content() == c.pasting(cb.take(q as int), target_index as int, start_sample as int),
                self.content().tracks.len() == len,
                self.content().next_clip_id == c.next_clip_id + q,
                self.tracks.len() == len,
                new_ids@ == Seq::new(q as nat, |j: int| ClipId((c.next_clip_id + j) as u32)),
                self.edit_state().undo == recorded(old(self).edit_state().undo, c),
                self.edit_state().redo == Seq::<ProjectContent>::empty(),
                self.selected_clips() == old(self).selected_clips(),
                self.selected_track_ids() == old(self).selected_track_ids(),
            decreases self.clipboard@.len() - q,
        {
            let ghost p = self.content();
            let ghost e = cb[q as int];
            assert(cb.take(q + 1).drop_last() =~= cb.take(q as int));
            assert(cb.take(q + 1).last() == e);
            let entry = &self.clipboard[q];
            assert(entry.clip@ == e.clip);
            let t: i128 = target_index as i128 + entry.track_offset as i128;
            let ti: usize = if t < 0 {
                0
            } else if t > len as i128 - 1 {
                len - 1
            } else {
                t as usize
            };
            let st: i128 = start_sample as i128 + entry.start_offset as i128;
            let new_start: u64 = if st < 0 { 0 } else { st as u64 };
            let mut clip = entry.clip.clone();
            let id = ClipId(self.next_clip_id);
            self.next_clip_id = self.next_clip_id + 1;
            clip.id = id;
            clip.start_sample = new_start;
            let ghost m = clip@;
            self.tracks[ti].clips.push(clip);
            new_ids.push(id);
            proof {
                let p2 = self.content();
                assert(ti as int == paste_track(target_index as int, e.track_offset, p.tracks.len() as int));
                assert(m == ClipModel { id: ClipId(p.next_clip_id), start: paste_start(start_sample as int, e.start_offset) as u64, ..e.clip });
                assert(p2.tracks[ti as int].clips =~= p.tracks[ti as int].clips.push(m));
                assert(p2.tracks =~= p.tracks.update(ti as int, TrackModel { clips: p.tracks[ti as int].clips.push(m), ..p.tracks[ti as int] }));
                assert(p2 =~= c.pasting(cb.take(q + 1), target_index as int, start_sample as int));
            }
            q += 1;
            assert(new_ids@ =~= Seq::new(q as nat, |j: int| ClipId((c.next_clip_id + j) as u32)));
        }
        assert(cb.take(q as int) =~= cb);
        proof {
            lemma_pasting_wf(c, cb, target_index as int, start_sample as int);
            lemma_history_wf_push(old(self).undo_history(), c);
        }
        new_ids
    }
}


impl ProjectContent {
    /// This content with a copy of clip `id` (fresh id: the next clip id)
    /// placed at `start` on track position `ti`.
    pub open spec fn with_copy(self, id: ClipId, ti: int, start: u64) -> ProjectContent {
        let m = ClipModel { id: ClipId(self.next_clip_id), start, ..self.clip(id) };
        ProjectContent {
            tracks: self.tracks.update(ti, TrackModel { clips: self.tracks[ti].clips.push(m), ..self.tracks[ti] }),
            next_clip_id: (self.next_clip_id + 1) as u32,
            ..self
        }
    }

    /// This content after duplicating, in turn, each clip named in `ids`
    /// in place on its own track, right after its own end.
    pub open spec fn duplicating(self, ids: Seq<ClipId>) -> ProjectContent
        decreases ids.len(),
    {
        if ids.len() == 0 {
            self
        } else {
            let p = self.duplicating(ids.drop_last());
            let id = ids.last();
            if p.has_clip(id) {
                p.with_copy(id, p.clip_addr(id).0, p.clip(id).end() as u64)
            } else {
                p
            }
        }
    }
}

impl Project {
    fn duplicate_clip_inner(&mut self, clip_id: ClipId, target_track: TrackId, start_sample: u64) -> (r: Option<ClipId>)
        requires
            old(self).wf(),
            old(self).content().next_clip_id < u32::MAX,
            old(self).content().has_clip(clip_id) ==> start_sample + old(self).content().clip(clip_id).source_frames()
                - old(self).content().clip(clip_id).offset <= i64::MAX,
        ensures
            final(self).wf(),
            ({
                let c = old(self).content();
                if c.has_clip(clip_id) && c.has_track(target_track) {
                    &&& r == Some(ClipId(c.next_clip_id))
                    &&& final(self).content() == c.with_copy(clip_id, c.track_pos(target_track), start_sample)
                } else if c.has_clip(clip_id) {
                    &&& r.is_none()
                    &&& final(self).content() == (ProjectContent { next_clip_id: (c.next_clip_id + 1) as u32, ..c })
                } else {
                    &&& r.is_none()
                    &&& final(self).content() == c
                }
            }),
            final(self).edit_state().undo == old(self).edit_state().undo,
            final(self).edit_state().redo == old(self).edit_state().redo,
            final(self).selected_clips() == old(self).selected_clips(),
            final(self).selected_track_ids() == old(self).selected_track_ids(),
            final(self).clipboard() == old(self).clipboard(),
    {
        let ghost c = self.content();
        let (i, k) = match self.clip_location(clip_id) {
            Some(a) => a,
            None => return None,
        };
        let mut clip = self.tracks[i].clips[k].clone();
        assert(c.tracks[i as int].wf());
        let id = self.alloc_clip_id();
        clip.id = id;
        clip.start_sample = start_sample;
        let ghost m = clip@;
        let ti = match self.track_index(target_track) {
            Some(t) => t,
            None => {
                proof {
                    lemma_reindex_wf(c, self.content(), |a: int| a);
                }
                return None;
            },
        };
        self.tracks[ti].clips.push(clip);
        proof {
            let c2 = self.content();
            assert(m == ClipModel { id: ClipId(c.next_clip_id), start: start_sample, ..c.clip(clip_id) });
            assert(c2.tracks[ti as int].clips =~= c.tracks[ti as int].clips.push(m));
            assert(c2.tracks =~= c.tracks.update(ti as int, TrackModel { clips: c.tracks[ti as int].clips.push(m), ..c.tracks[ti as int] }));
            assert(c2 =~= c.with_copy(clip_id, ti as int, start_sample));
            lemma_push_fresh_clip(c, ti as int, TrackModel { clips: c.tracks[ti as int].clips.push(m), ..c.tracks[ti as int] }, m);
        }
        Some(id)
    }

    /// Duplicates clip `clip_id` onto `target_track` at `start_sample` with
    /// a fresh id, without touching the clipboard. Always recorded as one
    /// undo step (the fresh id is handed out even when the target track does
    /// not exist).
    pub fn duplicate_clip(&mut self, clip_id: ClipId, target_track: TrackId, start_sample: u64) -> (r: Option<ClipId>)
        requires
            old(self).wf(),
            old(self).content().next_clip_id < u32::MAX,
            old(self).content().has_clip(clip_id) ==> start_sample + old(self).content().clip(clip_id).source_frames()
                - old(self).content().clip(clip_id).offset <= i64::MAX,
        ensures
            final(self).wf(),
            ({
                let c = old(self).content();
                if c.has_clip(clip_id) && c.has_track(target_track) {
                    &&& r == Some(ClipId(c.next_clip_id))
                    &&& final(self).content() == c.with_copy(clip_id, c.track_pos(target_track), start_sample)
                } else if c.has_clip(clip_id) {
                    &&& r.is_none()
                    &&& final(self).content() == (ProjectContent { next_clip_id: (c.next_clip_id + 1) as u32, ..c })
                } else {
                    &&& r.is_none()
                    &&& final(self).content() == c
                }
            }),
            final(self).edit_state() == after_edit(old(self).edit_state(), final(self).content()),
            final(self).selected_clips() == old(self).selected_clips(),
            final(self).selected_track_ids() == old(self).selected_track_ids(),
            final(self).clipboard() == old(self).clipboard(),
    {
        let ghost c = self.content();
        self.push_undo();
        let r = self.duplicate_clip_inner(clip_id, target_track, start_sample);
        proof {
            lemma_history_wf_push(old(self).undo_history(), c);
        }
        r
    }

    /// Duplicates every clip named in `clip_ids` in place on its own track,
    /// immediately after itself, as one undo step (nothing happens for an
    /// empty list).
    pub fn duplicate_selection(&mut self, clip_ids: &[ClipId])
        requires
            old(self).wf(),
            old(self).content().next_clip_id + clip_ids@.len() <= u32::MAX,
            forall|q: int|
                0 <= q < clip_ids@.len() ==> #[trigger] old(self).content().duplicating(clip_ids@.take(q)).has_clip(clip_ids@[q])
                    ==> old(self).content().duplicating(clip_ids@.take(q)).clip(clip_ids@[q]).reach()
                    + old(self).content().duplicating(clip_ids@.take(q)).clip(clip_ids@[q]).len <= i64::MAX,
        ensures
            final(self).wf(),
            clip_ids@.len() > 0 ==> {
                &&& final(self).content() == old(self).content().duplicating(clip_ids@)
                &&& final(self).edit_state() == after_edit(old(self).edit_state(), final(self).content())
                &&& final(self).selected_clips() == old(self).selected_clips()
                &&& final(self).selected_track_ids() == old(self).selected_track_ids()
                &&& final(self).clipboard() == old(self).clipboard()
            },
            clip_ids@.len() == 0 ==> *final(self) == *old(self),
    {
        if clip_ids.len() == 0 {
            return;
        }
        let ghost c = self.content();
        self.push_undo();
        let mut q: usize = 0;
        while q < clip_ids.len()
            invariant
                q <= clip_ids.len(),
                self.wf(),
                c.next_clip_id + clip_ids@.len() <= u32::MAX,
                self.content() == c.duplicating(clip_ids@.take(q as int)),
                self.content().next_clip_id <= c.next_clip_id + q,
                forall|j: int|
                    0 <= j < clip_ids@.len() ==> #[trigger] c.duplicating(clip_ids@.take(j)).has_clip(clip_ids@[j])
                        ==> c.duplicating(clip_ids@.take(j)).clip(clip_ids@[j]).reach() + c.duplicating(clip_ids@.take(j)).clip(clip_ids@[j]).len
                        <= i64::MAX,
                self.edit_state().undo == recorded(old(self).edit_state().undo, c),
                self.edit_state().redo == Seq::<ProjectContent>::empty(),
                self.selected_clips() == old(self).selected_clips(),
                self.selected_track_ids() == old(self).selected_track_ids(),
                self.clipboard() == old(self).clipboard(),
            decreases clip_ids.len() - q,
        {
            let id = clip_ids[q];
            let ghost p = self.content();
            assert(clip_ids@.take(q + 1).drop_last() =~= clip_ids@.take(q as int));
            assert(clip_ids@.take(q + 1).last() == id);
            if let Some((i, k)) = self.clip_location(id) {
                let track_id = self.tracks[i].id;
                assert(p.tracks[i as int].wf());
                let end = self.tracks[i].clips[k].end_sample();
                proof {
                    assert(p.track_pos(track_id) == i) by {
                        let tp = p.track_pos(track_id);
                        assert(p.has_track(track_id));
                        assert(p.tracks[tp].id == track_id);
                    }
                }
                self.duplicate_clip_inner(id, track_id, end);
            }
            q += 1;
        }
        assert(clip_ids@.take(q as int) =~= clip_ids@);
        proof {
            lemma_history_wf_push(old(self).undo_history(), c);
        }
    }
}


/// `name` + " (1)" / " (2)".
pub open spec fn part_name(name: Seq<char>, part: char) -> Seq<char> {
    name + seq![' ', '(', part, ')']
}

impl ProjectContent {
    /// This content with clip `id` split at absolute frame `at`: the clip
    /// leaves its track and two baked halves (fresh ids `next` and
    /// `next + 1`) are appended in its place.
    pub open spec fn with_split(self, id: ClipId, at: int) -> ProjectContent {
        let a = self.clip_addr(id);
        let halves = split_halves(self.clip(id), at, ClipId(self.next_clip_id), ClipId((self.next_clip_id + 1) as u32));
        let removed = self.without_clip(a.0, a.1);
        ProjectContent {
            tracks: removed.tracks.update(
                a.0,
                TrackModel { clips: removed.tracks[a.0].clips.push(halves.0).push(halves.1), ..removed.tracks[a.0] },
            ),
            next_clip_id: (self.next_clip_id + 2) as u32,
            ..self
        }
    }
}

/// The two baked halves of clip `o` split at absolute frame `at`: "<name>
/// (1)" (id `first`) from its start, and "<name> (2)" (id `second`) from
/// `at`.
pub open spec fn split_halves(o: ClipModel, at: int, first: ClipId, second: ClipId) -> (ClipModel, ClipModel) {
    let vis = o.visible();
    let raw = (at - o.start) * o.ch();
    (
        ClipModel::baked(first, part_name(o.name, '1'), o.start, vis.take(raw), o.channels),
        ClipModel::baked(second, part_name(o.name, '2'), at as u64, vis.skip(raw), o.channels),
    )
}

/// Splitting a clip at a frame strictly inside it gives two pieces that
/// meet exactly at the split point, each starting at its place on the
/// timeline, whose audio, end to end, is the clip's audible audio.
pub proof fn lemma_split_halves_rejoin(o: ClipModel, at: int, first: ClipId, second: ClipId)
    requires
        o.wf(),
        o.start < at < o.end(),
    ensures
        ({
            let (h1, h2) = split_halves(o, at, first, second);
            &&& h1.start == o.start
            &&& h1.end() == at
            &&& h2.start == at
            &&& h2.end() == o.end()
            &&& h1.visible() + h2.visible() == o.visible()
            &&& h1.wf()
            &&& h2.wf()
        }),
{
    let (h1, h2) = split_halves(o, at, first, second);
    let ch = o.ch();
    let split = at - o.start;
    let raw = split * ch;
    let vis = o.visible();
    lemma_visible_len(o);
    assert(0 <= raw <= vis.len()) by (nonlinear_arith)
        requires
            raw == split * ch,
            0 < split < o.len,
            vis.len() == o.len * ch,
            ch >= 1,
    ;
    assert(raw / ch == split) by (nonlinear_arith)
        requires
            raw == split * ch,
            ch >= 1,
    ;
    let rest = vis.len() - raw;
    assert(rest == (o.len - split) * ch) by (nonlinear_arith)
        requires
            rest == vis.len() - raw,
            vis.len() == o.len * ch,
            raw == split * ch,
    ;
    assert(rest / ch == o.len - split) by (nonlinear_arith)
        requires
            rest == (o.len - split) * ch,
            ch >= 1,
    ;
    assert(h1.len == split);
    assert(h2.len == o.len - split);
    assert(h1.ch() == ch && h2.ch() == ch);
    assert(h1.offset == 0 && h2.offset == 0);
    assert(0 * ch == 0) by (nonlinear_arith);
    assert((0 + split) * ch == raw) by (nonlinear_arith)
        requires
            raw == split * ch,
    ;
    assert((0 + (o.len - split)) * ch == rest) by (nonlinear_arith)
        requires
            rest == (o.len - split) * ch,
    ;
    assert(h1.visible() =~= vis.take(raw));
    assert(h2.visible() =~= vis.skip(raw));
    assert(vis.take(raw) + vis.skip(raw) =~= vis);
    assert(o.start + o.len <= o.reach());
}

/// `s` with `x` added at the end, unless it is already there.
pub open spec fn inserted<T>(s: Seq<T>, x: T) -> Seq<T> {
    if s.contains(x) {
        s
    } else {
        s.push(x)
    }
}

pub open spec fn split_selection(sel: Seq<ClipId>, id: ClipId, first: ClipId, second: ClipId) -> Seq<ClipId> {
    if sel.contains(id) {
        inserted(inserted(without(sel, id), first), second)
    } else {
        sel
    }
}

pub proof fn lemma_without_no_duplicates<T>(s: Seq<T>, x: T)
    requires
        s.no_duplicates(),
    ensures
        without(s, x).no_duplicates(),
        forall|y: T| #[trigger] without(s, x).contains(y) ==> s.contains(y) && y != x,
    decreases s.len(),
{
    if s.len() > 0 {
        let rest = s.drop_last();
        assert(rest.no_duplicates());
        lemma_without_no_duplicates(rest, x);
        let r = without(rest, x);
        assert forall|y: T| #[trigger] without(s, x).contains(y) implies s.contains(y) && y != x by {
            if r.contains(y) {
                let k = choose|k: int| 0 <= k < rest.len() && rest[k] == y;
                assert(s[k] == y);
            } else {
                assert(y == s.last());
                assert(s[s.len() - 1] == y);
            }
        }
        if s.last() != x {
            let w = r.push(s.last());
            assert(!r.contains(s.last())) by {
                if r.contains(s.last()) {
                    let k = choose|k: int| 0 <= k < rest.len() && rest[k] == s.last();
                    assert(s[k] == s[s.len() - 1]);
                }
            }
            assert forall|i: int, j: int| 0 <= i < w.len() && 0 <= j < w.len() && i != j implies w[i] != w[j] by {
                if i < r.len() && j < r.len() {
                } else if i < r.len() {
                    assert(r.contains(w[i]));
                } else {
                    assert(r.contains(w[j]));
                }
            }
        }
    }
}

pub proof fn lemma_inserted_no_duplicates<T>(s: Seq<T>, x: T)
    requires
        s.no_duplicates(),
    ensures
        inserted(s, x).no_duplicates(),
{
    if !s.contains(x) {
        let w = s.push(x);
        assert forall|i: int, j: int| 0 <= i < w.len() && 0 <= j < w.len() && i != j implies w[i] != w[j] by {
            if i < s.len() && j < s.len() {
            } else if i < s.len() {
                assert(s.contains(w[i]));
            } else {
                assert(s.contains(w[j]));
            }
        }
    }
}

fn push_part_suffix(name: &mut String, first: bool)
    ensures
        final(name)@ == part_name(old(name)@, if first { '1' } else { '2' }),
{
    if first {
        proof {
            reveal_strlit(" (1)");
        }
        assert(" (1)"@ =~= seq![' ', '(', '1', ')']);
        name.append(" (1)");
    } else {
        proof {
            reveal_strlit(" (2)");
        }
        assert(" (2)"@ =~= seq![' ', '(', '2', ')']);
        name.append(" (2)");
    }
}

fn vec_range(v: &Vec<u32>, from: usize, to: usize) -> (out: Vec<u32>)
    requires
        from <= to <= v@.len(),
    ensures
        out@ == v@.subrange(from as int, to as int),
{
    let mut out: Vec<u32> = Vec::new();
    let mut j = from;
    while j < to
        invariant
            from <= j <= to <= v@.len(),
            out@ =~= v@.subrange(from as int, j as int),
        decreases to - j,
    {
        out.push(v[j]);
        j += 1;
        assert(out@ =~= v@.subrange(from as int, j as int));
    }
    out
}

fn selection_contains(v: &Vec<ClipId>, id: ClipId) -> (b: bool)
    ensures
        b == v@.contains(id),
{
    contains_clip_id(v.as_slice(), id)
}

impl Project {
    /// Splits the clip at `(i, k)` (id `clip_id`) in two at absolute frame
    /// `at_sample`, as `split_clip` does, recording nothing and leaving the
    /// selections alone. Returns the halves' ids.
    fn split_in_place(&mut self, i: usize, k: usize, clip_id: ClipId, at_sample: u64) -> (r: (ClipId, ClipId))
        requires
            old(self).wf(),
            old(self).content().is_clip_addr(i as int, k as int),
            old(self).content().has_clip(clip_id),
            old(self).content().clip_addr(clip_id) == (i as int, k as int),
            old(self).content().clip_at(i as int, k as int).id == clip_id,
            old(self).content().clip(clip_id).start < at_sample < old(self).content().clip(clip_id).end(),
            old(self).content().next_clip_id + 2 <= u32::MAX,
        ensures
            final(self).wf(),
            r == (ClipId(old(self).content().next_clip_id), ClipId((old(self).content().next_clip_id + 1) as u32)),
            final(self).content() == old(self).content().with_split(clip_id, at_sample as int),
            final(self).edit_state().undo == old(self).edit_state().undo,
            final(self).edit_state().redo == old(self).edit_state().redo,
            final(self).selected_clips() == old(self).selected_clips(),
            final(self).selected_track_ids() == old(self).selected_track_ids(),
            final(self).clipboard() == old(self).clipboard(),
    {
        let ghost c = self.content();
        let ghost o = c.clip_at(i as int, k as int);
        assert(c.tracks[i as int].wf());
        assert(o.wf());
        let start = self.tracks[i].clips[k].start_sample;
        let ghost split_i: int = at_sample - start;
        proof {
            lemma_visible_len(o);
            assert(split_i < o.len);
            assert(split_i * o.ch() <= o.len * o.ch()) by (nonlinear_arith)
                requires
                    0 <= split_i < o.len,
                    o.ch() >= 1,
            ;
            assert(o.len * o.ch() <= o.source.len());
            assert(split_i <= split_i * o.ch()) by (nonlinear_arith)
                requires
                    0 <= split_i,
                    o.ch() >= 1,
            ;
        }
        let slen = self.tracks[i].clips[k].source.len();
        assert(slen == o.source.len());
        let split_index = (at_sample - start) as usize;
        let first_id = self.alloc_clip_id();
        let second_id = self.alloc_clip_id();
        let original = self.tracks[i].clips.remove(k);
        let ghost c1 = self.content();
        proof {
            assert(c1.tracks[i as int].clips =~= c.tracks[i as int].clips.remove(k as int));
            assert(c1.tracks[i as int] =~= c.without_clip(i as int, k as int).tracks[i as int]);
            assert(c1.tracks =~= c.without_clip(i as int, k as int).tracks);
            lemma_without_clip_wf(c, i as int, k as int);
            lemma_visible_len(o);
        }
        let channels = original.channels;
        assert(channels == o.channels);
        let raw_split = split_index * channels as usize;
        let visible = original.visible_samples();
        proof {
            assert(raw_split == split_i * o.ch());
            assert(split_index < o.len);
            assert(raw_split <= visible@.len()) by (nonlinear_arith)
                requires
                    raw_split == split_index * o.ch(),
                    split_index < o.len,
                    visible@.len() == o.len * o.ch(),
                    o.ch() >= 1,
            ;
        }
        let mut name1 = original.name.clone();
        push_part_suffix(&mut name1, true);
        let mut name2 = original.name.clone();
        push_part_suffix(&mut name2, false);
        let first = Clip::from_samples_channels(first_id, name1, start, vec_range(&visible, 0, raw_split), channels);
        let second = Clip::from_samples_channels(second_id, name2, at_sample, vec_range(&visible, raw_split, visible.len()), channels);
        let ghost m1 = first@;
        let ghost m2 = second@;
        proof {
            assert(visible@.subrange(0, raw_split as int) =~= o.visible().take(raw_split as int));
            assert(visible@.subrange(raw_split as int, visible@.len() as int) =~= o.visible().skip(raw_split as int));
            // Both halves stay inside the original clip's reach.
            let ch = o.ch();
            let n1 = raw_split as int;
            let n2 = visible@.len() - raw_split;
            assert(n1 / ch == split_index) by (nonlinear_arith)
                requires
                    n1 == split_index * ch,
                    ch >= 1,
            ;
            assert(n2 / ch == o.len - split_index) by (nonlinear_arith)
                requires
                    n2 == o.len * ch - split_index * ch,
                    ch >= 1,
            ;
            assert(o.start + o.len <= o.reach());
            assert(m1.wf());
            assert(m2.wf());
        }
        self.tracks[i].clips.push(first);
        self.tracks[i].clips.push(second);
        proof {
            let c2 = self.content();
            let removed = c.without_clip(i as int, k as int);
            let cr = ProjectContent { next_clip_id: c.next_clip_id, ..removed };
            assert(cr.wf());
            let t1 = TrackModel { clips: removed.tracks[i as int].clips.push(m1), ..removed.tracks[i as int] };
            lemma_push_fresh_clip(cr, i as int, t1, m1);
            let cr1 = ProjectContent { tracks: cr.tracks.update(i as int, t1), next_clip_id: (cr.next_clip_id + 1) as u32, ..cr };
            let t2 = TrackModel { clips: t1.clips.push(m2), ..t1 };
            assert(cr1.tracks[i as int] == t1);
            lemma_push_fresh_clip(cr1, i as int, t2, m2);
            assert(c2.tracks[i as int].clips =~= removed.tracks[i as int].clips.push(m1).push(m2));
            assert(c2.tracks =~= cr1.tracks.update(i as int, t2));
            assert(c.has_clip(clip_id) && c.clip_addr(clip_id) == (i as int, k as int));
            assert(c2 =~= c.with_split(clip_id, at_sample as int));
        }
        (first_id, second_id)
    }

    /// Splits clip `clip_id` in two at absolute frame `at_sample`, baking
    /// its trim state into both halves ("<name> (1)" from its start,
    /// "<name> (2)" from `at_sample`). A selected clip hands its selection
    /// to both halves. Returns the two new ids, or `None` (changing
    /// nothing) when the split point is not strictly inside the clip.
    pub fn split_clip(&mut self, clip_id: ClipId, at_sample: u64) -> (r: Option<(ClipId, ClipId)>)
        requires
            old(self).wf(),
            old(self).content().next_clip_id + 2 <= u32::MAX,
        ensures
            final(self).wf(),
            ({
                let c = old(self).content();
                let o = c.clip(clip_id);
                if c.has_clip(clip_id) && o.start < at_sample < o.end() {
                    let first = ClipId(c.next_clip_id);
                    let second = ClipId((c.next_clip_id + 1) as u32);
                    &&& r == Some((first, second))
                    &&& final(self).content() == c.with_split(clip_id, at_sample as int)
                    &&& final(self).edit_state() == after_edit(old(self).edit_state(), final(self).content())
                    &&& final(self).selected_clips() == split_selection(old(self).selected_clips(), clip_id, first, second)
                    &&& final(self).selected_track_ids() == old(self).selected_track_ids()
                    &&& final(self).clipboard() == old(self).clipboard()
                } else {
                    &&& r.is_none()
                    &&& *final(self) == *old(self)
                }
            }),
    {
        let (i, k) = match self.clip_location(clip_id) {
            Some(a) => a,
            None => return None,
        };
        let ghost c = self.content();
        let ghost o = c.clip_at(i as int, k as int);
        assert(c.tracks[i as int].wf());
        assert(o.wf());
        let start = self.tracks[i].clips[k].start_sample;
        let end = self.tracks[i].clips[k].end_sample();
        if at_sample <= start || at_sample >= end {
            return None;
        }
        self.push_undo();
        let (first_id, second_id) = self.split_in_place(i, k, clip_id, at_sample);
        proof {
            lemma_history_wf_push(old(self).undo_history(), c);
        }
        if selection_contains(&self.selection, clip_id) {
            let ghost sel0 = self.selection@;
            remove_clip_id(&mut self.selection, clip_id);
            if !selection_contains(&self.selection, first_id) {
                self.selection.push(first_id);
            }
            if !selection_contains(&self.selection, second_id) {
                self.selection.push(second_id);
            }
            proof {
                lemma_without_no_duplicates(sel0, clip_id);
                lemma_inserted_no_duplicates(without(sel0, clip_id), first_id);
                lemma_inserted_no_duplicates(inserted(without(sel0, clip_id), first_id), second_id);
            }
        }
        Some((first_id, second_id))
    }
}


/// The clips of `clips` named in `ids`, in track order.
pub open spec fn picked(clips: Seq<ClipModel>, ids: Seq<ClipId>) -> Seq<ClipModel>
    decreases clips.len(),
{
    if clips.len() == 0 {
        clips
    } else {
        let r = picked(clips.drop_last(), ids);
        if ids.contains(clips.last().id) {
            r.push(clips.last())
        } else {
            r
        }
    }
}

/// The clips of `clips` not named in `ids`, in track order.
pub open spec fn unpicked(clips: Seq<ClipModel>, ids: Seq<ClipId>) -> Seq<ClipModel>
    decreases clips.len(),
{
    if clips.len() == 0 {
        clips
    } else {
        let r = unpicked(clips.drop_last(), ids);
        if ids.contains(clips.last().id) {
            r
        } else {
            r.push(clips.last())
        }
    }
}

/// Stable insertion of `x` into `s` (sorted by start): after every element
/// that starts no later than `x`.
pub open spec fn insert_by_start(s: Seq<ClipModel>, x: ClipModel) -> Seq<ClipModel>
    decreases s.len(),
{
    if s.len() == 0 {
        seq![x]
    } else if s.last().start <= x.start {
        s.push(x)
    } else {
        insert_by_start(s.drop_last(), x).push(s.last())
    }
}

/// `s` stably sorted by start.
pub open spec fn sort_by_start(s: Seq<ClipModel>) -> Seq<ClipModel>
    decreases s.len(),
{
    if s.len() == 0 {
        s
    } else {
        insert_by_start(sort_by_start(s.drop_last()), s.last())
    }
}

/// `buf` with `vis` written over it from index `off`.
pub open spec fn overlay(buf: Seq<u32>, vis: Seq<u32>, off: int) -> Seq<u32> {
    Seq::new(buf.len(), |j: int| if off <= j < off + vis.len() { vis[j - off] } else { buf[j] })
}

/// Silence of length `n` with the visible audio of each clip of `sorted`
/// written over it in turn at its offset from `min_start`.
pub open spec fn layered(sorted: Seq<ClipModel>, min_start: int, ch: int, n: nat) -> Seq<u32>
    decreases sorted.len(),
{
    if sorted.len() == 0 {
        Seq::new(n, |j: int| SILENCE)
    } else {
        overlay(layered(sorted.drop_last(), min_start, ch, n), sorted.last().visible(), (sorted.last().start - min_start) * ch)
    }
}

pub open spec fn max_end(s: Seq<ClipModel>) -> int
    decreases s.len(),
{
    if s.len() == 0 {
        0
    } else {
        let m = max_end(s.drop_last());
        if s.last().end() > m {
            s.last().end()
        } else {
            m
        }
    }
}

/// The track's channel count, at least 1.
pub open spec fn track_ch(t: TrackModel) -> int {
    if t.channels >= 1 {
        t.channels as int
    } else {
        1
    }
}

/// The clip that joining `picked` produces: from the earliest start to the
/// latest end, silence in any gap, and where clips overlap the one that
/// starts later (or, at equal starts, comes later on the track) wins.
pub open spec fn joined_clip(t: TrackModel, ids: Seq<ClipId>, id: ClipId) -> ClipModel {
    let sorted = sort_by_start(picked(t.clips, ids));
    let min_start = sorted[0].start as int;
    let ch = track_ch(t);
    let frames = max_end(sorted) - min_start;
    ClipModel::baked(id, sorted[0].name, sorted[0].start, layered(sorted, min_start, ch, (frames * ch) as nat), ch as u8)
}

impl ProjectContent {
    /// Joining the clips of track position `ti` named in `ids` into one new
    /// clip (the next clip id), appended after the clips that remain.
    pub open spec fn with_join(self, ti: int, ids: Seq<ClipId>) -> ProjectContent {
        let t = self.tracks[ti];
        let j = joined_clip(t, ids, ClipId(self.next_clip_id));
        ProjectContent {
            tracks: self.tracks.update(ti, TrackModel { clips: unpicked(t.clips, ids).push(j), ..t }),
            next_clip_id: (self.next_clip_id + 1) as u32,
            ..self
        }
    }
}


/// Joining the clips of `t` named in `ids` stays within what the joined
/// buffer can hold: the buffer fits the address space, and each clip's
/// visible audio, written at its offset, ends inside the buffer.
pub open spec fn join_fits(t: TrackModel, ids: Seq<ClipId>) -> bool {
    let sorted = sort_by_start(picked(t.clips, ids));
    let min_start = sorted[0].start as int;
    let ch = track_ch(t);
    let n = (max_end(sorted) - min_start) * ch;
    &&& n <= isize::MAX
    &&& forall|q: int|
        0 <= q < sorted.len() ==> ((#[trigger] sorted[q]).start - min_start) * ch + sorted[q].len * sorted[q].ch() <= n
}

/// The edit state after joining, track by track over the first `n` tracks,
/// the clips of each track named in `ids` (a track with fewer than two of
/// them is left alone; each join is an undo step of its own).
pub open spec fn joined_state(s: EditState, ids: Seq<ClipId>, n: nat) -> EditState
    decreases n,
{
    if n == 0 {
        s
    } else {
        let p = joined_state(s, ids, (n - 1) as nat);
        if picked(p.content.tracks[n - 1].clips, ids).len() >= 2 {
            after_edit(p, p.content.with_join(n - 1, ids))
        } else {
            p
        }
    }
}

/// The ids of the clips that joining over the first `n` tracks creates, in
/// track order.
pub open spec fn joined_ids(s: EditState, ids: Seq<ClipId>, n: nat) -> Seq<ClipId>
    decreases n,
{
    if n == 0 {
        Seq::empty()
    } else {
        let p = joined_state(s, ids, (n - 1) as nat);
        let r = joined_ids(s, ids, (n - 1) as nat);
        if picked(p.content.tracks[n - 1].clips, ids).len() >= 2 {
            r.push(ClipId(p.content.next_clip_id))
        } else {
            r
        }
    }
}

pub proof fn lemma_joined_ids_grow(s: EditState, ids: Seq<ClipId>, a: nat, b: nat)
    requires
        a <= b,
    ensures
        joined_ids(s, ids, a).len() <= joined_ids(s, ids, b).len(),
    decreases b,
{
    if a < b {
        lemma_joined_ids_grow(s, ids, a, (b - 1) as nat);
    }
}

/// Inserting `x` at a position `j` whose left neighbour starts no later
/// than `x` and whose right-hand elements all start later is exactly the
/// stable insertion `insert_by_start`.
pub proof fn lemma_insert_by_start_at(s: Seq<ClipModel>, x: ClipModel, j: int)
    requires
        0 <= j <= s.len(),
        j == 0 || s[j - 1].start <= x.start,
        forall|a: int| j <= a < s.len() ==> (#[trigger] s[a]).start > x.start,
    ensures
        insert_by_start(s, x) == s.insert(j, x),
    decreases s.len(),
{
    if s.len() == 0 {
        assert(seq![x] =~= s.insert(j, x));
    } else if s.last().start <= x.start {
        if j < s.len() {
            assert(s[s.len() - 1].start > x.start);
        }
        assert(s.push(x) =~= s.insert(j, x));
    } else {
        let d = s.drop_last();
        assert(j < s.len());
        assert forall|a: int| j <= a < d.len() implies (#[trigger] d[a]).start > x.start by {
            assert(d[a] == s[a]);
        }
        lemma_insert_by_start_at(d, x, j);
        assert(d.insert(j, x).push(s.last()) =~= s.insert(j, x));
    }
}

pub proof fn lemma_max_end(s: Seq<ClipModel>)
    ensures
        forall|a: int| 0 <= a < s.len() ==> (#[trigger] s[a]).end() <= max_end(s),
        s.len() > 0 ==> exists|a: int| 0 <= a < s.len() && max_end(s) == (#[trigger] s[a]).end(),
        max_end(s) >= 0,
    decreases s.len(),
{
    if s.len() > 0 {
        let d = s.drop_last();
        lemma_max_end(d);
        assert forall|a: int| 0 <= a < s.len() implies (#[trigger] s[a]).end() <= max_end(s) by {
            if a < s.len() - 1 {
                assert(s[a] == d[a]);
            }
        }
        if s.last().end() > max_end(d) {
            assert(max_end(s) == s[s.len() - 1].end());
        } else if d.len() > 0 {
            let a = choose|a: int| 0 <= a < d.len() && max_end(d) == (#[trigger] d[a]).end();
            assert(s[a] == d[a]);
            assert(max_end(s) == s[a].end());
        } else {
            assert(max_end(s) == s[0].end());
        }
    }
}

/// How many clips of `clips` are named in `ids`.
fn picked_count(clips: &Vec<Clip>, ids: &[ClipId]) -> (n: usize)
    ensures
        n == picked(clip_models(clips@), ids@).len(),
{
    let ghost ms = clip_models(clips@);
    let mut n: usize = 0;
    let mut k: usize = 0;
    while k < clips.len()
        invariant
            k <= clips.len(),
            ms == clip_models(clips@),
            n == picked(ms.take(k as int), ids@).len(),
            n <= k,
        decreases clips.len() - k,
    {
        assert(ms.take(k + 1).drop_last() =~= ms.take(k as int));
        assert(ms.take(k + 1).last() == clips@[k as int]@);
        if contains_clip_id(ids, clips[k].id) {
            n += 1;
        }
        k += 1;
    }
    assert(ms.take(k as int) =~= ms);
    n
}


/// The joined buffer of the clips of `track` named in `clip_ids`, with its
/// start, name and channel count: the pieces of `joined_clip`.
#[verifier::rlimit(50)]
fn joined_buffer(track: &Track, clip_ids: &[ClipId]) -> (r: (Vec<u32>, u64, String, u8))
    requires
        track@.wf(),
        picked(track@.clips, clip_ids@).len() >= 2,
        join_fits(track@, clip_ids@),
    ensures
        forall|id: ClipId|
            #[trigger] joined_clip(track@, clip_ids@, id) == ClipModel::baked(id, r.2@, r.1, r.0@, r.3) && joined_clip(
                track@,
                clip_ids@,
                id,
            ).wf(),
{
    let ghost t = track@;
    let ghost clips = t.clips;
    let ghost ids = clip_ids@;
    // The positions of the named clips, in track order.
    let n_clips = track.clips.len();
    assert forall|a: int| 0 <= a < n_clips implies (#[trigger] track.clips@[a])@ == clips[a] by {
        assert(clips[a] == clip_models(track.clips@)[a]);
    }
    let mut idx: Vec<usize> = Vec::new();
    let ghost mut sel: Seq<ClipModel> = Seq::empty();
    let mut k: usize = 0;
    while k < n_clips
        invariant
            track.clips@.len() == n_clips,
            forall|a: int| 0 <= a < n_clips ==> (#[trigger] track.clips@[a])@ == clips[a],
            t == track@,
            clips == t.clips,
            ids == clip_ids@,
            n_clips == clips.len(),
            k <= n_clips,
            sel == picked(clips.take(k as int), ids),
            idx@.len() == sel.len(),
            forall|q: int| #![trigger idx@[q]] #![trigger sel[q]] 0 <= q < idx@.len() ==> (idx@[q] as int) < n_clips && clips[idx@[q] as int] == sel[q],
        decreases n_clips - k,
    {
        assert(clips[k as int] == track.clips@[k as int]@);
        assert(clips.take(k + 1).drop_last() =~= clips.take(k as int));
        assert(clips.take(k + 1).last() == clips[k as int]);
        if contains_clip_id(clip_ids, track.clips[k].id) {
            idx.push(k);
            proof {
                sel = sel.push(clips[k as int]);
            }
        }
        k += 1;
    }
    assert(clips.take(n_clips as int) =~= clips);
    // Stable insertion sort of those positions by start.
    let mut sidx: Vec<usize> = Vec::new();
    let ghost mut srt: Seq<ClipModel> = Seq::empty();
    let mut q: usize = 0;
    while q < idx.len()
        invariant
            track.clips@.len() == n_clips,
            forall|a: int| 0 <= a < n_clips ==> (#[trigger] track.clips@[a])@ == clips[a],
            t == track@,
            clips == t.clips,
            n_clips == clips.len(),
            sel == picked(clips, ids),
            idx@.len() == sel.len(),
            forall|a: int| #![trigger idx@[a]] #![trigger sel[a]] 0 <= a < idx@.len() ==> (idx@[a] as int) < n_clips && clips[idx@[a] as int] == sel[a],
            q <= idx@.len(),
            srt == sort_by_start(sel.take(q as int)),
            sidx@.len() == srt.len(),
            sidx@.len() == q,
            forall|a: int| #![trigger sidx@[a]] #![trigger srt[a]] 0 <= a < sidx@.len() ==> (sidx@[a] as int) < n_clips && clips[sidx@[a] as int] == srt[a],
            forall|a: int, b: int| 0 <= a <= b < srt.len() ==> (#[trigger] srt[a]).start <= (#[trigger] srt[b]).start,
        decreases idx@.len() - q,
    {
        let x = idx[q];
        let ghost xm = clips[x as int];
        assert(xm == sel[q as int]);
        assert(xm == track.clips@[x as int]@);
        let xs = track.clips[x].start_sample;
        let mut j = sidx.len();
        while j > 0 && track.clips[sidx[j - 1]].start_sample > xs
            invariant
                track.clips@.len() == n_clips,
                forall|a: int| 0 <= a < n_clips ==> (#[trigger] track.clips@[a])@ == clips[a],
                t == track@,
                clips == t.clips,
                n_clips == clips.len(),
                sidx@.len() == srt.len(),
                forall|a: int| #![trigger sidx@[a]] #![trigger srt[a]] 0 <= a < sidx@.len() ==> (sidx@[a] as int) < n_clips && clips[sidx@[a] as int] == srt[a],
                j <= sidx@.len(),
                forall|a: int| j <= a < srt.len() ==> (#[trigger] srt[a]).start > xs,
            decreases j,
        {
            assert(clips[sidx@[j - 1] as int] == track.clips@[sidx@[j - 1] as int]@);
            assert(srt[j - 1] == clips[sidx@[j - 1] as int]);
            j -= 1;
        }
        proof {
            if j > 0 {
                assert(clips[sidx@[j - 1] as int] == track.clips@[sidx@[j - 1] as int]@);
                assert(srt[j - 1] == clips[sidx@[j - 1] as int]);
            }
        }
        sidx.insert(j, x);
        proof {
            lemma_insert_by_start_at(srt, xm, j as int);
            assert(sel.take(q + 1).drop_last() =~= sel.take(q as int));
            assert(sel.take(q + 1).last() == xm);
            let s2 = srt.insert(j as int, xm);
            assert forall|a: int, b: int| 0 <= a <= b < s2.len() implies (#[trigger] s2[a]).start <= (#[trigger] s2[b]).start by {
                if a < j as int {
                    assert(s2[a] == srt[a]);
                    if b < j as int {
                        assert(s2[b] == srt[b]);
                    } else if b == j as int {
                        assert(srt[a].start <= srt[j - 1].start);
                    } else {
                        assert(s2[b] == srt[b - 1]);
                    }
                } else if a == j as int {
                    if b > a {
                        assert(s2[b] == srt[b - 1]);
                    }
                } else {
                    assert(s2[a] == srt[a - 1]);
                    assert(s2[b] == srt[b - 1]);
                }
            }
            assert forall|a: int| #![trigger sidx@[a]] #![trigger s2[a]] 0 <= a < sidx@.len() implies (sidx@[a] as int) < n_clips && clips[sidx@[a] as int] == s2[a] by {
                if a < j as int {
                    assert(s2[a] == srt[a]);
                } else if a > j as int {
                    assert(s2[a] == srt[a - 1]);
                }
            }
            srt = s2;
        }
        q += 1;
    }
    assert(sel.take(q as int) =~= sel);
    assert(srt == sort_by_start(picked(t.clips, ids)));
    assert(srt.len() >= 2);
    proof {
        lemma_max_end(srt);
    }
    let first = sidx[0];
    assert(clips[first as int] == track.clips@[first as int]@);
    let min_start = track.clips[first].start_sample;
    let tch = track.channels;
    let ch: u8 = if tch >= 1 { tch } else { 1 };
    assert(ch as int == track_ch(t));
    // The latest end.
    let mut max_e: u64 = 0;
    let mut p: usize = 0;
    while p < sidx.len()
        invariant
            track.clips@.len() == n_clips,
            forall|a: int| 0 <= a < n_clips ==> (#[trigger] track.clips@[a])@ == clips[a],
            t == track@,
            t.wf(),
            clips == t.clips,
            n_clips == clips.len(),
            sidx@.len() == srt.len(),
            forall|a: int| #![trigger sidx@[a]] #![trigger srt[a]] 0 <= a < sidx@.len() ==> (sidx@[a] as int) < n_clips && clips[sidx@[a] as int] == srt[a],
            p <= sidx@.len(),
            max_e == max_end(srt.take(p as int)),
        decreases sidx@.len() - p,
    {
        let y = sidx[p];
        let ghost ym = clips[y as int];
        assert(ym == track.clips@[y as int]@);
        assert(ym == srt[p as int]);
        assert(ym.wf());
        let e = track.clips[y].end_sample();
        assert(srt.take(p + 1).drop_last() =~= srt.take(p as int));
        assert(srt.take(p + 1).last() == ym);
        if e > max_e {
            max_e = e;
        }
        p += 1;
    }
    assert(srt.take(p as int) =~= srt);
    let ghost top = choose|a: int| 0 <= a < srt.len() && max_end(srt) == (#[trigger] srt[a]).end();
    proof {
        assert(srt[top] == clips[sidx@[top] as int]);
        assert(srt[top].wf());
        assert(srt[0].start <= srt[0].end());
    }
    assert(min_start <= max_e);
    assert(max_e <= i64::MAX);
    let ghost frames_i: int = max_e - min_start;
    let ghost n_i: int = frames_i * (ch as int);
    assert(frames_i <= n_i) by (nonlinear_arith)
        requires
            frames_i >= 0,
            ch >= 1,
            n_i == frames_i * (ch as int),
    ;
    assert(n_i <= isize::MAX);
    let frames = (max_e - min_start) as usize;
    let chs = ch as usize;
    let n = frames * chs;
    assert(n == n_i);
    // Silence from the earliest start to the latest end.
    let mut buf: Vec<u32> = Vec::new();
    let mut b: usize = 0;
    while b < n
        invariant
            b <= n,
            buf@ == Seq::new(b as nat, |jj: int| SILENCE),
        decreases n - b,
    {
        buf.push(SILENCE);
        b += 1;
        assert(buf@ =~= Seq::new(b as nat, |jj: int| SILENCE));
    }
    assert(buf@ =~= layered(srt.take(0), min_start as int, ch as int, n as nat));
    // Each clip's visible audio over it, in start order.
    let mut p: usize = 0;
    while p < sidx.len()
        invariant
            track.clips@.len() == n_clips,
            forall|a: int| 0 <= a < n_clips ==> (#[trigger] track.clips@[a])@ == clips[a],
            t == track@,
            t.wf(),
            clips == t.clips,
            n_clips == clips.len(),
            sidx@.len() == srt.len(),
            forall|a: int| #![trigger sidx@[a]] #![trigger srt[a]] 0 <= a < sidx@.len() ==> (sidx@[a] as int) < n_clips && clips[sidx@[a] as int] == srt[a],
            forall|a: int, b: int| 0 <= a <= b < srt.len() ==> (#[trigger] srt[a]).start <= (#[trigger] srt[b]).start,
            srt == sort_by_start(picked(t.clips, ids)),
            join_fits(t, ids),
            ch as int == track_ch(t),
            chs == ch as usize,
            min_start == srt[0].start,
            max_e == max_end(srt),
            n == (max_e - min_start) * chs,
            n <= isize::MAX,
            p <= sidx@.len(),
            buf@.len() == n,
            buf@ == layered(srt.take(p as int), min_start as int, ch as int, n as nat),
        decreases sidx@.len() - p,
    {
        let y = sidx[p];
        let ghost ym = clips[y as int];
        assert(ym == track.clips@[y as int]@);
        assert(ym == srt[p as int]);
        assert(ym.wf());
        assert(srt[0].start <= srt[p as int].start);
        let ghost d: int = ym.start - min_start;
        let ghost lim: int = (ym.start - min_start) * (ch as int) + ym.len * ym.ch();
        assert(lim <= n);
        proof {
            lemma_visible_len(ym);
            assert(d <= d * (ch as int)) by (nonlinear_arith)
                requires
                    d >= 0,
                    ch >= 1,
            ;
            assert(0 <= ym.len * ym.ch()) by (nonlinear_arith)
                requires
                    ym.ch() >= 1,
            ;
        }
        let off = (track.clips[y].start_sample - min_start) as usize * chs;
        assert(off == d * (ch as int));
        let vis = track.clips[y].visible_samples();
        assert(off + vis@.len() <= n);
        let ghost prev = buf@;
        let mut r: usize = 0;
        while r < vis.len()
            invariant
                off + vis@.len() <= n,
                r <= vis@.len(),
                prev.len() == n,
                buf@ == Seq::new(n as nat, |jj: int| if off <= jj < off + r { vis@[jj - off] } else { prev[jj] }),
            decreases vis@.len() - r,
        {
            buf.set(off + r, vis[r]);
            r += 1;
            assert(buf@ =~= Seq::new(n as nat, |jj: int| if off <= jj < off + r { vis@[jj - off] } else { prev[jj] }));
        }
        assert(buf@ =~= overlay(prev, ym.visible(), (ym.start - min_start) * (ch as int)));
        assert(srt.take(p + 1).drop_last() =~= srt.take(p as int));
        assert(srt.take(p + 1).last() == ym);
        p += 1;
    }
    assert(srt.take(p as int) =~= srt);
    let name = track.clips[first].name.clone();
    proof {
        assert(n as int / (ch as int) == frames_i) by (nonlinear_arith)
            requires
                n == frames_i * (ch as int),
                ch >= 1,
        ;
        assert forall|id: ClipId|
            #[trigger] joined_clip(t, ids, id) == ClipModel::baked(id, name@, min_start, buf@, ch) && joined_clip(t, ids, id).wf() by {
            let m = ClipModel::baked(id, name@, min_start, buf@, ch);
            assert(m == joined_clip(t, ids, id));
            assert(m.wf());
        }
    }
    (buf, min_start, name, ch)
}

impl Project {
    /// Joins the clips of the track at position `i` named in `clip_ids` (at
    /// least two of them) into one new clip, as one undo step; returns its
    /// id.
    fn join_clips_on_track(&mut self, i: usize, clip_ids: &[ClipId]) -> (id: ClipId)
        requires
            old(self).wf(),
            i < old(self).content().tracks.len(),
            picked(old(self).content().tracks[i as int].clips, clip_ids@).len() >= 2,
            join_fits(old(self).content().tracks[i as int], clip_ids@),
            old(self).content().next_clip_id < u32::MAX,
        ensures
            final(self).wf(),
            id == ClipId(old(self).content().next_clip_id),
            final(self).content() == old(self).content().with_join(i as int, clip_ids@),
            final(self).edit_state() == after_edit(old(self).edit_state(), final(self).content()),
            final(self).selected_clips() == old(self).selected_clips(),
            final(self).selected_track_ids() == old(self).selected_track_ids(),
            final(self).clipboard() == old(self).clipboard(),
    {
        let ghost c = self.content();
        let ghost t = c.tracks[i as int];
        let ghost clips = t.clips;
        let ghost ids = clip_ids@;
        assert(t == self.tracks@[i as int]@);
        assert(t.wf());
        let n_clips = self.tracks[i].clips.len();
        let (buf, min_start, name, ch) = joined_buffer(&self.tracks[i], clip_ids);
        self.push_undo();
        proof {
            assert(unpicked(clips.take(0), ids) + clips.skip(0) =~= clips);
            assert((TrackModel { clips: clips, ..t }) =~= t);
            assert(c.tracks.update(i as int, t) =~= c.tracks);
        }
        let ghost s1 = self.edit_state();
        // Take the named clips off the track, keeping the others in order.
        let mut p: usize = 0;
        let mut kk: usize = 0;
        while p < n_clips
            invariant
                self.wf(),
                c.wf(),
                i < c.tracks.len(),
                t == c.tracks[i as int],
                clips == t.clips,
                ids == clip_ids@,
                n_clips == clips.len(),
                kk <= p <= n_clips,
                self.tracks@.len() == c.tracks.len(),
                kk == unpicked(clips.take(p as int), ids).len(),
                self.content() == (ProjectContent {
                    tracks: c.tracks.update(i as int, TrackModel { clips: unpicked(clips.take(p as int), ids) + clips.skip(p as int), ..t }),
                    ..c
                }),
                self.edit_state().undo == s1.undo,
                self.edit_state().redo == s1.redo,
                self.selected_clips() == old(self).selected_clips(),
                self.selected_track_ids() == old(self).selected_track_ids(),
                self.clipboard() == old(self).clipboard(),
            decreases n_clips - p,
        {
            let ghost cur = self.content();
            let ghost u = unpicked(clips.take(p as int), ids);
            let ghost rest = clips.skip(p as int);
            assert(cur.tracks[i as int].clips == u + rest);
            assert(cur.tracks[i as int] == self.tracks@[i as int]@);
            assert((u + rest)[kk as int] == clips[p as int]);
            assert(clips[p as int] == self.tracks@[i as int].clips@[kk as int]@);
            assert(clips.take(p + 1).drop_last() =~= clips.take(p as int));
            assert(clips.take(p + 1).last() == clips[p as int]);
            if contains_clip_id(clip_ids, self.tracks[i].clips[kk].id) {
                self.tracks[i].clips.remove(kk);
                proof {
                    assert(cur.is_clip_addr(i as int, kk as int));
                    lemma_without_clip_wf(cur, i as int, kk as int);
                    let c2 = self.content();
                    assert(c2.tracks[i as int].clips =~= cur.tracks[i as int].clips.remove(kk as int));
                    assert(c2.tracks[i as int] =~= (TrackModel { clips: cur.tracks[i as int].clips.remove(kk as int), ..cur.tracks[i as int] }));
                    assert(c2 =~= cur.without_clip(i as int, kk as int));
                    assert((u + rest).remove(kk as int) =~= u + clips.skip(p + 1));
                }
            } else {
                assert(u.push(clips[p as int]) + clips.skip(p + 1) =~= u + rest);
                kk += 1;
            }
            p += 1;
        }
        assert(clips.take(p as int) =~= clips);
        assert(clips.skip(p as int) =~= Seq::<ClipModel>::empty());
        let ghost c1 = self.content();
        assert(c1.tracks[i as int].clips =~= unpicked(clips, ids));
        let new_id = self.alloc_clip_id();
        assert(track_models(self.tracks@).len() == self.tracks@.len());
        assert(self.content().tracks == c1.tracks);
        let joined = Clip::from_samples_channels(new_id, name, min_start, buf, ch);
        let ghost m = joined@;
        assert(m == joined_clip(t, ids, new_id));
        assert(m.wf());
        self.tracks[i].clips.push(joined);
        proof {
            let t2 = TrackModel { clips: c1.tracks[i as int].clips.push(m), ..c1.tracks[i as int] };
            lemma_push_fresh_clip(c1, i as int, t2, m);
            let c2 = self.content();
            assert(c2.tracks[i as int].clips =~= c1.tracks[i as int].clips.push(m));
            assert(c2.tracks =~= c1.tracks.update(i as int, t2));
            assert(c2 =~= c.with_join(i as int, ids));
        }
        new_id
    }
}


impl Project {
    /// Joins the clips named in `clip_ids` that share a track into one clip
    /// spanning from the earliest one's start to the latest one's end:
    /// silence fills any gap between them, and where they overlap the clip
    /// that starts later wins. Each track is joined on its own (one undo
    /// step and one new clip per track with at least two named clips),
    /// tracks in order; returns the new clip ids in that order.
    pub fn join_clips(&mut self, clip_ids: &[ClipId]) -> (new_ids: Vec<ClipId>)
        requires
            old(self).wf(),
            old(self).content().next_clip_id + joined_ids(old(self).edit_state(), clip_ids@, old(self).content().tracks.len()).len()
                <= u32::MAX,
            forall|i: int|
                0 <= i < old(self).content().tracks.len() && picked(#[trigger] old(self).content().tracks[i].clips, clip_ids@).len() >= 2
                    ==> join_fits(old(self).content().tracks[i], clip_ids@),
        ensures
            final(self).wf(),
            final(self).edit_state() == joined_state(old(self).edit_state(), clip_ids@, old(self).content().tracks.len()),
            new_ids@ == joined_ids(old(self).edit_state(), clip_ids@, old(self).content().tracks.len()),
            final(self).selected_clips() == old(self).selected_clips(),
            final(self).selected_track_ids() == old(self).selected_track_ids(),
            final(self).clipboard() == old(self).clipboard(),
    {
        let ghost s0 = self.edit_state();
        let ghost c = self.content();
        let ghost ids = clip_ids@;
        let n_tracks = self.tracks.len();
        assert(track_models(self.tracks@).len() == self.tracks@.len());
        let mut new_ids: Vec<ClipId> = Vec::new();
        let mut q: usize = 0;
        while q < n_tracks
            invariant
                self.wf(),
                ids == clip_ids@,
                s0.content == c,
                q <= n_tracks == c.tracks.len(),
                self.tracks@.len() == n_tracks,
                self.edit_state() == joined_state(s0, ids, q as nat),
                new_ids@ == joined_ids(s0, ids, q as nat),
                self.content().tracks.len() == c.tracks.len(),
                forall|j: int| q <= j < c.tracks.len() ==> #[trigger] self.content().tracks[j] == c.tracks[j],
                self.content().next_clip_id == c.next_clip_id + new_ids@.len(),
                c.next_clip_id + joined_ids(s0, ids, n_tracks as nat).len() <= u32::MAX,
                forall|i: int|
                    0 <= i < c.tracks.len() && picked(#[trigger] c.tracks[i].clips, ids).len() >= 2 ==> join_fits(c.tracks[i], ids),
                self.selected_clips() == old(self).selected_clips(),
                self.selected_track_ids() == old(self).selected_track_ids(),
                self.clipboard() == old(self).clipboard(),
            decreases n_tracks - q,
        {
            let ghost cur = self.content();
            assert(cur.tracks[q as int] == c.tracks[q as int]);
            assert(cur.tracks[q as int] == self.tracks@[q as int]@);
            let cnt = picked_count(&self.tracks[q].clips, clip_ids);
            proof {
                lemma_joined_ids_grow(s0, ids, (q + 1) as nat, n_tracks as nat);
            }
            if cnt >= 2 {
                let id = self.join_clips_on_track(q, clip_ids);
                new_ids.push(id);
                proof {
                    assert(track_models(self.tracks@).len() == self.tracks@.len());
                }
            }
            q += 1;
        }
        new_ids
    }
}


/// The clip ids on each of the tracks `tids`, track after track.
pub open spec fn clip_ids_of_tracks(c: ProjectContent, tids: Seq<TrackId>) -> Seq<ClipId>
    decreases tids.len(),
{
    if tids.len() == 0 {
        Seq::empty()
    } else {
        clip_ids_of_tracks(c, tids.drop_last()) + c.clip_ids_of(tids.last())
    }
}

fn clone_clipboard(entries: &Vec<ClipboardEntry>) -> (out: Vec<ClipboardEntry>)
    ensures
        clipboard_models(out@) == clipboard_models(entries@),
{
    let mut out: Vec<ClipboardEntry> = Vec::new();
    let mut i: usize = 0;
    while i < entries.len()
        invariant
            i <= entries.len(),
            out@.len() == i,
            forall|k: int|
                0 <= k < i ==> (#[trigger] out@[k]).track_offset == entries@[k].track_offset && out@[k].start_offset
                    == entries@[k].start_offset && out@[k].clip@ == entries@[k].clip@,
        decreases entries.len() - i,
    {
        let e = &entries[i];
        out.push(ClipboardEntry { track_offset: e.track_offset, start_offset: e.start_offset, clip: e.clip.clone() });
        i += 1;
    }
    assert(clipboard_models(out@) =~= clipboard_models(entries@));
    out
}

impl Project {
    /// Which clips the effects apply to: every clip on every selected track
    /// (selected tracks in selection order, each track's clips in track
    /// order) when any track is selected, otherwise the clip selection.
    pub fn effect_targets(&self) -> (ids: Vec<ClipId>)
        requires
            self.wf(),
        ensures
            ids@ == (if self.selected_track_ids().len() > 0 {
                clip_ids_of_tracks(self.content(), self.selected_track_ids())
            } else {
                self.selected_clips()
            }),
    {
        if self.selected_tracks.len() > 0 {
            let mut ids: Vec<ClipId> = Vec::new();
            let mut q: usize = 0;
            while q < self.selected_tracks.len()
                invariant
                    self.wf(),
                    q <= self.selected_tracks@.len(),
                    ids@ == clip_ids_of_tracks(self.content(), self.selected_tracks@.take(q as int)),
                decreases self.selected_tracks@.len() - q,
            {
                let mut more = self.clip_ids_on_track(self.selected_tracks[q]);
                ids.append(&mut more);
                assert(self.selected_tracks@.take(q + 1).drop_last() =~= self.selected_tracks@.take(q as int));
                q += 1;
            }
            assert(self.selected_tracks@.take(q as int) =~= self.selected_tracks@);
            ids
        } else {
            self.selection.clone()
        }
    }
}

impl Clone for Project {
    /// A point-in-time copy of the content, selection and clipboard; the
    /// undo/redo history belongs to the live editing session and is not
    /// carried along.
    fn clone(&self) -> (p: Self)
        ensures
            self.wf() ==> p.wf(),
            p.content() == self.content(),
            p.selected_clips() == self.selected_clips(),
            p.selected_track_ids() == self.selected_track_ids(),
            p.clipboard() == self.clipboard(),
            p.undo_history() == Seq::<ProjectContent>::empty(),
            p.redo_history() == Seq::<ProjectContent>::empty(),
    {
        let p = Project {
            sample_rate_hz: self.sample_rate_hz,
            tracks: clone_tracks(&self.tracks),
            next_track_id: self.next_track_id,
            next_clip_id: self.next_clip_id,
            selection: self.selection.clone(),
            selected_tracks: self.selected_tracks.clone(),
            clipboard: clone_clipboard(&self.clipboard),
            undo_stack: Vec::new(),
            redo_stack: Vec::new(),
        };
        assert(p.content() =~= self.content());
        assert(p.undo_history() =~= Seq::<ProjectContent>::empty());
        assert(p.redo_history() =~= Seq::<ProjectContent>::empty());
        p
    }
}


/// Replacing the `cnt` tracks from position `pos` with new tracks whose
/// track ids and clip ids are all fresh and distinct keeps a project
/// well-formed.
pub proof fn lemma_replace_tracks_wf(c: ProjectContent, pos: int, cnt: int, nts: Seq<TrackModel>, next_t: u32, next_c: u32)
    requires
        c.wf(),
        0 <= pos,
        0 <= cnt,
        pos + cnt <= c.tracks.len(),
        c.next_track_id <= next_t,
        c.next_clip_id <= next_c,
        forall|j: int| 0 <= j < nts.len() ==> (#[trigger] nts[j]).wf(),
        forall|j: int| 0 <= j < nts.len() ==> c.next_track_id <= (#[trigger] nts[j]).id.0 < next_t,
        forall|j: int, l: int| 0 <= j < nts.len() && 0 <= l < nts.len() && j != l ==> (#[trigger] nts[j]).id != (#[trigger] nts[l]).id,
        forall|j: int, k: int|
            0 <= j < nts.len() && 0 <= k < nts[j].clips.len() ==> c.next_clip_id <= (#[trigger] nts[j].clips[k]).id.0 < next_c,
        forall|j: int, k: int, l: int, m: int|
            0 <= j < nts.len() && 0 <= k < nts[j].clips.len() && 0 <= l < nts.len() && 0 <= m < nts[l].clips.len() && (j != l
                || k != m) ==> (#[trigger] nts[j].clips[k]).id != (#[trigger] nts[l].clips[m]).id,
    ensures
        (ProjectContent {
            tracks: c.tracks.take(pos) + nts + c.tracks.skip(pos + cnt),
            next_track_id: next_t,
            next_clip_id: next_c,
            ..c
        }).wf(),
{
    let c2 = ProjectContent { tracks: c.tracks.take(pos) + nts + c.tracks.skip(pos + cnt), next_track_id: next_t, next_clip_id: next_c, ..c };
    let n = nts.len() as int;
    assert(c2.tracks.len() == c.tracks.len() - cnt + n);
    assert forall|i: int| 0 <= i < c2.tracks.len() implies #[trigger] c2.tracks[i] == (if i < pos {
        c.tracks[i]
    } else if i < pos + n {
        nts[i - pos]
    } else {
        c.tracks[i - n + cnt]
    }) by {}
    let back = |i: int| if i < pos { i } else { i - n + cnt };
    assert forall|i: int| 0 <= i < c2.tracks.len() implies (#[trigger] c2.tracks[i]).wf() by {
        if i < pos || i >= pos + n {
            assert(c.tracks[back(i)].wf());
        } else {
            assert(nts[i - pos].wf());
        }
    }
    assert forall|i: int| 0 <= i < c2.tracks.len() implies (#[trigger] c2.tracks[i]).id.0 < c2.next_track_id by {
        if i < pos || i >= pos + n {
            assert(c.tracks[back(i)].id.0 < c.next_track_id);
        } else {
            assert(nts[i - pos].id.0 < next_t);
        }
    }
    assert forall|i: int, j: int| 0 <= i < c2.tracks.len() && 0 <= j < c2.tracks.len() && i != j implies #[trigger] c2.tracks[i].id
        != #[trigger] c2.tracks[j].id by {
        let inew = pos <= i < pos + n;
        let jnew = pos <= j < pos + n;
        if !inew && !jnew {
            assert(c.tracks[back(i)].id != c.tracks[back(j)].id);
        } else if inew && !jnew {
            assert(c.tracks[back(j)].id.0 < c.next_track_id);
            assert(nts[i - pos].id.0 >= c.next_track_id);
        } else if !inew && jnew {
            assert(c.tracks[back(i)].id.0 < c.next_track_id);
            assert(nts[j - pos].id.0 >= c.next_track_id);
        } else {
            assert(nts[i - pos].id != nts[j - pos].id);
        }
    }
    let orig = |i: int, k: int| (back(i), k);
    assert forall|i: int, k: int| c2.is_clip_addr(i, k) implies (#[trigger] c2.clip_at(i, k)).id.0 < c2.next_clip_id by {
        if i < pos || i >= pos + n {
            assert(c.is_clip_addr(back(i), k));
            assert(c.clip_at(back(i), k).id.0 < c.next_clip_id);
        } else {
            assert(c2.clip_at(i, k) == nts[i - pos].clips[k]);
        }
    }
    assert forall|i: int, k: int|
        c2.is_clip_addr(i, k) && (#[trigger] c2.clip_at(i, k)).id.0 < c.next_clip_id implies c.is_clip_addr(orig(i, k).0, orig(i, k).1)
            && c.clip_at(orig(i, k).0, orig(i, k).1).id == c2.clip_at(i, k).id by {
        if pos <= i < pos + n {
            assert(c2.clip_at(i, k) == nts[i - pos].clips[k]);
        }
    }
    assert forall|i: int, k: int, j: int, l: int|
        c2.is_clip_addr(i, k) && c2.is_clip_addr(j, l) && (i != j || k != l) && (#[trigger] c2.clip_at(i, k)).id.0 < c.next_clip_id
            && (#[trigger] c2.clip_at(j, l)).id.0 < c.next_clip_id implies orig(i, k) != orig(j, l) by {
        if pos <= i < pos + n {
            assert(c2.clip_at(i, k) == nts[i - pos].clips[k]);
        }
        if pos <= j < pos + n {
            assert(c2.clip_at(j, l) == nts[j - pos].clips[l]);
        }
    }
    assert forall|i: int, k: int, j: int, l: int|
        c2.is_clip_addr(i, k) && c2.is_clip_addr(j, l) && (i != j || k != l) && (#[trigger] c2.clip_at(i, k)).id.0 >= c.next_clip_id
            && (#[trigger] c2.clip_at(j, l)).id.0 >= c.next_clip_id implies c2.clip_at(i, k).id != c2.clip_at(j, l).id by {
        if i < pos || i >= pos + n {
            assert(c.is_clip_addr(back(i), k));
            assert(c.clip_at(back(i), k).id.0 < c.next_clip_id);
        } else if j < pos || j >= pos + n {
            assert(c.is_clip_addr(back(j), l));
            assert(c.clip_at(back(j), l).id.0 < c.next_clip_id);
        } else {
            assert(c2.clip_at(i, k) == nts[i - pos].clips[k]);
            assert(c2.clip_at(j, l) == nts[j - pos].clips[l]);
        }
    }
    lemma_wf_by_origin(c, c2, orig);
}


/// The samples the clips of `clips` have on `channel` at absolute frame
/// `n`, in clip order (a clip not sounding at `n` contributes nothing).
pub open spec fn present(clips: Seq<ClipModel>, n: int, channel: int) -> Seq<u32>
    decreases clips.len(),
{
    if clips.len() == 0 {
        Seq::empty()
    } else {
        let r = present(clips.drop_last(), n, channel);
        match clips.last().channel_sample(n, channel) {
            Some(v) => r.push(v),
            None => r,
        }
    }
}

/// `p` is a run of adding up `xs` in turn with `mix`, starting from
/// silence: `p[k]` is the running total after the first `k` samples.
pub open spec fn adding_steps<F: Fn(u32, u32) -> u32>(mix: F, xs: Seq<u32>, p: Seq<u32>) -> bool {
    &&& p.len() == xs.len() + 1
    &&& p[0] == SILENCE
    &&& forall|k: int| 0 <= k < xs.len() ==> call_ensures(mix, (p[k], xs[k]), #[trigger] p[k + 1])
}

/// `out` is a total that adding up `xs` in turn with `mix`, starting from
/// silence, gives.
pub open spec fn summed<F: Fn(u32, u32) -> u32>(mix: F, xs: Seq<u32>, out: u32) -> bool {
    exists|p: Seq<u32>| #[trigger] adding_steps(mix, xs, p) && p.last() == out
}

/// `sums` holds, for each of `frames` frames from frame 0, the sum (by
/// `mix`) of what the clips of `clips` sound on `channel` there.
pub open spec fn sums_ok<F: Fn(u32, u32) -> u32>(mix: F, clips: Seq<ClipModel>, channel: int, frames: int, sums: Seq<u32>) -> bool {
    &&& sums.len() == frames
    &&& forall|n: int| 0 <= n < frames ==> summed(mix, present(clips, n, channel), #[trigger] sums[n])
}

/// `samples` mixes channel `channel` of `clips` down to one sample per
/// frame, from frame 0 to the clips' latest end.
pub open spec fn mixdown_ok<F: Fn(u32, u32) -> u32>(mix: F, clips: Seq<ClipModel>, channel: int, samples: Seq<u32>) -> bool {
    sums_ok(mix, clips, channel, max_end(clips), samples)
}

/// The latest end among `clips` (0 for none).
fn latest_end(clips: &Vec<Clip>) -> (e: u64)
    requires
        forall|k: int| 0 <= k < clips@.len() ==> (#[trigger] clips@[k])@.wf(),
    ensures
        e == max_end(clip_models(clips@)),
{
    let ghost ms = clip_models(clips@);
    let mut e: u64 = 0;
    let mut k: usize = 0;
    while k < clips.len()
        invariant
            k <= clips@.len(),
            ms == clip_models(clips@),
            forall|j: int| 0 <= j < clips@.len() ==> (#[trigger] clips@[j])@.wf(),
            e == max_end(ms.take(k as int)),
        decreases clips@.len() - k,
    {
        let ghost m = clips@[k as int]@;
        assert(m.wf());
        let end = clips[k].end_sample();
        assert(ms.take(k + 1).drop_last() =~= ms.take(k as int));
        assert(ms.take(k + 1).last() == m);
        if end > e {
            e = end;
        }
        k += 1;
    }
    assert(ms.take(k as int) =~= ms);
    e
}

/// Mixes channel `channel` of `clips` down to `frames` mono samples.
fn mix_channel<F: Fn(u32, u32) -> u32>(clips: &Vec<Clip>, frames: u64, channel: u8, mix: &F) -> (out: Vec<u32>)
    requires
        forall|a: u32, b: u32| mix.requires((a, b)),
        forall|k: int| 0 <= k < clips@.len() ==> (#[trigger] clips@[k])@.wf(),
        frames <= usize::MAX,
    ensures
        out@.len() == frames,
        forall|n: int| 0 <= n < frames ==> summed(*mix, present(clip_models(clips@), n, channel as int), #[trigger] out@[n]),
{
    let ghost ms = clip_models(clips@);
    let mut out: Vec<u32> = Vec::new();
    let mut n: u64 = 0;
    while n < frames
        invariant
            n <= frames <= usize::MAX,
            ms == clip_models(clips@),
            forall|a: u32, b: u32| mix.requires((a, b)),
            forall|j: int| 0 <= j < clips@.len() ==> (#[trigger] clips@[j])@.wf(),
            out@.len() == n,
            forall|j: int| 0 <= j < n ==> summed(*mix, present(ms, j, channel as int), #[trigger] out@[j]),
        decreases frames - n,
    {
        let mut acc: u32 = SILENCE;
        let ghost mut steps: Seq<u32> = seq![SILENCE];
        let mut k: usize = 0;
        while k < clips.len()
            invariant
                k <= clips@.len(),
                ms == clip_models(clips@),
                forall|a: u32, b: u32| mix.requires((a, b)),
                forall|j: int| 0 <= j < clips@.len() ==> (#[trigger] clips@[j])@.wf(),
                adding_steps(*mix, present(ms.take(k as int), n as int, channel as int), steps),
                steps.last() == acc,
            decreases clips@.len() - k,
        {
            let ghost m = clips@[k as int]@;
            let ghost xs = present(ms.take(k as int), n as int, channel as int);
            assert(ms.take(k + 1).drop_last() =~= ms.take(k as int));
            assert(ms.take(k + 1).last() == m);
            assert(m.wf());
            match clips[k].channel_sample_at(n, channel) {
                Some(v) => {
                    let a2 = mix(acc, v);
                    proof {
                        let s2 = steps.push(a2);
                        let xs2 = xs.push(v);
                        assert forall|q: int| 0 <= q < xs2.len() implies call_ensures(*mix, (s2[q], xs2[q]), #[trigger] s2[q + 1]) by {
                            if q < xs.len() {
                                assert(s2[q] == steps[q]);
                                assert(s2[q + 1] == steps[q + 1]);
                                assert(xs2[q] == xs[q]);
                            }
                        }
                        steps = s2;
                    }
                    acc = a2;
                },
                None => {},
            }
            k += 1;
        }
        assert(ms.take(k as int) =~= ms);
        assert(adding_steps(*mix, present(ms, n as int, channel as int), steps) && steps.last() == acc);
        out.push(acc);
        n += 1;
    }
    out
}


/// `name` + " " + `side`.
pub open spec fn side_name(name: Seq<char>, side: char) -> Seq<char> {
    name + seq![' ', side]
}

/// One mono side of a split track: `t`'s controls under a new id and name,
/// holding, when there is audio, one clip of `samples` from frame 0.
pub open spec fn mono_side(t: TrackModel, id: TrackId, side: char, clip_id: ClipId, samples: Seq<u32>, has_audio: bool) -> TrackModel {
    let name = side_name(t.name, side);
    TrackModel {
        id,
        name,
        pan_percent: t.pan_percent,
        volume: t.volume,
        muted: t.muted,
        soloed: t.soloed,
        channels: 1,
        clips: if has_audio {
            seq![ClipModel::baked(clip_id, name, 0, samples, 1)]
        } else {
            Seq::empty()
        },
    }
}

impl ProjectContent {
    /// This content with the track at `pos` replaced, in place, by its
    /// left and right mono sides ("<name> L", "<name> R": the next two
    /// track ids, and when the track holds audio the next two clip ids),
    /// holding `ls` and `rs`.
    pub open spec fn with_mono_split(self, pos: int, ls: Seq<u32>, rs: Seq<u32>) -> ProjectContent {
        let t = self.tracks[pos];
        let has_audio = max_end(t.clips) > 0;
        let lt = mono_side(t, TrackId(self.next_track_id), 'L', ClipId(self.next_clip_id), ls, has_audio);
        let rt = mono_side(t, TrackId((self.next_track_id + 1) as u32), 'R', ClipId((self.next_clip_id + 1) as u32), rs, has_audio);
        ProjectContent {
            tracks: self.tracks.take(pos) + seq![lt, rt] + self.tracks.skip(pos + 1),
            next_track_id: (self.next_track_id + 2) as u32,
            next_clip_id: if has_audio {
                (self.next_clip_id + 2) as u32
            } else {
                self.next_clip_id
            },
            ..self
        }
    }
}

fn push_side_suffix(name: &mut String, left: bool)
    ensures
        final(name)@ == side_name(old(name)@, if left { 'L' } else { 'R' }),
{
    if left {
        proof {
            reveal_strlit(" L");
        }
        assert(" L"@ =~= seq![' ', 'L']);
        name.append(" L");
    } else {
        proof {
            reveal_strlit(" R");
        }
        assert(" R"@ =~= seq![' ', 'R']);
        name.append(" R");
    }
}

impl Project {
    /// Splits a stereo track into two new mono tracks, "<name> L" and
    /// "<name> R", in its place, each keeping its pan, volume, mute and solo.
    /// All of the track's clips are baked into one continuous clip per side
    /// from frame 0 to their latest end, where each frame is the sum (by
    /// `mix`) of what the clips sound on that side. Clears the track
    /// selection; one undo step. Returns the new (left, right) track ids, or
    /// `None` (changing nothing) when there is no such track or it is not
    /// stereo.
    pub fn split_track_to_mono<F: Fn(u32, u32) -> u32>(&mut self, track_id: TrackId, mix: F) -> (r: Option<(TrackId, TrackId)>)
        requires
            old(self).wf(),
            old(self).content().next_track_id + 2 <= u32::MAX,
            old(self).content().next_clip_id + 2 <= u32::MAX,
            old(self).content().has_track(track_id) ==> max_end(
                old(self).content().tracks[old(self).content().track_pos(track_id)].clips,
            ) <= usize::MAX,
            forall|a: u32, b: u32| mix.requires((a, b)),
        ensures
            final(self).wf(),
            ({
                let c = old(self).content();
                let pos = c.track_pos(track_id);
                let t = c.tracks[pos];
                if c.has_track(track_id) && t.channels >= 2 {
                    &&& r == Some((TrackId(c.next_track_id), TrackId((c.next_track_id + 1) as u32)))
                    &&& exists|ls: Seq<u32>, rs: Seq<u32>|
                        #![trigger c.with_mono_split(pos, ls, rs)]
                        mixdown_ok(mix, t.clips, 0, ls) && mixdown_ok(mix, t.clips, 1, rs) && final(self).content()
                            == c.with_mono_split(pos, ls, rs)
                    &&& final(self).edit_state() == after_edit(old(self).edit_state(), final(self).content())
                    &&& final(self).selected_track_ids() == Seq::<TrackId>::empty()
                    &&& final(self).selected_clips() == old(self).selected_clips()
                    &&& final(self).clipboard() == old(self).clipboard()
                } else {
                    &&& r.is_none()
                    &&& *final(self) == *old(self)
                }
            }),
    {
        let pos = match self.track_index(track_id) {
            Some(p) => p,
            None => return None,
        };
        if self.tracks[pos].channels < 2 {
            return None;
        }
        let ghost c = self.content();
        let ghost t = c.tracks[pos as int];
        assert(t == self.tracks@[pos as int]@);
        assert(t.wf());
        assert forall|k: int| 0 <= k < self.tracks@[pos as int].clips@.len() implies (#[trigger] self.tracks@[pos as int].clips@[k])@.wf() by {
            assert(t.clips[k] == self.tracks@[pos as int].clips@[k]@);
        }
        let total = latest_end(&self.tracks[pos].clips);
        let ls = mix_channel(&self.tracks[pos].clips, total, 0, &mix);
        let rs = mix_channel(&self.tracks[pos].clips, total, 1, &mix);
        proof {
            lemma_max_end(t.clips);
            if t.clips.len() > 0 {
                let a = choose|a: int| 0 <= a < t.clips.len() && max_end(t.clips) == (#[trigger] t.clips[a]).end();
                assert(t.clips[a].wf());
            }
        }
        assert(total <= i64::MAX);
        self.push_undo();
        let ghost s1 = self.edit_state();
        let original = self.tracks.remove(pos);
        assert(original@ == t);
        assert(self.content().tracks =~= c.tracks.remove(pos as int));
        let left_id = TrackId(self.next_track_id);
        self.next_track_id += 1;
        let right_id = TrackId(self.next_track_id);
        self.next_track_id += 1;
        let mut lname = original.name.clone();
        push_side_suffix(&mut lname, true);
        let mut rname = original.name.clone();
        push_side_suffix(&mut rname, false);
        let mut left = Track::new(left_id, lname);
        left.pan_percent = original.pan_percent;
        left.volume = original.volume;
        left.muted = original.muted;
        left.soloed = original.soloed;
        left.channels = 1;
        let mut right = Track::new(right_id, rname);
        right.pan_percent = original.pan_percent;
        right.volume = original.volume;
        right.muted = original.muted;
        right.soloed = original.soloed;
        right.channels = 1;
        let ghost has_audio = total > 0;
        let ghost c_mid = self.content();
        assert(track_models(self.tracks@).len() == self.tracks@.len());
        if total > 0 {
            let lid = self.alloc_clip_id();
            let lclip = Clip::from_samples(lid, left.name.clone(), 0, ls);
            left.clips.push(lclip);
            let rid = self.alloc_clip_id();
            let rclip = Clip::from_samples(rid, right.name.clone(), 0, rs);
            right.clips.push(rclip);
        }
        let ghost lt = mono_side(t, left_id, 'L', ClipId(c.next_clip_id), ls@, has_audio);
        let ghost rt = mono_side(t, right_id, 'R', ClipId((c.next_clip_id + 1) as u32), rs@, has_audio);
        assert(left@ =~= lt);
        assert(right@ =~= rt);
        assert(self.content().tracks == c_mid.tracks);
        assert(track_models(self.tracks@).len() == self.tracks@.len());
        self.tracks.insert(pos, right);
        assert(self.content().tracks =~= c.tracks.remove(pos as int).insert(pos as int, rt));
        self.tracks.insert(pos, left);
        assert(self.content().tracks =~= c.tracks.remove(pos as int).insert(pos as int, rt).insert(pos as int, lt));
        self.selected_tracks.clear();
        proof {
            let nts = seq![lt, rt];
            assert(c.tracks.remove(pos as int).insert(pos as int, rt).insert(pos as int, lt) =~= c.tracks.take(pos as int) + nts
                + c.tracks.skip(pos + 1));
            assert forall|j: int| 0 <= j < nts.len() implies (#[trigger] nts[j]).wf() by {
                if has_audio {
                    let m = nts[j].clips[0];
                    assert(m.source.len() == total);
                    let sl = m.source.len() as int;
                    assert(sl / 1 == total) by (nonlinear_arith)
                        requires
                            sl == total,
                    ;
                    assert(m.len == total);
                    assert forall|k: int| 0 <= k < nts[j].clips.len() implies (#[trigger] nts[j].clips[k]).wf() by {
                        assert(k == 0);
                    }
                }
            }
            lemma_replace_tracks_wf(
                c,
                pos as int,
                1,
                nts,
                (c.next_track_id + 2) as u32,
                if has_audio { (c.next_clip_id + 2) as u32 } else { c.next_clip_id },
            );
            let c2 = self.content();
            assert(c2.tracks =~= c.tracks.take(pos as int) + nts + c.tracks.skip(pos + 1));
            assert(c2 =~= c.with_mono_split(pos as int, ls@, rs@));
            assert(mixdown_ok(mix, t.clips, 0, ls@));
            assert(mixdown_ok(mix, t.clips, 1, rs@));
            assert(self.edit_state() =~= after_edit(old(self).edit_state(), c2));
            assert(self.selected_track_ids() =~= Seq::<TrackId>::empty());
        }
        Some((left_id, right_id))
    }
}


/// How many frames merging `top` with `below` covers: up to the later of
/// their latest ends.
pub open spec fn merged_frames(top: TrackModel, below: TrackModel) -> int {
    if max_end(top.clips) >= max_end(below.clips) {
        max_end(top.clips)
    } else {
        max_end(below.clips)
    }
}

/// Merging a mono track with the one below keeps every frame of audio of
/// both: the merged track holds one stereo clip, starting at the
/// timeline's start and at least as long as the latest end of any clip of
/// either track, and no longer: some clip of one of them ends exactly
/// where it ends.
pub proof fn lemma_merge_keeps_every_frame<F: Fn(u32, u32) -> u32, G: Fn(u32) -> u32>(
    c: ProjectContent,
    pos: int,
    samples: Seq<u32>,
    mix: F,
    limit: G,
)
    requires
        0 <= pos,
        pos + 1 < c.tracks.len(),
        stereo_mix_ok(mix, limit, c.tracks[pos].clips, c.tracks[pos + 1].clips, merged_frames(c.tracks[pos], c.tracks[pos + 1]), samples),
        2 * merged_frames(c.tracks[pos], c.tracks[pos + 1]) <= isize::MAX,
    ensures
        ({
            let top = c.tracks[pos];
            let below = c.tracks[pos + 1];
            let m = c.with_merge(pos, samples).tracks[pos];
            &&& m.channels == 2
            &&& forall|k: int|
                0 <= k < top.clips.len() && (#[trigger] top.clips[k]).end() > 0 ==> m.clips.len() == 1 && m.clips[0].start == 0
                    && m.clips[0].channels == 2 && top.clips[k].end() <= m.clips[0].len
            &&& forall|k: int|
                0 <= k < below.clips.len() && (#[trigger] below.clips[k]).end() > 0 ==> m.clips.len() == 1 && m.clips[0].start == 0
                    && m.clips[0].channels == 2 && below.clips[k].end() <= m.clips[0].len
            &&& m.clips.len() <= 1
            &&& m.clips.len() == 1 ==> (exists|k: int| 0 <= k < top.clips.len() && (#[trigger] top.clips[k]).end() == m.clips[0].len)
                || (exists|k: int| 0 <= k < below.clips.len() && (#[trigger] below.clips[k]).end() == m.clips[0].len)
        }),
{
    let top = c.tracks[pos];
    let below = c.tracks[pos + 1];
    lemma_max_end(top.clips);
    lemma_max_end(below.clips);
    let frames = merged_frames(top, below);
    assert(frames >= max_end(top.clips) && frames >= max_end(below.clips));
    let c2 = c.with_merge(pos, samples);
    let has_audio = frames > 0;
    let clip = ClipModel::baked(ClipId(c.next_clip_id), top.name, 0, samples, 2);
    let merged = TrackModel {
        id: TrackId(c.next_track_id),
        name: top.name,
        pan_percent: top.pan_percent,
        volume: top.volume,
        muted: top.muted,
        soloed: top.soloed,
        channels: 2,
        clips: if has_audio { seq![clip] } else { Seq::empty() },
    };
    let pre = c.tracks.take(pos);
    assert(pre.len() == pos);
    assert(c2.tracks == pre + seq![merged] + c.tracks.skip(pos + 2));
    assert((pre + seq![merged] + c.tracks.skip(pos + 2))[pos] == merged);
    assert(samples.len() == 2 * frames);
    assert(samples.len() / 2 == frames);
    assert(clip.len == frames);
    assert(clip.start == 0 && clip.channels == 2);
    if has_audio {
        if max_end(top.clips) >= max_end(below.clips) {
            assert(top.clips.len() > 0);
        } else {
            assert(below.clips.len() > 0);
        }
    }
}

/// `samples` interleaves, for each of `frames` frames, the sum (by `mix`)
/// of what `left`'s clips sound there and the same for `right`'s, each sum
/// passed through `limit`.
pub open spec fn stereo_mix_ok<F: Fn(u32, u32) -> u32, G: Fn(u32) -> u32>(
    mix: F,
    limit: G,
    left: Seq<ClipModel>,
    right: Seq<ClipModel>,
    frames: int,
    samples: Seq<u32>,
) -> bool {
    &&& samples.len() == 2 * frames
    &&& exists|ls: Seq<u32>, rs: Seq<u32>|
        #![trigger sums_ok(mix, left, 0, frames, ls), sums_ok(mix, right, 0, frames, rs)]
        sums_ok(mix, left, 0, frames, ls) && sums_ok(mix, right, 0, frames, rs) && forall|n: int|
            0 <= n < frames ==> call_ensures(limit, (#[trigger] ls[n],), samples[2 * n]) && call_ensures(
                limit,
                (rs[n],),
                samples[2 * n + 1],
            )
}

impl ProjectContent {
    /// This content with the track at `pos` and the one below it replaced,
    /// in place, by one stereo track (the next track id) named after the
    /// top one and keeping its controls, holding, when there is audio, one
    /// clip of `samples` (the next clip id) from frame 0.
    pub open spec fn with_merge(self, pos: int, samples: Seq<u32>) -> ProjectContent {
        let top = self.tracks[pos];
        let has_audio = merged_frames(top, self.tracks[pos + 1]) > 0;
        let merged = TrackModel {
            id: TrackId(self.next_track_id),
            name: top.name,
            pan_percent: top.pan_percent,
            volume: top.volume,
            muted: top.muted,
            soloed: top.soloed,
            channels: 2,
            clips: if has_audio {
                seq![ClipModel::baked(ClipId(self.next_clip_id), top.name, 0, samples, 2)]
            } else {
                Seq::empty()
            },
        };
        ProjectContent {
            tracks: self.tracks.take(pos) + seq![merged] + self.tracks.skip(pos + 2),
            next_track_id: (self.next_track_id + 1) as u32,
            next_clip_id: if has_audio {
                (self.next_clip_id + 1) as u32
            } else {
                self.next_clip_id
            },
            ..self
        }
    }
}

/// `ls` and `rs` interleaved frame by frame, each sample passed through
/// `limit`.
fn interleave_limited<G: Fn(u32) -> u32>(ls: &Vec<u32>, rs: &Vec<u32>, limit: &G) -> (out: Vec<u32>)
    requires
        ls@.len() == rs@.len(),
        2 * ls@.len() <= usize::MAX,
        forall|x: u32| limit.requires((x,)),
    ensures
        out@.len() == 2 * ls@.len(),
        forall|n: int| 0 <= n < ls@.len() ==> call_ensures(*limit, (ls@[n],), #[trigger] out@[2 * n]),
        forall|n: int| 0 <= n < ls@.len() ==> call_ensures(*limit, (rs@[n],), #[trigger] out@[2 * n + 1]),
{
    let mut out: Vec<u32> = Vec::new();
    let mut n: usize = 0;
    while n < ls.len()
        invariant
            n <= ls@.len() == rs@.len(),
            2 * ls@.len() <= usize::MAX,
            forall|x: u32| limit.requires((x,)),
            out@.len() == 2 * n,
            forall|j: int| 0 <= j < n ==> call_ensures(*limit, (ls@[j],), #[trigger] out@[2 * j]),
            forall|j: int| 0 <= j < n ==> call_ensures(*limit, (rs@[j],), #[trigger] out@[2 * j + 1]),
        decreases ls@.len() - n,
    {
        let l = limit(ls[n]);
        let r = limit(rs[n]);
        out.push(l);
        out.push(r);
        n += 1;
    }
    out
}

impl Project {
    /// Merges the mono track `track_id` with the mono track directly below
    /// it into one new stereo track in their place (the top one becomes the
    /// left channel, the one below the right), named after and keeping the
    /// controls of the top one. Both tracks' clips are baked into one
    /// continuous stereo clip from frame 0 to the later of their latest
    /// ends: each side's frame is the sum (by `mix`) of what its clips sound
    /// there, passed through `limit`. Clears the track selection; one undo
    /// step. Returns the new track id, or `None` (changing nothing) when
    /// there is no such track, no track below it, or either is not mono.
    pub fn merge_track_with_below<F: Fn(u32, u32) -> u32, G: Fn(u32) -> u32>(
        &mut self,
        track_id: TrackId,
        mix: F,
        limit: G,
    ) -> (r: Option<TrackId>)
        requires
            old(self).wf(),
            old(self).content().next_track_id + 1 <= u32::MAX,
            old(self).content().next_clip_id + 1 <= u32::MAX,
            ({
                let c = old(self).content();
                let pos = c.track_pos(track_id);
                c.has_track(track_id) && pos + 1 < c.tracks.len() ==> 2 * merged_frames(c.tracks[pos], c.tracks[pos + 1])
                    <= isize::MAX
            }),
            forall|a: u32, b: u32| mix.requires((a, b)),
            forall|x: u32| limit.requires((x,)),
        ensures
            final(self).wf(),
            ({
                let c = old(self).content();
                let pos = c.track_pos(track_id);
                if c.has_track(track_id) && pos + 1 < c.tracks.len() && c.tracks[pos].channels == 1 && c.tracks[pos + 1].channels
                    == 1 {
                    let top = c.tracks[pos];
                    let below = c.tracks[pos + 1];
                    &&& r == Some(TrackId(c.next_track_id))
                    &&& exists|samples: Seq<u32>|
                        #![trigger c.with_merge(pos, samples)]
                        stereo_mix_ok(mix, limit, top.clips, below.clips, merged_frames(top, below), samples)
                            && final(self).content() == c.with_merge(pos, samples)
                    &&& final(self).edit_state() == after_edit(old(self).edit_state(), final(self).content())
                    &&& final(self).selected_track_ids() == Seq::<TrackId>::empty()
                    &&& final(self).selected_clips() == old(self).selected_clips()
                    &&& final(self).clipboard() == old(self).clipboard()
                } else {
                    &&& r.is_none()
                    &&& *final(self) == *old(self)
                }
            }),
    {
        let pos = match self.track_index(track_id) {
            Some(p) => p,
            None => return None,
        };
        assert(track_models(self.tracks@).len() == self.tracks@.len());
        let n_tracks = self.tracks.len();
        if pos >= n_tracks - 1 {
            return None;
        }
        if self.tracks[pos].channels != 1 || self.tracks[pos + 1].channels != 1 {
            return None;
        }
        let ghost c = self.content();
        let ghost top_m = c.tracks[pos as int];
        let ghost below_m = c.tracks[pos + 1];
        assert(top_m == self.tracks@[pos as int]@);
        assert(below_m == self.tracks@[pos + 1]@);
        assert(top_m.wf());
        assert(below_m.wf());
        assert forall|k: int| 0 <= k < self.tracks@[pos as int].clips@.len() implies (#[trigger] self.tracks@[pos as int].clips@[k])@.wf() by {
            assert(top_m.clips[k] == self.tracks@[pos as int].clips@[k]@);
        }
        assert forall|k: int| 0 <= k < self.tracks@[pos + 1].clips@.len() implies (#[trigger] self.tracks@[pos + 1].clips@[k])@.wf() by {
            assert(below_m.clips[k] == self.tracks@[pos + 1].clips@[k]@);
        }
        let top_end = latest_end(&self.tracks[pos].clips);
        let below_end = latest_end(&self.tracks[pos + 1].clips);
        let total = if top_end >= below_end { top_end } else { below_end };
        assert(total == merged_frames(top_m, below_m));
        let ls = mix_channel(&self.tracks[pos].clips, total, 0, &mix);
        let rs = mix_channel(&self.tracks[pos + 1].clips, total, 0, &mix);
        let inter = interleave_limited(&ls, &rs, &limit);
        proof {
            lemma_max_end(top_m.clips);
            lemma_max_end(below_m.clips);
            if top_m.clips.len() > 0 {
                let a = choose|a: int| 0 <= a < top_m.clips.len() && max_end(top_m.clips) == (#[trigger] top_m.clips[a]).end();
                assert(top_m.clips[a].wf());
            }
            if below_m.clips.len() > 0 {
                let a = choose|a: int| 0 <= a < below_m.clips.len() && max_end(below_m.clips) == (#[trigger] below_m.clips[a]).end();
                assert(below_m.clips[a].wf());
            }
        }
        assert(total <= i64::MAX);
        self.push_undo();
        let below = self.tracks.remove(pos + 1);
        let top = self.tracks.remove(pos);
        assert(top@ == top_m);
        assert(self.content().tracks =~= c.tracks.remove(pos + 1).remove(pos as int));
        let merged_id = TrackId(self.next_track_id);
        self.next_track_id += 1;
        let mut merged = Track::new(merged_id, top.name.clone());
        merged.pan_percent = top.pan_percent;
        merged.volume = top.volume;
        merged.muted = top.muted;
        merged.soloed = top.soloed;
        merged.channels = 2;
        let ghost has_audio = total > 0;
        let ghost c_mid = self.content();
        assert(track_models(self.tracks@).len() == self.tracks@.len());
        if total > 0 {
            let id = self.alloc_clip_id();
            let clip = Clip::from_samples_channels(id, merged.name.clone(), 0, inter, 2);
            merged.clips.push(clip);
        }
        let ghost mt = TrackModel {
            id: merged_id,
            name: top_m.name,
            pan_percent: top_m.pan_percent,
            volume: top_m.volume,
            muted: top_m.muted,
            soloed: top_m.soloed,
            channels: 2,
            clips: if has_audio {
                seq![ClipModel::baked(ClipId(c.next_clip_id), top_m.name, 0, inter@, 2)]
            } else {
                Seq::empty()
            },
        };
        assert(merged@ =~= mt);
        assert(self.content().tracks == c_mid.tracks);
        assert(track_models(self.tracks@).len() == self.tracks@.len());
        self.tracks.insert(pos, merged);
        assert(self.content().tracks =~= c.tracks.remove(pos + 1).remove(pos as int).insert(pos as int, mt));
        self.selected_tracks.clear();
        proof {
            let nts = seq![mt];
            assert(c.tracks.remove(pos + 1).remove(pos as int).insert(pos as int, mt) =~= c.tracks.take(pos as int) + nts
                + c.tracks.skip(pos + 2));
            assert forall|j: int| 0 <= j < nts.len() implies (#[trigger] nts[j]).wf() by {
                if has_audio {
                    let m = nts[j].clips[0];
                    assert(m.source.len() == 2 * total);
                    let sl = m.source.len() as int;
                    assert(sl / 2 == total) by (nonlinear_arith)
                        requires
                            sl == 2 * total,
                    ;
                    assert(m.len == total);
                    assert forall|k: int| 0 <= k < nts[j].clips.len() implies (#[trigger] nts[j].clips[k]).wf() by {
                        assert(k == 0);
                    }
                }
            }
            lemma_replace_tracks_wf(
                c,
                pos as int,
                2,
                nts,
                (c.next_track_id + 1) as u32,
                if has_audio { (c.next_clip_id + 1) as u32 } else { c.next_clip_id },
            );
            let c2 = self.content();
            assert(c2 =~= c.with_merge(pos as int, inter@));
            assert(sums_ok(mix, top_m.clips, 0, total as int, ls@));
            assert(sums_ok(mix, below_m.clips, 0, total as int, rs@));
            assert(inter@.len() == 2 * total);
            assert(forall|n: int|
                0 <= n < total ==> call_ensures(limit, (#[trigger] ls@[n],), inter@[2 * n]) && call_ensures(
                    limit,
                    (rs@[n],),
                    inter@[2 * n + 1],
                ));
            assert(stereo_mix_ok(mix, limit, top_m.clips, below_m.clips, total as int, inter@));
            assert(self.edit_state() =~= after_edit(old(self).edit_state(), c2));
            assert(self.selected_track_ids() =~= Seq::<TrackId>::empty());
        }
        Some(merged_id)
    }
}


/// Whether `track` is heard, given whether any track of the project is
/// soloed: mute always wins, and while anything is soloed only soloed
/// tracks are heard.
pub fn is_audible(track: &Track, any_soloed: bool) -> (b: bool)
    ensures
        b == (!track.muted && (!any_soloed || track.soloed)),
{
    if track.muted {
        return false;
    }
    if any_soloed && !track.soloed {
        return false;
    }
    true
}

/// Clip `j` of `clips` comes before clip `k` in time order: it starts
/// earlier, or at the same sample but earlier in the track's list.
pub open spec fn comes_before(clips: Seq<Clip>, j: int, k: int) -> bool {
    clips[j]@.start < clips[k]@.start || (clips[j]@.start == clips[k]@.start && j < k)
}

/// How many of the first `m` clips come before clip `k` in time order.
pub open spec fn rank_among(clips: Seq<Clip>, k: int, m: int) -> nat
    decreases m,
{
    if m <= 0 {
        0
    } else {
        rank_among(clips, k, m - 1) + (if comes_before(clips, m - 1, k) { 1nat } else { 0nat })
    }
}

/// Clip `k`'s position when the clips are ordered by start (ties keeping
/// the track's order).
pub open spec fn time_rank(clips: Seq<Clip>, k: int) -> nat {
    rank_among(clips, k, clips.len() as int)
}

proof fn lemma_rank_among_bound(clips: Seq<Clip>, k: int, m: int)
    requires
        0 <= m,
    ensures
        rank_among(clips, k, m) <= m,
    decreases m,
{
    if m > 0 {
        lemma_rank_among_bound(clips, k, m - 1);
    }
}

/// The Fade Toggle effect's plan for a track: its clips taken in time
/// order get the fade-in and the fade-out alternately, the first one the
/// fade-in when `starts_with_in`. Returns each clip's id (in the track's
/// order) with whether it gets the fade-in.
pub fn fade_toggle_plan(track: &Track, starts_with_in: bool) -> (plan: Vec<(ClipId, bool)>)
    ensures
        plan@.len() == track.clips@.len(),
        forall|k: int|
            0 <= k < plan@.len() ==> #[trigger] plan@[k] == (
                track.clips@[k]@.id,
                (time_rank(track.clips@, k) % 2 == 0) == starts_with_in,
            ),
{
    let clips = &track.clips;
    let n = clips.len();
    let mut plan: Vec<(ClipId, bool)> = Vec::new();
    let mut k: usize = 0;
    while k < n
        invariant
            k <= n == clips@.len(),
            plan@.len() == k,
            forall|i: int|
                0 <= i < k ==> #[trigger] plan@[i] == (clips@[i]@.id, (time_rank(clips@, i) % 2 == 0) == starts_with_in),
        decreases n - k,
    {
        let mut rank: usize = 0;
        let mut j: usize = 0;
        while j < n
            invariant
                k < n == clips@.len(),
                j <= n,
                rank == rank_among(clips@, k as int, j as int),
                rank <= j,
            decreases n - j,
        {
            proof {
                lemma_rank_among_bound(clips@, k as int, j as int);
            }
            if clips[j].start_sample < clips[k].start_sample || (clips[j].start_sample == clips[k].start_sample && j < k) {
                rank += 1;
            }
            j += 1;
        }
        plan.push((clips[k].id, (rank % 2 == 0) == starts_with_in));
        k += 1;
    }
    plan
}

proof fn lemma_rank_among_order(clips: Seq<Clip>, j: int, k: int, m: int)
    requires
        0 <= m <= clips.len(),
        0 <= j < clips.len(),
        0 <= k < clips.len(),
        comes_before(clips, j, k),
    ensures
        rank_among(clips, k, m) >= rank_among(clips, j, m) + (if j < m { 1int } else { 0int }),
    decreases m,
{
    if m > 0 {
        lemma_rank_among_order(clips, j, k, m - 1);
    }
}

proof fn lemma_rank_among_skips_self(clips: Seq<Clip>, k: int, m: int)
    requires
        0 <= m <= clips.len(),
        0 <= k < clips.len(),
    ensures
        rank_among(clips, k, m) <= m - (if k < m { 1int } else { 0int }),
    decreases m,
{
    if m > 0 {
        lemma_rank_among_skips_self(clips, k, m - 1);
    }
}

/// Ordering a track's clips by start (ties keeping the track's order)
/// gives every clip its own position: the positions are below the clip
/// count and no two clips share one. So the Fade Toggle plan alternates
/// fade-in and fade-out along the timeline, one clip after another.
pub proof fn lemma_time_ranks_are_positions(clips: Seq<Clip>)
    ensures
        forall|k: int| 0 <= k < clips.len() ==> #[trigger] time_rank(clips, k) < clips.len(),
        forall|j: int, k: int|
            0 <= j < clips.len() && 0 <= k < clips.len() && j != k ==> #[trigger] time_rank(clips, j) != #[trigger] time_rank(
                clips,
                k,
            ),
{
    let n = clips.len() as int;
    assert forall|k: int| 0 <= k < n implies #[trigger] time_rank(clips, k) < n by {
        lemma_rank_among_skips_self(clips, k, n);
    }
    assert forall|j: int, k: int| 0 <= j < n && 0 <= k < n && j != k implies #[trigger] time_rank(clips, j) != #[trigger] time_rank(
        clips,
        k,
    ) by {
        if comes_before(clips, j, k) {
            lemma_rank_among_order(clips, j, k, n);
        } else {
            assert(comes_before(clips, k, j));
            lemma_rank_among_order(clips, k, j, n);
        }
    }
}

/// Adding a clip to a track (as `Project::add_clip_channels` does) keeps
/// every clip of the track at the track's channel count: an empty track
/// takes the source's channel count (at least one), and otherwise the new
/// clip is built at the track's own.
pub proof fn lemma_added_clip_keeps_channels(
    t: TrackModel,
    id: ClipId,
    name: Seq<char>,
    start: u64,
    source: Seq<u32>,
    source_channels: u8,
)
    requires
        t.wf(),
        forall|k: int| 0 <= k < t.clips.len() ==> (#[trigger] t.clips[k]).channels == t.channels,
    ensures
        ({
            let src_ch: u8 = if source_channels >= 1 { source_channels } else { 1 };
            let ch: u8 = if t.clips.len() == 0 { src_ch } else { t.channels };
            let t2 = TrackModel { channels: ch, clips: t.clips.push(ClipModel::baked(id, name, start, source, ch)), ..t };
            forall|k: int| 0 <= k < t2.clips.len() ==> (#[trigger] t2.clips[k]).channels == t2.channels
        }),
{
    let src_ch: u8 = if source_channels >= 1 { source_channels } else { 1 };
    let ch: u8 = if t.clips.len() == 0 { src_ch } else { t.channels };
    let t2 = TrackModel { channels: ch, clips: t.clips.push(ClipModel::baked(id, name, start, source, ch)), ..t };
    assert forall|k: int| 0 <= k < t2.clips.len() implies (#[trigger] t2.clips[k]).channels == t2.channels by {
        if k < t.clips.len() {
            assert(t2.clips[k] == t.clips[k]);
        }
    }
}

/// How many clips the first `n` of `tracks` hold.
pub open spec fn clip_total(tracks: Seq<TrackModel>, n: int) -> int
    decreases n,
{
    if n <= 0 {
        0
    } else {
        clip_total(tracks, n - 1) + tracks[n - 1].clips.len()
    }
}

proof fn lemma_clip_total_grows(tracks: Seq<TrackModel>, a: int, b: int)
    requires
        0 <= a <= b,
    ensures
        clip_total(tracks, a) <= clip_total(tracks, b),
    decreases b - a,
{
    if a < b {
        lemma_clip_total_grows(tracks, a, b - 1);
    }
}

/// Carving clip `id` (on the track at position `q`) for the range
/// `[from, to)`: a clip the range misses is left alone and gives no piece;
/// otherwise it is split at `from` when it starts before it and then at
/// `to` when it ends after it, and the piece inside the range is returned.
/// The second split applies to the piece found on track `q` starting
/// before `to` (which the first split always leaves there).
pub open spec fn carve(c: ProjectContent, q: int, id: ClipId, from: int, to: int) -> (ProjectContent, Option<ClipId>) {
    if !(c.has_clip(id) && c.clip_addr(id).0 == q) {
        (c, None)
    } else {
        let o = c.clip(id);
        if !(o.start < to && from < o.end()) {
            (c, None)
        } else {
            let cut_left = o.start < from;
            let c1 = if cut_left { c.with_split(id, from) } else { c };
            let cur = if cut_left { ClipId((c.next_clip_id + 1) as u32) } else { id };
            let m = c1.clip(cur);
            if c1.has_clip(cur) && c1.clip_addr(cur).0 == q && m.start < to && to < m.end() {
                (c1.with_split(cur, to), Some(ClipId(c1.next_clip_id)))
            } else {
                (c1, Some(cur))
            }
        }
    }
}

/// Carving each of `ids` in turn on the track at position `q`, adding
/// each piece to the selection `sel` (once).
pub open spec fn carve_all(c: ProjectContent, q: int, ids: Seq<ClipId>, sel: Seq<ClipId>, from: int, to: int) -> (ProjectContent, Seq<ClipId>)
    decreases ids.len(),
{
    if ids.len() == 0 {
        (c, sel)
    } else {
        let (c1, s1) = carve_all(c, q, ids.drop_last(), sel, from, to);
        let (c2, piece) = carve(c1, q, ids.last(), from, to);
        (c2, match piece {
            Some(x) => inserted(s1, x),
            None => s1,
        })
    }
}

/// The content and selection after ranged selection over the first `n`
/// track positions: each track whose id is in `track_ids` has its clips
/// (as they stand when it is reached) carved for `[from, to)`.
pub open spec fn range_selected(c: ProjectContent, track_ids: Seq<TrackId>, from: int, to: int, n: int) -> (ProjectContent, Seq<ClipId>)
    decreases n,
{
    if n <= 0 {
        (c, Seq::<ClipId>::empty())
    } else {
        let (c1, s1) = range_selected(c, track_ids, from, to, n - 1);
        if n - 1 < c1.tracks.len() && track_ids.contains(c1.tracks[n - 1].id) {
            carve_all(c1, n - 1, c1.tracks[n - 1].clips.map_values(|m: ClipModel| m.id), s1, from, to)
        } else {
            (c1, s1)
        }
    }
}

fn contains_track(ids: &[TrackId], id: TrackId) -> (b: bool)
    ensures
        b == ids@.contains(id),
{
    let mut i: usize = 0;
    while i < ids.len()
        invariant
            i <= ids.len(),
            forall|j: int| 0 <= j < i ==> ids@[j] != id,
        decreases ids.len() - i,
    {
        if ids[i] == id {
            assert(ids@[i as int] == id);
            return true;
        }
        i += 1;
    }
    false
}

impl Project {
    fn track_clip_ids(&self, q: usize) -> (ids: Vec<ClipId>)
        requires
            q < self.content().tracks.len(),
        ensures
            ids@ == self.content().tracks[q as int].clips.map_values(|m: ClipModel| m.id),
    {
        let ghost want = self.content().tracks[q as int].clips.map_values(|m: ClipModel| m.id);
        assert(track_models(self.tracks@).len() == self.tracks@.len());
        let mut ids: Vec<ClipId> = Vec::new();
        let mut j: usize = 0;
        while j < self.tracks[q].clips.len()
            invariant
                q < self.tracks@.len(),
                self.content().tracks[q as int] == self.tracks@[q as int]@,
                want == self.content().tracks[q as int].clips.map_values(|m: ClipModel| m.id),
                j <= self.tracks@[q as int].clips@.len(),
                self.tracks@[q as int]@.clips.len() == self.tracks@[q as int].clips@.len(),
                forall|x: int| 0 <= x < self.tracks@[q as int].clips@.len() ==> #[trigger] self.tracks@[q as int]@.clips[x] == self.tracks@[q as int].clips@[x]@,
                ids@ == want.take(j as int),
            decreases self.tracks@[q as int].clips@.len() - j,
        {
            ids.push(self.tracks[q].clips[j].id);
            j += 1;
            assert(ids@ =~= want.take(j as int));
        }
        assert(want.take(j as int) =~= want);
        ids
    }

    /// Carves clip `id` on the track at position `q` for `[from, to)` (see
    /// `carve`), recording nothing; returns the piece inside the range.
    fn carve_clip(&mut self, q: usize, id: ClipId, from: u64, to: u64) -> (piece: Option<ClipId>)
        requires
            old(self).wf(),
            old(self).content().next_clip_id + 4 <= u32::MAX,
        ensures
            final(self).wf(),
            (final(self).content(), piece) == carve(old(self).content(), q as int, id, from as int, to as int),
            final(self).content().tracks.len() == old(self).content().tracks.len(),
            forall|j: int| 0 <= j < old(self).content().tracks.len() && j != q ==> #[trigger] final(self).content().tracks[j] == old(self).content().tracks[j],
            final(self).content().next_clip_id <= old(self).content().next_clip_id + 4,
            final(self).edit_state().undo == old(self).edit_state().undo,
            final(self).edit_state().redo == old(self).edit_state().redo,
            final(self).selected_clips() == old(self).selected_clips(),
            final(self).selected_track_ids() == old(self).selected_track_ids(),
            final(self).clipboard() == old(self).clipboard(),
    {
        let ghost c = self.content();
        let (i, k) = match self.clip_location(id) {
            Some(a) => a,
            None => return None,
        };
        if i != q {
            return None;
        }
        let ghost o = c.clip_at(i as int, k as int);
        assert(c.tracks[i as int].wf());
        assert(o.wf());
        let start = self.tracks[i].clips[k].start_sample;
        let end = self.tracks[i].clips[k].end_sample();
        if !(start < to && from < end) {
            return None;
        }
        let cur = if start < from {
            let (_, second) = self.split_in_place(i, k, id, from);
            second
        } else {
            id
        };
        let ghost c1 = self.content();
        assert(c1.tracks.len() == c.tracks.len());
        match self.clip_location(cur) {
            Some((i2, k2)) => {
                if i2 == q {
                    let ghost m = c1.clip_at(i2 as int, k2 as int);
                    assert(c1.tracks[i2 as int].wf());
                    assert(m.wf());
                    let start2 = self.tracks[i2].clips[k2].start_sample;
                    let end2 = self.tracks[i2].clips[k2].end_sample();
                    if start2 < to && to < end2 {
                        let (middle, _) = self.split_in_place(i2, k2, cur, to);
                        return Some(middle);
                    }
                }
                Some(cur)
            },
            None => Some(cur),
        }
    }

    /// Ranged (partial-clip) selection: on every track named in
    /// `track_ids`, each clip the range `[from, to)` reaches is split at
    /// the range's edges where it sticks out, and the pieces inside the
    /// range become the clip selection (the track selection is dropped).
    /// A clip inside the range stays whole. Tracks are visited in the
    /// project's order; the whole operation is one undo step.
    pub fn select_range(&mut self, track_ids: &[TrackId], from: u64, to: u64)
        requires
            old(self).wf(),
            old(self).content().next_clip_id + 4 * clip_total(old(self).content().tracks, old(self).content().tracks.len() as int)
                <= u32::MAX,
        ensures
            final(self).wf(),
            ({
                let r = range_selected(old(self).content(), track_ids@, from as int, to as int, old(self).content().tracks.len() as int);
                &&& final(self).content() == r.0
                &&& final(self).selected_clips() == r.1
            }),
            final(self).edit_state() == after_edit(old(self).edit_state(), final(self).content()),
            final(self).selected_track_ids() == Seq::<TrackId>::empty(),
            final(self).clipboard() == old(self).clipboard(),
    {
        let ghost c0 = self.content();
        let ghost n0 = c0.tracks.len() as int;
        self.push_undo();
        assert(track_models(self.tracks@).len() == self.tracks@.len());
        let n = self.tracks.len();
        let mut picked: Vec<ClipId> = Vec::new();
        let mut q: usize = 0;
        proof {
            lemma_clip_total_grows(c0.tracks, 0, n0);
        }
        while q < n
            invariant
                self.wf(),
                n == c0.tracks.len(),
                n0 == n as int,
                q <= n,
                (self.content(), picked@) == range_selected(c0, track_ids@, from as int, to as int, q as int),
                self.content().tracks.len() == n,
                forall|j: int| q <= j < n ==> #[trigger] self.content().tracks[j] == c0.tracks[j],
                self.content().next_clip_id + 4 * (clip_total(c0.tracks, n0) - clip_total(c0.tracks, q as int)) <= u32::MAX,
                clip_total(c0.tracks, q as int) <= clip_total(c0.tracks, n0),
                picked@.no_duplicates(),
                self.edit_state().undo == after_edit(old(self).edit_state(), c0).undo,
                self.edit_state().redo == Seq::<ProjectContent>::empty(),
                self.clipboard() == old(self).clipboard(),
            decreases n - q,
        {
            proof {
                lemma_clip_total_grows(c0.tracks, q as int + 1, n0);
            }
            let ghost cq = self.content();
            let ghost sq = picked@;
            assert(cq.tracks[q as int] == c0.tracks[q as int]);
            assert(self.tracks@.len() == n) by {
                assert(track_models(self.tracks@).len() == self.tracks@.len());
            }
            let tid = self.tracks[q].id;
            assert(tid == cq.tracks[q as int].id);
            if contains_track(track_ids, tid) {
                let ids = self.track_clip_ids(q);
                let mut k: usize = 0;
                while k < ids.len()
                    invariant
                        self.wf(),
                        n == c0.tracks.len(),
                        n0 == n as int,
                        q < n,
                        k <= ids@.len(),
                        ids@ == cq.tracks[q as int].clips.map_values(|m: ClipModel| m.id),
                        ids@.len() == c0.tracks[q as int].clips.len(),
                        (self.content(), picked@) == carve_all(cq, q as int, ids@.take(k as int), sq, from as int, to as int),
                        self.content().tracks.len() == n,
                        forall|j: int| q < j < n ==> #[trigger] self.content().tracks[j] == c0.tracks[j],
                        self.content().next_clip_id + 4 * (ids@.len() - k) + 4 * (clip_total(c0.tracks, n0) - clip_total(
                            c0.tracks,
                            q as int + 1,
                        )) <= u32::MAX,
                        clip_total(c0.tracks, q as int + 1) <= clip_total(c0.tracks, n0),
                        picked@.no_duplicates(),
                        self.edit_state().undo == after_edit(old(self).edit_state(), c0).undo,
                        self.edit_state().redo == Seq::<ProjectContent>::empty(),
                        self.clipboard() == old(self).clipboard(),
                    decreases ids@.len() - k,
                {
                    assert(ids@.take(k + 1).drop_last() =~= ids@.take(k as int));
                    assert(ids@.take(k + 1).last() == ids@[k as int]);
                    let ghost before = picked@;
                    let piece = self.carve_clip(q, ids[k], from, to);
                    match piece {
                        Some(x) => {
                            if !contains_clip_id(picked.as_slice(), x) {
                                picked.push(x);
                            }
                            proof {
                                lemma_inserted_no_duplicates(before, x);
                            }
                        },
                        None => {},
                    }
                    k += 1;
                }
                assert(ids@.take(k as int) =~= ids@);
            }
            q += 1;
        }
        self.selection = picked;
        self.selected_tracks = Vec::new();
        proof {
            assert(self.selected_track_ids() =~= Seq::<TrackId>::empty());
            assert(self.edit_state() =~= after_edit(old(self).edit_state(), self.content()));
        }
    }
}

/// `ids` with repeats dropped (first occurrences kept, in order), added
/// one by one to `sel`.
pub open spec fn inserted_all<T>(sel: Seq<T>, ids: Seq<T>) -> Seq<T>
    decreases ids.len(),
{
    if ids.len() == 0 {
        sel
    } else {
        inserted(inserted_all(sel, ids.drop_last()), ids.last())
    }
}

/// `s` with `x` removed when it is there, and added at the end otherwise.
pub open spec fn toggled<T>(s: Seq<T>, x: T) -> Seq<T> {
    if s.contains(x) {
        without(s, x)
    } else {
        s.push(x)
    }
}

impl Project {
    /// Makes `ids` (each once) the whole clip selection and drops the track
    /// selection, as after a paste or a join.
    pub fn select_clips(&mut self, ids: &[ClipId])
        requires
            old(self).wf(),
        ensures
            final(self).wf(),
            final(self).selected_clips() == inserted_all(Seq::<ClipId>::empty(), ids@),
            final(self).selected_track_ids() == Seq::<TrackId>::empty(),
            final(self).edit_state() == old(self).edit_state(),
            final(self).clipboard() == old(self).clipboard(),
    {
        let mut picked: Vec<ClipId> = Vec::new();
        let mut k: usize = 0;
        while k < ids.len()
            invariant
                k <= ids@.len(),
                picked@ == inserted_all(Seq::<ClipId>::empty(), ids@.take(k as int)),
                picked@.no_duplicates(),
            decreases ids@.len() - k,
        {
            assert(ids@.take(k + 1).drop_last() =~= ids@.take(k as int));
            let ghost before = picked@;
            if !contains_clip_id(picked.as_slice(), ids[k]) {
                picked.push(ids[k]);
            }
            proof {
                lemma_inserted_no_duplicates(before, ids@[k as int]);
            }
            k += 1;
        }
        assert(ids@.take(k as int) =~= ids@);
        self.selection = picked;
        self.selected_tracks = Vec::new();
        assert(self.selected_track_ids() =~= Seq::<TrackId>::empty());
    }

    /// Adds clip `id` to the clip selection, or takes it out when it is
    /// already selected (Shift+click).
    pub fn toggle_clip_selection(&mut self, id: ClipId)
        requires
            old(self).wf(),
        ensures
            final(self).wf(),
            final(self).selected_clips() == toggled(old(self).selected_clips(), id),
            final(self).selected_track_ids() == old(self).selected_track_ids(),
            final(self).edit_state() == old(self).edit_state(),
            final(self).clipboard() == old(self).clipboard(),
    {
        let ghost s0 = self.selection@;
        if contains_clip_id(self.selection.as_slice(), id) {
            remove_clip_id(&mut self.selection, id);
            proof {
                lemma_without_no_duplicates(s0, id);
            }
        } else {
            self.selection.push(id);
            proof {
                lemma_inserted_no_duplicates(s0, id);
            }
        }
    }

    /// Adds track `id` to the track selection, or takes it out when it is
    /// already selected (Shift+click on a track header).
    pub fn toggle_track_selection(&mut self, id: TrackId)
        requires
            old(self).wf(),
        ensures
            final(self).wf(),
            final(self).selected_track_ids() == toggled(old(self).selected_track_ids(), id),
            final(self).selected_clips() == old(self).selected_clips(),
            final(self).edit_state() == old(self).edit_state(),
            final(self).clipboard() == old(self).clipboard(),
    {
        let ghost s0 = self.selected_tracks@;
        if contains_track(self.selected_tracks.as_slice(), id) {
            remove_track_id(&mut self.selected_tracks, id);
            proof {
                lemma_without_no_duplicates(s0, id);
            }
        } else {
            self.selected_tracks.push(id);
            proof {
                lemma_inserted_no_duplicates(s0, id);
            }
        }
    }

    /// Selects nothing: no clip and no track.
    pub fn clear_selection(&mut self)
        requires
            old(self).wf(),
        ensures
            final(self).wf(),
            final(self).selected_clips() == Seq::<ClipId>::empty(),
            final(self).selected_track_ids() == Seq::<TrackId>::empty(),
            final(self).edit_state() == old(self).edit_state(),
            final(self).clipboard() == old(self).clipboard(),
    {
        self.selection = Vec::new();
        self.selected_tracks = Vec::new();
        assert(self.selected_clips() =~= Seq::<ClipId>::empty());
        assert(self.selected_track_ids() =~= Seq::<TrackId>::empty());
    }
}

/// The channel count of a clip saved before stereo support existed: mono.
pub fn default_channels() -> (c: u8)
    ensures
        c == 1,
{
    1
}


/// The latest clip end across `tracks` (0 with no clips).
pub open spec fn tracks_end(tracks: Seq<TrackModel>) -> int
    decreases tracks.len(),
{
    if tracks.len() == 0 {
        0
    } else {
        let m = tracks_end(tracks.drop_last());
        let e = max_end(tracks.last().clips);
        if e > m {
            e
        } else {
            m
        }
    }
}

/// The start and end of each clip of `clips` except those with id
/// `skip`, in clip order.
pub open spec fn clip_edges(clips: Seq<ClipModel>, skip: Option<ClipId>) -> Seq<u64>
    decreases clips.len(),
{
    if clips.len() == 0 {
        Seq::empty()
    } else {
        let r = clip_edges(clips.drop_last(), skip);
        let c = clips.last();
        if skip == Some(c.id) {
            r
        } else {
            r.push(c.start).push(c.end() as u64)
        }
    }
}

/// The edges of every clip of every track of `tracks`, track after track.
pub open spec fn tracks_edges(tracks: Seq<TrackModel>) -> Seq<u64>
    decreases tracks.len(),
{
    if tracks.len() == 0 {
        Seq::empty()
    } else {
        tracks_edges(tracks.drop_last()) + clip_edges(tracks.last().clips, None)
    }
}

fn push_clip_edges(out: &mut Vec<u64>, clips: &Vec<Clip>, skip: Option<ClipId>)
    requires
        forall|k: int| 0 <= k < clips@.len() ==> (#[trigger] clips@[k])@.wf(),
    ensures
        final(out)@ == old(out)@ + clip_edges(clip_models(clips@), skip),
{
    let ghost ms = clip_models(clips@);
    let mut k: usize = 0;
    while k < clips.len()
        invariant
            k <= clips@.len(),
            ms == clip_models(clips@),
            forall|j: int| 0 <= j < clips@.len() ==> (#[trigger] clips@[j])@.wf(),
            out@ == old(out)@ + clip_edges(ms.take(k as int), skip),
        decreases clips@.len() - k,
    {
        let ghost m = clips@[k as int]@;
        assert(m.wf());
        assert(ms.take(k + 1).drop_last() =~= ms.take(k as int));
        assert(ms.take(k + 1).last() == m);
        let c = &clips[k];
        let is_skipped = match skip {
            Some(id) => c.id == id,
            None => false,
        };
        if !is_skipped {
            out.push(c.start_sample);
            out.push(c.end_sample());
        }
        proof {
            let r = clip_edges(ms.take(k as int), skip);
            if !is_skipped {
                assert(out@ =~= old(out)@ + r.push(m.start).push(m.end() as u64));
            }
        }
        k += 1;
    }
    assert(ms.take(k as int) =~= ms);
}

impl Project {
    /// The latest clip end in the project (0 with no clips): where the
    /// content ends.
    pub fn content_end(&self) -> (e: u64)
        requires
            self.wf(),
        ensures
            e == tracks_end(self.content().tracks),
    {
        let ghost c = self.content();
        let mut e: u64 = 0;
        let mut i: usize = 0;
        assert(track_models(self.tracks@).len() == self.tracks@.len());
        while i < self.tracks.len()
            invariant
                self.wf(),
                c == self.content(),
                c.tracks.len() == self.tracks@.len(),
                i <= self.tracks@.len(),
                e == tracks_end(c.tracks.take(i as int)),
            decreases self.tracks@.len() - i,
        {
            let ghost t = c.tracks[i as int];
            assert(t == self.tracks@[i as int]@);
            assert(t.wf());
            assert forall|k: int| 0 <= k < self.tracks@[i as int].clips@.len() implies (#[trigger] self.tracks@[i as int].clips@[k])@.wf() by {
                assert(t.clips[k] == self.tracks@[i as int].clips@[k]@);
            }
            let te = latest_end(&self.tracks[i].clips);
            assert(c.tracks.take(i + 1).drop_last() =~= c.tracks.take(i as int));
            assert(c.tracks.take(i + 1).last() == t);
            if te > e {
                e = te;
            }
            i += 1;
        }
        assert(c.tracks.take(i as int) =~= c.tracks);
        e
    }

    /// The start and end of every clip in the project, track after track
    /// (the edges the playhead docks against when nudged).
    pub fn all_clip_edges(&self) -> (edges: Vec<u64>)
        requires
            self.wf(),
        ensures
            edges@ == tracks_edges(self.content().tracks),
    {
        let ghost c = self.content();
        let mut edges: Vec<u64> = Vec::new();
        let mut i: usize = 0;
        assert(track_models(self.tracks@).len() == self.tracks@.len());
        while i < self.tracks.len()
            invariant
                self.wf(),
                c == self.content(),
                c.tracks.len() == self.tracks@.len(),
                i <= self.tracks@.len(),
                edges@ == tracks_edges(c.tracks.take(i as int)),
            decreases self.tracks@.len() - i,
        {
            let ghost t = c.tracks[i as int];
            assert(t == self.tracks@[i as int]@);
            assert(t.wf());
            assert forall|k: int| 0 <= k < self.tracks@[i as int].clips@.len() implies (#[trigger] self.tracks@[i as int].clips@[k])@.wf() by {
                assert(t.clips[k] == self.tracks@[i as int].clips@[k]@);
            }
            push_clip_edges(&mut edges, &self.tracks[i].clips, None);
            assert(c.tracks.take(i + 1).drop_last() =~= c.tracks.take(i as int));
            assert(c.tracks.take(i + 1).last() == t);
            i += 1;
        }
        assert(c.tracks.take(i as int) =~= c.tracks);
        edges
    }

    /// The start and end of every clip on track `track_id` other than
    /// `clip_id` (the edges a nudged clip docks against); empty when there
    /// is no such track.
    pub fn other_clip_edges(&self, track_id: TrackId, clip_id: ClipId) -> (edges: Vec<u64>)
        requires
            self.wf(),
        ensures
            edges@ == (if self.content().has_track(track_id) {
                clip_edges(self.content().tracks[self.content().track_pos(track_id)].clips, Some(clip_id))
            } else {
                Seq::empty()
            }),
    {
        let mut edges: Vec<u64> = Vec::new();
        match self.track_index(track_id) {
            Some(i) => {
                let ghost t = self.content().tracks[i as int];
                assert(t == self.tracks@[i as int]@);
                assert(t.wf());
                assert forall|k: int| 0 <= k < self.tracks@[i as int].clips@.len() implies (#[trigger] self.tracks@[i as int].clips@[k])@.wf() by {
                    assert(t.clips[k] == self.tracks@[i as int].clips@[k]@);
                }
                push_clip_edges(&mut edges, &self.tracks[i].clips, Some(clip_id));
                assert(edges@ =~= clip_edges(t.clips, Some(clip_id)));
            },
            None => {},
        }
        edges
    }
}


/// Negating every sample twice gives back the samples.
pub proof fn lemma_invert_twice(samples: Seq<u32>)
    ensures
        inverted(inverted(samples)) == samples,
{
    assert forall|j: int| 0 <= j < samples.len() implies inverted(inverted(samples))[j] == samples[j] by {
        let x = samples[j];
        assert((x ^ 0x8000_0000u32) ^ 0x8000_0000u32 == x) by (bit_vector);
    }
    assert(inverted(inverted(samples)) =~= samples);
}

/// Swapping left and right twice gives back stereo audio made of whole
/// frames.
pub proof fn lemma_swap_twice(samples: Seq<u32>)
    requires
        samples.len() % 2 == 0,
    ensures
        swapped_channels(swapped_channels(samples)) == samples,
{
    let once = swapped_channels(samples);
    assert(once.len() == samples.len());
    assert(swapped_channels(once) =~= samples);
}

proof fn lemma_frame_parts(q: int, r: int, ch: int)
    requires
        ch >= 1,
        0 <= r < ch,
    ensures
        (q * ch + r) / ch == q,
        (q * ch + r) % ch == r,
{
    assert((q * ch + r) / ch == q) by (nonlinear_arith)
        requires
            ch >= 1,
            0 <= r < ch,
    ;
    assert((q * ch + r) % ch == r) by (nonlinear_arith)
        requires
            ch >= 1,
            0 <= r < ch,
    ;
}

/// Reversing the frame order twice gives back audio made of whole frames.
pub proof fn lemma_reverse_twice(samples: Seq<u32>, ch: int)
    requires
        ch >= 1,
        (samples.len() as int) % ch == 0,
    ensures
        reversed_frames(reversed_frames(samples, ch), ch) == samples,
{
    let n = samples.len() as int;
    let f = n / ch;
    assert(f * ch == n) by (nonlinear_arith)
        requires
            n % ch == 0,
            f == n / ch,
            ch >= 1,
    ;
    let once = reversed_frames(samples, ch);
    assert(once.len() == n);
    let twice = reversed_frames(once, ch);
    assert(twice.len() == n);
    assert forall|j: int| 0 <= j < n implies twice[j] == samples[j] by {
        let q = j / ch;
        let r = j % ch;
        assert(j == q * ch + r && 0 <= r < ch && 0 <= q < f) by (nonlinear_arith)
            requires
                q == j / ch,
                r == j % ch,
                0 <= j < n,
                f * ch == n,
                ch >= 1,
        ;
        let k = (f - 1 - q) * ch + r;
        lemma_frame_parts(f - 1 - q, r, ch);
        assert(0 <= k < n) by (nonlinear_arith)
            requires
                k == (f - 1 - q) * ch + r,
                0 <= q < f,
                0 <= r < ch,
                f * ch == n,
        ;
        assert(twice[j] == once[k]);
        assert(once[k] == samples[(f - 1 - (f - 1 - q)) * ch + r]);
    }
    assert(twice =~= samples);
}

/// `s` is ordered by start.
pub open spec fn ordered_by_start(s: Seq<ClipModel>) -> bool {
    forall|a: int, b: int| 0 <= a <= b < s.len() ==> (#[trigger] s[a]).start <= (#[trigger] s[b]).start
}

proof fn lemma_insert_by_start_facts(s: Seq<ClipModel>, x: ClipModel)
    ensures
        forall|y: ClipModel| #[trigger] insert_by_start(s, x).contains(y) <==> (s.contains(y) || y == x),
        ordered_by_start(s) ==> ordered_by_start(insert_by_start(s, x)),
        insert_by_start(s, x).len() == s.len() + 1,
    decreases s.len(),
{
    let r = insert_by_start(s, x);
    if s.len() == 0 {
        assert forall|y: ClipModel| #[trigger] r.contains(y) <==> (s.contains(y) || y == x) by {
            if y == x {
                assert(r[0] == x);
            }
        }
    } else if s.last().start <= x.start {
        assert forall|y: ClipModel| #[trigger] r.contains(y) <==> (s.contains(y) || y == x) by {
            if r.contains(y) {
                let k = choose|k: int| 0 <= k < r.len() && r[k] == y;
                if k < s.len() {
                    assert(s[k] == y);
                }
            }
            if s.contains(y) {
                let k = choose|k: int| 0 <= k < s.len() && s[k] == y;
                assert(r[k] == y);
            }
            if y == x {
                assert(r[s.len() as int] == x);
            }
        }
        if ordered_by_start(s) {
            assert forall|a: int, b: int| 0 <= a <= b < r.len() implies (#[trigger] r[a]).start <= (#[trigger] r[b]).start by {
                if b == s.len() && a < s.len() {
                    assert(s[a].start <= s[s.len() - 1].start);
                }
            }
        }
    } else {
        let d = s.drop_last();
        lemma_insert_by_start_facts(d, x);
        let rd = insert_by_start(d, x);
        assert(r == rd.push(s.last()));
        assert forall|y: ClipModel| #[trigger] r.contains(y) <==> (s.contains(y) || y == x) by {
            if r.contains(y) {
                let k = choose|k: int| 0 <= k < r.len() && r[k] == y;
                if k < rd.len() {
                    assert(rd[k] == y);
                    assert(rd.contains(y));
                    if d.contains(y) {
                        let q = choose|q: int| 0 <= q < d.len() && d[q] == y;
                        assert(s[q] == y);
                    }
                } else {
                    assert(s[s.len() - 1] == y);
                }
            }
            if s.contains(y) {
                let k = choose|k: int| 0 <= k < s.len() && s[k] == y;
                if k < d.len() {
                    assert(d[k] == y);
                    assert(rd.contains(y));
                    let q = choose|q: int| 0 <= q < rd.len() && rd[q] == y;
                    assert(r[q] == y);
                } else {
                    assert(r[rd.len() as int] == y);
                }
            }
            if y == x {
                assert(rd.contains(x));
                let q = choose|q: int| 0 <= q < rd.len() && rd[q] == x;
                assert(r[q] == x);
            }
        }
        if ordered_by_start(s) {
            assert(ordered_by_start(d)) by {
                assert forall|a: int, b: int| 0 <= a <= b < d.len() implies (#[trigger] d[a]).start <= (#[trigger] d[b]).start by {
                    assert(d[a] == s[a] && d[b] == s[b]);
                }
            }
            assert forall|a: int, b: int| 0 <= a <= b < r.len() implies (#[trigger] r[a]).start <= (#[trigger] r[b]).start by {
                if b == rd.len() && a < rd.len() {
                    // Every element of `rd` is `x` or an element of `d`, all no later than `s.last()`.
                    let y = rd[a];
                    assert(rd.contains(y));
                    if d.contains(y) {
                        let q = choose|q: int| 0 <= q < d.len() && d[q] == y;
                        assert(s[q].start <= s[s.len() - 1].start);
                    }
                } else if b < rd.len() {
                    assert(r[a] == rd[a] && r[b] == rd[b]);
                }
            }
        }
    }
}

proof fn lemma_sort_by_start_facts(s: Seq<ClipModel>)
    ensures
        forall|y: ClipModel| #[trigger] sort_by_start(s).contains(y) <==> s.contains(y),
        ordered_by_start(sort_by_start(s)),
        sort_by_start(s).len() == s.len(),
    decreases s.len(),
{
    if s.len() > 0 {
        let d = s.drop_last();
        lemma_sort_by_start_facts(d);
        lemma_insert_by_start_facts(sort_by_start(d), s.last());
        assert forall|y: ClipModel| #[trigger] sort_by_start(s).contains(y) <==> s.contains(y) by {
            if d.contains(y) {
                let q = choose|q: int| 0 <= q < d.len() && d[q] == y;
                assert(s[q] == y);
            }
            if s.contains(y) {
                let q = choose|q: int| 0 <= q < s.len() && s[q] == y;
                if q < d.len() {
                    assert(d[q] == y);
                } else {
                    assert(y == s.last());
                }
            }
        }
    }
}

/// Joining clips gives one clip that spans exactly from the earliest start
/// to the latest end of the clips joined.
pub proof fn lemma_join_spans(t: TrackModel, ids: Seq<ClipId>, id: ClipId)
    requires
        t.wf(),
        picked(t.clips, ids).len() >= 2,
        join_fits(t, ids),
    ensures
        ({
            let j = joined_clip(t, ids, id);
            let p = picked(t.clips, ids);
            &&& forall|k: int| 0 <= k < p.len() ==> j.start <= (#[trigger] p[k]).start && p[k].end() <= j.end()
            &&& exists|k: int| 0 <= k < p.len() && j.start == (#[trigger] p[k]).start
            &&& exists|k: int| 0 <= k < p.len() && j.end() == (#[trigger] p[k]).end()
        }),
{
    let p = picked(t.clips, ids);
    let sorted = sort_by_start(p);
    lemma_sort_by_start_facts(p);
    lemma_max_end(sorted);
    lemma_picked_within(t.clips, ids);
    let j = joined_clip(t, ids, id);
    let min_start = sorted[0].start as int;
    let ch = track_ch(t);
    let frames = max_end(sorted) - min_start;
    assert(sorted[0].start <= sorted[0].end());
    let n = frames * ch;
    assert(n >= 0) by (nonlinear_arith)
        requires
            frames >= 0,
            ch >= 1,
            n == frames * ch,
    ;
    assert(n / ch == frames) by (nonlinear_arith)
        requires
            frames >= 0,
            ch >= 1,
            n == frames * ch,
    ;
    let top = choose|a: int| 0 <= a < sorted.len() && max_end(sorted) == (#[trigger] sorted[a]).end();
    assert(sorted.contains(sorted[top]));
    assert(p.contains(sorted[top]));
    let kt = choose|k: int| 0 <= k < p.len() && p[k] == sorted[top];
    assert(p[kt].wf());
    lemma_layered_len(sorted, min_start, ch, n as nat);
    assert(p[kt].end() <= p[kt].reach());
    assert(j.len == frames);
    assert(j.end() == max_end(sorted));
    assert forall|k: int| 0 <= k < p.len() implies j.start <= (#[trigger] p[k]).start && p[k].end() <= j.end() by {
        assert(p.contains(p[k]));
        assert(sorted.contains(p[k]));
        let a = choose|a: int| 0 <= a < sorted.len() && sorted[a] == p[k];
        assert(sorted[0].start <= sorted[a].start);
    }
    assert(sorted.contains(sorted[0]));
    let k0 = choose|k: int| 0 <= k < p.len() && p[k] == sorted[0];
    assert(j.start == p[k0].start);
    assert(j.end() == p[kt].end());
}

/// Every clip `picked` returns is one of `clips`.
proof fn lemma_picked_within(clips: Seq<ClipModel>, ids: Seq<ClipId>)
    ensures
        forall|k: int| 0 <= k < picked(clips, ids).len() ==> clips.contains(#[trigger] picked(clips, ids)[k]),
    decreases clips.len(),
{
    if clips.len() > 0 {
        let d = clips.drop_last();
        lemma_picked_within(d, ids);
        let p = picked(clips, ids);
        assert forall|k: int| 0 <= k < p.len() implies clips.contains(#[trigger] p[k]) by {
            if k < picked(d, ids).len() {
                assert(p[k] == picked(d, ids)[k]);
                let q = choose|q: int| 0 <= q < d.len() && d[q] == p[k];
                assert(clips[q] == p[k]);
            } else {
                assert(p[k] == clips.last());
                assert(clips[clips.len() - 1] == p[k]);
            }
        }
    }
}


proof fn lemma_layered_len(sorted: Seq<ClipModel>, min_start: int, ch: int, n: nat)
    ensures
        layered(sorted, min_start, ch, n).len() == n,
    decreases sorted.len(),
{
    if sorted.len() > 0 {
        lemma_layered_len(sorted.drop_last(), min_start, ch, n);
    }
}


/// Copying then pasting keeps the copied clips' layout: every clipboard
/// entry sits at or after the anchor (offsets are never negative), one of
/// them is the anchor itself, and when pasted at `start` any two land as
/// far apart as the originals were.
pub proof fn lemma_paste_keeps_layout(c: ProjectContent, ids: Seq<ClipId>, start: int, a: int, b: int)
    requires
        start >= 0,
        0 <= a < clipboard_for(c, ids).len(),
        0 <= b < clipboard_for(c, ids).len(),
    ensures
        ({
            let e = clipboard_for(c, ids);
            &&& e[a].start_offset >= 0
            &&& e[a].track_offset >= 0
            &&& paste_start(start, e[a].start_offset) - paste_start(start, e[b].start_offset) == e[a].clip.start - e[b].clip.start
            &&& exists|q: int| 0 <= q < e.len() && #[trigger] e[q].start_offset == 0
        }),
{
    let f = found_clips(c, ids);
    let tracks = f.map_values(|x: (int, ClipModel)| x.0);
    let starts = f.map_values(|x: (int, ClipModel)| x.1.start as int);
    lemma_seq_min_is_least(tracks);
    lemma_seq_min_is_least(starts);
    let e = clipboard_for(c, ids);
    assert(starts[a] == f[a].1.start);
    assert(starts[b] == f[b].1.start);
    assert(tracks[a] == f[a].0);
    let j = choose|j: int| 0 <= j < starts.len() && starts[j] == seq_min(starts);
    assert(e[j].start_offset == 0);
}


/// What a project file holds of a clip: its name, start, channel count and
/// audible samples (trimmed-away audio is not kept).
pub struct SavedClip {
    pub name: String,
    pub start_sample: u64,
    pub channels: u8,
    pub samples: Vec<u32>,
}

pub struct SavedClipModel {
    pub name: Seq<char>,
    pub start: u64,
    pub channels: u8,
    pub samples: Seq<u32>,
}

impl View for SavedClip {
    type V = SavedClipModel;

    open spec fn view(&self) -> SavedClipModel {
        SavedClipModel { name: self.name@, start: self.start_sample, channels: self.channels, samples: self.samples@ }
    }
}

/// What a project file holds of a track: its name, controls, channel count
/// and clips.
pub struct SavedTrack {
    pub name: String,
    pub pan_percent: i8,
    pub volume: u32,
    pub muted: bool,
    pub soloed: bool,
    pub channels: u8,
    pub clips: Vec<SavedClip>,
}

pub struct SavedTrackModel {
    pub name: Seq<char>,
    pub pan_percent: i8,
    pub volume: u32,
    pub muted: bool,
    pub soloed: bool,
    pub channels: u8,
    pub clips: Seq<SavedClipModel>,
}

impl View for SavedTrack {
    type V = SavedTrackModel;

    open spec fn view(&self) -> SavedTrackModel {
        SavedTrackModel {
            name: self.name@,
            pan_percent: self.pan_percent,
            volume: self.volume,
            muted: self.muted,
            soloed: self.soloed,
            channels: self.channels,
            clips: self.clips@.map_values(|c: SavedClip| c@),
        }
    }
}

/// What saving keeps of a clip.
pub open spec fn saved_clip_model(c: ClipModel) -> SavedClipModel {
    SavedClipModel { name: c.name, start: c.start, channels: c.channels, samples: c.visible() }
}

/// What saving keeps of a track.
pub open spec fn saved_track_model(t: TrackModel) -> SavedTrackModel {
    SavedTrackModel {
        name: t.name,
        pan_percent: t.pan_percent,
        volume: t.volume,
        muted: t.muted,
        soloed: t.soloed,
        channels: t.channels,
        clips: t.clips.map_values(|c: ClipModel| saved_clip_model(c)),
    }
}

pub open spec fn saved_views(v: Seq<SavedTrack>) -> Seq<SavedTrackModel> {
    v.map_values(|s: SavedTrack| s@)
}

impl Project {
    /// What a project file holds of this project's tracks, in order.
    pub fn saved_tracks(&self) -> (v: Vec<SavedTrack>)
        requires
            self.wf(),
        ensures
            saved_views(v@) == self.content().tracks.map_values(|t: TrackModel| saved_track_model(t)),
    {
        let ghost c = self.content();
        assert(track_models(self.tracks@).len() == self.tracks@.len());
        let mut v: Vec<SavedTrack> = Vec::new();
        let mut i: usize = 0;
        while i < self.tracks.len()
            invariant
                self.wf(),
                c == self.content(),
                c.tracks.len() == self.tracks@.len(),
                i <= self.tracks@.len(),
                v@.len() == i,
                forall|a: int| 0 <= a < i ==> (#[trigger] v@[a])@ == saved_track_model(c.tracks[a]),
            decreases self.tracks@.len() - i,
        {
            let track = &self.tracks[i];
            let ghost t = c.tracks[i as int];
            assert(t == track@);
            assert(t.wf());
            let mut clips: Vec<SavedClip> = Vec::new();
            let mut k: usize = 0;
            while k < track.clips.len()
                invariant
                    t == track@,
                    t.wf(),
                    k <= track.clips@.len(),
                    t.clips.len() == track.clips@.len(),
                    clips@.len() == k,
                    forall|b: int| 0 <= b < k ==> (#[trigger] clips@[b])@ == saved_clip_model(t.clips[b]),
                decreases track.clips@.len() - k,
            {
                let clip = &track.clips[k];
                assert(t.clips[k as int] == clip@);
                assert(clip@.wf());
                clips.push(
                    SavedClip {
                        name: clip.name.clone(),
                        start_sample: clip.start_sample,
                        channels: clip.channels(),
                        samples: clip.visible_samples(),
                    },
                );
                k += 1;
            }
            v.push(
                SavedTrack {
                    name: track.name.clone(),
                    pan_percent: track.pan_percent,
                    volume: track.volume,
                    muted: track.muted,
                    soloed: track.soloed,
                    channels: track.channels,
                    clips,
                },
            );
            assert(v@[i as int]@.clips =~= t.clips.map_values(|c: ClipModel| saved_clip_model(c)));
            i += 1;
        }
        assert(saved_views(v@) =~= c.tracks.map_values(|t: TrackModel| saved_track_model(t)));
        v
    }
}


/// A channel count of 0 read as 1.
pub open spec fn at_least_one(c: u8) -> u8 {
    if c >= 1 {
        c
    } else {
        1
    }
}

/// The channel count a loaded track ends up with: its first clip's (the
/// first clip added to an empty track sets it), or its own when it has no
/// clips.
pub open spec fn loaded_channels(s: SavedTrackModel) -> u8 {
    if s.clips.len() > 0 {
        at_least_one(s.clips[0].channels)
    } else {
        at_least_one(s.channels)
    }
}

/// How many clips the saved tracks before position `i` hold.
pub open spec fn clips_before(ts: Seq<SavedTrackModel>, i: int) -> int
    decreases i,
{
    if i <= 0 {
        0
    } else {
        clips_before(ts, i - 1) + ts[i - 1].clips.len()
    }
}

proof fn lemma_clips_before_grows(ts: Seq<SavedTrackModel>, i: int, j: int)
    requires
        0 <= i <= j <= ts.len(),
    ensures
        clips_before(ts, i) + (if i < j { ts[i].clips.len() as int } else { 0 }) <= clips_before(ts, j),
        clips_before(ts, i) >= 0,
    decreases j - i,
{
    if i < j {
        lemma_clips_before_grows(ts, i + 1, j);
    }
    lemma_clips_before_nonneg(ts, i);
}

proof fn lemma_clips_before_nonneg(ts: Seq<SavedTrackModel>, i: int)
    ensures
        clips_before(ts, i) >= 0,
    decreases i,
{
    if i > 0 {
        lemma_clips_before_nonneg(ts, i - 1);
    }
}

/// Track `t` is saved track `s` loaded under id `id`, its clips taking ids
/// from `first_clip` on: the same name and controls, the loaded channel
/// count, and each clip rebuilt from its saved audio converted to that
/// channel count (stereo frames reduced by `downmix`).
pub open spec fn loaded_track<F: Fn(u32, u32) -> u32>(s: SavedTrackModel, t: TrackModel, id: TrackId, first_clip: int, downmix: F) -> bool {
    let ch = loaded_channels(s);
    &&& t.id == id
    &&& t.name == s.name
    &&& t.pan_percent == s.pan_percent
    &&& t.volume == s.volume
    &&& t.muted == s.muted
    &&& t.soloed == s.soloed
    &&& t.channels == ch
    &&& t.clips.len() == s.clips.len()
    &&& forall|j: int|
        0 <= j < s.clips.len() ==> {
            &&& converted_ok(s.clips[j].samples, at_least_one(s.clips[j].channels), ch, downmix, (#[trigger] t.clips[j]).source)
            &&& t.clips[j] == ClipModel::baked(ClipId((first_clip + j) as u32), s.clips[j].name, s.clips[j].start, t.clips[j].source, ch)
        }
}

impl Project {
    /// Rebuilds a project from the tracks a project file holds: track `i`
    /// gets id `i`, its saved name and controls, and its clips (ids counting
    /// up across all tracks) converted to its channel count, which its first
    /// clip decides. Nothing is selected, the clipboard is empty, and there
    /// is no undo history.
    pub fn from_saved_tracks<F: Fn(u32, u32) -> u32>(sample_rate_hz: u32, saved: &Vec<SavedTrack>, downmix: F) -> (p: Self)
        requires
            saved@.len() <= u32::MAX,
            clips_before(saved_views(saved@), saved@.len() as int) <= u32::MAX,
            forall|i: int, j: int|
                0 <= i < saved@.len() && 0 <= j < saved@[i].clips@.len() ==> (#[trigger] saved@[i].clips@[j]).start_sample + 2
                    * saved@[i].clips@[j].samples@.len() <= i64::MAX,
            forall|a: u32, b: u32| downmix.requires((a, b)),
        ensures
            p.wf(),
            p.undo_history() == Seq::<ProjectContent>::empty(),
            p.redo_history() == Seq::<ProjectContent>::empty(),
            p.selected_clips() == Seq::<ClipId>::empty(),
            p.selected_track_ids() == Seq::<TrackId>::empty(),
            p.clipboard() == Seq::<ClipboardModel>::empty(),
            p.content().sample_rate_hz == sample_rate_hz,
            p.content().tracks.len() == saved@.len(),
            p.content().next_track_id == saved@.len(),
            p.content().next_clip_id == clips_before(saved_views(saved@), saved@.len() as int),
            forall|i: int|
                0 <= i < saved@.len() ==> loaded_track(
                    saved@[i]@,
                    #[trigger] p.content().tracks[i],
                    TrackId(i as u32),
                    clips_before(saved_views(saved@), i),
                    downmix,
                ),
    {
        let ghost views = saved_views(saved@);
        let mut tracks: Vec<Track> = Vec::new();
        let mut next_clip: u32 = 0;
        let mut i: usize = 0;
        while i < saved.len()
            invariant
                i <= saved@.len() <= u32::MAX,
                views == saved_views(saved@),
                clips_before(views, saved@.len() as int) <= u32::MAX,
                forall|a: int, j: int|
                    0 <= a < saved@.len() && 0 <= j < saved@[a].clips@.len() ==> (#[trigger] saved@[a].clips@[j]).start_sample + 2
                        * saved@[a].clips@[j].samples@.len() <= i64::MAX,
                forall|a: u32, b: u32| downmix.requires((a, b)),
                tracks@.len() == i,
                next_clip == clips_before(views, i as int),
                forall|a: int|
                    0 <= a < i ==> loaded_track(views[a], #[trigger] tracks@[a]@, TrackId(a as u32), clips_before(views, a), downmix)
                        && tracks@[a]@.wf(),
            decreases saved@.len() - i,
        {
            let st = &saved[i];
            let ghost sv = views[i as int];
            assert(sv == st@);
            proof {
                lemma_clips_before_grows(views, i as int, saved@.len() as int);
            }
            let ch: u8 = if st.clips.len() > 0 {
                let c0 = st.clips[0].channels;
                if c0 >= 1 { c0 } else { 1 }
            } else {
                if st.channels >= 1 { st.channels } else { 1 }
            };
            assert(ch == loaded_channels(sv));
            let mut clips: Vec<Clip> = Vec::new();
            let mut j: usize = 0;
            while j < st.clips.len()
                invariant
                    sv == st@,
                    ch == loaded_channels(sv),
                    ch >= 1,
                    j <= st.clips@.len(),
                    clips@.len() == j,
                    next_clip == clips_before(views, i as int) + j,
                    clips_before(views, i as int) + sv.clips.len() <= u32::MAX,
                    forall|q: int| 0 <= q < st.clips@.len() ==> (#[trigger] st.clips@[q]).start_sample + 2 * st.clips@[q].samples@.len() <= i64::MAX,
                    forall|a: u32, b: u32| downmix.requires((a, b)),
                    forall|q: int|
                        0 <= q < j ==> {
                            &&& converted_ok(sv.clips[q].samples, at_least_one(sv.clips[q].channels), ch, downmix, (#[trigger] clips@[q])@.source)
                            &&& clips@[q]@ == ClipModel::baked(
                                ClipId((clips_before(views, i as int) + q) as u32),
                                sv.clips[q].name,
                                sv.clips[q].start,
                                clips@[q]@.source,
                                ch,
                            )
                            &&& clips@[q]@.wf()
                        },
                decreases st.clips@.len() - j,
            {
                let sc = &st.clips[j];
                assert(sv.clips[j as int] == sc@);
                let src_ch: u8 = if sc.channels >= 1 { sc.channels } else { 1 };
                let converted = convert_channel_count(sc.samples.clone(), src_ch, ch, &downmix);
                let clip = Clip::from_samples_channels(ClipId(next_clip), sc.name.clone(), sc.start_sample, converted, ch);
                proof {
                    let m = clip@;
                    let n = m.source.len() as int;
                    let chi = ch as int;
                    assert(n / chi <= n) by (nonlinear_arith)
                        requires
                            chi >= 1,
                            n >= 0,
                    ;
                    assert(m.wf());
                }
                clips.push(clip);
                next_clip = next_clip + 1;
                j += 1;
            }
            tracks.push(
                Track {
                    id: TrackId(i as u32),
                    name: st.name.clone(),
                    pan_percent: st.pan_percent,
                    volume: st.volume,
                    muted: st.muted,
                    soloed: st.soloed,
                    channels: ch,
                    clips,
                },
            );
            proof {
                let t = tracks@[i as int]@;
                assert forall|q: int| 0 <= q < t.clips.len() implies (#[trigger] t.clips[q]).wf() by {
                    assert(t.clips[q] == clips@[q]@);
                }
                assert(loaded_track(views[i as int], t, TrackId(i as u32), clips_before(views, i as int), downmix)) by {
                    assert forall|q: int| 0 <= q < sv.clips.len() implies {
                        &&& converted_ok(sv.clips[q].samples, at_least_one(sv.clips[q].channels), ch, downmix, (#[trigger] t.clips[q]).source)
                        &&& t.clips[q] == ClipModel::baked(ClipId((clips_before(views, i as int) + q) as u32), sv.clips[q].name, sv.clips[q].start, t.clips[q].source, ch)
                    } by {
                        assert(t.clips[q] == clips@[q]@);
                    }
                }
                assert(clips_before(views, i + 1) == clips_before(views, i as int) + sv.clips.len());
            }
            i += 1;
        }
        let p = Project {
            sample_rate_hz,
            tracks,
            next_track_id: i as u32,
            next_clip_id: next_clip,
            selection: Vec::new(),
            selected_tracks: Vec::new(),
            clipboard: Vec::new(),
            undo_stack: Vec::new(),
            redo_stack: Vec::new(),
        };
        proof {
            let c = p.content();
            assert forall|a: int| 0 <= a < c.tracks.len() implies #[trigger] c.tracks[a] == p.tracks@[a]@ by {}
            lemma_loaded_wf(c, views, downmix);
            assert(p.undo_history() =~= Seq::<ProjectContent>::empty());
            assert(p.redo_history() =~= Seq::<ProjectContent>::empty());
            assert(p.clipboard() =~= Seq::<ClipboardModel>::empty());
        }
        p
    }
}

proof fn lemma_loaded_wf<F: Fn(u32, u32) -> u32>(c: ProjectContent, views: Seq<SavedTrackModel>, downmix: F)
    requires
        c.tracks.len() == views.len(),
        c.next_track_id == views.len(),
        c.next_clip_id == clips_before(views, views.len() as int),
        forall|a: int|
            0 <= a < c.tracks.len() ==> loaded_track(views[a], #[trigger] c.tracks[a], TrackId(a as u32), clips_before(views, a), downmix)
                && c.tracks[a].wf(),
    ensures
        c.wf(),
{
    assert forall|i: int, k: int| c.is_clip_addr(i, k) implies (#[trigger] c.clip_at(i, k)).id.0 == clips_before(views, i) + k by {
        lemma_clips_before_grows(views, i, views.len() as int);
        assert(loaded_track(views[i], c.tracks[i], TrackId(i as u32), clips_before(views, i), downmix));
        assert(c.tracks[i].clips[k] == ClipModel::baked(
            ClipId((clips_before(views, i) + k) as u32),
            views[i].clips[k].name,
            views[i].clips[k].start,
            c.tracks[i].clips[k].source,
            loaded_channels(views[i]),
        ));
    }
    assert forall|i: int| 0 <= i < c.tracks.len() implies (#[trigger] c.tracks[i]).wf() by {}
    assert forall|i: int| 0 <= i < c.tracks.len() implies (#[trigger] c.tracks[i]).id.0 < c.next_track_id by {
        assert(loaded_track(views[i], c.tracks[i], TrackId(i as u32), clips_before(views, i), downmix));
    }
    assert forall|i: int, j: int| 0 <= i < c.tracks.len() && 0 <= j < c.tracks.len() && i != j implies #[trigger] c.tracks[i].id
        != #[trigger] c.tracks[j].id by {
        assert(loaded_track(views[i], c.tracks[i], TrackId(i as u32), clips_before(views, i), downmix));
        assert(loaded_track(views[j], c.tracks[j], TrackId(j as u32), clips_before(views, j), downmix));
    }
    assert forall|i: int, k: int| c.is_clip_addr(i, k) implies (#[trigger] c.clip_at(i, k)).id.0 < c.next_clip_id by {
        lemma_clips_before_grows(views, i, views.len() as int);
        assert(c.clip_at(i, k).id.0 == clips_before(views, i) + k);
    }
    assert forall|i: int, k: int, j: int, l: int|
        c.is_clip_addr(i, k) && c.is_clip_addr(j, l) && (i != j || k != l) implies #[trigger] c.clip_at(i, k).id
        != #[trigger] c.clip_at(j, l).id by {
        assert(c.clip_at(i, k).id.0 == clips_before(views, i) + k);
        assert(c.clip_at(j, l).id.0 == clips_before(views, j) + l);
        if i < j {
            lemma_clips_before_grows(views, i, j);
        } else if j < i {
            lemma_clips_before_grows(views, j, i);
        }
    }
}

/// Saving a project and loading the file back gives tracks that save to
/// exactly the same thing (same names, controls, channel counts, and each
/// clip's name, start and audio), whenever every clip has its track's
/// channel count.
pub proof fn lemma_save_load_round_trip<F: Fn(u32, u32) -> u32>(c: ProjectContent, loaded: ProjectContent, downmix: F)
    requires
        c.wf(),
        forall|i: int, k: int| c.is_clip_addr(i, k) ==> (#[trigger] c.clip_at(i, k)).channels == c.tracks[i].channels,
        forall|i: int| 0 <= i < c.tracks.len() ==> (#[trigger] c.tracks[i]).channels >= 1,
        loaded.tracks.len() == c.tracks.len(),
        forall|i: int|
            0 <= i < c.tracks.len() ==> loaded_track(
                saved_track_model(c.tracks[i]),
                #[trigger] loaded.tracks[i],
                TrackId(i as u32),
                clips_before(c.tracks.map_values(|t: TrackModel| saved_track_model(t)), i),
                downmix,
            ),
    ensures
        forall|i: int| 0 <= i < c.tracks.len() ==> saved_track_model(#[trigger] loaded.tracks[i]) == saved_track_model(c.tracks[i]),
{
    let views = c.tracks.map_values(|t: TrackModel| saved_track_model(t));
    assert forall|i: int| 0 <= i < c.tracks.len() implies saved_track_model(#[trigger] loaded.tracks[i]) == saved_track_model(c.tracks[i]) by {
        let t = c.tracks[i];
        let s = saved_track_model(t);
        let lt = loaded.tracks[i];
        assert(loaded_track(s, lt, TrackId(i as u32), clips_before(views, i), downmix));
        assert(t.wf());
        if t.clips.len() > 0 {
            assert(c.is_clip_addr(i, 0));
            assert(c.clip_at(i, 0).channels == t.channels);
            assert(s.clips[0].channels == t.clips[0].channels);
        }
        assert(loaded_channels(s) == t.channels);
        assert forall|k: int| 0 <= k < t.clips.len() implies saved_clip_model(#[trigger] lt.clips[k]) == saved_clip_model(t.clips[k]) by {
            let o = t.clips[k];
            assert(c.is_clip_addr(i, k));
            assert(c.clip_at(i, k).channels == c.tracks[i].channels);
            assert(o.channels == t.channels);
            assert(o.wf());
            assert(s.clips[k] == saved_clip_model(o));
            let m = lt.clips[k];
            assert(converted_ok(o.visible(), at_least_one(o.channels), t.channels, downmix, m.source));
            assert(m.source == o.visible());
            lemma_visible_len(o);
            let ch = o.ch();
            let n = o.visible().len() as int;
            assert(n / ch == o.len) by (nonlinear_arith)
                requires
                    n == o.len * ch,
                    ch >= 1,
            ;
            assert(m.len == o.len);
            assert(m.offset == 0);
            assert((0 + o.len) * ch == n) by (nonlinear_arith)
                requires
                    n == o.len * ch,
            ;
            assert(0 * ch == 0) by (nonlinear_arith);
            assert(m.visible() =~= o.visible());
        }
        assert(saved_track_model(lt).clips =~= s.clips);
    }
}

} // verus!
