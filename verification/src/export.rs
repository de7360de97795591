//! Export settings and the naming of exported files: where they go, and
//! how a user-typed export name is turned into a safe file name.
use vstd::prelude::*;
use vstd::string::{StrSliceExecFns, StringExecFns};

verus! {

/// The app version shown in the Help window's footer.
pub const APP_VERSION: &'static str = "0.3";

/// Audio quality settings for exported files.
pub const SAMPLE_RATE_HZ: u32 = 48_000;

pub const MP3_BITRATE_KBPS: u32 = 320;

pub const WAV_BITS_PER_SAMPLE: u16 = 32;

/// Where exported files are written.
pub enum ExportDir {
    /// The user's platform-specific Downloads folder.
    Downloads,
    /// A fixed filesystem path, used as-is.
    Path(&'static str),
}

pub const EXPORT_DIR: ExportDir = ExportDir::Downloads;

/// Unicode White_Space: the characters `str::trim` strips.
pub open spec fn is_white_space(c: char) -> bool {
    ||| '\u{9}' <= c <= '\u{d}'
    ||| c == ' '
    ||| c == '\u{85}'
    ||| c == '\u{a0}'
    ||| c == '\u{1680}'
    ||| '\u{2000}' <= c <= '\u{200a}'
    ||| c == '\u{2028}'
    ||| c == '\u{2029}'
    ||| c == '\u{202f}'
    ||| c == '\u{205f}'
    ||| c == '\u{3000}'
}

/// How many white-space characters `s` starts with.
pub open spec fn leading_white(s: Seq<char>) -> nat
    decreases s.len(),
{
    if s.len() > 0 && is_white_space(s[0]) {
        1 + leading_white(s.skip(1))
    } else {
        0
    }
}

/// How many white-space characters `s` ends with.
pub open spec fn trailing_white(s: Seq<char>) -> nat
    decreases s.len(),
{
    if s.len() > 0 && is_white_space(s.last()) {
        1 + trailing_white(s.drop_last())
    } else {
        0
    }
}

/// `s` with its leading and trailing white space removed.
pub open spec fn trimmed(s: Seq<char>) -> Seq<char> {
    let a = s.skip(leading_white(s) as int);
    a.take(a.len() - trailing_white(a))
}

/// `s` without any '/' or '\\'.
pub open spec fn without_separators(s: Seq<char>) -> Seq<char>
    decreases s.len(),
{
    if s.len() == 0 {
        s
    } else {
        let r = without_separators(s.drop_last());
        if s.last() == '/' || s.last() == '\\' {
            r
        } else {
            r.push(s.last())
        }
    }
}

/// A user-typed export name made safe: trimmed, with path separators
/// removed, and "mixdown" when nothing is left.
pub open spec fn sanitized(name: Seq<char>) -> Seq<char> {
    let c = without_separators(trimmed(name));
    if c.len() == 0 {
        "mixdown"@
    } else {
        c
    }
}

fn white_space(c: char) -> (b: bool)
    ensures
        b == is_white_space(c),
{
    ('\u{9}' <= c && c <= '\u{d}') || c == ' ' || c == '\u{85}' || c == '\u{a0}' || c == '\u{1680}' || ('\u{2000}' <= c
        && c <= '\u{200a}') || c == '\u{2028}' || c == '\u{2029}' || c == '\u{202f}' || c == '\u{205f}' || c == '\u{3000}'
}

proof fn lemma_leading_white(s: Seq<char>, k: int)
    requires
        0 <= k <= s.len(),
        forall|j: int| 0 <= j < k ==> is_white_space(#[trigger] s[j]),
        k == s.len() || !is_white_space(s[k]),
    ensures
        leading_white(s) == k,
    decreases k,
{
    if k > 0 {
        let t = s.skip(1);
        assert forall|j: int| 0 <= j < k - 1 implies is_white_space(#[trigger] t[j]) by {
            assert(t[j] == s[j + 1]);
        }
        if k < s.len() {
            assert(t[k - 1] == s[k]);
        }
        lemma_leading_white(t, k - 1);
    }
}

proof fn lemma_trailing_white(s: Seq<char>, k: int)
    requires
        0 <= k <= s.len(),
        forall|j: int| s.len() - k <= j < s.len() ==> is_white_space(#[trigger] s[j]),
        k == s.len() || !is_white_space(s[s.len() - k - 1]),
    ensures
        trailing_white(s) == k,
    decreases k,
{
    if k > 0 {
        let t = s.drop_last();
        assert forall|j: int| t.len() - (k - 1) <= j < t.len() implies is_white_space(#[trigger] t[j]) by {
            assert(t[j] == s[j]);
        }
        if k < s.len() {
            assert(t[t.len() - (k - 1) - 1] == s[s.len() - k - 1]);
        }
        lemma_trailing_white(t, k - 1);
    }
}

/// `s` with its leading and trailing white space removed.
pub fn trim_chars(s: &str) -> (t: &str)
    ensures
        t@ == trimmed(s@),
{
    let n = s.unicode_len();
    let mut lo: usize = 0;
    while lo < n && white_space(s.get_char(lo))
        invariant
            n == s@.len(),
            lo <= n,
            forall|j: int| 0 <= j < lo ==> is_white_space(#[trigger] s@[j]),
        decreases n - lo,
    {
        lo += 1;
    }
    proof {
        lemma_leading_white(s@, lo as int);
    }
    let ghost a = s@.skip(lo as int);
    let mut hi: usize = n;
    while hi > lo && white_space(s.get_char(hi - 1))
        invariant
            n == s@.len(),
            lo <= hi <= n,
            a == s@.skip(lo as int),
            forall|j: int| hi - lo <= j < a.len() ==> is_white_space(#[trigger] a[j]),
        decreases hi - lo,
    {
        assert(a[hi - 1 - lo] == s@[hi - 1]);
        hi -= 1;
    }
    proof {
        if hi > lo {
            assert(a[hi - lo - 1] == s@[hi - 1]);
        }
        lemma_trailing_white(a, (n - hi) as int);
    }
    assert(trimmed(s@) =~= s@.subrange(lo as int, hi as int));
    s.substring_char(lo, hi)
}

/// Strips path separators (and trims white space) from a user-typed export
/// name, so it cannot write outside the export directory; falls back to
/// "mixdown" if that leaves nothing.
pub fn sanitize_file_name(name: &str) -> (s: String)
    ensures
        s@ == sanitized(name@),
{
    let t = trim_chars(name);
    let n = t.unicode_len();
    let mut out = String::new();
    let mut i: usize = 0;
    while i < n
        invariant
            n == t@.len(),
            i <= n,
            t@ == trimmed(name@),
            out@ == without_separators(t@.take(i as int)),
        decreases n - i,
    {
        let c = t.get_char(i);
        assert(t@.take(i + 1).drop_last() =~= t@.take(i as int));
        assert(t@.take(i + 1).last() == c);
        if c != '/' && c != '\\' {
            let piece = t.substring_char(i, i + 1);
            assert(piece@ =~= seq![c]);
            out.append(piece);
        }
        i += 1;
    }
    assert(t@.take(n as int) =~= t@);
    if out.as_str().is_empty() {
        String::from_str("mixdown")
    } else {
        out
    }
}

/// `name` + ".wav" / ".mp3".
pub open spec fn with_extension(name: Seq<char>, wav: bool) -> Seq<char> {
    if wav {
        name + ".wav"@
    } else {
        name + ".mp3"@
    }
}

/// The `.wav` and `.mp3` file names an export under `base_name` writes
/// (inside the export directory): the sanitized name with each extension.
pub fn export_file_names(base_name: &str) -> (r: (String, String))
    ensures
        r.0@ == with_extension(sanitized(base_name@), true),
        r.1@ == with_extension(sanitized(base_name@), false),
{
    let base = sanitize_file_name(base_name);
    let mut wav = base.clone();
    wav.append(".wav");
    let mut mp3 = base;
    mp3.append(".mp3");
    (wav, mp3)
}


proof fn lemma_without_separators_clean(s: Seq<char>)
    ensures
        !without_separators(s).contains('/'),
        !without_separators(s).contains('\\'),
    decreases s.len(),
{
    if s.len() > 0 {
        lemma_without_separators_clean(s.drop_last());
        let r = without_separators(s.drop_last());
        if !(s.last() == '/' || s.last() == '\\') {
            assert forall|k: int| 0 <= k < r.push(s.last()).len() implies r.push(s.last())[k] != '/' && r.push(s.last())[k] != '\\' by {
                if k < r.len() {
                    assert(r.push(s.last())[k] == r[k]);
                    assert(r.contains(r[k]));
                }
            }
        }
    }
}

/// A sanitized export name is never empty and never holds a path
/// separator, so it always names a file directly inside the export
/// directory.
pub proof fn lemma_sanitized_is_safe(name: Seq<char>)
    ensures
        sanitized(name).len() > 0,
        !sanitized(name).contains('/'),
        !sanitized(name).contains('\\'),
{
    lemma_without_separators_clean(trimmed(name));
    if without_separators(trimmed(name)).len() == 0 {
        reveal_strlit("mixdown");
        assert(!"mixdown"@.contains('/')) by {
            assert forall|k: int| 0 <= k < "mixdown"@.len() implies "mixdown"@[k] != '/' && "mixdown"@[k] != '\\' by {}
        }
    }
}

} // verus!
