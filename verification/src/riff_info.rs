//! The `LIST`/`INFO` chunk that carries a project's export tags inside an
//! exported WAV file, and the RIFF header size field that has to grow with
//! it once the chunk is appended.
use vstd::prelude::*;
use vstd::utf8::encode_utf8;
use crate::metadata::ProjectMetadata;

verus! {

/// The four bytes of `n` modulo 2^32, least significant first (a RIFF size
/// field).
pub open spec fn le32(n: nat) -> Seq<u8> {
    seq![(n % 256) as u8, ((n / 256) % 256) as u8, ((n / 65536) % 256) as u8, ((n / 16777216) % 256) as u8]
}

/// The number four little-endian bytes hold.
pub open spec fn le32_value(b: Seq<u8>) -> nat {
    (b[0] + 256 * b[1] + 65536 * b[2] + 16777216 * b[3]) as nat
}

/// `n` in ASCII decimal digits, most significant first, without leading
/// zeros (`0` is the single digit `0`).
pub open spec fn decimal(n: nat) -> Seq<u8>
    decreases n,
{
    if n < 10 {
        seq![(48 + n) as u8]
    } else {
        decimal(n / 10).push((48 + n % 10) as u8)
    }
}

/// One INFO sub-chunk: its id, the little-endian size of the text with its
/// NUL terminator, the text and the NUL, and one zero pad byte when that
/// size is odd (RIFF chunks are word-aligned).
pub open spec fn sub_chunk(id: Seq<u8>, text: Seq<u8>) -> Seq<u8> {
    let size = text.len() + 1;
    id + le32(size) + text.push(0u8) + (if size % 2 == 1 {
        seq![0u8]
    } else {
        Seq::<u8>::empty()
    })
}

/// The sub-chunks of `entries` (id, text bytes), in order.
pub open spec fn sub_chunks(entries: Seq<(Seq<u8>, Seq<u8>)>) -> Seq<u8>
    decreases entries.len(),
{
    if entries.len() == 0 {
        Seq::<u8>::empty()
    } else {
        sub_chunks(entries.drop_last()) + sub_chunk(entries.last().0, entries.last().1)
    }
}

/// `entries` followed by the text tag `id`, unless `text` is empty.
pub open spec fn with_text_entry(entries: Seq<(Seq<u8>, Seq<u8>)>, id: Seq<u8>, text: Seq<char>) -> Seq<(Seq<u8>, Seq<u8>)> {
    if text.len() == 0 {
        entries
    } else {
        entries.push((id, encode_utf8(text)))
    }
}

/// `INAM`: the track title.
pub open spec fn id_title() -> Seq<u8> {
    seq![73u8, 78u8, 65u8, 77u8]
}

/// `IART`: the artist.
pub open spec fn id_artist() -> Seq<u8> {
    seq![73u8, 65u8, 82u8, 84u8]
}

/// `IPRD`: the album (product).
pub open spec fn id_album() -> Seq<u8> {
    seq![73u8, 80u8, 82u8, 68u8]
}

/// `IGNR`: the genre.
pub open spec fn id_genre() -> Seq<u8> {
    seq![73u8, 71u8, 78u8, 82u8]
}

/// `ICMT`: the comments.
pub open spec fn id_comments() -> Seq<u8> {
    seq![73u8, 67u8, 77u8, 84u8]
}

/// `ISFT`: the software.
pub open spec fn id_software() -> Seq<u8> {
    seq![73u8, 83u8, 70u8, 84u8]
}

/// `ICRD`: the year.
pub open spec fn id_year() -> Seq<u8> {
    seq![73u8, 67u8, 82u8, 68u8]
}

/// `ITRK`: the track number.
pub open spec fn id_track_number() -> Seq<u8> {
    seq![73u8, 84u8, 82u8, 75u8]
}

/// `INFO`, the list type.
pub open spec fn id_info() -> Seq<u8> {
    seq![73u8, 78u8, 70u8, 79u8]
}

/// `LIST`, the chunk id.
pub open spec fn id_list() -> Seq<u8> {
    seq![76u8, 73u8, 83u8, 84u8]
}

/// The tags written for `m`, in order: title, artist, album, genre,
/// comments and software where they are not empty, then the year and the
/// track number in decimal, always.
pub open spec fn info_entries(m: ProjectMetadata) -> Seq<(Seq<u8>, Seq<u8>)> {
    let e = with_text_entry(Seq::empty(), id_title(), m.track_title@);
    let e = with_text_entry(e, id_artist(), m.artist_name@);
    let e = with_text_entry(e, id_album(), m.album_title@);
    let e = with_text_entry(e, id_genre(), m.genre@);
    let e = with_text_entry(e, id_comments(), m.comments@);
    let e = with_text_entry(e, id_software(), m.software@);
    e.push((id_year(), decimal(m.year as nat))).push((id_track_number(), decimal(m.track_number as nat)))
}

/// The body of the chunk: `INFO` and the sub-chunks.
pub open spec fn info_body(m: ProjectMetadata) -> Seq<u8> {
    id_info() + sub_chunks(info_entries(m))
}

/// The whole chunk: `LIST`, the body's size, the body.
pub open spec fn info_chunk(m: ProjectMetadata) -> Seq<u8> {
    id_list() + le32(info_body(m).len()) + info_body(m)
}

proof fn lemma_sub_chunks_push(entries: Seq<(Seq<u8>, Seq<u8>)>, id: Seq<u8>, text: Seq<u8>)
    ensures
        sub_chunks(entries.push((id, text))) == sub_chunks(entries) + sub_chunk(id, text),
{
    assert(entries.push((id, text)).drop_last() =~= entries);
}

fn push4(out: &mut Vec<u8>, a: u8, b: u8, c: u8, d: u8)
    ensures
        final(out)@ == old(out)@ + seq![a, b, c, d],
{
    out.push(a);
    out.push(b);
    out.push(c);
    out.push(d);
    assert(final(out)@ =~= old(out)@ + seq![a, b, c, d]);
}

fn push_le32(out: &mut Vec<u8>, n: u64)
    ensures
        final(out)@ == old(out)@ + le32(n as nat),
{
    let b0 = (n % 256) as u8;
    let b1 = ((n / 256) % 256) as u8;
    let b2 = ((n / 65536) % 256) as u8;
    let b3 = ((n / 16777216) % 256) as u8;
    push4(out, b0, b1, b2, b3);
}

fn push_bytes(out: &mut Vec<u8>, bytes: &[u8])
    ensures
        final(out)@ == old(out)@ + bytes@,
{
    let mut i: usize = 0;
    while i < bytes.len()
        invariant
            i <= bytes@.len(),
            out@ == old(out)@ + bytes@.take(i as int),
        decreases bytes@.len() - i,
    {
        out.push(bytes[i]);
        i += 1;
        assert(out@ =~= old(out)@ + bytes@.take(i as int));
    }
    assert(bytes@.take(i as int) =~= bytes@);
}

fn push_decimal(out: &mut Vec<u8>, n: u32)
    ensures
        final(out)@ == old(out)@ + decimal(n as nat),
    decreases n,
{
    if n >= 10 {
        push_decimal(out, n / 10);
    }
    let digit = 48 + (n % 10) as u8;
    out.push(digit);
    assert(final(out)@ =~= old(out)@ + decimal(n as nat));
}

fn push_sub_chunk(out: &mut Vec<u8>, a: u8, b: u8, c: u8, d: u8, text: &[u8])
    ensures
        final(out)@ == old(out)@ + sub_chunk(seq![a, b, c, d], text@),
{
    push4(out, a, b, c, d);
    let mut data: Vec<u8> = Vec::new();
    push_bytes(&mut data, text);
    data.push(0);
    let size = data.len();
    push_le32(out, size as u64);
    push_bytes(out, data.as_slice());
    if size % 2 == 1 {
        out.push(0);
    }
    assert(final(out)@ =~= old(out)@ + sub_chunk(seq![a, b, c, d], text@));
}

fn push_text_entry(
    body: &mut Vec<u8>,
    Ghost(entries): Ghost<Seq<(Seq<u8>, Seq<u8>)>>,
    a: u8,
    b: u8,
    c: u8,
    d: u8,
    text: &String,
)
    requires
        old(body)@ == id_info() + sub_chunks(entries),
    ensures
        final(body)@ == id_info() + sub_chunks(with_text_entry(entries, seq![a, b, c, d], text@)),
{
    let s = text.as_str();
    if !s.is_empty() {
        push_sub_chunk(body, a, b, c, d, s.as_bytes());
        proof {
            lemma_sub_chunks_push(entries, seq![a, b, c, d], encode_utf8(text@));
            assert(final(body)@ =~= id_info() + sub_chunks(with_text_entry(entries, seq![a, b, c, d], text@)));
        }
    }
}

fn push_number_entry(body: &mut Vec<u8>, Ghost(entries): Ghost<Seq<(Seq<u8>, Seq<u8>)>>, a: u8, b: u8, c: u8, d: u8, n: u32)
    requires
        old(body)@ == id_info() + sub_chunks(entries),
    ensures
        final(body)@ == id_info() + sub_chunks(entries.push((seq![a, b, c, d], decimal(n as nat)))),
{
    let mut digits: Vec<u8> = Vec::new();
    push_decimal(&mut digits, n);
    assert(digits@ =~= decimal(n as nat));
    push_sub_chunk(body, a, b, c, d, digits.as_slice());
    proof {
        lemma_sub_chunks_push(entries, seq![a, b, c, d], decimal(n as nat));
        assert(final(body)@ =~= id_info() + sub_chunks(entries.push((seq![a, b, c, d], decimal(n as nat)))));
    }
}

/// The `LIST`/`INFO` chunk carrying `metadata`'s tags, as it is appended
/// to an exported WAV file.
pub fn info_list_chunk(metadata: &ProjectMetadata) -> (chunk: Vec<u8>)
    ensures
        chunk@ == info_chunk(*metadata),
{
    let m = metadata;
    let mut body: Vec<u8> = Vec::new();
    push4(&mut body, 73, 78, 70, 79);
    assert(body@ =~= id_info() + sub_chunks(Seq::empty()));
    let ghost e0: Seq<(Seq<u8>, Seq<u8>)> = Seq::empty();
    push_text_entry(&mut body, Ghost(e0), 73, 78, 65, 77, &m.track_title);
    let ghost e1 = with_text_entry(e0, id_title(), m.track_title@);
    push_text_entry(&mut body, Ghost(e1), 73, 65, 82, 84, &m.artist_name);
    let ghost e2 = with_text_entry(e1, id_artist(), m.artist_name@);
    push_text_entry(&mut body, Ghost(e2), 73, 80, 82, 68, &m.album_title);
    let ghost e3 = with_text_entry(e2, id_album(), m.album_title@);
    push_text_entry(&mut body, Ghost(e3), 73, 71, 78, 82, &m.genre);
    let ghost e4 = with_text_entry(e3, id_genre(), m.genre@);
    push_text_entry(&mut body, Ghost(e4), 73, 67, 77, 84, &m.comments);
    let ghost e5 = with_text_entry(e4, id_comments(), m.comments@);
    push_text_entry(&mut body, Ghost(e5), 73, 83, 70, 84, &m.software);
    let ghost e6 = with_text_entry(e5, id_software(), m.software@);
    push_number_entry(&mut body, Ghost(e6), 73, 67, 82, 68, m.year);
    let ghost e7 = e6.push((id_year(), decimal(m.year as nat)));
    push_number_entry(&mut body, Ghost(e7), 73, 84, 82, 75, m.track_number);
    assert(body@ == info_body(*m));

    let mut chunk: Vec<u8> = Vec::new();
    push4(&mut chunk, 76, 73, 83, 84);
    push_le32(&mut chunk, body.len() as u64);
    push_bytes(&mut chunk, body.as_slice());
    assert(chunk@ =~= info_chunk(*m));
    chunk
}

/// The RIFF header's size field (`field`, four little-endian bytes) once
/// `appended` more bytes follow the file's last chunk: the old size plus
/// `appended` taken modulo 2^32, or `None` when that sum no longer fits
/// the field.
pub fn patched_riff_size(field: &[u8], appended: usize) -> (r: Option<Vec<u8>>)
    requires
        field@.len() == 4,
    ensures
        match r {
            Some(v) => le32_value(field@) + appended as nat % 0x1_0000_0000 <= u32::MAX && v@ == le32(
                le32_value(field@) + appended as nat % 0x1_0000_0000,
            ),
            None => le32_value(field@) + appended as nat % 0x1_0000_0000 > u32::MAX,
        },
{
    let old_size: u64 = field[0] as u64 + 256 * field[1] as u64 + 65536 * field[2] as u64 + 16777216 * field[3] as u64;
    let added: u64 = (appended as u64) % 0x1_0000_0000;
    let total: u64 = old_size + added;
    if total > 0xffff_ffff {
        None
    } else {
        let mut v: Vec<u8> = Vec::new();
        push_le32(&mut v, total);
        Some(v)
    }
}

/// Every id in `entries` is four bytes long.
pub open spec fn ids_are_four_bytes(entries: Seq<(Seq<u8>, Seq<u8>)>) -> bool {
    forall|i: int| 0 <= i < entries.len() ==> (#[trigger] entries[i]).0.len() == 4
}

proof fn lemma_sub_chunk_even(id: Seq<u8>, text: Seq<u8>)
    requires
        id.len() == 4,
    ensures
        sub_chunk(id, text).len() % 2 == 0,
{
    let size = text.len() + 1;
    let pad = if size % 2 == 1 { seq![0u8] } else { Seq::<u8>::empty() };
    assert(le32(size).len() == 4);
    assert(text.push(0u8).len() == size);
    assert(sub_chunk(id, text).len() == 8 + size + pad.len());
}

#[verifier::spinoff_prover]
proof fn lemma_sub_chunks_even(entries: Seq<(Seq<u8>, Seq<u8>)>)
    requires
        ids_are_four_bytes(entries),
    ensures
        sub_chunks(entries).len() % 2 == 0,
    decreases entries.len(),
{
    if entries.len() > 0 {
        let rest = entries.drop_last();
        assert(ids_are_four_bytes(rest)) by {
            assert forall|i: int| 0 <= i < rest.len() implies (#[trigger] rest[i]).0.len() == 4 by {
                assert(rest[i] == entries[i]);
            }
        }
        lemma_sub_chunks_even(rest);
        let last = entries[entries.len() - 1];
        lemma_sub_chunk_even(last.0, last.1);
    }
}

proof fn lemma_with_text_entry_ids(entries: Seq<(Seq<u8>, Seq<u8>)>, id: Seq<u8>, text: Seq<char>)
    requires
        ids_are_four_bytes(entries),
        id.len() == 4,
    ensures
        ids_are_four_bytes(with_text_entry(entries, id, text)),
{
    if text.len() != 0 {
        let e = entries.push((id, encode_utf8(text)));
        assert forall|i: int| 0 <= i < e.len() implies (#[trigger] e[i]).0.len() == 4 by {
            if i < entries.len() {
                assert(e[i] == entries[i]);
            }
        }
    }
}

proof fn lemma_push_entry_ids(entries: Seq<(Seq<u8>, Seq<u8>)>, id: Seq<u8>, text: Seq<u8>)
    requires
        ids_are_four_bytes(entries),
        id.len() == 4,
    ensures
        ids_are_four_bytes(entries.push((id, text))),
{
    let e = entries.push((id, text));
    assert forall|i: int| 0 <= i < e.len() implies (#[trigger] e[i]).0.len() == 4 by {
        if i < entries.len() {
            assert(e[i] == entries[i]);
        }
    }
}

/// Every sub-chunk of the tag chunk is padded to an even length, so the
/// whole chunk keeps the RIFF file word-aligned; its size field holds the
/// length of the body that follows it.
pub proof fn lemma_info_chunk_is_word_aligned(m: ProjectMetadata)
    ensures
        info_chunk(m).len() % 2 == 0,
        info_chunk(m).subrange(4, 8) == le32(info_body(m).len()),
        info_chunk(m).len() == info_body(m).len() + 8,
{
    let e0 = Seq::<(Seq<u8>, Seq<u8>)>::empty();
    let e1 = with_text_entry(e0, id_title(), m.track_title@);
    let e2 = with_text_entry(e1, id_artist(), m.artist_name@);
    let e3 = with_text_entry(e2, id_album(), m.album_title@);
    let e4 = with_text_entry(e3, id_genre(), m.genre@);
    let e5 = with_text_entry(e4, id_comments(), m.comments@);
    let e6 = with_text_entry(e5, id_software(), m.software@);
    let e7 = e6.push((id_year(), decimal(m.year as nat)));
    lemma_with_text_entry_ids(e0, id_title(), m.track_title@);
    lemma_with_text_entry_ids(e1, id_artist(), m.artist_name@);
    lemma_with_text_entry_ids(e2, id_album(), m.album_title@);
    lemma_with_text_entry_ids(e3, id_genre(), m.genre@);
    lemma_with_text_entry_ids(e4, id_comments(), m.comments@);
    lemma_with_text_entry_ids(e5, id_software(), m.software@);
    lemma_push_entry_ids(e6, id_year(), decimal(m.year as nat));
    lemma_push_entry_ids(e7, id_track_number(), decimal(m.track_number as nat));
    assert(info_entries(m) == e7.push((id_track_number(), decimal(m.track_number as nat))));
    lemma_sub_chunks_even(info_entries(m));
    let body = info_body(m);
    assert(le32(body.len()).len() == 4);
    assert(info_chunk(m).subrange(4, 8) =~= le32(body.len()));
}

/// No two of `entries` share an id.
pub open spec fn ids_distinct(entries: Seq<(Seq<u8>, Seq<u8>)>) -> bool {
    forall|i: int, j: int| 0 <= i < j < entries.len() ==> (#[trigger] entries[i]).0 != (#[trigger] entries[j]).0
}

/// Every id in `entries` is one of `ids`.
spec fn ids_within(entries: Seq<(Seq<u8>, Seq<u8>)>, ids: Set<Seq<u8>>) -> bool {
    forall|i: int| 0 <= i < entries.len() ==> ids.contains((#[trigger] entries[i]).0)
}

proof fn lemma_with_text_entry_fresh(
    entries: Seq<(Seq<u8>, Seq<u8>)>,
    ids: Set<Seq<u8>>,
    id: Seq<u8>,
    text: Seq<char>,
)
    requires
        ids_distinct(entries),
        ids_within(entries, ids),
        !ids.contains(id),
    ensures
        ids_distinct(with_text_entry(entries, id, text)),
        ids_within(with_text_entry(entries, id, text), ids.insert(id)),
        forall|x: (Seq<u8>, Seq<u8>)| #[trigger] with_text_entry(entries, id, text).contains(x) <==> (
            entries.contains(x) || (text.len() > 0 && x == (id, encode_utf8(text)))),
{
    if text.len() > 0 {
        lemma_push_fresh(entries, ids, id, encode_utf8(text));
    } else {
        assert forall|i: int| 0 <= i < entries.len() implies ids.insert(id).contains((#[trigger] entries[i]).0) by {}
    }
}

proof fn lemma_push_fresh(entries: Seq<(Seq<u8>, Seq<u8>)>, ids: Set<Seq<u8>>, id: Seq<u8>, text: Seq<u8>)
    requires
        ids_distinct(entries),
        ids_within(entries, ids),
        !ids.contains(id),
    ensures
        ids_distinct(entries.push((id, text))),
        ids_within(entries.push((id, text)), ids.insert(id)),
        forall|x: (Seq<u8>, Seq<u8>)| #[trigger] entries.push((id, text)).contains(x) <==> (
            entries.contains(x) || x == (id, text)),
{
    let e = entries.push((id, text));
    assert forall|i: int, j: int| 0 <= i < j < e.len() implies (#[trigger] e[i]).0 != (#[trigger] e[j]).0 by {
        assert(e[i] == entries[i]);
        if j < entries.len() {
            assert(e[j] == entries[j]);
        } else {
            assert(ids.contains(entries[i].0));
        }
    }
    assert forall|i: int| 0 <= i < e.len() implies ids.insert(id).contains((#[trigger] e[i]).0) by {
        if i < entries.len() {
            assert(e[i] == entries[i]);
        }
    }
    assert forall|x: (Seq<u8>, Seq<u8>)| #[trigger] e.contains(x) <==> (entries.contains(x) || x == (id, text)) by {
        vstd::seq_lib::lemma_seq_contains_after_push(entries, (id, text), x);
    }
}

/// Where a player finds each tag of `m`: the track title under `INAM`,
/// the artist under `IART`, the album under `IPRD`, the genre under
/// `IGNR`, the comments under `ICMT` and the software under `ISFT`, each
/// exactly when it is not empty; the year under `ICRD` and the track
/// number under `ITRK`, in decimal, always. The chunk holds no other tag,
/// and no id occurs in it twice.
pub proof fn lemma_info_tags_sit_under_their_ids(m: ProjectMetadata)
    ensures
        info_chunk(m) == seq![76u8, 73u8, 83u8, 84u8] + le32(info_body(m).len()) + seq![73u8, 78u8, 70u8, 79u8]
            + sub_chunks(info_entries(m)),
        ids_distinct(info_entries(m)),
        forall|x: (Seq<u8>, Seq<u8>)| #[trigger] info_entries(m).contains(x) <==> {
            ||| m.track_title@.len() > 0 && x == (seq![73u8, 78u8, 65u8, 77u8], encode_utf8(m.track_title@))
            ||| m.artist_name@.len() > 0 && x == (seq![73u8, 65u8, 82u8, 84u8], encode_utf8(m.artist_name@))
            ||| m.album_title@.len() > 0 && x == (seq![73u8, 80u8, 82u8, 68u8], encode_utf8(m.album_title@))
            ||| m.genre@.len() > 0 && x == (seq![73u8, 71u8, 78u8, 82u8], encode_utf8(m.genre@))
            ||| m.comments@.len() > 0 && x == (seq![73u8, 67u8, 77u8, 84u8], encode_utf8(m.comments@))
            ||| m.software@.len() > 0 && x == (seq![73u8, 83u8, 70u8, 84u8], encode_utf8(m.software@))
            ||| x == (seq![73u8, 67u8, 82u8, 68u8], decimal(m.year as nat))
            ||| x == (seq![73u8, 84u8, 82u8, 75u8], decimal(m.track_number as nat))
        },
{
    let e0 = Seq::<(Seq<u8>, Seq<u8>)>::empty();
    let e1 = with_text_entry(e0, id_title(), m.track_title@);
    let e2 = with_text_entry(e1, id_artist(), m.artist_name@);
    let e3 = with_text_entry(e2, id_album(), m.album_title@);
    let e4 = with_text_entry(e3, id_genre(), m.genre@);
    let e5 = with_text_entry(e4, id_comments(), m.comments@);
    let e6 = with_text_entry(e5, id_software(), m.software@);
    let e7 = e6.push((id_year(), decimal(m.year as nat)));
    let e8 = e7.push((id_track_number(), decimal(m.track_number as nat)));
    assert(info_entries(m) == e8);
    let s0 = Set::<Seq<u8>>::empty();
    let s1 = s0.insert(id_title());
    let s2 = s1.insert(id_artist());
    let s3 = s2.insert(id_album());
    let s4 = s3.insert(id_genre());
    let s5 = s4.insert(id_comments());
    let s6 = s5.insert(id_software());
    let s7 = s6.insert(id_year());
    assert(id_title()[1] == 78u8 && id_artist()[1] == 65u8 && id_album()[1] == 80u8 && id_genre()[1] == 71u8);
    assert(id_comments()[2] == 77u8 && id_software()[1] == 83u8 && id_year()[2] == 82u8 && id_track_number()[1] == 84u8);
    assert(id_comments()[1] == 67u8 && id_year()[1] == 67u8);
    lemma_with_text_entry_fresh(e0, s0, id_title(), m.track_title@);
    lemma_with_text_entry_fresh(e1, s1, id_artist(), m.artist_name@);
    lemma_with_text_entry_fresh(e2, s2, id_album(), m.album_title@);
    lemma_with_text_entry_fresh(e3, s3, id_genre(), m.genre@);
    lemma_with_text_entry_fresh(e4, s4, id_comments(), m.comments@);
    lemma_with_text_entry_fresh(e5, s5, id_software(), m.software@);
    lemma_push_fresh(e6, s6, id_year(), decimal(m.year as nat));
    lemma_push_fresh(e7, s7, id_track_number(), decimal(m.track_number as nat));
}

/// The number that ASCII decimal digits `s` spell, most significant first.
pub open spec fn digits_value(s: Seq<u8>) -> int
    decreases s.len(),
{
    if s.len() == 0 {
        0
    } else {
        digits_value(s.drop_last()) * 10 + (s.last() - 48)
    }
}

/// The year and track number tags read back as the numbers written: every
/// byte is an ASCII digit, the first is not `0` unless the number is, and
/// the digits spell `n`.
pub proof fn lemma_decimal_reads_back(n: nat)
    ensures
        decimal(n).len() > 0,
        forall|i: int| 0 <= i < decimal(n).len() ==> 48 <= #[trigger] decimal(n)[i] <= 57,
        decimal(n)[0] != 48u8 || n == 0,
        digits_value(decimal(n)) == n,
    decreases n,
{
    if n >= 10 {
        lemma_decimal_reads_back(n / 10);
        let d = decimal(n / 10);
        let s = decimal(n);
        assert(s == d.push((48 + n % 10) as u8));
        assert(s.drop_last() =~= d);
        assert forall|i: int| 0 <= i < s.len() implies 48 <= #[trigger] s[i] <= 57 by {
            if i < d.len() {
                assert(s[i] == d[i]);
            }
        }
        assert(s[0] == d[0]);
        assert(n / 10 > 0);
        assert(s.last() == 48 + n % 10);
        assert(digits_value(s) == digits_value(d) * 10 + n % 10);
    } else {
        assert(decimal(n) == seq![(48 + n) as u8]);
        assert(decimal(n)[0] == 48 + n);
        assert(decimal(n).drop_last() =~= Seq::<u8>::empty());
        assert(digits_value(Seq::<u8>::empty()) == 0);
        assert(decimal(n).last() == 48 + n);
    }
}

/// A size below 2^32 written as four little-endian bytes reads back as
/// itself.
pub proof fn lemma_le32_reads_back(n: nat)
    requires
        n <= u32::MAX,
    ensures
        le32(n).len() == 4,
        le32_value(le32(n)) == n,
{
    let b = le32(n);
    assert(b[0] == n % 256 && b[1] == (n / 256) % 256 && b[2] == (n / 65536) % 256 && b[3] == (n / 16777216) % 256);
    assert(n % 256 + 256 * ((n / 256) % 256) + 65536 * ((n / 65536) % 256) + 16777216 * ((n / 16777216) % 256) == n)
        by (nonlinear_arith)
        requires
            n <= 0xffff_ffff,
    {
        assert(n == 256 * (n / 256) + n % 256);
        assert(n / 256 == 256 * (n / 65536) + (n / 256) % 256);
        assert(n / 65536 == 256 * (n / 16777216) + (n / 65536) % 256);
        assert(n / 16777216 < 256);
    }
}

} // verus!
