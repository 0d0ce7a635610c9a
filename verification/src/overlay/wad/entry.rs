//! Entry payloads and the rules by which they are stored.

use super::marks::{marked, with_mark, Marks};
use super::toc::{EntryLoc, EntryType, WadError};
use crate::codecs::{
    gzip_content, gzip_decompress, xxh3_hash, xxh3_of, zstd_compress, zstd_compressed,
    zstd_content, zstd_decompress, zstd_head, zstd_input_limit, zstd_stream_head,
};
use std::sync::Arc;
use vstd::prelude::*;
use vstd::slice::slice_subrange;
use vstd::slice::slice_to_vec;

verus! {

/// The zstd level of every payload that is compressed anew.
pub const ZSTD_LEVEL: i32 = 3;

/// How many leading bytes are looked at to recognise audio.
pub const HEAD_SIZE: usize = 16;

/// What an entry is: its metadata, its payload as stored, and the number that
/// it shares with its clones.
pub struct Entry {
    pub entry_type: EntryType,
    pub subchunk_count: u8,
    pub subchunk_index: u32,
    pub size_decompressed: u64,
    /// The checksum of the payload where it is known, else zero.
    pub known_checksum: u64,
    pub bytes: Seq<u8>,
    /// By which the entry is marked as stored the best way.
    pub id: nat,
}

/// An entry apart from its number: its metadata and its payload.
pub open spec fn bare(e: Entry) -> Entry {
    Entry { id: 0, ..e }
}

/// Payload and metadata of an entry, without a number.
pub struct Payload {
    entry_type: EntryType,
    subchunk_count: u8,
    subchunk_index: u32,
    size_decompressed: u64,
    known_checksum: u64,
    bytes: Arc<Vec<u8>>,
}

impl View for Payload {
    type V = Entry;

    closed spec fn view(&self) -> Entry {
        Entry {
            entry_type: self.entry_type,
            subchunk_count: self.subchunk_count,
            subchunk_index: self.subchunk_index,
            size_decompressed: self.size_decompressed,
            known_checksum: self.known_checksum,
            bytes: self.bytes@,
            id: 0,
        }
    }
}

/// Whether an entry is one that can be: what is stored as it is takes up as
/// much as it declares.
pub open spec fn entry_wf(e: Entry) -> bool {
    e.entry_type is Raw || e.entry_type is Link ==> e.size_decompressed == e.bytes.len()
}

impl Payload {
    #[verifier::type_invariant]
    spec fn wf(&self) -> bool {
        entry_wf(self@)
    }
}

impl Clone for Payload {
    fn clone(&self) -> (r: Self)
        ensures
            r@ == self@,
    {
        proof {
            use_type_invariant(self);
        }
        Payload {
            entry_type: self.entry_type,
            subchunk_count: self.subchunk_count,
            subchunk_index: self.subchunk_index,
            size_decompressed: self.size_decompressed,
            known_checksum: self.known_checksum,
            bytes: self.bytes.clone(),
        }
    }
}

/// An entry of an archive. Clones share the payload and the mark of being
/// stored the best way: marking one marks them all.
pub struct EntryData {
    payload: Payload,
    number: usize,
}

impl View for EntryData {
    type V = Entry;

    closed spec fn view(&self) -> Entry {
        Entry { id: self.number as nat, ..self.payload@ }
    }
}

impl Clone for EntryData {
    fn clone(&self) -> (r: Self)
        ensures
            r@ == self@,
    {
        EntryData { payload: self.payload.clone(), number: self.number }
    }
}

/// An entry that holds `bytes` under a type that knows no subchunks.
pub open spec fn plain_entry(
    entry_type: EntryType,
    bytes: Seq<u8>,
    size_decompressed: u64,
    checksum: u64,
) -> Entry {
    Entry {
        entry_type,
        subchunk_count: 0,
        subchunk_index: 0,
        size_decompressed,
        known_checksum: checksum,
        bytes,
        id: 0,
    }
}

/// An uncompressed entry.
pub open spec fn raw_entry(bytes: Seq<u8>, checksum: u64) -> Entry {
    plain_entry(EntryType::Raw, bytes, bytes.len() as u64, checksum)
}

/// The checksum of an entry: the known one, else the XXH3 hash of the payload
/// as stored.
pub open spec fn checksum_of(e: Entry) -> u64 {
    if e.known_checksum != 0 {
        e.known_checksum
    } else {
        xxh3_of(e.bytes)
    }
}

/// The entry described by `loc` in the file `src`.
pub open spec fn entry_at(src: Seq<u8>, loc: EntryLoc) -> Result<Entry, WadError> {
    let end = loc.offset + loc.size;
    if end > u64::MAX {
        Err(WadError::PayloadOverflow)
    } else if end > src.len() {
        Err(
            WadError::PayloadOutOfBounds {
                start: loc.offset,
                end: end as u64,
                len: src.len() as usize,
            },
        )
    } else {
        let bytes = src.subrange(loc.offset as int, end);
        match loc.entry_type {
            EntryType::Raw => Ok(raw_entry(bytes, loc.checksum)),
            EntryType::Link => Ok(
                plain_entry(EntryType::Link, bytes, bytes.len() as u64, loc.checksum),
            ),
            EntryType::ZstdMulti => Ok(
                Entry {
                    subchunk_count: loc.subchunk_count,
                    subchunk_index: loc.subchunk_index,
                    ..plain_entry(
                        EntryType::ZstdMulti,
                        bytes,
                        loc.size_decompressed,
                        loc.checksum,
                    )
                },
            ),
            _ => Ok(plain_entry(loc.entry_type, bytes, loc.size_decompressed, loc.checksum)),
        }
    }
}

/// Whether the four bytes that open a zstd frame stand at `at`.
pub open spec fn zstd_magic_at(s: Seq<u8>, at: int) -> bool {
    &&& 0 <= at
    &&& at + 4 <= s.len()
    &&& s[at] == 0x28
    &&& s[at + 1] == 0xB5
    &&& s[at + 2] == 0x2F
    &&& s[at + 3] == 0xFD
}

/// Whether `start` is where the first zstd frame of `s` starts, or zero where
/// `s` holds none.
pub open spec fn is_frame_start(s: Seq<u8>, start: int) -> bool {
    ||| zstd_magic_at(s, start) && forall|j: int| 0 <= j < start ==> !#[trigger] zstd_magic_at(s, j)
    ||| start == 0 && forall|j: int| !#[trigger] zstd_magic_at(s, j)
}

/// Where the first zstd frame of `s` starts, or zero where `s` holds none.
pub open spec fn frame_start(s: Seq<u8>) -> int {
    choose|start: int| is_frame_start(s, start)
}

proof fn lemma_frame_start(s: Seq<u8>, start: int)
    requires
        is_frame_start(s, start),
    ensures
        frame_start(s) == start,
{
    let other = frame_start(s);
    assert(is_frame_start(s, other));
    if other < start {
        assert(!zstd_magic_at(s, other));
    } else if start < other {
        assert(!zstd_magic_at(s, start));
    }
}

/// The first place from `i` on where a zstd frame of `s` starts.
proof fn lemma_frame_start_exists(s: Seq<u8>, i: int)
    requires
        0 <= i,
        forall|j: int| 0 <= j < i ==> !#[trigger] zstd_magic_at(s, j),
    ensures
        exists|start: int| is_frame_start(s, start),
    decreases s.len() - i,
{
    if zstd_magic_at(s, i) {
        assert(is_frame_start(s, i));
    } else if i < s.len() {
        lemma_frame_start_exists(s, i + 1);
    } else {
        assert(is_frame_start(s, 0));
    }
}

/// Every payload has exactly one frame start.
pub proof fn lemma_frame_start_unique(s: Seq<u8>)
    ensures
        is_frame_start(s, frame_start(s)),
        0 <= frame_start(s) <= s.len(),
        forall|start: int| is_frame_start(s, start) ==> start == frame_start(s),
{
    lemma_frame_start_exists(s, 0);
    assert forall|start: int| is_frame_start(s, start) implies start == frame_start(s) by {
        lemma_frame_start(s, start);
    }
}

/// A zstd payload decompressed into at most `capacity` bytes.
pub open spec fn zstd_within(data: Seq<u8>, capacity: int) -> Option<Seq<u8>> {
    match zstd_content(data) {
        Some(c) => if c.len() <= capacity {
            Some(c)
        } else {
            None
        },
        None => None,
    }
}

/// A multi-frame payload decompressed: what precedes the first frame stands as
/// it is, and the frames fill the rest of `total` bytes.
pub open spec fn multi_content(s: Seq<u8>, total: int) -> Result<Seq<u8>, WadError> {
    let start = frame_start(s);
    let prefix = s.take(start);
    let rest = s.skip(start);
    if start > total {
        Err(WadError::PrefixTooLong { prefix: start as usize, total: total as usize })
    } else if rest.len() == 0 {
        Ok(prefix)
    } else {
        match zstd_within(rest, total - start) {
            None => Err(WadError::ZstdDecompress),
            Some(c) => if c.len() != total - start {
                Err(
                    WadError::SizeMismatch {
                        expected: (total - start) as usize,
                        got: c.len() as usize,
                    },
                )
            } else {
                Ok(prefix + c)
            },
        }
    }
}

/// An entry with its payload decompressed.
pub open spec fn decompressed(e: Entry) -> Result<Entry, WadError> {
    match e.entry_type {
        EntryType::Raw | EntryType::Link => Ok(e),
        EntryType::Gzip => Err(WadError::GzipUnsupported),
        _ => if e.size_decompressed > isize::MAX {
            Err(WadError::SizeOverflow { size: e.size_decompressed })
        } else if e.entry_type is Zstd {
            match zstd_within(e.bytes, e.size_decompressed as int) {
                Some(c) => Ok(raw_entry(c, 0)),
                None => Err(WadError::ZstdDecompress),
            }
        } else {
            match multi_content(e.bytes, e.size_decompressed as int) {
                Ok(c) => Ok(raw_entry(c, 0)),
                Err(err) => Err(err),
            }
        },
    }
}

/// An uncompressed entry with its payload compressed into one zstd frame.
pub open spec fn raw_compressed(e: Entry) -> Result<Entry, WadError> {
    if e.bytes.len() > zstd_input_limit() {
        Err(WadError::SizeOverflow { size: e.bytes.len() as u64 })
    } else {
        match zstd_compressed(e.bytes, ZSTD_LEVEL) {
            Some(c) => Ok(plain_entry(EntryType::Zstd, c, e.size_decompressed, 0)),
            None => Err(WadError::ZstdCompress),
        }
    }
}

/// A gzip entry with its payload decompressed.
pub open spec fn unzipped(e: Entry) -> Result<Entry, WadError> {
    match gzip_content(e.bytes) {
        Some(c) => if c.len() <= e.size_decompressed {
            Ok(raw_entry(c, 0))
        } else {
            Err(WadError::GzipDecompress)
        },
        None => Err(WadError::GzipDecompress),
    }
}

/// An entry with its payload in one zstd frame. Links stay as they are; what
/// is compressed in another way is decompressed first.
pub open spec fn compressed(e: Entry) -> Result<Entry, WadError> {
    match e.entry_type {
        EntryType::Link | EntryType::Zstd => Ok(e),
        EntryType::Raw => raw_compressed(e),
        EntryType::ZstdMulti => match decompressed(e) {
            Ok(d) => raw_compressed(d),
            Err(err) => Err(err),
        },
        EntryType::Gzip => match unzipped(e) {
            Ok(d) => raw_compressed(d),
            Err(err) => Err(err),
        },
    }
}

/// Whether two entries have the same content: they decompress to the same
/// bytes, or cannot be decompressed for the same reason.
pub open spec fn same_content(a: Entry, b: Entry) -> bool {
    match (decompressed(a), decompressed(b)) {
        (Ok(x), Ok(y)) => x.bytes == y.bytes,
        (Err(x), Err(y)) => x == y,
        _ => false,
    }
}

/// What the leading bytes of a payload say it is.
#[derive(Debug, Clone, Copy, PartialEq, Eq, Structural)]
pub enum DetectedKind {
    Bnk,
    Wpk,
    Other,
}

/// Whether `s` starts with `prefix`.
pub open spec fn starts_with(s: Seq<u8>, prefix: Seq<u8>) -> bool {
    prefix.len() <= s.len() && s.take(prefix.len() as int) == prefix
}

/// `BKHD`, the magic of a sound bank.
pub open spec fn bnk_magic() -> Seq<u8> {
    seq![0x42u8, 0x4B, 0x48, 0x44]
}

/// `r3d2`, the magic of a sound pack and the start of several others.
pub open spec fn r3d2_magic() -> Seq<u8> {
    seq![0x72u8, 0x33, 0x64, 0x32]
}

/// The four bytes that follow `r3d2` in the formats that are no sound pack:
/// `Mesh`, `aims`, `anmd`, `canm`, `sklt`, `blnd` and `wght`.
pub open spec fn r3d2_other_tags() -> Seq<Seq<u8>> {
    seq![
        seq![0x4Du8, 0x65, 0x73, 0x68],
        seq![0x61u8, 0x69, 0x6D, 0x73],
        seq![0x61u8, 0x6E, 0x6D, 0x64],
        seq![0x63u8, 0x61, 0x6E, 0x6D],
        seq![0x73u8, 0x6B, 0x6C, 0x74],
        seq![0x62u8, 0x6C, 0x6E, 0x64],
        seq![0x77u8, 0x67, 0x68, 0x74],
    ]
}

/// Whether `s` is one of the formats that start with `r3d2` and are no audio.
pub open spec fn is_other_r3d2(s: Seq<u8>) -> bool {
    exists|i: int|
        0 <= i < r3d2_other_tags().len() && starts_with(
            s,
            r3d2_magic() + #[trigger] r3d2_other_tags()[i],
        )
}

/// What a payload is, by its leading bytes.
pub open spec fn kind_of(s: Seq<u8>) -> DetectedKind {
    if starts_with(s, bnk_magic()) {
        DetectedKind::Bnk
    } else if starts_with(s, r3d2_magic()) && !is_other_r3d2(s) {
        DetectedKind::Wpk
    } else {
        DetectedKind::Other
    }
}

/// Whether a payload is audio, which the client only plays uncompressed.
pub open spec fn audio(s: Seq<u8>) -> bool {
    kind_of(s) is Bnk || kind_of(s) is Wpk
}

/// The first bytes, at most `max`, of a decompressed zstd payload.
pub open spec fn head_of(s: Seq<u8>, multi: bool, max: int) -> Result<Seq<u8>, WadError> {
    let start = if multi {
        frame_start(s)
    } else {
        0
    };
    let prefix = s.take(if start <= max {
        start
    } else {
        max
    });
    let rest = s.skip(start);
    if start > 0 && start >= max {
        Ok(prefix)
    } else if rest.len() == 0 {
        Ok(prefix)
    } else {
        match zstd_stream_head(rest, (max - prefix.len()) as nat) {
            Some(h) => Ok(prefix + h),
            None => Err(WadError::ZstdStream),
        }
    }
}

/// The entry stored the best way, before it is marked so.
pub open spec fn optimized(e: Entry) -> Result<Entry, WadError> {
    match e.entry_type {
        EntryType::Raw => if audio(e.bytes) {
            Ok(e)
        } else {
            compressed(e)
        },
        EntryType::Link => Ok(e),
        EntryType::Gzip => Err(WadError::GzipUnsupported),
        EntryType::Zstd => match head_of(e.bytes, false, HEAD_SIZE as int) {
            Ok(head) => if audio(head) {
                decompressed(e)
            } else {
                Ok(e)
            },
            Err(err) => Err(err),
        },
        EntryType::ZstdMulti => match head_of(e.bytes, true, HEAD_SIZE as int) {
            Ok(head) => if audio(head) {
                decompressed(e)
            } else {
                compressed(e)
            },
            Err(err) => Err(err),
        },
    }
}

/// The entry stored the best way: audio uncompressed, all else in one zstd
/// frame, links untouched. An entry that is marked stays as it is.
pub open spec fn optimal_form(e: Entry, m: Seq<bool>) -> Result<Entry, WadError> {
    if marked(m, e.id) {
        Ok(bare(e))
    } else {
        optimized(bare(e))
    }
}

/// Whether the entry already is its own best form: links, uncompressed audio,
/// and what is in one zstd frame and shows no audio.
pub open spec fn stays(e: Entry) -> bool {
    match e.entry_type {
        EntryType::Raw => audio(e.bytes),
        EntryType::Link => true,
        EntryType::Gzip => false,
        EntryType::Zstd => match head_of(e.bytes, false, HEAD_SIZE as int) {
            Ok(head) => !audio(head),
            Err(_) => false,
        },
        EntryType::ZstdMulti => false,
    }
}

/// The numbers of those of the entries that are their own best form.
pub open spec fn staying(es: Seq<Entry>) -> Seq<nat>
    decreases es.len(),
{
    if es.len() == 0 {
        Seq::empty()
    } else if stays(es.last()) {
        staying(es.drop_last()).push(es.last().id)
    } else {
        staying(es.drop_last())
    }
}

/// Relates a fallible result to what it stands for.
pub open spec fn result_is(
    r: Result<Payload, WadError>,
    expected: Result<Entry, WadError>,
) -> bool {
    match r {
        Ok(e) => expected == Ok::<Entry, WadError>(e@),
        Err(err) => expected == Err::<Entry, WadError>(err),
    }
}

/// Whether `e` is `expected` under the next number of `before`, and `after` are
/// the marks with that number given out.
pub open spec fn is_new(e: Entry, expected: Entry, before: Seq<bool>, after: Seq<bool>) -> bool {
    &&& bare(e) == expected
    &&& e.id == before.len()
    &&& after == before.push(false)
}

/// Relates what `e` is turned into to what it stands for: it is `e` itself where
/// nothing had to be done, otherwise a new entry. An error gives out no number.
pub open spec fn turned_into(
    r: Result<EntryData, WadError>,
    e: Entry,
    same: bool,
    expected: Result<Entry, WadError>,
    before: Seq<bool>,
    after: Seq<bool>,
) -> bool {
    match r {
        Ok(o) => {
            &&& expected is Ok
            &&& same ==> o@ == e && bare(e) == expected->Ok_0 && after == before
            &&& !same ==> is_new(o@, expected->Ok_0, before, after)
        },
        Err(err) => expected == Err::<Entry, WadError>(err) && after == before,
    }
}

impl Payload {
    fn plain(entry_type: EntryType, bytes: Vec<u8>, size_decompressed: u64, checksum: u64) -> (r:
        Self)
        requires
            entry_wf(plain_entry(entry_type, bytes@, size_decompressed, checksum)),
        ensures
            r@ == plain_entry(entry_type, bytes@, size_decompressed, checksum),
    {
        Payload {
            entry_type,
            subchunk_count: 0,
            subchunk_index: 0,
            size_decompressed,
            known_checksum: checksum,
            bytes: Arc::new(bytes),
        }
    }

    pub(crate) fn from_raw(bytes: Vec<u8>, checksum: u64) -> (r: Self)
        ensures
            r@ == raw_entry(bytes@, checksum),
    {
        let size: u64 = bytes.len() as u64;
        Self::plain(EntryType::Raw, bytes, size, checksum)
    }

    pub(crate) fn from_link(bytes: Vec<u8>, checksum: u64) -> (r: Self)
        ensures
            r@ == plain_entry(EntryType::Link, bytes@, bytes@.len() as u64, checksum),
    {
        let size: u64 = bytes.len() as u64;
        Self::plain(EntryType::Link, bytes, size, checksum)
    }

    pub(crate) fn from_zstd(bytes: Vec<u8>, size_decompressed: u64, checksum: u64) -> (r: Self)
        ensures
            r@ == plain_entry(EntryType::Zstd, bytes@, size_decompressed, checksum),
    {
        Self::plain(EntryType::Zstd, bytes, size_decompressed, checksum)
    }

    pub(crate) fn from_zstd_multi(
        bytes: Vec<u8>,
        size_decompressed: u64,
        checksum: u64,
        subchunk_count: u8,
        subchunk_index: u32,
    ) -> (r: Self)
        ensures
            r@ == (Entry {
                subchunk_count,
                subchunk_index,
                ..plain_entry(EntryType::ZstdMulti, bytes@, size_decompressed, checksum)
            }),
    {
        Payload {
            entry_type: EntryType::ZstdMulti,
            subchunk_count,
            subchunk_index,
            size_decompressed,
            known_checksum: checksum,
            bytes: Arc::new(bytes),
        }
    }

    pub(crate) fn from_gzip(bytes: Vec<u8>, size_decompressed: u64, checksum: u64) -> (r: Self)
        ensures
            r@ == plain_entry(EntryType::Gzip, bytes@, size_decompressed, checksum),
    {
        Self::plain(EntryType::Gzip, bytes, size_decompressed, checksum)
    }

    /// Takes the payload that `loc` describes out of the file `src`. Type and
    /// checksum are trusted as stored.
    pub(crate) fn from_loc(src: &[u8], loc: &EntryLoc) -> (r: Result<Self, WadError>)
        ensures
            result_is(r, entry_at(src@, *loc)),
    {
        let start: u64 = loc.offset;
        if loc.size > u64::MAX - start {
            return Err(WadError::PayloadOverflow);
        }
        let end: u64 = start + loc.size;
        if end > src.len() as u64 {
            return Err(WadError::PayloadOutOfBounds { start, end, len: src.len() });
        }
        let bytes = slice_to_vec(slice_subrange(src, start as usize, end as usize));
        Ok(
            match loc.entry_type {
                EntryType::Raw => Self::from_raw(bytes, loc.checksum),
                EntryType::Link => Self::from_link(bytes, loc.checksum),
                EntryType::Zstd => Self::from_zstd(bytes, loc.size_decompressed, loc.checksum),
                EntryType::ZstdMulti => Self::from_zstd_multi(
                    bytes,
                    loc.size_decompressed,
                    loc.checksum,
                    loc.subchunk_count,
                    loc.subchunk_index,
                ),
                EntryType::Gzip => Self::from_gzip(bytes, loc.size_decompressed, loc.checksum),
            },
        )
    }

    pub(crate) fn entry_type(&self) -> (r: EntryType)
        ensures
            r == self@.entry_type,
    {
        self.entry_type
    }

    pub(crate) fn subchunk_count(&self) -> (r: u8)
        ensures
            r == self@.subchunk_count,
    {
        self.subchunk_count
    }

    pub(crate) fn subchunk_index(&self) -> (r: u32)
        ensures
            r == self@.subchunk_index,
    {
        self.subchunk_index
    }

    pub(crate) fn size_decompressed(&self) -> (r: u64)
        ensures
            r == self@.size_decompressed,
    {
        self.size_decompressed
    }

    pub(crate) fn bytes(&self) -> (r: &[u8])
        ensures
            r@ == self@.bytes,
    {
        self.bytes.as_slice()
    }

    pub(crate) fn bytes_len(&self) -> (r: usize)
        ensures
            r == self@.bytes.len(),
    {
        self.bytes.len()
    }

    /// The checksum of the payload as stored, not of its decompressed content:
    /// the same content stored in two ways has two checksums.
    pub(crate) fn checksum(&self) -> (r: u64)
        ensures
            r == checksum_of(self@),
    {
        if self.known_checksum != 0 {
            return self.known_checksum;
        }
        xxh3_hash(self.bytes.as_slice())
    }

    /// The entry with its payload decompressed. Uncompressed entries and links
    /// are given back as they are, and gzip entries are refused.
    pub(crate) fn decompress(&self) -> (r: Result<Self, WadError>)
        ensures
            result_is(r, decompressed(self@)),
    {
        match self.entry_type {
            EntryType::Raw | EntryType::Link => Ok(self.clone()),
            EntryType::Gzip => Err(WadError::GzipUnsupported),
            EntryType::Zstd => {
                if self.size_decompressed > isize::MAX as u64 {
                    return Err(WadError::SizeOverflow { size: self.size_decompressed });
                }
                match zstd_decompress(self.bytes.as_slice(), self.size_decompressed as usize) {
                    Some(out) => Ok(Self::from_raw(out, 0)),
                    None => Err(WadError::ZstdDecompress),
                }
            },
            EntryType::ZstdMulti => {
                if self.size_decompressed > isize::MAX as u64 {
                    return Err(WadError::SizeOverflow { size: self.size_decompressed });
                }
                match decompress_zstd_hack(self.bytes.as_slice(), self.size_decompressed as usize) {
                    Ok(out) => Ok(Self::from_raw(out, 0)),
                    Err(e) => Err(e),
                }
            },
        }
    }

    fn unzip(&self) -> (r: Result<Self, WadError>)
        ensures
            result_is(r, unzipped(self@)),
    {
        match gzip_decompress(self.bytes.as_slice()) {
            Some(out) => {
                if out.len() as u64 <= self.size_decompressed {
                    Ok(Self::from_raw(out, 0))
                } else {
                    Err(WadError::GzipDecompress)
                }
            },
            None => Err(WadError::GzipDecompress),
        }
    }

    fn compress_raw(&self) -> (r: Result<Self, WadError>)
        ensures
            result_is(r, raw_compressed(self@)),
            r matches Ok(c) ==> zstd_content(c@.bytes) == Some(self@.bytes),
            self@.entry_type is Raw && r is Ok ==> decompressed(r->Ok_0@) == Ok::<Entry, WadError>(
                raw_entry(self@.bytes, 0),
            ),
    {
        proof {
            use_type_invariant(self);
        }
        let limit: usize = (isize::MAX - isize::MAX / 128) as usize;
        if self.bytes.len() > limit {
            return Err(WadError::SizeOverflow { size: self.bytes.len() as u64 });
        }
        match zstd_compress(self.bytes.as_slice(), ZSTD_LEVEL) {
            Some(out) => Ok(Self::from_zstd(out, self.size_decompressed, 0)),
            None => Err(WadError::ZstdCompress),
        }
    }

    /// The entry with its payload in one zstd frame. Zstd entries and links are
    /// given back as they are; the others are decompressed first where needed.
    /// What is compressed decompresses to what it was.
    pub(crate) fn compress(&self) -> (r: Result<Self, WadError>)
        ensures
            result_is(r, compressed(self@)),
            !(self@.entry_type is Gzip) && r is Ok ==> same_content(self@, r->Ok_0@),
            self@.entry_type is Gzip && r is Ok ==> decompressed(r->Ok_0@) == unzipped(self@),
    {
        match self.entry_type {
            EntryType::Link | EntryType::Zstd => Ok(self.clone()),
            EntryType::Raw => self.compress_raw(),
            EntryType::ZstdMulti => {
                match self.decompress() {
                    Ok(d) => d.compress_raw(),
                    Err(e) => Err(e),
                }
            },
            EntryType::Gzip => {
                match self.unzip() {
                    Ok(d) => d.compress_raw(),
                    Err(e) => Err(e),
                }
            },
        }
    }

    fn optimize(&self) -> (r: Result<Self, WadError>)
        ensures
            result_is(r, optimized(self@)),
            r matches Ok(o) ==> same_content(self@, o@),
    {
        match self.entry_type {
            EntryType::Raw => {
                if is_audio(detect_extension(self.bytes.as_slice())) {
                    Ok(self.clone())
                } else {
                    self.compress()
                }
            },
            EntryType::Link => Ok(self.clone()),
            EntryType::Gzip => self.decompress(),
            EntryType::Zstd => {
                match decompress_head(self.bytes.as_slice(), EntryType::Zstd, HEAD_SIZE) {
                    Ok(head) => {
                        if is_audio(detect_extension(head.as_slice())) {
                            self.decompress()
                        } else {
                            Ok(self.clone())
                        }
                    },
                    Err(e) => Err(e),
                }
            },
            EntryType::ZstdMulti => {
                match decompress_head(self.bytes.as_slice(), EntryType::ZstdMulti, HEAD_SIZE) {
                    Ok(head) => {
                        if is_audio(detect_extension(head.as_slice())) {
                            self.decompress()
                        } else {
                            self.compress()
                        }
                    },
                    Err(e) => Err(e),
                }
            },
        }
    }

    /// The best form of the payload, given whether it is marked as stored that
    /// way.
    pub(crate) fn best(&self, known: bool) -> (r: Result<Self, WadError>)
        ensures
            result_is(
                r,
                if known {
                    Ok(self@)
                } else {
                    optimized(self@)
                },
            ),
            r matches Ok(o) ==> same_content(self@, o@),
    {
        if known {
            Ok(self.clone())
        } else {
            self.optimize()
        }
    }

    /// Whether the payload already is its own best form.
    pub(crate) fn is_best(&self) -> (r: bool)
        ensures
            r == stays(self@),
    {
        match self.entry_type {
            EntryType::Raw => is_audio(detect_extension(self.bytes.as_slice())),
            EntryType::Link => true,
            EntryType::Gzip | EntryType::ZstdMulti => false,
            EntryType::Zstd => match decompress_head(
                self.bytes.as_slice(),
                EntryType::Zstd,
                HEAD_SIZE,
            ) {
                Ok(head) => !is_audio(detect_extension(head.as_slice())),
                Err(_) => false,
            },
        }
    }
}

impl EntryData {
    fn new(payload: Payload, marks: &mut Marks) -> (r: Self)
        ensures
            is_new(r@, payload@, old(marks)@, final(marks)@),
    {
        EntryData { payload, number: marks.next() }
    }

    pub fn from_raw(bytes: Vec<u8>, checksum: u64, marks: &mut Marks) -> (r: Self)
        ensures
            is_new(r@, raw_entry(bytes@, checksum), old(marks)@, final(marks)@),
    {
        Self::new(Payload::from_raw(bytes, checksum), marks)
    }

    pub fn from_link(bytes: Vec<u8>, checksum: u64, marks: &mut Marks) -> (r: Self)
        ensures
            is_new(
                r@,
                plain_entry(EntryType::Link, bytes@, bytes@.len() as u64, checksum),
                old(marks)@,
                final(marks)@,
            ),
    {
        Self::new(Payload::from_link(bytes, checksum), marks)
    }

    pub fn from_zstd(
        bytes: Vec<u8>,
        size_decompressed: u64,
        checksum: u64,
        marks: &mut Marks,
    ) -> (r: Self)
        ensures
            is_new(
                r@,
                plain_entry(EntryType::Zstd, bytes@, size_decompressed, checksum),
                old(marks)@,
                final(marks)@,
            ),
    {
        Self::new(Payload::from_zstd(bytes, size_decompressed, checksum), marks)
    }

    pub fn from_zstd_multi(
        bytes: Vec<u8>,
        size_decompressed: u64,
        checksum: u64,
        subchunk_count: u8,
        subchunk_index: u32,
        marks: &mut Marks,
    ) -> (r: Self)
        ensures
            is_new(
                r@,
                (Entry {
                    subchunk_count,
                    subchunk_index,
                    ..plain_entry(EntryType::ZstdMulti, bytes@, size_decompressed, checksum)
                }),
                old(marks)@,
                final(marks)@,
            ),
    {
        Self::new(
            Payload::from_zstd_multi(
                bytes,
                size_decompressed,
                checksum,
                subchunk_count,
                subchunk_index,
            ),
            marks,
        )
    }

    pub fn from_gzip(
        bytes: Vec<u8>,
        size_decompressed: u64,
        checksum: u64,
        marks: &mut Marks,
    ) -> (r: Self)
        ensures
            is_new(
                r@,
                plain_entry(EntryType::Gzip, bytes@, size_decompressed, checksum),
                old(marks)@,
                final(marks)@,
            ),
    {
        Self::new(Payload::from_gzip(bytes, size_decompressed, checksum), marks)
    }

    /// Takes the payload that `loc` describes out of the file `src`. Type and
    /// checksum are trusted as stored.
    pub fn from_loc(src: &[u8], loc: &EntryLoc, marks: &mut Marks) -> (r: Result<Self, WadError>)
        ensures
            match r {
                Ok(e) => entry_at(src@, *loc) is Ok && is_new(
                    e@,
                    entry_at(src@, *loc)->Ok_0,
                    old(marks)@,
                    final(marks)@,
                ),
                Err(err) => entry_at(src@, *loc) == Err::<Entry, WadError>(err) && final(marks)@
                    == old(marks)@,
            },
    {
        match Payload::from_loc(src, loc) {
            Ok(payload) => Ok(Self::new(payload, marks)),
            Err(e) => Err(e),
        }
    }

    pub(crate) fn payload(&self) -> (r: &Payload)
        ensures
            r@ == bare(self@),
    {
        &self.payload
    }

    pub(crate) fn number(&self) -> (r: usize)
        ensures
            r == self@.id,
    {
        self.number
    }

    pub fn entry_type(&self) -> (r: EntryType)
        ensures
            r == self@.entry_type,
    {
        self.payload.entry_type()
    }

    pub fn subchunk_count(&self) -> (r: u8)
        ensures
            r == self@.subchunk_count,
    {
        self.payload.subchunk_count()
    }

    pub fn subchunk_index(&self) -> (r: u32)
        ensures
            r == self@.subchunk_index,
    {
        self.payload.subchunk_index()
    }

    pub fn size_decompressed(&self) -> (r: u64)
        ensures
            r == self@.size_decompressed,
    {
        self.payload.size_decompressed()
    }

    pub fn bytes(&self) -> (r: &[u8])
        ensures
            r@ == self@.bytes,
    {
        self.payload.bytes()
    }

    pub fn bytes_len(&self) -> (r: usize)
        ensures
            r == self@.bytes.len(),
    {
        self.payload.bytes_len()
    }

    /// The checksum of the payload as stored, not of its decompressed content:
    /// the same content stored in two ways has two checksums.
    pub fn checksum(&self) -> (r: u64)
        ensures
            r == checksum_of(self@),
    {
        self.payload.checksum()
    }

    /// Marks the payload as stored the best way, so that it is written as it
    /// is. The mark holds of every clone of the entry.
    pub fn mark_optimal(&self, marks: &mut Marks)
        ensures
            final(marks)@ == with_mark(old(marks)@, self@.id),
    {
        marks.mark(self.number)
    }

    pub fn is_optimal(&self, marks: &Marks) -> (r: bool)
        ensures
            r == marked(marks@, self@.id),
    {
        marks.has(self.number)
    }

    /// The entry with its payload decompressed. Uncompressed entries and links
    /// are given back as they are, and gzip entries are refused.
    pub fn into_decompressed(&self, marks: &mut Marks) -> (r: Result<Self, WadError>)
        ensures
            turned_into(
                r,
                self@,
                self@.entry_type is Raw || self@.entry_type is Link,
                decompressed(bare(self@)),
                old(marks)@,
                final(marks)@,
            ),
    {
        match self.payload.entry_type() {
            EntryType::Raw | EntryType::Link => Ok(self.clone()),
            _ => match self.payload.decompress() {
                Ok(payload) => Ok(Self::new(payload, marks)),
                Err(e) => Err(e),
            },
        }
    }

    /// The entry with its payload in one zstd frame. Zstd entries and links are
    /// given back as they are; the others are decompressed first where needed.
    /// What is compressed decompresses to what it was.
    pub fn into_compressed(&self, marks: &mut Marks) -> (r: Result<Self, WadError>)
        ensures
            turned_into(
                r,
                self@,
                self@.entry_type is Link || self@.entry_type is Zstd,
                compressed(bare(self@)),
                old(marks)@,
                final(marks)@,
            ),
            !(self@.entry_type is Gzip) && r is Ok ==> same_content(self@, r->Ok_0@),
            self@.entry_type is Gzip && r is Ok ==> decompressed(bare(r->Ok_0@)) == unzipped(self@),
    {
        match self.payload.entry_type() {
            EntryType::Link | EntryType::Zstd => Ok(self.clone()),
            _ => match self.payload.compress() {
                Ok(payload) => Ok(Self::new(payload, marks)),
                Err(e) => Err(e),
            },
        }
    }

    /// The entry stored the best way, and marked so. Its content stays. Where
    /// the entry is stored that way already it is given back itself, so that its
    /// clones are marked with it.
    pub fn into_optimal(&self, marks: &mut Marks) -> (r: Result<Self, WadError>)
        ensures
            match r {
                Ok(o) => {
                    &&& optimal_form(self@, old(marks)@) == Ok::<Entry, WadError>(bare(o@))
                    &&& same_content(self@, o@)
                    &&& if marked(old(marks)@, self@.id) {
                        o@ == self@ && final(marks)@ == old(marks)@
                    } else if stays(self@) {
                        o@ == self@ && final(marks)@ == with_mark(old(marks)@, self@.id)
                    } else {
                        o@.id == old(marks)@.len() && final(marks)@ == old(marks)@.push(true)
                    }
                },
                Err(e) => optimal_form(self@, old(marks)@) == Err::<Entry, WadError>(e)
                    && final(marks)@ == old(marks)@,
            },
            r matches Ok(o) ==> marked(final(marks)@, o@.id),
    {
        if self.is_optimal(marks) {
            return Ok(self.clone());
        }
        match self.payload.best(false) {
            Ok(payload) => {
                let o = if self.payload.is_best() {
                    self.clone()
                } else {
                    Self::new(payload, marks)
                };
                o.mark_optimal(marks);
                assert(old(marks)@.push(false).update(old(marks)@.len() as int, true) =~= old(
                    marks,
                )@.push(true));
                Ok(o)
            },
            Err(e) => Err(e),
        }
    }
}

pub fn is_audio(kind: DetectedKind) -> (r: bool)
    ensures
        r == (kind is Bnk || kind is Wpk),
{
    match kind {
        DetectedKind::Bnk | DetectedKind::Wpk => true,
        DetectedKind::Other => false,
    }
}

/// Whether the four bytes at `at` are `a`, `b`, `c`, `d`.
fn four_at(bytes: &[u8], at: usize, a: u8, b: u8, c: u8, d: u8) -> (r: bool)
    requires
        at <= 4,
    ensures
        r == (at + 4 <= bytes@.len() && bytes@.subrange(at as int, at + 4) == seq![a, b, c, d]),
{
    if bytes.len() < at + 4 {
        return false;
    }
    let r = bytes[at] == a && bytes[at + 1] == b && bytes[at + 2] == c && bytes[at + 3] == d;
    let ghost part = bytes@.subrange(at as int, at + 4);
    assert(part.len() == 4 && part[0] == bytes@[at as int] && part[1] == bytes@[at + 1] && part[2]
        == bytes@[at + 2] && part[3] == bytes@[at + 3]);
    if r {
        assert(part =~= seq![a, b, c, d]);
    } else {
        let ghost want = seq![a, b, c, d];
        assert(want[0] == a && want[1] == b && want[2] == c && want[3] == d);
    }
    r
}

proof fn lemma_four_and_four(s: Seq<u8>, a: Seq<u8>, b: Seq<u8>)
    requires
        a.len() == 4,
        b.len() == 4,
        s.len() >= 4,
        s.subrange(0, 4) == a,
    ensures
        starts_with(s, a + b) <==> s.len() >= 8 && s.subrange(4, 8) == b,
{
    if s.len() >= 8 {
        if s.subrange(4, 8) == b {
            assert(s.take(8) =~= s.subrange(0, 4) + s.subrange(4, 8));
        }
        if s.take(8) == a + b {
            assert(s.subrange(4, 8) =~= s.take(8).subrange(4, 8));
            assert((a + b).subrange(4, 8) =~= b);
        }
    }
}

/// Recognises the two audio formats by their magic.
pub fn detect_extension(bytes: &[u8]) -> (r: DetectedKind)
    ensures
        r == kind_of(bytes@),
{
    let bnk = four_at(bytes, 0, 0x42, 0x4B, 0x48, 0x44);
    let r3d2 = four_at(bytes, 0, 0x72, 0x33, 0x64, 0x32);
    proof {
        if bytes@.len() >= 4 {
            assert(bytes@.take(4) =~= bytes@.subrange(0, 4));
        }
    }
    if bnk {
        return DetectedKind::Bnk;
    }
    if !r3d2 {
        return DetectedKind::Other;
    }
    let other = four_at(bytes, 4, 0x4D, 0x65, 0x73, 0x68)
        || four_at(bytes, 4, 0x61, 0x69, 0x6D, 0x73)
        || four_at(bytes, 4, 0x61, 0x6E, 0x6D, 0x64)
        || four_at(bytes, 4, 0x63, 0x61, 0x6E, 0x6D)
        || four_at(bytes, 4, 0x73, 0x6B, 0x6C, 0x74)
        || four_at(bytes, 4, 0x62, 0x6C, 0x6E, 0x64)
        || four_at(bytes, 4, 0x77, 0x67, 0x68, 0x74);
    proof {
        let tags = r3d2_other_tags();
        assert forall|i: int| 0 <= i < tags.len() implies (starts_with(
            bytes@,
            r3d2_magic() + #[trigger] tags[i],
        ) <==> bytes@.len() >= 8 && bytes@.subrange(4, 8) == tags[i]) by {
            assert(tags[i].len() == 4);
            lemma_four_and_four(bytes@, r3d2_magic(), tags[i]);
        }
        assert(other <==> exists|i: int|
            0 <= i < tags.len() && bytes@.len() >= 8 && bytes@.subrange(4, 8) == #[trigger] tags[i])
            by {
            if other {
                assert(bytes@.subrange(4, 8) == tags[0] || bytes@.subrange(4, 8) == tags[1]
                    || bytes@.subrange(4, 8) == tags[2] || bytes@.subrange(4, 8) == tags[3]
                    || bytes@.subrange(4, 8) == tags[4] || bytes@.subrange(4, 8) == tags[5]
                    || bytes@.subrange(4, 8) == tags[6]);
            }
        }
        if is_other_r3d2(bytes@) {
            let i = choose|i: int|
                0 <= i < tags.len() && starts_with(bytes@, r3d2_magic() + #[trigger] tags[i]);
            assert(bytes@.len() >= 8 && bytes@.subrange(4, 8) == tags[i]);
        } else if other {
            let i = choose|i: int|
                0 <= i < tags.len() && bytes@.len() >= 8 && bytes@.subrange(4, 8)
                    == #[trigger] tags[i];
            assert(starts_with(bytes@, r3d2_magic() + tags[i]));
        }
        assert(other == is_other_r3d2(bytes@));
    }
    if other {
        DetectedKind::Other
    } else {
        DetectedKind::Wpk
    }
}

/// The first bytes, at most `max`, of a decompressed zstd payload, for
/// recognising its format without decompressing the whole. A stream that turns
/// bad on the way gives what came before.
pub fn decompress_head(src: &[u8], kind: EntryType, max: usize) -> (r: Result<Vec<u8>, WadError>)
    ensures
        match r {
            Ok(v) => head_of(src@, kind is ZstdMulti, max as int) == Ok::<Seq<u8>, WadError>(v@),
            Err(e) => head_of(src@, kind is ZstdMulti, max as int) == Err::<Seq<u8>, WadError>(e),
        },
{
    proof {
        lemma_frame_start_unique(src@);
    }
    let start: usize = if kind == EntryType::ZstdMulti {
        find_zstd_magic(src)
    } else {
        0
    };
    let take: usize = if start <= max {
        start
    } else {
        max
    };
    let mut out: Vec<u8> = slice_to_vec(slice_subrange(src, 0, take));
    assert(out@ =~= src@.take(take as int));
    if start > 0 && start >= max {
        return Ok(out);
    }
    let rest = slice_subrange(src, start, src.len());
    assert(rest@ =~= src@.skip(start as int));
    if rest.len() == 0 {
        return Ok(out);
    }
    match zstd_head(rest, max - take) {
        Some(h) => {
            let mut head = h;
            out.append(&mut head);
            Ok(out)
        },
        None => Err(WadError::ZstdStream),
    }
}

/// Decompresses a multi-frame payload: a raw prefix, then zstd frames that fill
/// the rest of `total_decompressed` bytes.
pub fn decompress_zstd_hack(src: &[u8], total_decompressed: usize) -> (r: Result<
    Vec<u8>,
    WadError,
>)
    requires
        total_decompressed <= isize::MAX,
    ensures
        match r {
            Ok(v) => multi_content(src@, total_decompressed as int) == Ok::<Seq<u8>, WadError>(v@),
            Err(e) => multi_content(src@, total_decompressed as int) == Err::<Seq<u8>, WadError>(e),
        },
{
    let start: usize = find_zstd_magic(src);
    if start > total_decompressed {
        return Err(WadError::PrefixTooLong { prefix: start, total: total_decompressed });
    }
    let mut out: Vec<u8> = slice_to_vec(slice_subrange(src, 0, start));
    assert(out@ =~= src@.take(start as int));
    let rest = slice_subrange(src, start, src.len());
    assert(rest@ =~= src@.skip(start as int));
    if rest.len() == 0 {
        return Ok(out);
    }
    let remaining: usize = total_decompressed - start;
    match zstd_decompress(rest, remaining) {
        Some(d) => {
            if d.len() != remaining {
                return Err(WadError::SizeMismatch { expected: remaining, got: d.len() });
            }
            let mut content = d;
            out.append(&mut content);
            Ok(out)
        },
        None => Err(WadError::ZstdDecompress),
    }
}

/// Where the first zstd frame starts, or zero where there is none.
pub fn find_zstd_magic(src: &[u8]) -> (r: usize)
    ensures
        r == frame_start(src@),
        r <= src@.len(),
{
    proof {
        lemma_frame_start_unique(src@);
    }
    let n: usize = src.len();
    let mut i: usize = 0;
    while n - i >= 4
        invariant
            i <= n,
            n == src@.len(),
            forall|j: int| 0 <= j < i ==> !#[trigger] zstd_magic_at(src@, j),
            forall|start: int| is_frame_start(src@, start) ==> start == frame_start(src@),
        decreases n - i,
    {
        if src[i] == 0x28 && src[i + 1] == 0xB5 && src[i + 2] == 0x2F && src[i + 3] == 0xFD {
            assert(zstd_magic_at(src@, i as int));
            assert(is_frame_start(src@, i as int));
            return i;
        }
        i = i + 1;
    }
    assert(is_frame_start(src@, 0));
    0
}

} // verus!
