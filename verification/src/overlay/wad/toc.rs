//! The WAD header and table of contents.
//!
//! A WAD starts with a 272-byte header (magic, version, signature, checksum,
//! entry count) followed by one 32-byte record per entry. Reading accepts the
//! three record layouts of version 3; writing always produces version 3.4.

use crate::bytes::{
    copy_into, le16, le32, le32_bytes, le64, le64_bytes, lemma_le32_round_trip,
    lemma_le64_round_trip, read_u16, read_u32, read_u64, u32_bytes, u64_bytes,
};
use vstd::prelude::*;

verus! {

broadcast use {crate::bytes::lemma_le32_bytes_len, crate::bytes::lemma_le64_bytes_len};

pub const HEADER_SIZE: usize = 272;

pub const ENTRY_SIZE: usize = 32;

/// Version 3.4 is what the live client accepts; only this version is written.
pub const LATEST_MAJOR: u8 = 3;

pub const LATEST_MINOR: u8 = 4;

/// `R`, the first magic byte.
pub const MAGIC_0: u8 = 0x52;

/// `W`, the second magic byte.
pub const MAGIC_1: u8 = 0x57;

/// Why WAD bytes were refused.
#[derive(Debug, Clone, Copy, PartialEq, Eq, Structural)]
pub enum WadError {
    /// Fewer than the four bytes of magic and version.
    TooSmall,
    /// The first four bytes are zero (an empty file or a locale artifact).
    ZeroInitialized,
    BadMagic { first: u8, second: u8 },
    UnsupportedVersion { major: u8, minor: u8 },
    /// Fewer bytes than a version 3 header.
    HeaderTruncated { len: usize },
    /// The table of contents needs `need` bytes, but there are `have`.
    TocTruncated { count: u32, need: u64, have: usize },
    UnknownEntryType { nibble: u8 },
    /// Offset plus size of an entry exceeds 64 bits.
    PayloadOverflow,
    PayloadOutOfBounds { start: u64, end: u64, len: usize },
    /// A declared size that no buffer can have.
    SizeOverflow { size: u64 },
    /// The zstd library refused to decompress the payload.
    ZstdDecompress,
    /// The zstd library refused to compress the payload.
    ZstdCompress,
    /// The zstd library could not start a streaming decoder.
    ZstdStream,
    /// The raw prefix of a multi-frame payload is longer than the whole.
    PrefixTooLong { prefix: usize, total: usize },
    /// A multi-frame payload decompressed to another size than declared.
    SizeMismatch { expected: usize, got: usize },
    /// Gzip entries are not decompressed, only compressed anew.
    GzipUnsupported,
    /// The payload is no gzip stream, or stands for more than was declared.
    GzipDecompress,
    /// Offset, size or decompressed size reach 4 GiB.
    EntryTooLarge { offset: u64, size: u64, size_decompressed: u64 },
}

#[derive(Debug, Clone, Copy, PartialEq, Eq, Structural)]
pub enum EntryType {
    Raw,
    Link,
    Gzip,
    Zstd,
    ZstdMulti,
}

/// The entry type stored as `nibble`.
pub open spec fn entry_type_of(nibble: int) -> Option<EntryType> {
    if nibble == 0 {
        Some(EntryType::Raw)
    } else if nibble == 1 {
        Some(EntryType::Link)
    } else if nibble == 2 {
        Some(EntryType::Gzip)
    } else if nibble == 3 {
        Some(EntryType::Zstd)
    } else if nibble == 4 {
        Some(EntryType::ZstdMulti)
    } else {
        None
    }
}

impl EntryType {
    /// The number by which the type is stored.
    pub open spec fn spec_code(self) -> int {
        match self {
            EntryType::Raw => 0,
            EntryType::Link => 1,
            EntryType::Gzip => 2,
            EntryType::Zstd => 3,
            EntryType::ZstdMulti => 4,
        }
    }

    pub fn code(self) -> (r: u8)
        ensures
            r == self.spec_code(),
    {
        match self {
            EntryType::Raw => 0,
            EntryType::Link => 1,
            EntryType::Gzip => 2,
            EntryType::Zstd => 3,
            EntryType::ZstdMulti => 4,
        }
    }

    /// Decodes the low nibble of `v`.
    pub fn from_nibble(v: u8) -> (r: Result<Self, WadError>)
        ensures
            r == match entry_type_of(v as int % 16) {
                Some(t) => Ok::<EntryType, WadError>(t),
                None => Err(WadError::UnknownEntryType { nibble: (v % 16) as u8 }),
            },
    {
        let n: u8 = v % 16;
        match n {
            0 => Ok(EntryType::Raw),
            1 => Ok(EntryType::Link),
            2 => Ok(EntryType::Gzip),
            3 => Ok(EntryType::Zstd),
            4 => Ok(EntryType::ZstdMulti),
            _ => Err(WadError::UnknownEntryType { nibble: n }),
        }
    }
}

/// Location and metadata of one entry, the same for every record layout.
#[derive(Debug, Clone, Copy, PartialEq, Eq, Structural)]
pub struct EntryLoc {
    pub entry_type: EntryType,
    pub subchunk_count: u8,
    pub subchunk_index: u32,
    pub offset: u64,
    pub size: u64,
    pub size_decompressed: u64,
    pub checksum: u64,
}

#[derive(Debug, Clone, Copy, PartialEq, Eq, Structural)]
pub struct TocEntry {
    pub name: u64,
    pub loc: EntryLoc,
}

pub struct Toc {
    pub major: u8,
    pub minor: u8,
    pub signature: [u8; 256],
    pub entries: Vec<TocEntry>,
}

/// How the 32-byte records of a minor version are laid out.
#[derive(Debug, Clone, Copy, PartialEq, Eq, Structural)]
pub enum EntryLayout {
    V3_0,
    V3_1,
    V3_4,
}

impl EntryLayout {
    pub open spec fn spec_for_minor(minor: u8) -> Self {
        if minor == 0 {
            EntryLayout::V3_0
        } else if minor <= 3 {
            EntryLayout::V3_1
        } else {
            EntryLayout::V3_4
        }
    }

    pub fn for_minor(minor: u8) -> (r: Self)
        ensures
            r == Self::spec_for_minor(minor),
    {
        match minor {
            0 => EntryLayout::V3_0,
            1 | 2 | 3 => EntryLayout::V3_1,
            _ => EntryLayout::V3_4,
        }
    }
}

/// The record stored at `at`, whose entry type is known.
///
/// The entry type is the low nibble of byte 20 and the subchunk count its high
/// nibble. Version 3.4 stores the subchunk index in bytes 21 to 23 in the
/// order high, low, middle.
pub open spec fn record_at(s: Seq<u8>, at: int, layout: EntryLayout) -> TocEntry {
    TocEntry {
        name: le64(s, at) as u64,
        loc: EntryLoc {
            entry_type: entry_type_of(s[at + 20] as int % 16)->0,
            subchunk_count: (s[at + 20] / 16) as u8,
            subchunk_index: match layout {
                EntryLayout::V3_4 => (0x1_0000 * s[at + 21] + 0x100 * s[at + 23]
                    + s[at + 22]) as u32,
                _ => le16(s, at + 22) as u32,
            },
            offset: le32(s, at + 8) as u64,
            size: le32(s, at + 12) as u64,
            size_decompressed: le32(s, at + 16) as u64,
            checksum: match layout {
                EntryLayout::V3_0 => 0u64,
                _ => le64(s, at + 24) as u64,
            },
        },
    }
}

/// The type nibble of the first of the records `i..count` whose type is
/// unknown.
pub open spec fn first_bad_type(s: Seq<u8>, i: int, count: int) -> Option<u8>
    decreases count - i,
{
    if i >= count {
        None
    } else {
        let nibble = s[HEADER_SIZE + i * ENTRY_SIZE + 20] as int % 16;
        if entry_type_of(nibble) is None {
            Some(nibble as u8)
        } else {
            first_bad_type(s, i + 1, count)
        }
    }
}

/// The number of entries that a header declares.
pub open spec fn declared_count(s: Seq<u8>) -> int {
    le32(s, 268)
}

/// Why `s` is refused as a WAD; `None` where it is read.
pub open spec fn toc_error(s: Seq<u8>) -> Option<WadError> {
    if s.len() < 4 {
        Some(WadError::TooSmall)
    } else if s[0] == 0 && s[1] == 0 && s[2] == 0 && s[3] == 0 {
        Some(WadError::ZeroInitialized)
    } else if s[0] != MAGIC_0 || s[1] != MAGIC_1 {
        Some(WadError::BadMagic { first: s[0], second: s[1] })
    } else if s[2] != 3 {
        Some(WadError::UnsupportedVersion { major: s[2], minor: s[3] })
    } else if s.len() < HEADER_SIZE {
        Some(WadError::HeaderTruncated { len: s.len() as usize })
    } else if s.len() < HEADER_SIZE + ENTRY_SIZE * declared_count(s) {
        Some(
            WadError::TocTruncated {
                count: declared_count(s) as u32,
                need: (HEADER_SIZE + ENTRY_SIZE * declared_count(s)) as u64,
                have: s.len() as usize,
            },
        )
    } else {
        match first_bad_type(s, 0, declared_count(s)) {
            Some(nibble) => Some(WadError::UnknownEntryType { nibble }),
            None => None,
        }
    }
}

/// The records of a WAD that is read.
pub open spec fn toc_records(s: Seq<u8>) -> Seq<TocEntry> {
    Seq::new(
        declared_count(s) as nat,
        |i: int|
            record_at(s, HEADER_SIZE + i * ENTRY_SIZE, EntryLayout::spec_for_minor(s[3])),
    )
}

impl Toc {
    /// Parses the header and the table of contents of `src`.
    ///
    /// Only major version 3 is accepted. The stored header checksum is not
    /// looked at: it is computed anew on write.
    pub fn read(src: &[u8]) -> (r: Result<Self, WadError>)
        ensures
            match r {
                Ok(toc) => {
                    &&& toc_error(src@) is None
                    &&& toc.major == src@[2]
                    &&& toc.minor == src@[3]
                    &&& toc.signature@ == src@.subrange(4, 260)
                    &&& toc.entries@ == toc_records(src@)
                },
                Err(e) => toc_error(src@) == Some(e),
            },
    {
        if src.len() < 4 {
            return Err(WadError::TooSmall);
        }
        if src[0] == 0 && src[1] == 0 && src[2] == 0 && src[3] == 0 {
            return Err(WadError::ZeroInitialized);
        }
        if src[0] != MAGIC_0 || src[1] != MAGIC_1 {
            return Err(WadError::BadMagic { first: src[0], second: src[1] });
        }
        let major: u8 = src[2];
        let minor: u8 = src[3];
        if major != 3 {
            return Err(WadError::UnsupportedVersion { major, minor });
        }
        if src.len() < HEADER_SIZE {
            return Err(WadError::HeaderTruncated { len: src.len() });
        }
        let mut signature: [u8; 256] = [0u8;256];
        let mut k: usize = 0;
        while k < 256
            invariant
                k <= 256,
                src@.len() >= HEADER_SIZE,
                forall|j: int| 0 <= j < k ==> signature@[j] == src@[4 + j],
            decreases 256 - k,
        {
            signature[k] = src[4 + k];
            k = k + 1;
        }
        assert(signature@ =~= src@.subrange(4, 260));
        let count: u32 = read_u32(src, 268);
        let layout = EntryLayout::for_minor(minor);
        let need: u64 = HEADER_SIZE as u64 + ENTRY_SIZE as u64 * count as u64;
        if (src.len() as u64) < need {
            return Err(WadError::TocTruncated { count, need, have: src.len() });
        }
        let n: usize = count as usize;
        let mut entries: Vec<TocEntry> = Vec::new();
        let mut i: usize = 0;
        while i < n
            invariant
                i <= n,
                n == declared_count(src@),
                layout == EntryLayout::spec_for_minor(src@[3]),
                src@.len() >= HEADER_SIZE + ENTRY_SIZE * n,
                src@.len() <= usize::MAX,
                src@[0] == MAGIC_0,
                src@[1] == MAGIC_1,
                src@[2] == 3,
                entries@.len() == i,
                forall|j: int| 0 <= j < i ==> entries@[j] == toc_records(src@)[j],
                first_bad_type(src@, 0, n as int) == first_bad_type(src@, i as int, n as int),
            decreases n - i,
        {
            let off: usize = HEADER_SIZE + i * ENTRY_SIZE;
            match parse_v3_entry(src, off, layout) {
                Ok(e) => {
                    entries.push(e);
                },
                Err(e) => {
                    return Err(e);
                },
            }
            i = i + 1;
        }
        assert(entries@ =~= toc_records(src@));
        Ok(Toc { major, minor, signature, entries })
    }
}

/// Decodes the record stored at `at`.
pub fn parse_v3_entry(src: &[u8], at: usize, layout: EntryLayout) -> (r: Result<TocEntry, WadError>)
    requires
        at + ENTRY_SIZE <= src@.len(),
    ensures
        match entry_type_of(src@[at + 20] as int % 16) {
            Some(_) => r == Ok::<TocEntry, WadError>(record_at(src@, at as int, layout)),
            None => r == Err::<TocEntry, WadError>(
                WadError::UnknownEntryType { nibble: (src@[at + 20] as int % 16) as u8 },
            ),
        },
{
    let _n: usize = src.len();
    let name: u64 = read_u64(src, at);
    let offset: u64 = read_u32(src, at + 8) as u64;
    let size: u64 = read_u32(src, at + 12) as u64;
    let size_decompressed: u64 = read_u32(src, at + 16) as u64;
    let type_byte: u8 = src[at + 20];
    let entry_type = match EntryType::from_nibble(type_byte) {
        Ok(t) => t,
        Err(e) => {
            return Err(e);
        },
    };
    let subchunk_count: u8 = type_byte / 16;
    let subchunk_index: u32 = match layout {
        EntryLayout::V3_4 => 0x1_0000 * (src[at + 21] as u32) + 0x100 * (src[at + 23] as u32) + (
        src[at + 22] as u32),
        _ => read_u16(src, at + 22) as u32,
    };
    let checksum: u64 = match layout {
        EntryLayout::V3_0 => 0,
        _ => read_u64(src, at + 24),
    };
    Ok(
        TocEntry {
            name,
            loc: EntryLoc {
                entry_type,
                subchunk_count,
                subchunk_index,
                offset,
                size,
                size_decompressed,
                checksum,
            },
        },
    )
}

/// A version 3.4 header.
pub open spec fn header_bytes(signature: Seq<u8>, checksum: Seq<u8>, desc_count: int) -> Seq<u8> {
    seq![MAGIC_0, MAGIC_1, LATEST_MAJOR, LATEST_MINOR] + signature + checksum + le32_bytes(
        desc_count,
    )
}

/// Writes a version 3.4 header into the first `HEADER_SIZE` bytes of `dst`.
pub fn write_header(dst: &mut [u8], signature: &[u8; 256], checksum: [u8; 8], desc_count: u32)
    requires
        old(dst)@.len() >= HEADER_SIZE,
    ensures
        final(dst)@ == header_bytes(signature@, checksum@, desc_count as int) + old(dst)@.skip(
            HEADER_SIZE as int,
        ),
{
    dst[0] = MAGIC_0;
    dst[1] = MAGIC_1;
    dst[2] = LATEST_MAJOR;
    dst[3] = LATEST_MINOR;
    copy_into(dst, 4, signature.as_slice());
    copy_into(dst, 260, checksum.as_slice());
    let count = u32_bytes(desc_count);
    copy_into(dst, 268, count.as_slice());
    assert(dst@ =~= header_bytes(signature@, checksum@, desc_count as int) + old(dst)@.skip(
        HEADER_SIZE as int,
    ));
}

/// A version 3.4 record. Offset and sizes keep their low 32 bits, the subchunk
/// count its low nibble and the subchunk index its low 24 bits.
pub open spec fn v34_record(name: u64, loc: EntryLoc) -> Seq<u8> {
    le64_bytes(name as int) + le32_bytes(loc.offset as int % 0x1_0000_0000) + le32_bytes(
        loc.size as int % 0x1_0000_0000,
    ) + le32_bytes(loc.size_decompressed as int % 0x1_0000_0000) + seq![
        (loc.subchunk_count as int % 16 * 16 + loc.entry_type.spec_code()) as u8,
        (loc.subchunk_index / 0x1_0000 % 0x100) as u8,
        (loc.subchunk_index % 0x100) as u8,
        (loc.subchunk_index / 0x100 % 0x100) as u8,
    ] + le64_bytes(loc.checksum as int)
}

/// Writes a version 3.4 record into the first `ENTRY_SIZE` bytes of `dst`.
pub fn write_v34_entry(dst: &mut [u8], name: u64, loc: &EntryLoc)
    requires
        old(dst)@.len() >= ENTRY_SIZE,
    ensures
        final(dst)@ == v34_record(name, *loc) + old(dst)@.skip(ENTRY_SIZE as int),
{
    let name_bytes = u64_bytes(name);
    copy_into(dst, 0, name_bytes.as_slice());
    let offset = u32_bytes((loc.offset % 0x1_0000_0000) as u32);
    copy_into(dst, 8, offset.as_slice());
    let size = u32_bytes((loc.size % 0x1_0000_0000) as u32);
    copy_into(dst, 12, size.as_slice());
    let size_decompressed = u32_bytes((loc.size_decompressed % 0x1_0000_0000) as u32);
    copy_into(dst, 16, size_decompressed.as_slice());
    dst[20] = loc.subchunk_count % 16 * 16 + loc.entry_type.code();
    dst[21] = (loc.subchunk_index / 0x1_0000 % 0x100) as u8;
    dst[22] = (loc.subchunk_index % 0x100) as u8;
    dst[23] = (loc.subchunk_index / 0x100 % 0x100) as u8;
    let checksum = u64_bytes(loc.checksum);
    copy_into(dst, 24, checksum.as_slice());
    assert(dst@ =~= v34_record(name, *loc) + old(dst)@.skip(ENTRY_SIZE as int));
}

/// Whether a record keeps every field of `loc`.
pub open spec fn loc_fits(loc: EntryLoc) -> bool {
    &&& loc.offset < 0x1_0000_0000
    &&& loc.size < 0x1_0000_0000
    &&& loc.size_decompressed < 0x1_0000_0000
    &&& loc.subchunk_count < 16
    &&& loc.subchunk_index < 0x100_0000
}

/// The records of `entries`, one after the other.
pub open spec fn toc_bytes(entries: Seq<TocEntry>) -> Seq<u8>
    decreases entries.len(),
{
    if entries.len() == 0 {
        Seq::empty()
    } else {
        toc_bytes(entries.drop_last()) + v34_record(entries.last().name, entries.last().loc)
    }
}

pub proof fn lemma_toc_bytes_len(entries: Seq<TocEntry>)
    ensures
        toc_bytes(entries).len() == ENTRY_SIZE * entries.len(),
    decreases entries.len(),
{
    if entries.len() > 0 {
        lemma_toc_bytes_len(entries.drop_last());
    }
}

/// The `i`-th record of a table of contents stands at `i * ENTRY_SIZE`.
pub proof fn lemma_toc_bytes_at(entries: Seq<TocEntry>, i: int)
    requires
        0 <= i < entries.len(),
    ensures
        toc_bytes(entries).len() == ENTRY_SIZE * entries.len(),
        toc_bytes(entries).subrange(i * ENTRY_SIZE, i * ENTRY_SIZE + ENTRY_SIZE) == v34_record(
            entries[i].name,
            entries[i].loc,
        ),
    decreases entries.len(),
{
    lemma_toc_bytes_len(entries);
    lemma_toc_bytes_len(entries.drop_last());
    let all = toc_bytes(entries);
    let init = toc_bytes(entries.drop_last());
    if i == entries.len() - 1 {
        assert(all.subrange(i * ENTRY_SIZE, i * ENTRY_SIZE + ENTRY_SIZE) =~= v34_record(
            entries[i].name,
            entries[i].loc,
        ));
    } else {
        lemma_toc_bytes_at(entries.drop_last(), i);
        assert(all.subrange(i * ENTRY_SIZE, i * ENTRY_SIZE + ENTRY_SIZE) =~= init.subrange(
            i * ENTRY_SIZE,
            i * ENTRY_SIZE + ENTRY_SIZE,
        ));
    }
}

/// Where the fields of a record stand.
proof fn lemma_record_fields(name: u64, loc: EntryLoc)
    ensures
        ({
            let rec = v34_record(name, loc);
            &&& rec.len() == ENTRY_SIZE
            &&& rec.subrange(0, 8) == le64_bytes(name as int)
            &&& rec.subrange(8, 12) == le32_bytes(loc.offset as int % 0x1_0000_0000)
            &&& rec.subrange(12, 16) == le32_bytes(loc.size as int % 0x1_0000_0000)
            &&& rec.subrange(16, 20) == le32_bytes(loc.size_decompressed as int % 0x1_0000_0000)
            &&& rec.subrange(24, 32) == le64_bytes(loc.checksum as int)
            &&& rec[20] == (loc.subchunk_count as int % 16 * 16 + loc.entry_type.spec_code()) as u8
            &&& rec[21] == (loc.subchunk_index / 0x1_0000 % 0x100) as u8
            &&& rec[22] == (loc.subchunk_index % 0x100) as u8
            &&& rec[23] == (loc.subchunk_index / 0x100 % 0x100) as u8
        }),
{
    let a = le64_bytes(name as int);
    let b = le32_bytes(loc.offset as int % 0x1_0000_0000);
    let c = le32_bytes(loc.size as int % 0x1_0000_0000);
    let d = le32_bytes(loc.size_decompressed as int % 0x1_0000_0000);
    let e = seq![
        (loc.subchunk_count as int % 16 * 16 + loc.entry_type.spec_code()) as u8,
        (loc.subchunk_index / 0x1_0000 % 0x100) as u8,
        (loc.subchunk_index % 0x100) as u8,
        (loc.subchunk_index / 0x100 % 0x100) as u8,
    ];
    let f = le64_bytes(loc.checksum as int);
    lemma_concat_fields(a, b, c, d, e, f);
}

proof fn lemma_concat_fields(
    a: Seq<u8>,
    b: Seq<u8>,
    c: Seq<u8>,
    d: Seq<u8>,
    e: Seq<u8>,
    f: Seq<u8>,
)
    requires
        a.len() == 8,
        b.len() == 4,
        c.len() == 4,
        d.len() == 4,
        e.len() == 4,
        f.len() == 8,
    ensures
        ({
            let s = a + b + c + d + e + f;
            &&& s.len() == ENTRY_SIZE
            &&& s.subrange(0, 8) == a
            &&& s.subrange(8, 12) == b
            &&& s.subrange(12, 16) == c
            &&& s.subrange(16, 20) == d
            &&& s.subrange(24, 32) == f
            &&& s[20] == e[0]
            &&& s[21] == e[1]
            &&& s[22] == e[2]
            &&& s[23] == e[3]
        }),
{
    let s = a + b + c + d + e + f;
    assert(s.subrange(0, 8) =~= a);
    assert(s.subrange(8, 12) =~= b);
    assert(s.subrange(12, 16) =~= c);
    assert(s.subrange(16, 20) =~= d);
    assert(s.subrange(24, 32) =~= f);
}

proof fn lemma_index_bytes(x: int)
    requires
        0 <= x < 0x100_0000,
    ensures
        0x1_0000 * (x / 0x1_0000 % 0x100) + 0x100 * (x / 0x100 % 0x100) + x % 0x100 == x,
{
}

/// The integers of a record are read back.
proof fn lemma_record_integers(s: Seq<u8>, at: int, name: u64, loc: EntryLoc)
    requires
        loc_fits(loc),
        0 <= at,
        at + ENTRY_SIZE <= s.len(),
        s.subrange(at, at + ENTRY_SIZE) == v34_record(name, loc),
    ensures
        le64(s, at) == name,
        le32(s, at + 8) == loc.offset,
        le32(s, at + 12) == loc.size,
        le32(s, at + 16) == loc.size_decompressed,
        le64(s, at + 24) == loc.checksum,
{
    let rec = s.subrange(at, at + ENTRY_SIZE);
    lemma_record_fields(name, loc);
    assert(le64(s, at) == name) by {
        assert(s.subrange(at, at + 8) =~= rec.subrange(0, 8));
        lemma_le64_round_trip(s, at, name as int);
    }
    assert(le32(s, at + 8) == loc.offset) by {
        assert(s.subrange(at + 8, at + 12) =~= rec.subrange(8, 12));
        lemma_le32_round_trip(s, at + 8, loc.offset as int);
    }
    assert(le32(s, at + 12) == loc.size) by {
        assert(s.subrange(at + 12, at + 16) =~= rec.subrange(12, 16));
        lemma_le32_round_trip(s, at + 12, loc.size as int);
    }
    assert(le32(s, at + 16) == loc.size_decompressed) by {
        assert(s.subrange(at + 16, at + 20) =~= rec.subrange(16, 20));
        lemma_le32_round_trip(s, at + 16, loc.size_decompressed as int);
    }
    assert(le64(s, at + 24) == loc.checksum) by {
        assert(s.subrange(at + 24, at + 32) =~= rec.subrange(24, 32));
        lemma_le64_round_trip(s, at + 24, loc.checksum as int);
    }
}

/// The packed bytes of a record are read back.
proof fn lemma_record_packed(s: Seq<u8>, at: int, name: u64, loc: EntryLoc)
    requires
        loc_fits(loc),
        0 <= at,
        at + ENTRY_SIZE <= s.len(),
        s.subrange(at, at + ENTRY_SIZE) == v34_record(name, loc),
    ensures
        s[at + 20] as int % 16 == loc.entry_type.spec_code(),
        s[at + 20] / 16 == loc.subchunk_count,
        0x1_0000 * s[at + 21] + 0x100 * s[at + 23] + s[at + 22] == loc.subchunk_index,
{
    let rec = s.subrange(at, at + ENTRY_SIZE);
    lemma_record_fields(name, loc);
    assert(s[at + 20] == rec[20]);
    assert(s[at + 21] == rec[21]);
    assert(s[at + 22] == rec[22]);
    assert(s[at + 23] == rec[23]);
    lemma_index_bytes(loc.subchunk_index as int);
}

/// Decoding a version 3.4 record gives back the name and the location that it
/// was written from.
pub proof fn law_record_round_trip(s: Seq<u8>, at: int, name: u64, loc: EntryLoc)
    requires
        loc_fits(loc),
        0 <= at,
        at + ENTRY_SIZE <= s.len(),
        s.subrange(at, at + ENTRY_SIZE) == v34_record(name, loc),
    ensures
        entry_type_of(s[at + 20] as int % 16) == Some(loc.entry_type),
        record_at(s, at, EntryLayout::V3_4) == (TocEntry { name, loc }),
{
    lemma_record_integers(s, at, name, loc);
    lemma_record_packed(s, at, name, loc);
}

proof fn lemma_no_bad_type(s: Seq<u8>, i: int, count: int)
    requires
        0 <= i,
        forall|j: int|
            0 <= j < count ==> entry_type_of(
                #[trigger] s[HEADER_SIZE + j * ENTRY_SIZE + 20] as int % 16,
            ) is Some,
    ensures
        first_bad_type(s, i, count) is None,
    decreases count - i,
{
    if i < count {
        lemma_no_bad_type(s, i + 1, count);
    }
}

proof fn lemma_header_fields(a: Seq<u8>, b: Seq<u8>, c: Seq<u8>, d: Seq<u8>, e: Seq<u8>)
    requires
        a.len() == 4,
        b.len() == 256,
        c.len() == 8,
        d.len() == 4,
    ensures
        ({
            let s = a + b + c + d + e;
            &&& s.len() == HEADER_SIZE + e.len()
            &&& s[0] == a[0]
            &&& s[1] == a[1]
            &&& s[2] == a[2]
            &&& s[3] == a[3]
            &&& s.subrange(4, 260) == b
            &&& s.subrange(268, 272) == d
            &&& forall|i: int| HEADER_SIZE <= i < s.len() ==> s[i] == e[i - HEADER_SIZE]
        }),
{
    let s = a + b + c + d + e;
    assert(s.subrange(4, 260) =~= b);
    assert(s.subrange(268, 272) =~= d);
}

/// The header that is written declares the number of entries.
pub proof fn lemma_declared_count(
    signature: Seq<u8>,
    checksum: Seq<u8>,
    count: int,
    rest: Seq<u8>,
)
    requires
        signature.len() == 256,
        checksum.len() == 8,
        0 <= count <= u32::MAX,
    ensures
        declared_count(header_bytes(signature, checksum, count) + rest) == count,
{
    let s = header_bytes(signature, checksum, count) + rest;
    let start = seq![MAGIC_0, MAGIC_1, LATEST_MAJOR, LATEST_MINOR];
    lemma_header_fields(start, signature, checksum, le32_bytes(count), rest);
    assert(s =~= start + signature + checksum + le32_bytes(count) + rest);
    lemma_le32_round_trip(s, 268, count);
}

/// A version 3.4 header followed by its records, and by whatever comes next,
/// is read back as written: same version, same signature, same entries.
pub proof fn law_toc_round_trip(
    signature: Seq<u8>,
    checksum: Seq<u8>,
    entries: Seq<TocEntry>,
    payload: Seq<u8>,
)
    requires
        signature.len() == 256,
        checksum.len() == 8,
        entries.len() <= u32::MAX,
        forall|i: int| 0 <= i < entries.len() ==> loc_fits(#[trigger] entries[i].loc),
    ensures
        ({
            let s = header_bytes(signature, checksum, entries.len() as int) + toc_bytes(entries)
                + payload;
            &&& toc_error(s) is None
            &&& s[2] == LATEST_MAJOR
            &&& s[3] == LATEST_MINOR
            &&& s.subrange(4, 260) == signature
            &&& toc_records(s) == entries
        }),
{
    let count = entries.len() as int;
    let header = header_bytes(signature, checksum, count);
    let toc = toc_bytes(entries);
    let s = header + toc + payload;
    lemma_toc_bytes_len(entries);
    let start = seq![MAGIC_0, MAGIC_1, LATEST_MAJOR, LATEST_MINOR];
    lemma_header_fields(start, signature, checksum, le32_bytes(count), toc + payload);
    assert(s =~= start + signature + checksum + le32_bytes(count) + (toc + payload));
    assert(le32(s, 268) == count) by {
        lemma_le32_round_trip(s, 268, count);
    }
    assert forall|i: int| 0 <= i < count implies {
        &&& entry_type_of(#[trigger] s[HEADER_SIZE + i * ENTRY_SIZE + 20] as int % 16) is Some
        &&& record_at(s, HEADER_SIZE + i * ENTRY_SIZE, EntryLayout::V3_4) == entries[i]
    } by {
        let at = HEADER_SIZE + i * ENTRY_SIZE;
        lemma_toc_bytes_at(entries, i);
        assert(s.subrange(at, at + ENTRY_SIZE) =~= toc.subrange(
            i * ENTRY_SIZE,
            i * ENTRY_SIZE + ENTRY_SIZE,
        ));
        law_record_round_trip(s, at, entries[i].name, entries[i].loc);
    }
    lemma_no_bad_type(s, 0, count);
    assert(toc_records(s) =~= entries) by {
        assert forall|i: int| 0 <= i < count implies toc_records(s)[i] == entries[i] by {
            let b = s[HEADER_SIZE + i * ENTRY_SIZE + 20];
        }
    }
}

} // verus!
