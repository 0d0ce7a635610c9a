//! Reader for version 3 archives.
//!
//! An archive is a header of 272 bytes, a table of contents with 32 bytes per
//! file, and the files. The table is sorted by name hash, so that a file is
//! found by binary search.

use crate::bytes::{le32, le64, read_u32, read_u64};
use crate::codecs::{zstd_content, zstd_decompress};
use vstd::prelude::*;
use vstd::slice::{slice_subrange, slice_to_vec};

verus! {

pub const HEADER_SIZE: usize = 272;

pub const TOC_ENTRY_SIZE: usize = 32;

/// How a file is stored.
#[derive(Debug, Clone, Copy, PartialEq, Eq, Structural)]
pub enum CompressionType {
    Raw,
    Gzip,
    Satellite,
    Zstd,
    ZstdChunked,
    Unknown(u8),
}

/// How a file is stored, by its code.
pub open spec fn compression_of(b: u8) -> CompressionType {
    if b == 0 {
        CompressionType::Raw
    } else if b == 1 {
        CompressionType::Gzip
    } else if b == 2 {
        CompressionType::Satellite
    } else if b == 3 {
        CompressionType::Zstd
    } else if b == 4 {
        CompressionType::ZstdChunked
    } else {
        CompressionType::Unknown(b)
    }
}

impl From<u8> for CompressionType {
    fn from(b: u8) -> (r: Self) {
        match b {
            0 => CompressionType::Raw,
            1 => CompressionType::Gzip,
            2 => CompressionType::Satellite,
            3 => CompressionType::Zstd,
            4 => CompressionType::ZstdChunked,
            n => CompressionType::Unknown(n),
        }
    }
}

impl vstd::std_specs::convert::FromSpecImpl<u8> for CompressionType {
    open spec fn obeys_from_spec() -> bool {
        true
    }

    open spec fn from_spec(b: u8) -> CompressionType {
        compression_of(b)
    }
}

/// Why an archive or a file in it cannot be read.
#[derive(Debug, Clone, Copy, PartialEq, Eq, Structural)]
pub enum ReaderError {
    /// Too short for a header.
    TooSmall,
    BadMagic,
    UnsupportedVersion { major: u8 },
    /// The table of contents is longer than the archive.
    TocOutOfBounds,
    /// A file lies outside the archive.
    PayloadOutOfBounds,
    ZstdFailed,
    GzipUnsupported,
    ZstdChunkedUnsupported,
    SatelliteUnsupported,
    UnknownCompression { code: u8 },
}

/// What the table of contents says of a file.
#[derive(Debug, Clone, Copy, PartialEq, Eq, Structural)]
pub struct WadEntry {
    pub name_hash: u64,
    pub offset: u32,
    pub size_compressed: u32,
    pub size_decompressed: u32,
    pub compression: CompressionType,
}

/// Why an archive cannot be read.
pub open spec fn open_error(data: Seq<u8>) -> Option<ReaderError> {
    if data.len() < HEADER_SIZE {
        Some(ReaderError::TooSmall)
    } else if data[0] != 0x52 || data[1] != 0x57 {
        Some(ReaderError::BadMagic)
    } else if data[2] != 3 {
        Some(ReaderError::UnsupportedVersion { major: data[2] })
    } else if data.len() < HEADER_SIZE + le32(data, 268) * TOC_ENTRY_SIZE {
        Some(ReaderError::TocOutOfBounds)
    } else {
        None
    }
}

/// What the table of contents says of the file at `i`.
pub open spec fn entry_in(data: Seq<u8>, i: int) -> WadEntry {
    let at = HEADER_SIZE + i * TOC_ENTRY_SIZE;
    WadEntry {
        name_hash: le64(data, at) as u64,
        offset: le32(data, at + 8) as u32,
        size_compressed: le32(data, at + 12) as u32,
        size_decompressed: le32(data, at + 16) as u32,
        compression: compression_of(data[at + 20]),
    }
}

/// The table of contents.
pub open spec fn entries_in(data: Seq<u8>) -> Seq<WadEntry> {
    Seq::new(le32(data, 268) as nat, |i: int| entry_in(data, i))
}

/// Whether files are in the order of their name hashes.
pub open spec fn sorted_by_hash(entries: Seq<WadEntry>) -> bool {
    forall|i: int, j: int|
        0 <= i <= j < entries.len() ==> #[trigger] entries[i].name_hash
            <= #[trigger] entries[j].name_hash
}

/// Whether some file has the name hash.
pub open spec fn has_hash(entries: Seq<WadEntry>, hash: u64) -> bool {
    exists|i: int| 0 <= i < entries.len() && (#[trigger] entries[i]).name_hash == hash
}

/// Where binary search between `low` and `high` finds the name hash: it looks
/// at the middle, and goes on in the half where the hash belongs.
pub open spec fn search(entries: Seq<WadEntry>, hash: u64, low: int, high: int) -> Option<int>
    decreases high - low,
{
    if low >= high {
        None
    } else {
        let mid = low + (high - low) / 2;
        if entries[mid].name_hash == hash {
            Some(mid)
        } else if entries[mid].name_hash < hash {
            search(entries, hash, mid + 1, high)
        } else {
            search(entries, hash, low, mid)
        }
    }
}

/// The file that is found by its name hash.
pub open spec fn found(entries: Seq<WadEntry>, hash: u64) -> Option<WadEntry> {
    match search(entries, hash, 0, entries.len() as int) {
        Some(i) => Some(entries[i]),
        None => None,
    }
}

/// What is found has the hash. In a sorted table a file is found exactly where
/// there is one with the hash.
pub proof fn law_found(entries: Seq<WadEntry>, hash: u64)
    ensures
        match found(entries, hash) {
            Some(e) => e.name_hash == hash && entries.contains(e),
            None => sorted_by_hash(entries) ==> !has_hash(entries, hash),
        },
{
    lemma_search(entries, hash, 0, entries.len() as int);
}

proof fn lemma_search(entries: Seq<WadEntry>, hash: u64, low: int, high: int)
    requires
        0 <= low <= high <= entries.len(),
    ensures
        match search(entries, hash, low, high) {
            Some(i) => low <= i < high && entries[i].name_hash == hash,
            None => sorted_by_hash(entries) ==> forall|j: int|
                low <= j < high ==> (#[trigger] entries[j]).name_hash != hash,
        },
    decreases high - low,
{
    if low < high {
        let mid = low + (high - low) / 2;
        if entries[mid].name_hash < hash {
            lemma_search(entries, hash, mid + 1, high);
        } else if entries[mid].name_hash > hash {
            lemma_search(entries, hash, low, mid);
        }
    }
}

/// The content of a file.
pub open spec fn extracted(data: Seq<u8>, e: WadEntry) -> Result<Seq<u8>, ReaderError> {
    if e.offset + e.size_compressed > data.len() {
        Err(ReaderError::PayloadOutOfBounds)
    } else {
        let payload = data.subrange(e.offset as int, e.offset + e.size_compressed);
        match e.compression {
            CompressionType::Raw => Ok(payload),
            CompressionType::Zstd => match zstd_content(payload) {
                Some(content) => if content.len() <= e.size_decompressed && e.size_decompressed
                    <= isize::MAX {
                    Ok(content)
                } else {
                    Err(ReaderError::ZstdFailed)
                },
                None => Err(ReaderError::ZstdFailed),
            },
            CompressionType::Gzip => Err(ReaderError::GzipUnsupported),
            CompressionType::ZstdChunked => Err(ReaderError::ZstdChunkedUnsupported),
            CompressionType::Satellite => Err(ReaderError::SatelliteUnsupported),
            CompressionType::Unknown(code) => Err(ReaderError::UnknownCompression { code }),
        }
    }
}

/// An archive that is being read.
pub struct WadReader<'a> {
    data: &'a [u8],
    entries: Vec<WadEntry>,
}

impl<'a> WadReader<'a> {
    /// The bytes of the archive.
    pub closed spec fn bytes(&self) -> Seq<u8> {
        self.data@
    }

    /// The table of contents.
    pub closed spec fn toc(&self) -> Seq<WadEntry> {
        self.entries@
    }

    pub fn new(data: &'a [u8]) -> (r: Result<Self, ReaderError>)
        ensures
            match r {
                Ok(w) => open_error(data@) is None && w.bytes() == data@ && w.toc() == entries_in(
                    data@,
                ),
                Err(e) => open_error(data@) == Some(e),
            },
    {
        if data.len() < HEADER_SIZE {
            return Err(ReaderError::TooSmall);
        }
        if data[0] != 0x52 || data[1] != 0x57 {
            return Err(ReaderError::BadMagic);
        }
        if data[2] != 3 {
            return Err(ReaderError::UnsupportedVersion { major: data[2] });
        }
        let count: usize = read_u32(data, 268) as usize;
        if (data.len() - HEADER_SIZE) / TOC_ENTRY_SIZE < count {
            return Err(ReaderError::TocOutOfBounds);
        }
        let mut entries: Vec<WadEntry> = Vec::new();
        let mut i: usize = 0;
        while i < count
            invariant
                i <= count,
                HEADER_SIZE + count * TOC_ENTRY_SIZE <= data@.len() <= usize::MAX,
                entries@.len() == i,
                forall|j: int| 0 <= j < i ==> #[trigger] entries@[j] == entry_in(data@, j),
            decreases count - i,
        {
            let at: usize = HEADER_SIZE + i * TOC_ENTRY_SIZE;
            entries.push(
                WadEntry {
                    name_hash: read_u64(data, at),
                    offset: read_u32(data, at + 8),
                    size_compressed: read_u32(data, at + 12),
                    size_decompressed: read_u32(data, at + 16),
                    compression: CompressionType::from(data[at + 20]),
                },
            );
            i = i + 1;
        }
        assert(entries@ =~= entries_in(data@));
        Ok(WadReader { data, entries })
    }

    pub fn entries(&self) -> (r: &[WadEntry])
        ensures
            r@ == self.toc(),
    {
        self.entries.as_slice()
    }

    /// The file with the name hash, by binary search.
    pub fn find_by_hash(&self, hash: u64) -> (r: Option<&WadEntry>)
        ensures
            match r {
                Some(e) => found(self.toc(), hash) == Some(*e),
                None => found(self.toc(), hash) is None,
            },
    {
        let mut low: usize = 0;
        let mut high: usize = self.entries.len();
        while low < high
            invariant
                low <= high <= self.entries@.len(),
                search(self.entries@, hash, 0, self.entries@.len() as int) == search(
                    self.entries@,
                    hash,
                    low as int,
                    high as int,
                ),
            decreases high - low,
        {
            let mid: usize = low + (high - low) / 2;
            let at: u64 = self.entries[mid].name_hash;
            if at == hash {
                return Some(&self.entries[mid]);
            }
            if at < hash {
                low = mid + 1;
            } else {
                high = mid;
            }
        }
        None
    }

    /// The content of a file.
    pub fn extract(&self, entry: &WadEntry) -> (r: Result<Vec<u8>, ReaderError>)
        ensures
            match r {
                Ok(v) => extracted(self.bytes(), *entry) == Ok::<Seq<u8>, ReaderError>(v@),
                Err(e) => extracted(self.bytes(), *entry) == Err::<Seq<u8>, ReaderError>(e),
            },
    {
        let start: u64 = entry.offset as u64;
        let end: u64 = start + entry.size_compressed as u64;
        if end > self.data.len() as u64 {
            return Err(ReaderError::PayloadOutOfBounds);
        }
        let payload = slice_subrange(self.data, start as usize, end as usize);
        match entry.compression {
            CompressionType::Raw => {
                let v = slice_to_vec(payload);
                assert(v@ =~= payload@);
                Ok(v)
            },
            CompressionType::Zstd => {
                if entry.size_decompressed as u64 > isize::MAX as u64 {
                    return Err(ReaderError::ZstdFailed);
                }
                match zstd_decompress(payload, entry.size_decompressed as usize) {
                    Some(v) => Ok(v),
                    None => Err(ReaderError::ZstdFailed),
                }
            },
            CompressionType::Gzip => Err(ReaderError::GzipUnsupported),
            CompressionType::ZstdChunked => Err(ReaderError::ZstdChunkedUnsupported),
            CompressionType::Satellite => Err(ReaderError::SatelliteUnsupported),
            CompressionType::Unknown(code) => Err(ReaderError::UnknownCompression { code }),
        }
    }
}

} // verus!
