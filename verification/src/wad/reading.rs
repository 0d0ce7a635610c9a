//! How the plain reader and the archives of the overlay agree on a file.

use super::reader::{entries_in, extracted, open_error, ReaderError};
use crate::bytes::{le16, le64};
use crate::codecs::zstd_content;
use crate::overlay::wad::entry::{entry_at, Entry};
use crate::overlay::wad::toc::{
    declared_count, first_bad_type, toc_error, toc_records, EntryType, ENTRY_SIZE, HEADER_SIZE,
    WadError,
};
use vstd::prelude::*;

verus! {

/// A table of contents is refused for a type just where some record has a type that
/// is none of the known ones; the first such type is named.
pub proof fn law_bad_types(s: Seq<u8>, i: int, count: int)
    requires
        0 <= i <= count,
    ensures
        first_bad_type(s, i, count) is None <==> forall|k: int|
            i <= k < count ==> #[trigger] type_nibble(s, k) <= 4,
        forall|k: int|
            i <= k < count && #[trigger] type_nibble(s, k) > 4 && (forall|j: int|
                i <= j < k ==> #[trigger] type_nibble(s, j) <= 4) ==> first_bad_type(s, i, count)
                == Some(type_nibble(s, k) as u8),
    decreases count - i,
{
    if i < count {
        law_bad_types(s, i + 1, count);
        assert(type_nibble(s, i) == s[HEADER_SIZE + i * ENTRY_SIZE + 20] as int % 16);
        if type_nibble(s, i) <= 4 {
            assert(first_bad_type(s, i, count) == first_bad_type(s, i + 1, count));
        }
    }
}

/// The low four bits of the type byte of record `k`.
pub open spec fn type_nibble(s: Seq<u8>, k: int) -> int {
    s[HEADER_SIZE + k * ENTRY_SIZE + 20] as int % 16
}

/// What an archive can be read from, the plain reader opens, and both say the same
/// of all its files: how many there are, their names, places and sizes, and, where a
/// file has no subchunks, how it is stored.
pub proof fn law_readers_agree(s: Seq<u8>, i: int)
    requires
        toc_error(s) is None,
        0 <= i < declared_count(s),
    ensures
        open_error(s) is None,
        entries_in(s).len() == toc_records(s).len(),
        ({
            let e = entries_in(s)[i];
            let r = toc_records(s)[i];
            &&& e.name_hash == r.name
            &&& e.offset == r.loc.offset
            &&& e.size_compressed == r.loc.size
            &&& e.size_decompressed == r.loc.size_decompressed
            &&& r.loc.subchunk_count == 0 ==> match r.loc.entry_type {
                EntryType::Raw => e.compression is Raw,
                EntryType::Link => e.compression is Gzip,
                EntryType::Gzip => e.compression is Satellite,
                EntryType::Zstd => e.compression is Zstd,
                EntryType::ZstdMulti => e.compression is ZstdChunked,
            }
        }),
{
    let at = HEADER_SIZE + i * ENTRY_SIZE;
    law_bad_types(s, 0, declared_count(s));
    assert(type_nibble(s, i) <= 4);
    assert(at + 32 <= s.len()) by (nonlinear_arith)
        requires
            at == HEADER_SIZE + i * ENTRY_SIZE,
            ENTRY_SIZE == 32,
            i + 1 <= declared_count(s),
            s.len() >= HEADER_SIZE + ENTRY_SIZE * declared_count(s),
    ;
}

/// An uncompressed file is extracted as the archive has it; one in a zstd frame is
/// extracted decompressed.
pub proof fn law_extracted(s: Seq<u8>, i: int, e: Entry)
    requires
        toc_error(s) is None,
        0 <= i < declared_count(s),
        toc_records(s)[i].loc.subchunk_count == 0,
        entry_at(s, toc_records(s)[i].loc) == Ok::<Entry, WadError>(e),
    ensures
        e.entry_type is Raw ==> extracted(s, entries_in(s)[i]) == Ok::<Seq<u8>, ReaderError>(
            e.bytes,
        ),
        e.entry_type is Zstd && zstd_content(e.bytes) is Some && zstd_content(e.bytes)->0.len()
            <= e.size_decompressed <= isize::MAX ==> extracted(s, entries_in(s)[i]) == Ok::<
            Seq<u8>,
            ReaderError,
        >(zstd_content(e.bytes)->0),
{
    law_readers_agree(s, i);
}

/// Records of older versions: the first has no checksums, and until the fourth the
/// place among the subchunks has 16 bits. All else stands where it does now.
pub proof fn law_older_records(s: Seq<u8>, i: int)
    requires
        toc_error(s) is None,
        0 <= i < declared_count(s),
    ensures
        ({
            let r = toc_records(s)[i];
            let at = HEADER_SIZE + i * ENTRY_SIZE;
            &&& s[3] == 0 ==> r.loc.checksum == 0
            &&& s[3] > 0 ==> r.loc.checksum == le64(s, at + 24) as u64
            &&& s[3] < 4 ==> r.loc.subchunk_index == le16(s, at + 22)
            &&& s[3] >= 4 ==> r.loc.subchunk_index == 0x1_0000 * s[at + 21] + 0x100 * s[at + 23]
                + s[at + 22]
            &&& r.loc.subchunk_count == s[at + 20] / 16
            &&& r.name == le64(s, at) as u64
        }),
{
}

} // verus!
