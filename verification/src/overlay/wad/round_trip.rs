//! What reading gives back of what was written.

use super::archive::{
    all_marked, archive_bytes, archive_header, ascending, digest_input, entries_upto,
    first_payload_error, header_checksum, layout_of, layout_upto, lemma_listing, lists_ascending,
    loc_for, loc_with, named_entries, payload_index, payload_of, payload_start, placed,
    read_content, read_error, records_of, tried_upto, written_marks, Content, Layout,
    MAX_ENTRY_SIZE,
};
use super::entry::{
    bare, checksum_of, compressed, decompressed, entry_at, entry_wf, lemma_frame_start_unique,
    optimal_form, raw_entry, staying, stays, Entry,
};
use super::marks::{lemma_with_marks, marked, with_mark};
use super::toc::{
    header_bytes, law_toc_round_trip, lemma_toc_bytes_len, loc_fits, toc_bytes, EntryLoc,
    HEADER_SIZE, TocEntry, WadError,
};
use crate::bytes::le64_bytes;
use crate::codecs::zstd_content;
use vstd::prelude::*;

verus! {

broadcast use {crate::bytes::lemma_le32_bytes_len, crate::bytes::lemma_le64_bytes_len};

/// What reading gives back of an entry that was written: it carries its
/// checksum, and only multi-frame entries have subchunks.
pub open spec fn stored_form(o: Entry) -> Entry {
    Entry {
        subchunk_count: if o.entry_type is ZstdMulti {
            o.subchunk_count
        } else {
            0
        },
        subchunk_index: if o.entry_type is ZstdMulti {
            o.subchunk_index
        } else {
            0
        },
        size_decompressed: if o.entry_type is Raw || o.entry_type is Link {
            o.bytes.len() as u64
        } else {
            o.size_decompressed
        },
        known_checksum: checksum_of(o),
        id: 0,
        ..o
    }
}

/// The form in which an entry is written.
pub open spec fn written_form(e: Entry, m: Seq<bool>) -> Entry {
    optimal_form(e, m)->Ok_0
}

/// Whether `loc` says where the payload of `o` stands in `data`, the first byte
/// of which stands at `start` in the file.
spec fn loc_holds(data: Seq<u8>, start: int, loc: EntryLoc, o: Entry) -> bool {
    &&& loc == loc_for(o, loc.offset)
    &&& start <= loc.offset < MAX_ENTRY_SIZE
    &&& o.bytes.len() < MAX_ENTRY_SIZE
    &&& o.size_decompressed < MAX_ENTRY_SIZE
    &&& loc.offset - start + o.bytes.len() <= data.len()
    &&& data.subrange(loc.offset - start, loc.offset - start + o.bytes.len()) == o.bytes
}

/// Whether record `i` of a layout holds the payload of some entry, among those
/// up to `i`, with the checksum of entry `i`.
spec fn loc_is_shared(
    entries: Map<u64, Entry>,
    names: Seq<u64>,
    start: int,
    l: Layout,
    i: int,
    m: Seq<bool>,
) -> bool {
    let o = written_form(entries[names[i]], m);
    &&& optimal_form(entries[names[i]], m) is Ok
    &&& l.locs[i].checksum == checksum_of(o)
    &&& exists|k: int|
        0 <= k <= i && checksum_of(written_form(entries[#[trigger] names[k]], m)) == checksum_of(o)
            && loc_holds(l.data, start, l.locs[i], written_form(entries[names[k]], m))
}

proof fn lemma_loc_with_index(locs: Seq<EntryLoc>, checksum: u64)
    ensures
        match loc_with(locs, checksum) {
            Some(loc) => exists|i: int|
                0 <= i < locs.len() && #[trigger] locs[i] == loc && loc.checksum == checksum,
            None => true,
        },
    decreases locs.len(),
{
    if locs.len() > 0 {
        lemma_loc_with_index(locs.drop_last(), checksum);
        match loc_with(locs.drop_last(), checksum) {
            Some(loc) => {
                let i = choose|i: int|
                    0 <= i < locs.len() - 1 && #[trigger] locs.drop_last()[i] == loc
                        && loc.checksum == checksum;
                assert(locs[i] == loc);
            },
            None => {
                assert(locs[locs.len() - 1] == locs.last());
            },
        }
    }
}

/// Every record of a layout says where a payload with the right checksum
/// stands.
proof fn lemma_layout_holds(
    entries: Map<u64, Entry>,
    names: Seq<u64>,
    start: int,
    n: int,
    m: Seq<bool>,
)
    requires
        0 <= n <= names.len(),
        0 <= start,
        layout_upto(entries, names, start, n, m) is Ok,
    ensures
        ({
            let l = layout_upto(entries, names, start, n, m)->Ok_0;
            &&& l.locs.len() == n
            &&& forall|i: int|
                0 <= i < n ==> #[trigger] loc_is_shared(entries, names, start, l, i, m)
        }),
    decreases n,
{
    if n > 0 {
        lemma_layout_holds(entries, names, start, n - 1, m);
        let before = layout_upto(entries, names, start, n - 1, m)->Ok_0;
        let l = layout_upto(entries, names, start, n, m)->Ok_0;
        let o = written_form(entries[names[n - 1]], m);
        assert(placed(before, start, o) == Ok::<Layout, WadError>(l));
        assert(l.data.take(before.data.len() as int) =~= before.data);
        assert forall|i: int| 0 <= i < n implies #[trigger] loc_is_shared(
            entries,
            names,
            start,
            l,
            i,
            m,
        ) by {
            if i < n - 1 {
                assert(loc_is_shared(entries, names, start, before, i, m));
                assert(l.locs[i] == before.locs[i]);
                let k = choose|k: int|
                    0 <= k <= i && checksum_of(written_form(entries[#[trigger] names[k]], m))
                        == checksum_of(written_form(entries[names[i]], m)) && loc_holds(
                        before.data,
                        start,
                        before.locs[i],
                        written_form(entries[names[k]], m),
                    );
                lemma_loc_still_holds(
                    before.data,
                    l.data,
                    start,
                    l.locs[i],
                    written_form(entries[names[k]], m),
                );
            } else {
                match loc_with(before.locs, checksum_of(o)) {
                    Some(loc) => {
                        lemma_loc_with_index(before.locs, checksum_of(o));
                        let j = choose|j: int|
                            0 <= j < before.locs.len() && #[trigger] before.locs[j] == loc
                                && loc.checksum == checksum_of(o);
                        assert(loc_is_shared(entries, names, start, before, j, m));
                        let k = choose|k: int|
                            0 <= k <= j && checksum_of(
                                written_form(entries[#[trigger] names[k]], m),
                            ) == checksum_of(written_form(entries[names[j]], m)) && loc_holds(
                                before.data,
                                start,
                                before.locs[j],
                                written_form(entries[names[k]], m),
                            );
                        assert(l.locs[i] == loc);
                        assert(checksum_of(written_form(entries[names[k]], m)) == checksum_of(o));
                    },
                    None => {
                        let loc = l.locs[i];
                        assert(l.data.subrange(
                            loc.offset - start,
                            loc.offset - start + o.bytes.len(),
                        ) =~= o.bytes);
                        assert(loc_holds(l.data, start, loc, o));
                        assert(names[i] == names[n - 1]);
                    },
                }
            }
        }
    }
}

proof fn lemma_loc_still_holds(
    before: Seq<u8>,
    data: Seq<u8>,
    start: int,
    loc: EntryLoc,
    o: Entry,
)
    requires
        loc_holds(before, start, loc, o),
        before.len() <= data.len(),
        data.take(before.len() as int) == before,
    ensures
        loc_holds(data, start, loc, o),
{
    let a = loc.offset - start;
    assert(data.subrange(a, a + o.bytes.len()) =~= before.subrange(a, a + o.bytes.len())) by {
        assert forall|i: int| a <= i < a + o.bytes.len() implies data[i] == before[i] by {
            assert(data.take(before.len() as int)[i] == data[i]);
        }
    }
}

/// Whether the records keep the subchunks of every entry that is written.
pub open spec fn subchunks_fit(entries: Map<u64, Entry>, m: Seq<bool>) -> bool {
    forall|n: u64| #[trigger]
        entries.contains_key(n) && optimal_form(entries[n], m) is Ok ==> written_form(
            entries[n],
            m,
        ).subchunk_count < 16 && written_form(entries[n], m).subchunk_index < 0x100_0000
}

/// Whether two entries have the same type, payload and size.
pub open spec fn same_payload(a: Entry, b: Entry) -> bool {
    &&& a.entry_type == b.entry_type
    &&& a.bytes == b.bytes
    &&& a.size_decompressed == b.size_decompressed
}

/// Whether entries that are written under one checksum have one payload.
pub open spec fn checksums_tell(entries: Map<u64, Entry>, m: Seq<bool>) -> bool {
    forall|a: u64, b: u64|
        #![trigger entries.contains_key(a), entries.contains_key(b)]
        entries.contains_key(a) && entries.contains_key(b) && checksum_of(
            written_form(entries[a], m),
        ) == checksum_of(written_form(entries[b], m)) ==> same_payload(
            written_form(entries[a], m),
            written_form(entries[b], m),
        )
}

/// Whether entries that are written under one checksum are the same, down to
/// their subchunks.
pub open spec fn checksums_distinguish(entries: Map<u64, Entry>, m: Seq<bool>) -> bool {
    forall|a: u64, b: u64|
        #![trigger entries.contains_key(a), entries.contains_key(b)]
        entries.contains_key(a) && entries.contains_key(b) && checksum_of(
            written_form(entries[a], m),
        ) == checksum_of(written_form(entries[b], m)) ==> stored_form(written_form(entries[a], m))
            == stored_form(written_form(entries[b], m))
}

/// What reading gives back of an archive that was written.
pub open spec fn stored_content(c: Content, m: Seq<bool>) -> Content {
    Content {
        entries: c.entries.map_values(|e: Entry| stored_form(written_form(e, m))),
        signature: c.signature,
    }
}

proof fn lemma_no_payload_error(s: Seq<u8>, toc: Seq<TocEntry>, i: int)
    requires
        0 <= i,
        forall|j: int| 0 <= j < toc.len() ==> #[trigger] payload_of(s, toc, j) is Ok,
    ensures
        first_payload_error(s, toc, i) is None,
    decreases toc.len() - i,
{
    if i < toc.len() {
        assert(payload_of(s, toc, i) is Ok);
        lemma_no_payload_error(s, toc, i + 1);
    }
}

proof fn lemma_entries_upto(s: Seq<u8>, toc: Seq<TocEntry>, expected: Map<u64, Entry>, n: int)
    requires
        0 <= n <= toc.len(),
        forall|j: int|
            0 <= j < toc.len() ==> #[trigger] payload_of(s, toc, j) == Ok::<Entry, WadError>(
                expected[toc[j].name],
            ),
    ensures
        forall|x: u64| #[trigger]
            entries_upto(s, toc, n).contains_key(x) <==> exists|j: int|
                0 <= j < n && #[trigger] toc[j].name == x,
        forall|x: u64| #[trigger]
            entries_upto(s, toc, n).contains_key(x) ==> entries_upto(s, toc, n)[x] == expected[x],
    decreases n,
{
    if n > 0 {
        lemma_entries_upto(s, toc, expected, n - 1);
        let before = entries_upto(s, toc, n - 1);
        let now = entries_upto(s, toc, n);
        assert(payload_of(s, toc, n - 1) == Ok::<Entry, WadError>(expected[toc[n - 1].name]));
        assert forall|x: u64| #[trigger] now.contains_key(x) <==> exists|j: int|
            0 <= j < n && #[trigger] toc[j].name == x by {
            if now.contains_key(x) {
                if x == toc[n - 1].name {
                } else {
                    assert(before.contains_key(x));
                }
            }
            if exists|j: int| 0 <= j < n && #[trigger] toc[j].name == x {
                let j = choose|j: int| 0 <= j < n && #[trigger] toc[j].name == x;
                if j < n - 1 {
                    assert(before.contains_key(x));
                }
            }
        }
    }
}

/// The payload of a record that shares its location with the first of its
/// checksum is its own.
proof fn lemma_payload_shared(toc: Seq<TocEntry>, i: int)
    requires
        0 <= i < toc.len(),
    ensures
        0 <= payload_index(toc, i) <= i,
        toc[payload_index(toc, i)].loc.checksum == toc[i].loc.checksum,
{
    let sums = toc.map_values(|t: TocEntry| t.loc.checksum);
    assert(sums[i] == toc[i].loc.checksum);
    sums.index_of_first_ensures(toc[i].loc.checksum);
    if toc[i].loc.checksum != 0 {
        let p = payload_index(toc, i);
        assert(sums[p] == toc[p].loc.checksum);
    }
}

/// Reading the payload at a location that holds it gives the stored form.
proof fn lemma_entry_at_loc(s: Seq<u8>, start: int, data: Seq<u8>, loc: EntryLoc, o: Entry)
    requires
        0 <= start,
        s.len() == start + data.len(),
        s.skip(start) == data,
        loc_holds(data, start, loc, o),
    ensures
        entry_at(s, loc) == Ok::<Entry, WadError>(stored_form(o)),
{
    let a = loc.offset - start;
    assert(s.subrange(loc.offset as int, loc.offset + loc.size) =~= data.subrange(
        a,
        a + o.bytes.len(),
    )) by {
        assert forall|i: int| a <= i < a + loc.size implies data[i] == #[trigger] s[start + i] by {
            assert(s.skip(start)[i] == s[start + i]);
        }
    }
}

/// The locations of a layout fit into records.
proof fn lemma_layout_fits(
    entries: Map<u64, Entry>,
    names: Seq<u64>,
    start: int,
    l: Layout,
    i: int,
    m: Seq<bool>,
)
    requires
        0 <= i < names.len(),
        subchunks_fit(entries, m),
        forall|j: int| 0 <= j < names.len() ==> entries.contains_key(#[trigger] names[j]),
        forall|j: int| 0 <= j < names.len() ==> #[trigger] loc_is_shared(
            entries,
            names,
            start,
            l,
            j,
            m,
        ),
    ensures
        loc_fits(l.locs[i]),
{
    assert(loc_is_shared(entries, names, start, l, i, m));
    let k = choose|k: int|
        0 <= k <= i && checksum_of(written_form(entries[#[trigger] names[k]], m)) == checksum_of(
            written_form(entries[names[i]], m),
        ) && loc_holds(l.data, start, l.locs[i], written_form(entries[names[k]], m));
    assert(entries.contains_key(names[k]));
    assert(loc_is_shared(entries, names, start, l, k, m));
}

/// Whether what was read for name `j` is the stored form of an entry with its
/// checksum.
spec fn read_as(
    entries: Map<u64, Entry>,
    names: Seq<u64>,
    read: Result<Entry, WadError>,
    j: int,
    m: Seq<bool>,
) -> bool {
    exists|k: int|
        0 <= k < names.len() && checksum_of(written_form(entries[#[trigger] names[k]], m))
            == checksum_of(written_form(entries[names[j]], m)) && read == Ok::<Entry, WadError>(
            stored_form(written_form(entries[names[k]], m)),
        )
}

/// What is written of an entry that can be is one that can be.
pub proof fn lemma_written_wf(e: Entry, m: Seq<bool>)
    requires
        entry_wf(e),
        optimal_form(e, m) is Ok,
    ensures
        entry_wf(written_form(e, m)),
{
    lemma_frame_start_unique(e.bytes);
}

/// What was read for name `j` has the payload of the entry of that name.
proof fn lemma_read_as(
    entries: Map<u64, Entry>,
    names: Seq<u64>,
    read: Result<Entry, WadError>,
    j: int,
    m: Seq<bool>,
)
    requires
        0 <= j < names.len(),
        forall|i: int| 0 <= i < names.len() ==> entries.contains_key(#[trigger] names[i]),
        forall|i: int|
            0 <= i < names.len() ==> entry_wf(written_form(entries[#[trigger] names[i]], m)),
        checksums_tell(entries, m),
        read_as(entries, names, read, j, m),
    ensures
        read is Ok,
        same_payload(read->Ok_0, written_form(entries[names[j]], m)),
        checksum_of(read->Ok_0) == checksum_of(written_form(entries[names[j]], m)),
        checksums_distinguish(entries, m) ==> read->Ok_0 == stored_form(
            written_form(entries[names[j]], m),
        ),
{
    let k = choose|k: int|
        0 <= k < names.len() && checksum_of(written_form(entries[#[trigger] names[k]], m))
            == checksum_of(written_form(entries[names[j]], m)) && read == Ok::<Entry, WadError>(
            stored_form(written_form(entries[names[k]], m)),
        );
    assert(entries.contains_key(names[k]) && entries.contains_key(names[j]));
}

/// Each record of a layout is read back as an entry with the checksum of the
/// one that it was written for.
proof fn lemma_layout_read(
    entries: Map<u64, Entry>,
    names: Seq<u64>,
    start: int,
    l: Layout,
    s: Seq<u8>,
    j: int,
    m: Seq<bool>,
)
    requires
        0 <= j < names.len(),
        0 <= start,
        forall|i: int| 0 <= i < names.len() ==> entries.contains_key(#[trigger] names[i]),
        forall|i: int| 0 <= i < names.len() ==> #[trigger] loc_is_shared(
            entries,
            names,
            start,
            l,
            i,
            m,
        ),
        l.locs.len() == names.len(),
        s.len() == start + l.data.len(),
        s.skip(start) == l.data,
    ensures
        read_as(entries, names, payload_of(s, records_of(names, l.locs), j), j, m),
{
    let toc = records_of(names, l.locs);
    lemma_payload_shared(toc, j);
    let p = payload_index(toc, j);
    assert(loc_is_shared(entries, names, start, l, j, m));
    assert(loc_is_shared(entries, names, start, l, p, m));
    assert(toc[p].loc == l.locs[p]);
    assert(toc[j].loc == l.locs[j]);
    let o = written_form(entries[names[p]], m);
    let k = choose|k: int|
        0 <= k <= p && checksum_of(written_form(entries[#[trigger] names[k]], m)) == checksum_of(o)
            && loc_holds(l.data, start, l.locs[p], written_form(entries[names[k]], m));
    lemma_entry_at_loc(s, start, l.data, l.locs[p], written_form(entries[names[k]], m));
}

/// Entries that are all read back make up the map that was written.
proof fn lemma_all_read(
    s: Seq<u8>,
    names: Seq<u64>,
    locs: Seq<EntryLoc>,
    dom: Set<u64>,
    expected: Map<u64, Entry>,
)
    requires
        lists_ascending(names, dom),
        expected.dom() == dom,
        forall|j: int|
            0 <= j < names.len() ==> #[trigger] payload_of(s, records_of(names, locs), j) == Ok::<
                Entry,
                WadError,
            >(expected[names[j]]),
    ensures
        first_payload_error(s, records_of(names, locs), 0) is None,
        entries_upto(s, records_of(names, locs), names.len() as int) == expected,
{
    let toc = records_of(names, locs);
    lemma_no_payload_error(s, toc, 0);
    assert forall|j: int| 0 <= j < toc.len() implies #[trigger] payload_of(s, toc, j) == Ok::<
        Entry,
        WadError,
    >(expected[toc[j].name]) by {
        assert(toc[j].name == names[j]);
    }
    lemma_entries_upto(s, toc, expected, toc.len() as int);
    let read = entries_upto(s, toc, toc.len() as int);
    lemma_listing(names, dom);
    assert forall|x: u64| #[trigger] read.contains_key(x) <==> expected.contains_key(x) by {
        if read.contains_key(x) {
            let j = choose|j: int| 0 <= j < toc.len() && #[trigger] toc[j].name == x;
            assert(names[j] == x);
            assert(dom.contains(names[j]));
        }
        if expected.contains_key(x) {
            assert(names.contains(x));
            let j = choose|j: int| 0 <= j < names.len() && names[j] == x;
            assert(toc[j].name == x);
        }
    }
    assert(read =~= expected);
}

/// A written archive is read back: every name is there, with the type, payload,
/// size and checksum of the form in which it was written, and so is the
/// signature. Where entries of one checksum also agree in their subchunks, those
/// are read back too. Two payloads that differ but have one checksum are stored
/// as one, and subchunk fields beyond the size of a record are cut, so both are
/// left out.
#[verifier::spinoff_prover]
#[verifier::rlimit(60)]
pub proof fn law_write_read(c: Content, s: Seq<u8>, m: Seq<bool>)
    requires
        c.signature.len() == 256,
        c.entries.dom().finite(),
        c.entries.dom().len() <= u32::MAX,
        forall|n: u64| #[trigger] c.entries.contains_key(n) ==> entry_wf(c.entries[n]),
        subchunks_fit(c.entries, m),
        checksums_tell(c.entries, m),
        archive_bytes(c, m) == Ok::<Seq<u8>, WadError>(s),
    ensures
        read_error(s) is None,
        read_content(s).signature == c.signature,
        read_content(s).entries.dom() == c.entries.dom(),
        forall|n: u64| #[trigger]
            c.entries.contains_key(n) ==> ({
                let read = read_content(s).entries[n];
                let written = written_form(c.entries[n], m);
                &&& same_payload(read, written)
                &&& checksum_of(read) == checksum_of(written)
            }),
        checksums_distinguish(c.entries, m) ==> read_content(s) == stored_content(c, m),
{
    let dom = c.entries.dom();
    lemma_ascending_exists(dom);
    let names = ascending(dom);
    lemma_ascending_len(names, dom);
    let n = names.len() as int;
    let start = payload_start(n);
    let l = layout_of(c, m)->Ok_0;
    lemma_layout_holds(c.entries, names, start, n, m);
    let toc = records_of(names, l.locs);
    assert forall|j: int| 0 <= j < n implies c.entries.contains_key(#[trigger] names[j]) by {
        assert(dom.contains(names[j]));
    }
    assert forall|j: int| 0 <= j < n implies entry_wf(
        written_form(c.entries[#[trigger] names[j]], m),
    ) by {
        assert(c.entries.contains_key(names[j]));
        assert(loc_is_shared(c.entries, names, start, l, j, m));
        lemma_written_wf(c.entries[names[j]], m);
    }
    assert forall|i: int| 0 <= i < n implies loc_fits(#[trigger] toc[i].loc) by {
        lemma_layout_fits(c.entries, names, start, l, i, m);
    }
    let sum = le64_bytes(header_checksum(c.entries) as int);
    law_toc_round_trip(c.signature, sum, toc, l.data);
    lemma_toc_bytes_len(toc);
    assert(s == header_bytes(c.signature, sum, n) + toc_bytes(toc) + l.data);
    assert(s.skip(start) =~= l.data);
    let expected = Map::new(
        |x: u64| dom.contains(x),
        |x: u64| payload_of(s, toc, names.index_of(x))->Ok_0,
    );
    assert(expected.dom() =~= dom);
    assert forall|j: int| 0 <= j < n implies {
        &&& #[trigger] payload_of(s, toc, j) == Ok::<Entry, WadError>(expected[names[j]])
        &&& same_payload(expected[names[j]], written_form(c.entries[names[j]], m))
        &&& checksum_of(expected[names[j]]) == checksum_of(written_form(c.entries[names[j]], m))
        &&& checksums_distinguish(c.entries, m) ==> expected[names[j]] == stored_form(
            written_form(c.entries[names[j]], m),
        )
    } by {
        lemma_layout_read(c.entries, names, start, l, s, j, m);
        lemma_read_as(c.entries, names, payload_of(s, toc, j), j, m);
        assert(c.entries.contains_key(names[j]));
        assert(names.contains(names[j]));
        let at = names.index_of(names[j]);
        assert(names[at] == names[j]);
        assert(at == j);
    }
    lemma_all_read(s, names, l.locs, dom, expected);
    lemma_listing(names, dom);
    assert forall|x: u64| #[trigger] c.entries.contains_key(x) implies ({
        let read = read_content(s).entries[x];
        let written = written_form(c.entries[x], m);
        &&& same_payload(read, written)
        &&& checksum_of(read) == checksum_of(written)
    }) && (checksums_distinguish(c.entries, m) ==> read_content(s).entries[x] == stored_content(
        c,
        m,
    ).entries[x]) by {
        assert(dom.contains(x));
        assert(names.contains(x));
        let j = names.index_of(x);
        assert(payload_of(s, toc, j) == Ok::<Entry, WadError>(expected[names[j]]));
    }
    if checksums_distinguish(c.entries, m) {
        assert(read_content(s).entries =~= stored_content(c, m).entries);
    }
}

proof fn lemma_same_digest_input(a: Map<u64, Entry>, b: Map<u64, Entry>, names: Seq<u64>)
    requires
        forall|i: int|
            0 <= i < names.len() ==> checksum_of(a[#[trigger] names[i]]) == checksum_of(
                b[names[i]],
            ),
    ensures
        digest_input(a, names) == digest_input(b, names),
    decreases names.len(),
{
    if names.len() > 0 {
        assert forall|i: int| 0 <= i < names.len() - 1 implies checksum_of(
            a[#[trigger] names.drop_last()[i]],
        ) == checksum_of(b[names.drop_last()[i]]) by {
            assert(names.drop_last()[i] == names[i]);
        }
        lemma_same_digest_input(a, b, names.drop_last());
        assert(names.last() == names[names.len() - 1]);
    }
}

/// Archives with the same signature and the same checksums have one header.
proof fn lemma_same_header(a: Content, b: Content)
    requires
        a.signature == b.signature,
        a.entries.dom() == b.entries.dom(),
        a.entries.dom().finite(),
        forall|n: u64| #[trigger]
            a.entries.contains_key(n) ==> checksum_of(a.entries[n]) == checksum_of(b.entries[n]),
    ensures
        archive_header(a) == archive_header(b),
{
    let names = ascending(a.entries.dom());
    lemma_ascending_exists(a.entries.dom());
    assert forall|i: int| 0 <= i < names.len() implies checksum_of(
        a.entries[#[trigger] names[i]],
    ) == checksum_of(b.entries[names[i]]) by {
        assert(a.entries.dom().contains(names[i]));
        assert(a.entries.contains_key(names[i]));
    }
    lemma_same_digest_input(a.entries, b.entries, names);
}

/// A written archive starts with its header.
proof fn lemma_header_first(c: Content, s: Seq<u8>, m: Seq<bool>)
    requires
        c.signature.len() == 256,
        archive_bytes(c, m) == Ok::<Seq<u8>, WadError>(s),
    ensures
        s.take(HEADER_SIZE as int) == archive_header(c),
{
    assert(s.take(HEADER_SIZE as int) =~= archive_header(c));
}

/// An archive whose entries are all marked as stored the best way, written,
/// read back and written again over the same file, leaves the file alone: its
/// header is that of the archive that was read.
pub proof fn law_rewrite_is_idle(c: Content, s: Seq<u8>, m: Seq<bool>)
    requires
        c.signature.len() == 256,
        c.entries.dom().finite(),
        c.entries.dom().len() <= u32::MAX,
        forall|n: u64| #[trigger] c.entries.contains_key(n) ==> entry_wf(c.entries[n]),
        subchunks_fit(c.entries, m),
        checksums_tell(c.entries, m),
        all_marked(c.entries, m),
        archive_bytes(c, m) == Ok::<Seq<u8>, WadError>(s),
    ensures
        s.take(HEADER_SIZE as int) == archive_header(read_content(s)),
{
    law_write_read(c, s, m);
    lemma_header_first(c, s, m);
    lemma_same_header(c, read_content(s));
}

/// Marking an entry marks every clone of it, made before or after, and changes
/// nothing else: entries of other numbers are marked as they were.
pub proof fn law_clones_share_mark(e: Entry, clone: Entry, other: Entry, m: Seq<bool>)
    requires
        clone == e,
        other.id != e.id,
    ensures
        marked(with_mark(m, e.id), e.id),
        marked(with_mark(m, e.id), clone.id),
        marked(with_mark(m, e.id), other.id) == marked(m, other.id),
{
}

/// An entry that was stored the best way, `o`, stays as it is once it is marked.
/// What is marked, and links, keep their type and payload, and so does every
/// entry that is its own best form.
pub proof fn law_optimal_twice(e: Entry, m: Seq<bool>, o: Entry, after: Seq<bool>)
    requires
        optimal_form(e, m) == Ok::<Entry, WadError>(bare(o)),
        marked(after, o.id),
    ensures
        optimal_form(o, after) == Ok::<Entry, WadError>(bare(o)),
        marked(m, e.id) || e.entry_type is Link || stays(e) ==> bare(o) == bare(e),
{
}

/// An uncompressed entry that is compressed, in a frame with its content, and
/// decompressed again is what it was.
pub proof fn law_compression_keeps_content(e: Entry, z: Entry)
    requires
        e.entry_type is Raw,
        e.bytes.len() == e.size_decompressed,
        e.size_decompressed <= isize::MAX,
        compressed(e) == Ok::<Entry, WadError>(z),
        zstd_content(z.bytes) == Some(e.bytes),
    ensures
        decompressed(z) == Ok::<Entry, WadError>(raw_entry(e.bytes, 0)),
{
}

/// A listing is as long as what it lists.
pub proof fn lemma_ascending_len(names: Seq<u64>, dom: Set<u64>)
    requires
        dom.finite(),
        lists_ascending(names, dom),
    ensures
        names.len() == dom.len(),
    decreases names.len(),
{
    if names.len() == 0 {
        if dom.len() > 0 {
            let x = dom.choose();
            assert(dom.contains(x));
            assert(names.contains(x));
        }
    } else {
        let x = names.last();
        assert(dom.contains(names[names.len() - 1]));
        let rest = names.drop_last();
        assert(lists_ascending(rest, dom.remove(x))) by {
            assert forall|y: u64| #[trigger] dom.remove(x).contains(y) implies rest.contains(y) by {
                assert(dom.contains(y));
                let p = choose|p: int| 0 <= p < names.len() && names[p] == y;
                assert(rest[p] == y);
            }
        }
        lemma_ascending_len(rest, dom.remove(x));
    }
}

/// One more member can be listed.
proof fn lemma_list_one_more(names: Seq<u64>, dom: Set<u64>, x: u64, at: int)
    requires
        lists_ascending(names, dom),
        !dom.contains(x),
        0 <= at <= names.len(),
        forall|i: int| 0 <= i < at ==> names[i] < x,
    ensures
        exists|more: Seq<u64>| lists_ascending(more, dom.insert(x)),
    decreases names.len() - at,
{
    if at < names.len() && names[at] <= x {
        assert(dom.contains(names[at]));
        lemma_list_one_more(names, dom, x, at + 1);
    } else {
        let more = names.insert(at, x);
        assert forall|y: u64| #[trigger] dom.insert(x).contains(y) implies more.contains(y) by {
            if y == x {
                assert(more[at] == x);
            } else {
                assert(dom.contains(y));
                let p = choose|p: int| 0 <= p < names.len() && names[p] == y;
                if p < at {
                    assert(more[p] == y);
                } else {
                    assert(more[p + 1] == y);
                }
            }
        }
        assert(lists_ascending(more, dom.insert(x)));
    }
}

/// Every finite set of names has a listing.
pub proof fn lemma_ascending_exists(dom: Set<u64>)
    requires
        dom.finite(),
    ensures
        lists_ascending(ascending(dom), dom),
    decreases dom.len(),
{
    if dom.len() == 0 {
        assert(dom =~= Set::empty());
        assert(lists_ascending(Seq::<u64>::empty(), dom));
    } else {
        let x = dom.choose();
        lemma_ascending_exists(dom.remove(x));
        lemma_list_one_more(ascending(dom.remove(x)), dom.remove(x), x, 0);
        assert(dom.remove(x).insert(x) =~= dom);
    }
}

/// Writing an archive marks no entry but those that are their own best form, and
/// unmarks none. Where it is written whole, all such entries are marked.
pub proof fn law_written_marks(c: Content, m: Seq<bool>, id: nat)
    requires
        c.entries.dom().finite(),
    ensures
        marked(m, id) ==> marked(written_marks(c, m), id),
        marked(written_marks(c, m), id) && !marked(m, id) ==> exists|n: u64| #[trigger]
            c.entries.contains_key(n) && stays(c.entries[n]) && c.entries[n].id == id,
        layout_of(c, m) is Ok ==> forall|n: u64| #[trigger]
            c.entries.contains_key(n) && stays(c.entries[n]) ==> marked(
                written_marks(c, m),
                c.entries[n].id,
            ),
{
    let names = ascending(c.entries.dom());
    let total = names.len() as int;
    let start = payload_start(total);
    lemma_ascending_exists(c.entries.dom());
    let tried = tried_upto(c.entries, names, start, total, m);
    lemma_tried(c.entries, names, start, total, m);
    let es = named_entries(c.entries, names);
    let ids = staying(es.take(tried));
    lemma_with_marks(m, ids, id);
    if ids.contains(id) {
        let k = lemma_staying(es.take(tried), id);
        assert(es.take(tried)[k] == c.entries[names[k]]);
        assert(c.entries.dom().contains(names[k]));
    }
    if layout_of(c, m) is Ok {
        assert(tried == total) by {
            if total > 0 {
                assert(layout_upto(c.entries, names, start, total - 1, m) is Ok);
            }
        }
        assert forall|n: u64| #[trigger] c.entries.contains_key(n) && stays(
            c.entries[n],
        ) implies marked(written_marks(c, m), c.entries[n].id) by {
            assert(c.entries.dom().contains(n));
            let k = choose|k: int| 0 <= k < names.len() && names[k] == n;
            assert(es.take(tried)[k] == c.entries[n]);
            lemma_staying_has(es.take(tried), k);
            lemma_with_marks(m, ids, c.entries[n].id);
        }
    }
}

proof fn lemma_tried(entries: Map<u64, Entry>, names: Seq<u64>, start: int, n: int, m: Seq<bool>)
    requires
        0 <= n,
    ensures
        0 <= tried_upto(entries, names, start, n, m) <= n,
    decreases n,
{
    if n > 0 {
        lemma_tried(entries, names, start, n - 1, m);
    }
}

proof fn lemma_staying(es: Seq<Entry>, id: nat) -> (k: int)
    requires
        staying(es).contains(id),
    ensures
        0 <= k < es.len(),
        stays(es[k]),
        es[k].id == id,
    decreases es.len(),
{
    let before = staying(es.drop_last());
    if before.contains(id) {
        let k = lemma_staying(es.drop_last(), id);
        assert(es.drop_last()[k] == es[k]);
        k
    } else {
        let x = choose|x: int| 0 <= x < staying(es).len() && staying(es)[x] == id;
        if x < before.len() {
            assert(before[x] == id);
        }
        es.len() - 1
    }
}

proof fn lemma_staying_has(es: Seq<Entry>, k: int)
    requires
        0 <= k < es.len(),
        stays(es[k]),
    ensures
        staying(es).contains(es[k].id),
    decreases es.len(),
{
    let before = staying(es.drop_last());
    if k < es.len() - 1 {
        assert(es.drop_last()[k] == es[k]);
        lemma_staying_has(es.drop_last(), k);
        let x = choose|x: int| 0 <= x < before.len() && before[x] == es[k].id;
        assert(staying(es)[x] == es[k].id);
    } else {
        assert(staying(es)[before.len() as int] == es[k].id);
    }
}

/// Whether an entry can be stored: it has a best form, of at most `most` bytes, and
/// its sizes fit a record.
pub open spec fn storable(e: Entry, m: Seq<bool>, most: int) -> bool {
    &&& optimal_form(e, m) is Ok
    &&& written_form(e, m).bytes.len() <= most
    &&& written_form(e, m).size_decompressed < MAX_ENTRY_SIZE
}

/// An archive is written where every entry can be stored and all of them, at the most
/// that each takes up, fit a file.
pub proof fn law_write_succeeds(c: Content, m: Seq<bool>, most: int)
    requires
        c.entries.dom().finite(),
        0 <= most < MAX_ENTRY_SIZE,
        forall|n: u64| #[trigger] c.entries.contains_key(n) ==> storable(c.entries[n], m, most),
        payload_start(c.entries.dom().len() as int) + c.entries.dom().len() * most
            < MAX_ENTRY_SIZE,
    ensures
        archive_bytes(c, m) is Ok,
{
    let dom = c.entries.dom();
    lemma_ascending_exists(dom);
    let names = ascending(dom);
    lemma_ascending_len(names, dom);
    assert forall|j: int| 0 <= j < names.len() implies storable(
        c.entries[#[trigger] names[j]],
        m,
        most,
    ) by {
        assert(dom.contains(names[j]));
        assert(c.entries.contains_key(names[j]));
    }
    let n = names.len() as int;
    lemma_layout_succeeds(c.entries, names, payload_start(n), n, m, most);
}

proof fn lemma_layout_succeeds(
    entries: Map<u64, Entry>,
    names: Seq<u64>,
    start: int,
    n: int,
    m: Seq<bool>,
    most: int,
)
    requires
        0 <= n <= names.len(),
        0 <= start,
        0 <= most < MAX_ENTRY_SIZE,
        forall|j: int|
            0 <= j < names.len() ==> storable(entries[#[trigger] names[j]], m, most),
        start + n * most < MAX_ENTRY_SIZE,
    ensures
        layout_upto(entries, names, start, n, m) is Ok,
        layout_upto(entries, names, start, n, m)->Ok_0.data.len() <= n * most,
    decreases n,
{
    if n > 0 {
        assert((n - 1) * most + most == n * most) by (nonlinear_arith);
        lemma_layout_succeeds(entries, names, start, n - 1, m, most);
        assert(storable(entries[names[n - 1]], m, most));
    }
}

/// An archive is refused on writing for an entry that has no best form, or for one
/// that does not fit; the error says which.
pub proof fn law_write_refused(c: Content, m: Seq<bool>)
    requires
        c.entries.dom().finite(),
        archive_bytes(c, m) is Err,
    ensures
        archive_bytes(c, m)->Err_0 is EntryTooLarge || exists|n: u64| #[trigger]
            c.entries.contains_key(n) && optimal_form(c.entries[n], m) == Err::<Entry, WadError>(
                archive_bytes(c, m)->Err_0,
            ),
{
    let dom = c.entries.dom();
    lemma_ascending_exists(dom);
    let names = ascending(dom);
    let n = names.len() as int;
    let e = archive_bytes(c, m)->Err_0;
    let j = lemma_layout_refused(c.entries, names, payload_start(n), n, m);
    if !(e is EntryTooLarge) {
        assert(dom.contains(names[j]));
        assert(c.entries.contains_key(names[j]));
    }
}

proof fn lemma_layout_refused(
    entries: Map<u64, Entry>,
    names: Seq<u64>,
    start: int,
    n: int,
    m: Seq<bool>,
) -> (j: int)
    requires
        layout_upto(entries, names, start, n, m) is Err,
    ensures
        0 <= j < n,
        ({
            let e = layout_upto(entries, names, start, n, m)->Err_0;
            e is EntryTooLarge || optimal_form(entries[names[j]], m) == Err::<Entry, WadError>(e)
        }),
    decreases n,
{
    if layout_upto(entries, names, start, n - 1, m) is Err {
        lemma_layout_refused(entries, names, start, n - 1, m)
    } else {
        n - 1
    }
}

} // verus!
