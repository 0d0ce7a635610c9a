//! Cached copies of map archives, patched in place and restored.
//!
//! Map archives are too large to be written anew for every overlay. A copy is
//! kept; a mod's entries are appended to it and its header and table of
//! contents are rewritten. To restore the copy, the old header and table are
//! written back and the file is cut to its old size.

use super::wad::archive::{ascending, lists_ascending, names_of, Archive, Content};
use super::wad::entry::{checksum_of, optimal_form, stays, Entry, EntryData};
use super::wad::marks::{numbers, with_marks, Marks};
use super::wad::mounted::{MountView, Mounted};
use super::wad::toc::{
    declared_count, header_bytes, law_toc_round_trip, lemma_declared_count, lemma_toc_bytes_len,
    loc_fits, toc_bytes, toc_error, toc_records, v34_record, write_header, write_v34_entry,
    ENTRY_SIZE, EntryLoc, HEADER_SIZE, LATEST_MAJOR, LATEST_MINOR, MAGIC_0, MAGIC_1, Toc, TocEntry,
    WadError,
};
use crate::bytes::{le32, le64_bytes, read_u32, u64_array, u64_bytes};
use crate::codecs::{xxh3_digest, xxh3_digest_of, xxh3_input, xxh3_new, xxh3_update};
use crate::names::{NameMap, Named};
use crate::paths::{is_under, lemma_under_by_key, path_key, FilePath, PathView};
use crate::text::copy_bytes;
use std::collections::HashMap;
use vstd::prelude::*;
use vstd::slice::{slice_subrange, slice_to_vec};
use xxhash_rust::xxh3::Xxh3;

verus! {

/// How far the patching of a file has come: its records, what is appended, and
/// how many entries were patched.
pub struct PatchState {
    pub records: Seq<TocEntry>,
    pub data: Seq<u8>,
    pub patched: nat,
}

/// The last of the first `n` records with the given name.
pub open spec fn last_named(records: Seq<TocEntry>, name: u64, n: int) -> Option<int>
    decreases n,
{
    if n <= 0 {
        None
    } else if records[n - 1].name == name {
        Some(n - 1)
    } else {
        last_named(records, name, n - 1)
    }
}

/// One entry patched into a file that was `size` bytes long: stored the best
/// way, under the marks `m`, and appended, with the record of its name pointing
/// there. Names that the file does not know are left out.
pub open spec fn patch_step(
    st: PatchState,
    size: int,
    name: u64,
    e: Entry,
    m: Seq<bool>,
) -> Result<PatchState, WadError> {
    match last_named(st.records, name, st.records.len() as int) {
        None => Ok(st),
        Some(i) => match optimal_form(e, m) {
            Err(err) => Err(err),
            Ok(o) => if size + st.data.len() + o.bytes.len() > u64::MAX || st.patched
                >= usize::MAX {
                Err(WadError::PayloadOverflow)
            } else {
                Ok(
                    PatchState {
                        records: st.records.update(
                            i,
                            TocEntry {
                                name,
                                loc: EntryLoc {
                                    entry_type: o.entry_type,
                                    subchunk_count: o.subchunk_count,
                                    subchunk_index: o.subchunk_index,
                                    offset: (size + st.data.len()) as u64,
                                    size: o.bytes.len() as u64,
                                    size_decompressed: o.size_decompressed,
                                    checksum: checksum_of(o),
                                },
                            },
                        ),
                        data: st.data + o.bytes,
                        patched: st.patched + 1,
                    },
                )
            },
        },
    }
}

/// Entries patched one after the other.
pub open spec fn patch_all(
    st: PatchState,
    size: int,
    items: Seq<(u64, Entry)>,
    m: Seq<bool>,
) -> Result<PatchState, WadError>
    decreases items.len(),
{
    if items.len() == 0 {
        Ok(st)
    } else {
        match patch_all(st, size, items.drop_last(), m) {
            Err(e) => Err(e),
            Ok(s) => patch_step(s, size, items.last().0, items.last().1, m),
        }
    }
}

/// The numbers of the entries that are found to be their own best form while
/// entries are patched one after the other. Names that the file does not know
/// are not looked at, nor is anything behind an entry that is refused.
pub open spec fn found_best(
    st: PatchState,
    size: int,
    items: Seq<(u64, Entry)>,
    m: Seq<bool>,
) -> Seq<nat>
    decreases items.len(),
{
    if items.len() == 0 {
        Seq::empty()
    } else {
        let before = found_best(st, size, items.drop_last(), m);
        let (name, e) = items.last();
        match patch_all(st, size, items.drop_last(), m) {
            Err(_) => before,
            Ok(s) => if last_named(s.records, name, s.records.len() as int) is Some && stays(e) {
                before.push(e.id)
            } else {
                before
            },
        }
    }
}

/// The entries of an archive in ascending order of names.
pub open spec fn archive_items(c: Content) -> Seq<(u64, Entry)> {
    ascending(c.entries.dom()).map_values(|n: u64| (n, c.entries[n]))
}

/// The entries of the first `n` mounts.
pub open spec fn mount_items(mounts: Named<MountView>, n: int) -> Seq<(u64, Entry)>
    decreases n,
{
    if n <= 0 {
        Seq::empty()
    } else {
        mount_items(mounts, n - 1) + archive_items(mounts[n - 1].1.archive)
    }
}

/// What the checksum in the header is taken over, given the records.
pub open spec fn record_digest_input(records: Seq<TocEntry>) -> Seq<u8>
    decreases records.len(),
{
    if records.len() == 0 {
        Seq::empty()
    } else {
        record_digest_input(records.drop_last()) + le64_bytes(records.last().name as int)
            + le64_bytes(records.last().loc.checksum as int)
    }
}

/// The checksum in the header of a file with the given records.
pub open spec fn records_checksum(records: Seq<TocEntry>) -> u64 {
    xxh3_digest_of(
        seq![MAGIC_0, MAGIC_1, LATEST_MAJOR, LATEST_MINOR] + record_digest_input(records),
    )
}

/// What a patch is: a new header and table of contents, and what is appended.
pub struct PatchView {
    pub header: Seq<u8>,
    pub toc: Seq<u8>,
    pub appended: Seq<u8>,
    pub patched: nat,
}

/// The patch of a file with the given header and table of contents (`prefix`)
/// and size by the entries of a mod, under the marks `m`; `None` where the file
/// knows none of them.
pub open spec fn patch_of(
    prefix: Seq<u8>,
    size: int,
    mounts: Named<MountView>,
    m: Seq<bool>,
) -> Result<Option<PatchView>, WadError> {
    match toc_error(prefix) {
        Some(e) => Err(e),
        None => {
            let st = PatchState { records: toc_records(prefix), data: Seq::empty(), patched: 0 };
            match patch_all(st, size, mount_items(mounts, mounts.len() as int), m) {
                Err(e) => Err(e),
                Ok(done) => if done.patched == 0 {
                    Ok(None)
                } else {
                    Ok(
                        Some(
                            PatchView {
                                header: header_bytes(
                                    prefix.subrange(4, 260),
                                    le64_bytes(records_checksum(done.records) as int),
                                    done.records.len() as int,
                                ),
                                toc: toc_bytes(done.records),
                                appended: done.data,
                                patched: done.patched,
                            },
                        ),
                    )
                },
            }
        },
    }
}

/// The marks after a patch was worked out: entries that were found to be their
/// own best form are marked.
pub open spec fn patched_marks(
    prefix: Seq<u8>,
    size: int,
    mounts: Named<MountView>,
    m: Seq<bool>,
) -> Seq<bool> {
    match toc_error(prefix) {
        Some(_) => m,
        None => {
            let st = PatchState { records: toc_records(prefix), data: Seq::empty(), patched: 0 };
            with_marks(m, found_best(st, size, mount_items(mounts, mounts.len() as int), m))
        },
    }
}

/// A patch: `header` and then `toc` are written at the start of the file, and
/// `appended` behind its end.
pub struct MapPatch {
    pub header: Vec<u8>,
    pub toc: Vec<u8>,
    pub appended: Vec<u8>,
    pub patched: usize,
}

impl View for MapPatch {
    type V = PatchView;

    open spec fn view(&self) -> PatchView {
        PatchView {
            header: self.header@,
            toc: self.toc@,
            appended: self.appended@,
            patched: self.patched as nat,
        }
    }
}

proof fn lemma_patch_error(
    st: PatchState,
    size: int,
    items: Seq<(u64, Entry)>,
    n: int,
    m: Seq<bool>,
)
    requires
        0 <= n <= items.len(),
        patch_all(st, size, items.take(n), m) is Err,
    ensures
        patch_all(st, size, items, m) == patch_all(st, size, items.take(n), m),
        found_best(st, size, items, m) == found_best(st, size, items.take(n), m),
    decreases items.len() - n,
{
    if n == items.len() {
        assert(items.take(n) =~= items);
    } else {
        assert(items.take(n + 1).drop_last() =~= items.take(n));
        lemma_patch_error(st, size, items, n + 1, m);
    }
}

/// Entries patched in two goes.
proof fn lemma_patch_parts(
    st: PatchState,
    size: int,
    a: Seq<(u64, Entry)>,
    b: Seq<(u64, Entry)>,
    m: Seq<bool>,
)
    ensures
        patch_all(st, size, a + b, m) == match patch_all(st, size, a, m) {
            Ok(s) => patch_all(s, size, b, m),
            Err(e) => Err(e),
        },
        found_best(st, size, a + b, m) == match patch_all(st, size, a, m) {
            Ok(s) => found_best(st, size, a, m) + found_best(s, size, b, m),
            Err(_) => found_best(st, size, a, m),
        },
    decreases b.len(),
{
    if b.len() == 0 {
        assert(a + b =~= a);
        assert(found_best(st, size, a, m) + Seq::<nat>::empty() =~= found_best(st, size, a, m));
    } else {
        lemma_patch_parts(st, size, a, b.drop_last(), m);
        assert((a + b).drop_last() =~= a + b.drop_last());
        assert((a + b).last() == b.last());
        if let Ok(s) = patch_all(st, size, a, m) {
            let x = found_best(st, size, a, m);
            let y = found_best(s, size, b.drop_last(), m);
            assert(x + y.push(b.last().1.id) =~= (x + y).push(b.last().1.id));
        }
    }
}

proof fn lemma_mount_items_error(
    st: PatchState,
    size: int,
    mounts: Named<MountView>,
    k: int,
    total: int,
    m: Seq<bool>,
)
    requires
        0 <= k <= total,
        patch_all(st, size, mount_items(mounts, k), m) is Err,
    ensures
        patch_all(st, size, mount_items(mounts, total), m) == patch_all(
            st,
            size,
            mount_items(mounts, k),
            m,
        ),
        found_best(st, size, mount_items(mounts, total), m) == found_best(
            st,
            size,
            mount_items(mounts, k),
            m,
        ),
    decreases total - k,
{
    if k < total {
        lemma_mount_items_error(st, size, mounts, k, total - 1, m);
        lemma_patch_parts(
            st,
            size,
            mount_items(mounts, total - 1),
            archive_items(mounts[total - 1].1.archive),
            m,
        );
    }
}

/// Patching never changes how many records there are, nor what they name.
pub proof fn lemma_patch_all_names(
    st: PatchState,
    size: int,
    items: Seq<(u64, Entry)>,
    m: Seq<bool>,
)
    requires
        patch_all(st, size, items, m) is Ok,
    ensures
        ({
            let done = patch_all(st, size, items, m)->Ok_0;
            &&& done.records.len() == st.records.len()
            &&& forall|i: int|
                0 <= i < st.records.len() ==> (#[trigger] done.records[i]).name
                    == st.records[i].name
        }),
    decreases items.len(),
{
    if items.len() > 0 {
        lemma_patch_all_names(st, size, items.drop_last(), m);
        let before = patch_all(st, size, items.drop_last(), m)->Ok_0;
        lemma_last_named(before.records, items.last().0, before.records.len() as int);
    }
}

pub proof fn lemma_last_named(records: Seq<TocEntry>, name: u64, n: int)
    requires
        0 <= n <= records.len(),
    ensures
        match last_named(records, name, n) {
            Some(i) => 0 <= i < n && records[i].name == name && forall|j: int|
                i < j < n ==> (#[trigger] records[j]).name != name,
            None => forall|j: int| 0 <= j < n ==> (#[trigger] records[j]).name != name,
        },
    decreases n,
{
    if n > 0 {
        lemma_last_named(records, name, n - 1);
    }
}

/// How long the header and the table of contents of a file are, by its header.
pub fn prefix_len(header: &[u8]) -> (r: u64)
    requires
        header@.len() == HEADER_SIZE,
    ensures
        r == HEADER_SIZE + ENTRY_SIZE * declared_count(header@),
{
    HEADER_SIZE as u64 + ENTRY_SIZE as u64 * read_u32(header, 268) as u64
}

/// The checksum in the header of a file with the given records.
pub fn compute_header_checksum(entries: &Vec<TocEntry>) -> (r: [u8; 8])
    ensures
        r@ == le64_bytes(records_checksum(entries@) as int),
{
    let mut hasher = xxh3_new();
    let start: [u8; 4] = [MAGIC_0, MAGIC_1, LATEST_MAJOR, LATEST_MINOR];
    let ghost magic = seq![MAGIC_0, MAGIC_1, LATEST_MAJOR, LATEST_MINOR];
    assert(start@ =~= magic);
    xxh3_update(&mut hasher, start.as_slice());
    let mut i: usize = 0;
    assert(entries@.take(0) =~= Seq::empty());
    assert(xxh3_input(hasher) =~= magic + record_digest_input(entries@.take(0)));
    while i < entries.len()
        invariant
            i <= entries@.len(),
            xxh3_input(hasher) == magic + record_digest_input(entries@.take(i as int)),
        decreases entries@.len() - i,
    {
        let name_bytes = u64_bytes(entries[i].name);
        let sum_bytes = u64_bytes(entries[i].loc.checksum);
        xxh3_update(&mut hasher, name_bytes.as_slice());
        xxh3_update(&mut hasher, sum_bytes.as_slice());
        i = i + 1;
        assert(entries@.take(i as int).drop_last() =~= entries@.take(i - 1));
        assert(xxh3_input(hasher) =~= magic + record_digest_input(entries@.take(i as int)));
    }
    assert(entries@.take(i as int) =~= entries@);
    u64_array(xxh3_digest(&hasher))
}

fn index_records(entries: &Vec<TocEntry>) -> (r: HashMap<u64, usize>)
    ensures
        forall|name: u64|
            #![trigger r@.contains_key(name)]
            match last_named(entries@, name, entries@.len() as int) {
                Some(i) => r@.contains_key(name) && r@[name] == i && i < entries@.len(),
                None => !r@.contains_key(name),
            },
{
    let mut index: HashMap<u64, usize> = HashMap::new();
    let mut i: usize = 0;
    while i < entries.len()
        invariant
            i <= entries@.len(),
            forall|name: u64|
                #![trigger index@.contains_key(name)]
                match last_named(entries@, name, i as int) {
                    Some(k) => index@.contains_key(name) && index@[name] == k && k < i,
                    None => !index@.contains_key(name),
                },
        decreases entries@.len() - i,
    {
        let name: u64 = entries[i].name;
        let ghost before = index@;
        index.insert(name, i);
        assert forall|other: u64| #[trigger] index@.contains_key(other) implies before.contains_key(
            other,
        ) || other == name by {}
        i = i + 1;
        assert forall|other: u64| #![trigger index@.contains_key(other)]
            match last_named(entries@, other, i as int) {
                Some(k) => index@.contains_key(other) && index@[other] == k && k < i,
                None => !index@.contains_key(other),
            } by {
            let seen = before.contains_key(other);
        }
    }
    index
}

fn write_records(entries: &Vec<TocEntry>) -> (r: Vec<u8>)
    ensures
        r@ == toc_bytes(entries@),
{
    let mut out: Vec<u8> = Vec::new();
    let mut i: usize = 0;
    assert(entries@.take(0) =~= Seq::empty());
    while i < entries.len()
        invariant
            i <= entries@.len(),
            out@ == toc_bytes(entries@.take(i as int)),
        decreases entries@.len() - i,
    {
        let mut rec: Vec<u8> = vec![0u8; ENTRY_SIZE];
        write_v34_entry(rec.as_mut_slice(), entries[i].name, &entries[i].loc);
        assert(rec@ =~= v34_record(entries@[i as int].name, entries@[i as int].loc)) by {
            broadcast use crate::bytes::lemma_le32_bytes_len, crate::bytes::lemma_le64_bytes_len;

        }
        out.append(&mut rec);
        i = i + 1;
        assert(entries@.take(i as int).drop_last() =~= entries@.take(i - 1));
    }
    assert(entries@.take(i as int) =~= entries@);
    out
}

/// Whether `index` gives the last record of every name.
spec fn indexes(index: Map<u64, usize>, records: Seq<TocEntry>) -> bool {
    forall|name: u64|
        #![trigger index.contains_key(name)]
        match last_named(records, name, records.len() as int) {
            Some(i) => index.contains_key(name) && index[name] == i && i < records.len(),
            None => !index.contains_key(name),
        }
}

/// Changing where a record points to changes no name.
#[verifier::spinoff_prover]
proof fn lemma_indexes_update(index: Map<u64, usize>, records: Seq<TocEntry>, i: int, rec: TocEntry)
    requires
        indexes(index, records),
        0 <= i < records.len(),
        rec.name == records[i].name,
    ensures
        indexes(index, records.update(i, rec)),
{
    let after = records.update(i, rec);
    assert forall|name: u64|
        #![trigger index.contains_key(name)]
        match last_named(after, name, after.len() as int) {
            Some(k) => index.contains_key(name) && index[name] == k && k < after.len(),
            None => !index.contains_key(name),
        } by {
        let seen = index.contains_key(name);
        lemma_last_named_same(records, after, name, records.len() as int);
    }
}

proof fn lemma_last_named_same(a: Seq<TocEntry>, b: Seq<TocEntry>, name: u64, n: int)
    requires
        0 <= n <= a.len(),
        a.len() == b.len(),
        forall|i: int| 0 <= i < a.len() ==> (#[trigger] a[i]).name == b[i].name,
    ensures
        last_named(a, name, n) == last_named(b, name, n),
    decreases n,
{
    if n > 0 {
        lemma_last_named_same(a, b, name, n - 1);
        assert(a[n - 1].name == b[n - 1].name);
    }
}

/// A patch in the making.
struct Patching {
    records: Vec<TocEntry>,
    data: Vec<u8>,
    patched: usize,
    /// The numbers of entries that are their own best form.
    best: Vec<usize>,
}

impl View for Patching {
    type V = PatchState;

    closed spec fn view(&self) -> PatchState {
        PatchState { records: self.records@, data: self.data@, patched: self.patched as nat }
    }
}

fn patch_entry(
    p: &mut Patching,
    index: &HashMap<u64, usize>,
    size: u64,
    name: u64,
    entry: &EntryData,
    marks: &Marks,
) -> (r: Result<(), WadError>)
    requires
        indexes(index@, old(p)@.records),
    ensures
        numbers(final(p).best@) == if last_named(
            old(p)@.records,
            name,
            old(p)@.records.len() as int,
        ) is Some && stays(entry@) {
            numbers(old(p).best@).push(entry@.id)
        } else {
            numbers(old(p).best@)
        },
        match patch_step(old(p)@, size as int, name, entry@, marks@) {
            Ok(st) => r is Ok && final(p)@ == st && indexes(index@, final(p)@.records),
            Err(e) => r == Err::<(), WadError>(e),
        },
{
    let at: usize = match index.get(&name) {
        Some(i) => *i,
        None => {
            return Ok(());
        },
    };
    proof {
        lemma_last_named(p@.records, name, p@.records.len() as int);
    }
    let ghost found = numbers(p.best@);
    if entry.payload().is_best() {
        p.best.push(entry.number());
        assert(numbers(p.best@) =~= found.push(entry@.id));
    }
    let optimized = match entry.payload().best(entry.is_optimal(marks)) {
        Ok(o) => o,
        Err(e) => {
            return Err(e);
        },
    };
    let used: u64 = p.data.len() as u64;
    let len: u64 = optimized.bytes_len() as u64;
    if used > u64::MAX - size || len > u64::MAX - size - used || p.patched == usize::MAX {
        return Err(WadError::PayloadOverflow);
    }
    let loc = EntryLoc {
        entry_type: optimized.entry_type(),
        subchunk_count: optimized.subchunk_count(),
        subchunk_index: optimized.subchunk_index(),
        offset: size + used,
        size: len,
        size_decompressed: optimized.size_decompressed(),
        checksum: optimized.checksum(),
    };
    let rec = TocEntry { name, loc };
    proof {
        lemma_indexes_update(index@, p@.records, at as int, rec);
    }
    p.records[at] = rec;
    let mut payload = slice_to_vec(optimized.bytes());
    p.data.append(&mut payload);
    p.patched = p.patched + 1;
    Ok(())
}

fn patch_archive(
    p: &mut Patching,
    index: &HashMap<u64, usize>,
    size: u64,
    archive: &Archive,
    marks: &Marks,
) -> (r: Result<(), WadError>)
    requires
        indexes(index@, old(p)@.records),
    ensures
        numbers(final(p).best@) == numbers(old(p).best@) + found_best(
            old(p)@,
            size as int,
            archive_items(archive@),
            marks@,
        ),
        match patch_all(old(p)@, size as int, archive_items(archive@), marks@) {
            Ok(st) => r is Ok && final(p)@ == st && indexes(index@, final(p)@.records),
            Err(e) => r == Err::<(), WadError>(e),
        },
{
    let names = names_of(&archive.entries);
    assert(archive.entries@.dom() =~= archive@.entries.dom());
    let ghost start = p@;
    let ghost items = archive_items(archive@);
    let ghost found = numbers(p.best@);
    let mut i: usize = 0;
    assert(items.take(0) =~= Seq::empty());
    assert(found =~= found + found_best(start, size as int, items.take(0), marks@));
    while i < names.len()
        invariant
            i <= names@.len(),
            start == old(p)@,
            found == numbers(old(p).best@),
            numbers(p.best@) == found + found_best(
                start,
                size as int,
                items.take(i as int),
                marks@,
            ),
            items == archive_items(archive@),
            items == names@.map_values(|n: u64| (n, archive@.entries[n])),
            lists_ascending(names@, archive.entries@.dom()),
            indexes(index@, p@.records),
            patch_all(start, size as int, items.take(i as int), marks@) == Ok::<
                PatchState,
                WadError,
            >(p@),
        decreases names@.len() - i,
    {
        let name: u64 = names[i];
        assert(archive.entries@.dom().contains(names@[i as int]));
        assert(items.take(i + 1).drop_last() =~= items.take(i as int));
        assert(items.take(i + 1).last() == (name, archive@.entries[name]));
        let ghost x = found_best(start, size as int, items.take(i as int), marks@);
        if let Some(entry) = archive.entries.get(&name) {
            let done = patch_entry(p, index, size, name, entry, marks);
            assert(found + x.push(entry@.id) =~= (found + x).push(entry@.id));
            if let Err(e) = done {
                proof {
                    lemma_patch_error(start, size as int, items, i + 1, marks@);
                }
                return Err(e);
            }
        }
        i = i + 1;
    }
    assert(items.take(i as int) =~= items);
    Ok(())
}

/// Works out the patch of a cached map archive by a mod. `prefix` is the header
/// and table of contents of the file, and `size` its size.
/// Entries that are their own best form are marked on the way.
pub fn patch_wad_in_place(
    prefix: &[u8],
    size: u64,
    mounts: &NameMap<Mounted>,
    marks: &mut Marks,
) -> (r: Result<Option<MapPatch>, WadError>)
    ensures
        final(marks)@ == patched_marks(prefix@, size as int, mounts@, old(marks)@),
        match r {
            Ok(Some(p)) => patch_of(prefix@, size as int, mounts@, old(marks)@) == Ok::<
                Option<PatchView>,
                WadError,
            >(Some(p@)),
            Ok(None) => patch_of(prefix@, size as int, mounts@, old(marks)@) == Ok::<
                Option<PatchView>,
                WadError,
            >(None),
            Err(e) => patch_of(prefix@, size as int, mounts@, old(marks)@) == Err::<
                Option<PatchView>,
                WadError,
            >(e),
        },
{
    broadcast use crate::bytes::lemma_le32_bytes_len, crate::bytes::lemma_le64_bytes_len;

    let toc = match Toc::read(prefix) {
        Ok(t) => t,
        Err(e) => {
            return Err(e);
        },
    };
    let ghost st0 = PatchState { records: toc_records(prefix@), data: Seq::empty(), patched: 0 };
    let signature: [u8; 256] = toc.signature;
    let index = index_records(&toc.entries);
    let mut p = Patching { records: toc.entries, data: Vec::new(), patched: 0, best: Vec::new() };
    let ghost m = marks@;
    assert(numbers(p.best@) =~= found_best(st0, size as int, mount_items(mounts@, 0), m));
    assert(p@.data =~= Seq::empty());
    let mut k: usize = 0;
    while k < mounts.len()
        invariant
            k <= mounts@.len(),
            m == old(marks)@,
            m == marks@,
            numbers(p.best@) == found_best(st0, size as int, mount_items(mounts@, k as int), m),
            toc_error(prefix@) is None,
            st0 == (PatchState { records: toc_records(prefix@), data: Seq::empty(), patched: 0 }),
            indexes(index@, p@.records),
            patch_all(st0, size as int, mount_items(mounts@, k as int), m) == Ok::<
                PatchState,
                WadError,
            >(p@),
        decreases mounts@.len() - k,
    {
        proof {
            lemma_patch_parts(
                st0,
                size as int,
                mount_items(mounts@, k as int),
                archive_items(mounts@[k as int].1.archive),
                m,
            );
        }
        if let Err(e) = patch_archive(&mut p, &index, size, &mounts.value(k).archive, marks) {
            marks.mark_all(&p.best);
            proof {
                lemma_mount_items_error(st0, size as int, mounts@, k + 1, mounts@.len() as int, m);
            }
            return Err(e);
        }
        k = k + 1;
    }
    marks.mark_all(&p.best);
    if p.patched == 0 {
        return Ok(None);
    }
    proof {
        lemma_patch_all_names(st0, size as int, mount_items(mounts@, mounts@.len() as int), m);
    }
    let checksum = compute_header_checksum(&p.records);
    let mut header: Vec<u8> = vec![0u8; HEADER_SIZE];
    write_header(header.as_mut_slice(), &signature, checksum, p.records.len() as u32);
    assert(header@ =~= header_bytes(signature@, checksum@, p@.records.len() as int));
    let toc_buf = write_records(&p.records);
    Ok(Some(MapPatch { header, toc: toc_buf, appended: p.data, patched: p.patched }))
}

/// A file after a patch.
pub open spec fn patched_file(file: Seq<u8>, p: PatchView) -> Seq<u8> {
    p.header + p.toc + file.skip((p.header.len() + p.toc.len()) as int) + p.appended
}

/// What is kept of a file to restore it.
pub struct SavedView {
    pub header: Seq<u8>,
    pub toc: Seq<u8>,
    pub size: int,
}

/// What is kept of a file whose table of contents has `count` entries.
pub open spec fn saved_of(file: Seq<u8>, count: int) -> SavedView {
    SavedView {
        header: file.take(HEADER_SIZE as int),
        toc: file.subrange(HEADER_SIZE as int, HEADER_SIZE + ENTRY_SIZE * count),
        size: file.len() as int,
    }
}

/// A file after it was restored: header and table are written over its start,
/// and it is cut to its old size.
pub open spec fn restored_file(file: Seq<u8>, saved: SavedView) -> Seq<u8> {
    (saved.header + saved.toc + file.skip((saved.header.len() + saved.toc.len()) as int)).take(
        saved.size,
    )
}

/// Whether a patch rewrites just the header and a table of `count` entries.
pub open spec fn patch_covers(p: PatchView, count: int) -> bool {
    p.header.len() == HEADER_SIZE && p.toc.len() == ENTRY_SIZE * count
}

/// A patch that is worked out for a file rewrites just the header and the table
/// of contents that the file has.
pub proof fn law_patch_covers(
    prefix: Seq<u8>,
    size: int,
    mounts: Named<MountView>,
    p: PatchView,
    m: Seq<bool>,
)
    requires
        patch_of(prefix, size, mounts, m) == Ok::<Option<PatchView>, WadError>(Some(p)),
    ensures
        patch_covers(p, declared_count(prefix)),
{
    broadcast use crate::bytes::lemma_le32_bytes_len, crate::bytes::lemma_le64_bytes_len;

    let st = PatchState { records: toc_records(prefix), data: Seq::empty(), patched: 0 };
    let items = mount_items(mounts, mounts.len() as int);
    lemma_patch_all_names(st, size, items, m);
    lemma_toc_bytes_len(patch_all(st, size, items, m)->Ok_0.records);
}

/// Restoring a file undoes a patch.
pub proof fn law_restore_undoes_patch(file: Seq<u8>, count: int, p: PatchView)
    requires
        0 <= count,
        HEADER_SIZE + ENTRY_SIZE * count <= file.len(),
        patch_covers(p, count),
    ensures
        restored_file(patched_file(file, p), saved_of(file, count)) == file,
{
    let n = HEADER_SIZE + ENTRY_SIZE * count;
    let saved = saved_of(file, count);
    let patched = patched_file(file, p);
    assert(patched.skip(n) =~= file.skip(n) + p.appended);
    assert(saved.header + saved.toc =~= file.take(n));
    assert(restored_file(patched, saved) =~= file);
}

/// A file after patches that were made one on top of the other.
pub open spec fn patched_by(file: Seq<u8>, patches: Seq<PatchView>) -> Seq<u8>
    decreases patches.len(),
{
    if patches.len() == 0 {
        file
    } else {
        patched_file(patched_by(file, patches.drop_last()), patches.last())
    }
}

/// Patches leave what follows the header and the table alone, and only add
/// behind the end.
proof fn lemma_patched_by(file: Seq<u8>, count: int, patches: Seq<PatchView>)
    requires
        0 <= count,
        HEADER_SIZE + ENTRY_SIZE * count <= file.len(),
        forall|i: int| 0 <= i < patches.len() ==> patch_covers(#[trigger] patches[i], count),
    ensures
        ({
            let n = HEADER_SIZE + ENTRY_SIZE * count;
            let now = patched_by(file, patches);
            &&& file.len() <= now.len()
            &&& now.subrange(n, file.len() as int) == file.skip(n)
        }),
    decreases patches.len(),
{
    let n = HEADER_SIZE + ENTRY_SIZE * count;
    if patches.len() == 0 {
        assert(file.subrange(n, file.len() as int) =~= file.skip(n));
    } else {
        let first = patches.drop_last();
        assert forall|i: int| 0 <= i < first.len() implies patch_covers(
            #[trigger] first[i],
            count,
        ) by {
            assert(first[i] == patches[i]);
        }
        lemma_patched_by(file, count, first);
        let before = patched_by(file, first);
        let p = patches.last();
        assert(patch_covers(patches[patches.len() - 1], count));
        let now = patched_file(before, p);
        assert(now.subrange(n, file.len() as int) =~= before.subrange(n, file.len() as int));
    }
}

/// Restoring a file undoes any number of patches, each made on top of the one
/// before: what is kept is that of the untouched file.
pub proof fn law_restore_undoes_patches(file: Seq<u8>, count: int, patches: Seq<PatchView>)
    requires
        0 <= count,
        HEADER_SIZE + ENTRY_SIZE * count <= file.len(),
        forall|i: int| 0 <= i < patches.len() ==> patch_covers(#[trigger] patches[i], count),
    ensures
        restored_file(patched_by(file, patches), saved_of(file, count)) == file,
{
    let n = HEADER_SIZE + ENTRY_SIZE * count;
    let saved = saved_of(file, count);
    let now = patched_by(file, patches);
    lemma_patched_by(file, count, patches);
    assert(saved.header + saved.toc =~= file.take(n));
    assert forall|i: int| n <= i < file.len() implies now[i] == file[i] by {
        assert(now.subrange(n, file.len() as int)[i - n] == file.skip(n)[i - n]);
    }
    assert(restored_file(now, saved) =~= file);
}

/// The header and the table of contents of a file.
pub open spec fn prefix_of(file: Seq<u8>) -> Seq<u8> {
    file.take(HEADER_SIZE + ENTRY_SIZE * declared_count(file))
}

/// What is kept of a file.
pub open spec fn saved_whole(file: Seq<u8>) -> SavedView {
    saved_of(file, declared_count(file))
}

/// A file after mods were patched into it in turn; `None` where one could not
/// be. Each comes with the marks that there were at the time.
pub open spec fn after_mods(
    file: Seq<u8>,
    mods: Seq<(Named<MountView>, Seq<bool>)>,
) -> Option<Seq<u8>>
    decreases mods.len(),
{
    if mods.len() == 0 {
        Some(file)
    } else {
        match after_mods(file, mods.drop_last()) {
            None => None,
            Some(now) => if toc_error(now) is Some {
                None
            } else {
                match patch_of(prefix_of(now), now.len() as int, mods.last().0, mods.last().1) {
                    Err(_) => None,
                    Ok(None) => Some(now),
                    Ok(Some(p)) => Some(patched_file(now, p)),
                }
            },
        }
    }
}

/// What is kept of files after mods were patched into the file at `path` in
/// turn. Before each, what restores the file is remembered.
pub open spec fn remembered(
    files: PatchedFiles,
    path: PathView,
    file: Seq<u8>,
    mods: Seq<(Named<MountView>, Seq<bool>)>,
) -> PatchedFiles
    decreases mods.len(),
{
    if mods.len() == 0 {
        files
    } else {
        with_patched(
            remembered(files, path, file, mods.drop_last()),
            path,
            saved_whole(after_mods(file, mods.drop_last())->0),
        )
    }
}

/// A patch does not change how many entries a file declares.
proof fn lemma_count_stays(file: Seq<u8>, mounts: Named<MountView>, p: PatchView, m: Seq<bool>)
    requires
        toc_error(file) is None,
        patch_of(prefix_of(file), file.len() as int, mounts, m) == Ok::<
            Option<PatchView>,
            WadError,
        >(Some(p)),
    ensures
        patch_covers(p, declared_count(file)),
        declared_count(patched_file(file, p)) == declared_count(file),
{
    broadcast use crate::bytes::lemma_le32_bytes_len, crate::bytes::lemma_le64_bytes_len;

    let prefix = prefix_of(file);
    assert(le32(prefix, 268) == le32(file, 268));
    law_patch_covers(prefix, file.len() as int, mounts, p, m);
    let st = PatchState { records: toc_records(prefix), data: Seq::empty(), patched: 0 };
    let items = mount_items(mounts, mounts.len() as int);
    let done = patch_all(st, file.len() as int, items, m)->Ok_0;
    lemma_patch_all_names(st, file.len() as int, items, m);
    let rest = p.toc + file.skip((p.header.len() + p.toc.len()) as int) + p.appended;
    assert(patched_file(file, p) =~= p.header + rest);
    lemma_declared_count(
        prefix.subrange(4, 260),
        le64_bytes(records_checksum(done.records) as int),
        done.records.len() as int,
        rest,
    );
}

/// Mods that were patched in are patches that each cover what the file
/// declares.
proof fn lemma_after_mods(
    file: Seq<u8>,
    mods: Seq<(Named<MountView>, Seq<bool>)>,
) -> (patches: Seq<PatchView>)
    requires
        after_mods(file, mods) is Some,
    ensures
        after_mods(file, mods) == Some(patched_by(file, patches)),
        declared_count(after_mods(file, mods)->0) == declared_count(file),
        forall|i: int|
            0 <= i < patches.len() ==> patch_covers(#[trigger] patches[i], declared_count(file)),
    decreases mods.len(),
{
    if mods.len() == 0 {
        Seq::empty()
    } else {
        let before = lemma_after_mods(file, mods.drop_last());
        let now = after_mods(file, mods.drop_last())->0;
        match patch_of(prefix_of(now), now.len() as int, mods.last().0, mods.last().1) {
            Ok(Some(p)) => {
                lemma_count_stays(now, mods.last().0, p, mods.last().1);
                let patches = before.push(p);
                assert(patches.drop_last() =~= before);
                assert forall|i: int| 0 <= i < patches.len() implies patch_covers(
                    #[trigger] patches[i],
                    declared_count(file),
                ) by {
                    if i < before.len() {
                        assert(patches[i] == before[i]);
                    }
                }
                patches
            },
            _ => before,
        }
    }
}

/// However many mods are patched into a file of which nothing was kept before,
/// what is kept of it is what restores it to the bytes that it had.
pub proof fn law_patched_then_restored(
    files: PatchedFiles,
    path: PathView,
    file: Seq<u8>,
    mods: Seq<(Named<MountView>, Seq<bool>)>,
)
    requires
        saved_for(files, path) is None,
        toc_error(file) is None,
        mods.len() > 0,
        after_mods(file, mods) is Some,
    ensures
        saved_for(remembered(files, path, file, mods), path) == Some(saved_whole(file)),
        restored_file(after_mods(file, mods)->0, saved_whole(file)) == file,
    decreases mods.len(),
{
    let patches = lemma_after_mods(file, mods);
    law_restore_undoes_patches(file, declared_count(file), patches);
    let before = remembered(files, path, file, mods.drop_last());
    if mods.len() == 1 {
        assert(mods.drop_last().len() == 0);
        assert(before == files);
        assert(patched_at(files, path, 0) is None);
        lemma_patched_at_pushed(files, path, saved_whole(file), 0);
    } else {
        law_patched_then_restored(files, path, file, mods.drop_last());
        assert(patched_at(before, path, 0) is Some);
    }
}

/// The table of contents of a patched file names the same entries as before,
/// and those that were patched point to what was appended. The table is read
/// back as far as its records can hold the locations.
#[verifier::spinoff_prover]
#[verifier::rlimit(30)]
pub proof fn law_patched_toc(file: Seq<u8>, mounts: Named<MountView>, p: PatchView, m: Seq<bool>)
    requires
        file.len() <= u64::MAX,
        toc_error(file) is None,
        patch_of(
            file.take(HEADER_SIZE + ENTRY_SIZE * declared_count(file)),
            file.len() as int,
            mounts,
            m,
        ) == Ok::<Option<PatchView>, WadError>(Some(p)),
        ({
            let prefix = file.take(HEADER_SIZE + ENTRY_SIZE * declared_count(file));
            let st = PatchState { records: toc_records(prefix), data: Seq::empty(), patched: 0 };
            let done = patch_all(
                st,
                file.len() as int,
                mount_items(mounts, mounts.len() as int),
                m,
            )->Ok_0;
            forall|i: int| 0 <= i < done.records.len() ==> loc_fits(#[trigger] done.records[i].loc)
        }),
    ensures
        ({
            let prefix = file.take(HEADER_SIZE + ENTRY_SIZE * declared_count(file));
            let st = PatchState { records: toc_records(prefix), data: Seq::empty(), patched: 0 };
            let done = patch_all(
                st,
                file.len() as int,
                mount_items(mounts, mounts.len() as int),
                m,
            )->Ok_0;
            &&& toc_error(patched_file(file, p)) is None
            &&& toc_records(patched_file(file, p)) == done.records
        }),
{
    broadcast use crate::bytes::lemma_le32_bytes_len, crate::bytes::lemma_le64_bytes_len;

    let n = HEADER_SIZE + ENTRY_SIZE * declared_count(file);
    let prefix = file.take(n);
    let st = PatchState { records: toc_records(prefix), data: Seq::empty(), patched: 0 };
    let items = mount_items(mounts, mounts.len() as int);
    let done = patch_all(st, file.len() as int, items, m)->Ok_0;
    lemma_patch_all_names(st, file.len() as int, items, m);
    let rest = file.skip((p.header.len() + p.toc.len()) as int) + p.appended;
    law_toc_round_trip(
        prefix.subrange(4, 260),
        le64_bytes(records_checksum(done.records) as int),
        done.records,
        rest,
    );
    assert(patched_file(file, p) =~= p.header + p.toc + rest);
}

/// What is kept of a cached map archive to restore it: `original_header` and
/// then `original_toc` are written at the start of the file, which is then cut
/// to `original_size`.
pub struct SavedMapPatch {
    pub original_header: Vec<u8>,
    pub original_toc: Vec<u8>,
    pub original_size: u64,
}

impl View for SavedMapPatch {
    type V = SavedView;

    open spec fn view(&self) -> SavedView {
        SavedView {
            header: self.original_header@,
            toc: self.original_toc@,
            size: self.original_size as int,
        }
    }
}

impl SavedMapPatch {
    /// What to keep of a file that starts with the given header and table of
    /// contents and has the given size.
    pub fn of_file(prefix: &[u8], size: u64) -> (r: Self)
        requires
            prefix@.len() >= HEADER_SIZE,
        ensures
            r@ == (SavedView {
                header: prefix@.take(HEADER_SIZE as int),
                toc: prefix@.skip(HEADER_SIZE as int),
                size: size as int,
            }),
    {
        let header = slice_to_vec(slice_subrange(prefix, 0, HEADER_SIZE));
        let toc = slice_to_vec(slice_subrange(prefix, HEADER_SIZE, prefix.len()));
        assert(header@ =~= prefix@.take(HEADER_SIZE as int));
        assert(toc@ =~= prefix@.skip(HEADER_SIZE as int));
        SavedMapPatch { original_header: header, original_toc: toc, original_size: size }
    }

    pub fn copy(&self) -> (r: Self)
        ensures
            r@ == self@,
    {
        SavedMapPatch {
            original_header: copy_bytes(&self.original_header),
            original_toc: copy_bytes(&self.original_toc),
            original_size: self.original_size,
        }
    }
}

/// A patched file and what to restore.
pub struct PatchedFile {
    pub path: FilePath,
    pub saved: SavedMapPatch,
}

impl View for PatchedFile {
    type V = (PathView, SavedView);

    open spec fn view(&self) -> (PathView, SavedView) {
        (path_key(self.path@), self.saved@)
    }
}

/// Files, by the keys of their paths, with what to restore of each.
pub type PatchedFiles = Seq<(PathView, SavedView)>;

/// Where a path stands among patched files, from `i` on.
pub open spec fn patched_at(files: PatchedFiles, path: PathView, i: int) -> Option<int>
    decreases files.len() - i,
{
    if i >= files.len() {
        None
    } else if files[i].0 == path {
        Some(i)
    } else {
        patched_at(files, path, i + 1)
    }
}

/// What to restore of a file that is patched; files that are not are not known.
pub open spec fn saved_for(files: PatchedFiles, path: PathView) -> Option<SavedView> {
    match patched_at(files, path, 0) {
        Some(i) => Some(files[i].1),
        None => None,
    }
}

/// Whether no file is kept twice.
pub open spec fn distinct_paths(files: PatchedFiles) -> bool {
    forall|i: int, j: int|
        0 <= i < j < files.len() ==> (#[trigger] files[i]).0 != (#[trigger] files[j]).0
}

/// With one more patched file. What is kept of a file that is patched already
/// stays.
pub open spec fn with_patched(
    files: PatchedFiles,
    path: PathView,
    saved: SavedView,
) -> PatchedFiles {
    if patched_at(files, path, 0) is Some {
        files
    } else {
        files.push((path, saved))
    }
}

/// Without a file that was restored.
pub open spec fn without_patched(files: PatchedFiles, path: PathView) -> PatchedFiles {
    match patched_at(files, path, 0) {
        Some(i) => files.remove(i),
        None => files,
    }
}

/// The paths of the first `n` patched files that lie under `dir`.
pub open spec fn pending_under(files: PatchedFiles, dir: PathView, n: int) -> Seq<PathView>
    decreases n,
{
    if n <= 0 {
        Seq::empty()
    } else if is_under(files[n - 1].0, dir) {
        pending_under(files, dir, n - 1).push(files[n - 1].0)
    } else {
        pending_under(files, dir, n - 1)
    }
}

/// Without those of the first `n` of `pending` that were restored.
pub open spec fn settled(
    files: PatchedFiles,
    pending: Seq<PathView>,
    ok: Seq<bool>,
    n: int,
) -> PatchedFiles
    decreases n,
{
    if n <= 0 {
        files
    } else if ok[n - 1] {
        without_patched(settled(files, pending, ok, n - 1), pending[n - 1])
    } else {
        settled(files, pending, ok, n - 1)
    }
}

/// How many of the first `n` of `pending` were restored and were known.
pub open spec fn restored_count(
    files: PatchedFiles,
    pending: Seq<PathView>,
    ok: Seq<bool>,
    n: int,
) -> nat
    decreases n,
{
    if n <= 0 {
        0
    } else {
        let known = patched_at(settled(files, pending, ok, n - 1), pending[n - 1], 0) is Some;
        restored_count(files, pending, ok, n - 1) + if ok[n - 1] && known {
            1nat
        } else {
            0nat
        }
    }
}

/// The first of `ok`, from `i` on, that is not.
pub open spec fn first_failed(ok: Seq<bool>, i: int) -> Option<int>
    decreases ok.len() - i,
{
    if i >= ok.len() {
        None
    } else if !ok[i] {
        Some(i)
    } else {
        first_failed(ok, i + 1)
    }
}

proof fn lemma_patched_at(files: PatchedFiles, path: PathView, i: int)
    requires
        0 <= i <= files.len(),
    ensures
        match patched_at(files, path, i) {
            Some(k) => i <= k < files.len() && files[k].0 == path,
            None => forall|k: int| i <= k < files.len() ==> (#[trigger] files[k]).0 != path,
        },
    decreases files.len() - i,
{
    if i < files.len() {
        lemma_patched_at(files, path, i + 1);
    }
}

/// What is kept at a position is what is kept of the path there.
proof fn lemma_saved_at(files: PatchedFiles, k: int)
    requires
        distinct_paths(files),
        0 <= k < files.len(),
    ensures
        saved_for(files, files[k].0) == Some(files[k].1),
        patched_at(files, files[k].0, 0) == Some(k),
{
    lemma_patched_at(files, files[k].0, 0);
    let i = patched_at(files, files[k].0, 0)->0;
    if i < k {
        assert(files[i].0 != files[k].0);
    } else if k < i {
        assert(files[k].0 != files[i].0);
    }
}

/// Keeping one more file keeps them distinct.
proof fn lemma_kept(files: PatchedFiles, path: PathView, saved: SavedView)
    requires
        distinct_paths(files),
    ensures
        distinct_paths(with_patched(files, path, saved)),
{
    lemma_patched_at(files, path, 0);
}

/// Forgetting a file keeps the others, and keeps them distinct.
pub proof fn law_forgotten(files: PatchedFiles, path: PathView, other: PathView)
    requires
        distinct_paths(files),
    ensures
        distinct_paths(without_patched(files, path)),
        saved_for(without_patched(files, path), other) == if other == path {
            None
        } else {
            saved_for(files, other)
        },
{
    lemma_patched_at(files, path, 0);
    lemma_patched_at(files, other, 0);
    let after = without_patched(files, path);
    lemma_patched_at(after, other, 0);
    if let Some(i) = patched_at(files, path, 0) {
        assert forall|k: int| 0 <= k < after.len() implies #[trigger] after[k] == if k < i {
            files[k]
        } else {
            files[k + 1]
        } by {}
        assert(distinct_paths(after));
        if other == path {
            if let Some(k) = patched_at(after, other, 0) {
                if k < i {
                    assert(files[k].0 != files[i].0);
                } else {
                    assert(files[i].0 != files[k + 1].0);
                }
            }
        } else if let Some(k) = patched_at(files, other, 0) {
            let to = if k < i {
                k
            } else {
                k - 1
            };
            assert(after[to] == files[k]);
            lemma_saved_at(after, to);
        } else if let Some(k) = patched_at(after, other, 0) {
            if k < i {
                assert(files[k].0 != other);
            } else {
                assert(files[k + 1].0 != other);
            }
        }
    }
}

/// The paths that are pending are those of patched files under the directory,
/// each once.
pub proof fn law_pending(files: PatchedFiles, dir: PathView, n: int)
    requires
        distinct_paths(files),
        0 <= n <= files.len(),
    ensures
        ({
            let pending = pending_under(files, dir, n);
            &&& forall|i: int|
                0 <= i < pending.len() ==> is_under(#[trigger] pending[i], dir) && exists|k: int|
                    0 <= k < n && #[trigger] files[k].0 == pending[i]
            &&& forall|k: int|
                0 <= k < n && is_under((#[trigger] files[k]).0, dir) ==> pending.contains(
                    files[k].0,
                )
            &&& pending.no_duplicates()
        }),
    decreases n,
{
    if n > 0 {
        law_pending(files, dir, n - 1);
        let before = pending_under(files, dir, n - 1);
        let pending = pending_under(files, dir, n);
        let last = files[n - 1].0;
        assert forall|i: int| 0 <= i < pending.len() implies is_under(#[trigger] pending[i], dir)
            && exists|k: int| 0 <= k < n && #[trigger] files[k].0 == pending[i] by {
            if i < before.len() {
                assert(pending[i] == before[i]);
                let k = choose|k: int| 0 <= k < n - 1 && #[trigger] files[k].0 == before[i];
                assert(files[k].0 == pending[i]);
            } else {
                assert(files[n - 1].0 == pending[i]);
            }
        }
        assert forall|k: int| 0 <= k < n && is_under((#[trigger] files[k]).0, dir) implies
            pending.contains(files[k].0) by {
            if k < n - 1 {
                assert(before.contains(files[k].0));
                let i = choose|i: int| 0 <= i < before.len() && before[i] == files[k].0;
                assert(pending[i] == files[k].0);
            } else {
                assert(pending[before.len() as int] == last);
            }
        }
        if is_under(last, dir) {
            assert(!before.contains(last)) by {
                if before.contains(last) {
                    let i = choose|i: int| 0 <= i < before.len() && before[i] == last;
                    let k = choose|k: int| 0 <= k < n - 1 && #[trigger] files[k].0 == before[i];
                    assert(files[k].0 != files[n - 1].0);
                }
            }
            assert forall|i: int, j: int|
                0 <= i < pending.len() && 0 <= j < pending.len() && i != j implies pending[i]
                != pending[j] by {
                if i < before.len() {
                    assert(pending[i] == before[i]);
                }
                if j < before.len() {
                    assert(pending[j] == before[j]);
                }
            }
        }
    }
}

/// After the first `n` pending files were restored, what is kept is that of
/// the others.
proof fn lemma_settled(
    files: PatchedFiles,
    pending: Seq<PathView>,
    ok: Seq<bool>,
    n: int,
    path: PathView,
)
    requires
        distinct_paths(files),
        0 <= n <= pending.len(),
        ok.len() == pending.len(),
        forall|i: int| 0 <= i < ok.len() ==> #[trigger] ok[i],
        pending.no_duplicates(),
        forall|i: int| 0 <= i < pending.len() ==> saved_for(files, #[trigger] pending[i]) is Some,
    ensures
        distinct_paths(settled(files, pending, ok, n)),
        saved_for(settled(files, pending, ok, n), path) == if pending.take(n).contains(path) {
            None
        } else {
            saved_for(files, path)
        },
        restored_count(files, pending, ok, n) == n,
    decreases n,
{
    if n > 0 {
        lemma_settled(files, pending, ok, n - 1, path);
        lemma_settled(files, pending, ok, n - 1, pending[n - 1]);
        let before = settled(files, pending, ok, n - 1);
        assert(ok[n - 1]);
        law_forgotten(before, pending[n - 1], path);
        let head = pending.take(n - 1);
        let all = pending.take(n);
        let last = pending[n - 1];
        assert(!head.contains(last)) by {
            if head.contains(last) {
                let i = choose|i: int| 0 <= i < head.len() && head[i] == last;
                assert(pending[i] == pending[n - 1]);
            }
        }
        assert(all =~= head.push(last));
        assert(all.contains(path) == (head.contains(path) || path == last)) by {
            if head.contains(path) {
                let i = choose|i: int| 0 <= i < head.len() && head[i] == path;
                assert(all[i] == path);
            }
            if path == last {
                assert(all[n - 1] == path);
            }
            if all.contains(path) {
                let i = choose|i: int| 0 <= i < all.len() && all[i] == path;
                if i < n - 1 {
                    assert(head[i] == path);
                }
            }
        }
        assert(saved_for(before, pending[n - 1]) is Some);
    } else {
        assert(pending.take(0).len() == 0);
    }
}

/// Where all patched files under a directory were restored, they were as many
/// as were pending, at least one where any was patched there. Of files elsewhere
/// what was kept is kept, and nothing is pending any more: restoring again finds
/// no file, and changes nothing.
pub proof fn law_restored_settles(files: PatchedFiles, dir: PathView, ok: Seq<bool>, path: PathView)
    requires
        distinct_paths(files),
        ok.len() == pending_under(files, dir, files.len() as int).len(),
        forall|i: int| 0 <= i < ok.len() ==> #[trigger] ok[i],
    ensures
        ({
            let pending = pending_under(files, dir, files.len() as int);
            let n = pending.len() as int;
            let after = settled(files, pending, ok, n);
            &&& restored_count(files, pending, ok, n) == n
            &&& is_under(path, dir) && saved_for(files, path) is Some ==> n >= 1
            &&& !is_under(path, dir) ==> saved_for(after, path) == saved_for(files, path)
            &&& pending_under(after, dir, after.len() as int).len() == 0
            &&& settled(after, Seq::empty(), Seq::empty(), 0) == after
            &&& restored_count(after, Seq::empty(), Seq::empty(), 0) == 0
        }),
{
    let pending = pending_under(files, dir, files.len() as int);
    let n = pending.len() as int;
    let after = settled(files, pending, ok, n);
    law_pending(files, dir, files.len() as int);
    assert forall|i: int| 0 <= i < pending.len() implies saved_for(
        files,
        #[trigger] pending[i],
    ) is Some by {
        let k = choose|k: int| 0 <= k < files.len() && #[trigger] files[k].0 == pending[i];
        lemma_saved_at(files, k);
    }
    assert(pending.take(n) =~= pending);
    lemma_settled(files, pending, ok, n, path);
    lemma_patched_at(files, path, 0);
    if is_under(path, dir) && saved_for(files, path) is Some {
        let k = patched_at(files, path, 0)->0;
        assert(pending.contains(files[k].0));
    }
    if !is_under(path, dir) && pending.contains(path) {
        let i = choose|i: int| 0 <= i < pending.len() && pending[i] == path;
        assert(is_under(pending[i], dir));
    }
    let left = pending_under(after, dir, after.len() as int);
    law_pending(after, dir, after.len() as int);
    if left.len() > 0 {
        assert(is_under(left[0], dir));
        let k = choose|k: int| 0 <= k < after.len() && #[trigger] after[k].0 == left[0];
        lemma_saved_at(after, k);
        lemma_settled(files, pending, ok, n, left[0]);
        lemma_patched_at(files, left[0], 0);
        let at = patched_at(files, left[0], 0)->0;
        assert(pending.contains(files[at].0));
    }
}

fn same_path(a: &FilePath, b: &FilePath) -> (r: bool)
    ensures
        r == (path_key(a@) == path_key(b@)),
{
    if a.parts.len() != b.parts.len() {
        assert(path_key(a@).len() != path_key(b@).len());
        return false;
    }
    let r = a.strip_prefix(b).is_some();
    assert(path_key(a@).take(b@.len() as int) =~= path_key(a@));
    r
}

/// Patched files as values.
pub open spec fn file_views(files: Seq<PatchedFile>) -> PatchedFiles {
    files.map_values(|f: PatchedFile| f@)
}

/// The cached map archives that are patched, each with what restores it.
pub struct MapPatchState {
    states: Vec<PatchedFile>,
}

impl View for MapPatchState {
    type V = PatchedFiles;

    closed spec fn view(&self) -> PatchedFiles {
        file_views(self.states@)
    }
}

impl MapPatchState {
    #[verifier::type_invariant]
    spec fn wf(&self) -> bool {
        distinct_paths(self@)
    }

    pub fn new() -> (r: Self)
        ensures
            r@ == Seq::<(PathView, SavedView)>::empty(),
    {
        let r = MapPatchState { states: Vec::new() };
        assert(r@ =~= Seq::<(PathView, SavedView)>::empty());
        r
    }

    fn position(&self, path: &FilePath) -> (r: Option<usize>)
        ensures
            match r {
                Some(i) => {
                    &&& patched_at(self@, path_key(path@), 0) == Some(i as int)
                    &&& i < self@.len()
                },
                None => patched_at(self@, path_key(path@), 0) is None,
            },
    {
        let mut i: usize = 0;
        while i < self.states.len()
            invariant
                i <= self.states@.len(),
                patched_at(self@, path_key(path@), 0) == patched_at(
                    self@,
                    path_key(path@),
                    i as int,
                ),
            decreases self.states@.len() - i,
        {
            assert(self@[i as int] == self.states@[i as int]@);
            if same_path(&self.states[i].path, path) {
                return Some(i);
            }
            i = i + 1;
        }
        None
    }

    /// What restores a file.
    pub fn get(&self, path: &FilePath) -> (r: Option<SavedMapPatch>)
        ensures
            match r {
                Some(s) => saved_for(self@, path_key(path@)) == Some(s@),
                None => saved_for(self@, path_key(path@)) is None,
            },
    {
        match self.position(path) {
            Some(i) => {
                assert(self@[i as int] == self.states@[i as int]@);
                Some(self.states[i].saved.copy())
            },
            None => None,
        }
    }

    /// Keeps what restores a file, unless something is kept of it already: the
    /// file is then patched, and what it was before is what counts.
    pub fn remember(&mut self, path: &FilePath, saved: SavedMapPatch)
        ensures
            final(self)@ == with_patched(old(self)@, path_key(path@), saved@),
    {
        if self.position(path).is_some() {
            return ;
        }
        proof {
            use_type_invariant(&*self);
            lemma_kept(self@, path_key(path@), saved@);
        }
        let ghost before = self@;
        let mut states: Vec<PatchedFile> = Vec::new();
        std::mem::swap(&mut states, &mut self.states);
        states.push(PatchedFile { path: path.clone(), saved });
        assert(file_views(states@) =~= before.push((path_key(path@), saved@)));
        self.states = states;
    }

    /// The patched files under a directory.
    pub fn pending(&self, dir: &FilePath) -> (r: Vec<FilePath>)
        ensures
            r@.map_values(|p: FilePath| path_key(p@)) == pending_under(
                self@,
                dir@,
                self@.len() as int,
            ),
    {
        let mut out: Vec<FilePath> = Vec::new();
        let mut i: usize = 0;
        assert(out@.map_values(|p: FilePath| path_key(p@)) =~= pending_under(self@, dir@, 0));
        while i < self.states.len()
            invariant
                i <= self.states@.len(),
                out@.map_values(|p: FilePath| path_key(p@)) == pending_under(self@, dir@, i as int),
            decreases self.states@.len() - i,
        {
            assert(self@[i as int] == self.states@[i as int]@);
            proof {
                lemma_under_by_key(self.states@[i as int].path@, dir@);
            }
            if self.states[i].path.strip_prefix(dir).is_some() {
                let ghost before = out@;
                let path = self.states[i].path.clone();
                let ghost v = path@;
                out.push(path);
                assert(out@.map_values(|p: FilePath| path_key(p@)) =~= before.map_values(
                    |p: FilePath| path_key(p@),
                ).push(path_key(v)));
            }
            i = i + 1;
        }
        out
    }

    /// Forgets a file that was restored, and tells whether it was known.
    pub fn forget(&mut self, path: &FilePath) -> (r: bool)
        ensures
            r == (patched_at(old(self)@, path_key(path@), 0) is Some),
            final(self)@ == without_patched(old(self)@, path_key(path@)),
    {
        let ghost before = self@;
        match self.position(path) {
            Some(i) => {
                proof {
                    use_type_invariant(&*self);
                    law_forgotten(before, path_key(path@), path_key(path@));
                }
                let mut states: Vec<PatchedFile> = Vec::new();
                std::mem::swap(&mut states, &mut self.states);
                let _ = states.remove(i);
                assert(file_views(states@) =~= before.remove(i as int));
                self.states = states;
                true
            },
            None => false,
        }
    }

    /// Takes note of which files were restored: forgets those, and gives their
    /// number and the position of the first that was not.
    pub fn settle(&mut self, pending: &Vec<FilePath>, ok: &Vec<bool>) -> (r: (usize, Option<usize>))
        requires
            pending@.len() == ok@.len(),
        ensures
            ({
                let paths = pending@.map_values(|p: FilePath| path_key(p@));
                &&& final(self)@ == settled(old(self)@, paths, ok@, ok@.len() as int)
                &&& r.0 == restored_count(old(self)@, paths, ok@, ok@.len() as int)
                &&& match (r.1, first_failed(ok@, 0)) {
                    (Some(a), Some(b)) => a == b,
                    (None, None) => true,
                    _ => false,
                }
            }),
    {
        let ghost start = self@;
        let ghost paths = pending@.map_values(|p: FilePath| path_key(p@));
        let mut restored: usize = 0;
        let mut failed: Option<usize> = None;
        let mut i: usize = 0;
        while i < ok.len()
            invariant
                i <= ok@.len(),
                pending@.len() == ok@.len(),
                start == old(self)@,
                paths == pending@.map_values(|p: FilePath| path_key(p@)),
                restored <= i,
                self@ == settled(start, paths, ok@, i as int),
                restored == restored_count(start, paths, ok@, i as int),
                match failed {
                    Some(a) => first_failed(ok@, 0) == Some(a as int),
                    None => first_failed(ok@, 0) == first_failed(ok@, i as int),
                },
            decreases ok@.len() - i,
        {
            assert(paths[i as int] == path_key(pending@[i as int]@));
            if ok[i] {
                if self.forget(&pending[i]) {
                    restored = restored + 1;
                }
            } else if failed.is_none() {
                failed = Some(i);
            }
            i = i + 1;
        }
        (restored, failed)
    }
}

/// What is kept of a file that is patched stays what it was, whatever is kept
/// later.
pub proof fn law_first_remembered(
    files: PatchedFiles,
    path: PathView,
    first: SavedView,
    second: SavedView,
)
    ensures
        saved_for(
            with_patched(with_patched(files, path, first), path, second),
            path,
        ) == saved_for(with_patched(files, path, first), path),
        saved_for(with_patched(files, path, first), path) is Some,
{
    let once = with_patched(files, path, first);
    if patched_at(files, path, 0) is None {
        lemma_patched_at_pushed(files, path, first, 0);
    }
}

proof fn lemma_patched_at_pushed(files: PatchedFiles, path: PathView, saved: SavedView, i: int)
    requires
        0 <= i <= files.len(),
        patched_at(files, path, i) is None,
    ensures
        patched_at(files.push((path, saved)), path, i) == Some(files.len() as int),
    decreases files.len() - i,
{
    let more = files.push((path, saved));
    if i < files.len() {
        assert(more[i] == files[i]);
        lemma_patched_at_pushed(files, path, saved, i + 1);
    } else {
        assert(more[i] == (path, saved));
    }
}

/// How often restoring a file is tried.
pub const RESTORE_ATTEMPTS: usize = 20;

/// How long to wait between two attempts, in milliseconds.
pub const RESTORE_WAIT_MS: u64 = 250;

/// Whether to try again after the attempt with this number, from zero, failed.
pub fn retries_restore(attempt: usize) -> (r: bool)
    ensures
        r == (attempt + 1 < RESTORE_ATTEMPTS),
{
    attempt < RESTORE_ATTEMPTS - 1
}

/// Whether a cached map archive is to be refreshed: it is not there, or its
/// content hash differs from that of the game's.
pub fn cache_is_stale(game: u64, cached: Option<u64>) -> (r: bool)
    ensures
        r == (cached != Some(game)),
{
    match cached {
        Some(c) => c != game,
        None => true,
    }
}

/// The content hash of a file that is read in pieces.
pub struct FileHash {
    hasher: Xxh3,
}

impl FileHash {
    /// What was read so far.
    pub closed spec fn input(&self) -> Seq<u8> {
        xxh3_input(self.hasher)
    }

    pub fn new() -> (r: Self)
        ensures
            r.input() == Seq::<u8>::empty(),
    {
        FileHash { hasher: xxh3_new() }
    }

    pub fn update(&mut self, piece: &[u8])
        ensures
            final(self).input() == old(self).input() + piece@,
    {
        xxh3_update(&mut self.hasher, piece);
    }

    /// The hash of all that was read.
    pub fn finish(&self) -> (r: u64)
        ensures
            r == xxh3_digest_of(self.input()),
    {
        xxh3_digest(&self.hasher)
    }
}

/// What is kept of a file of which nothing was kept is what is to be kept, and what
/// is kept of other files stays.
pub proof fn law_remembered(files: PatchedFiles, path: PathView, saved: SavedView, other: PathView)
    ensures
        saved_for(files, path) is None ==> saved_for(with_patched(files, path, saved), path)
            == Some(saved),
        saved_for(files, path) is Some ==> with_patched(files, path, saved) == files,
        other != path ==> saved_for(with_patched(files, path, saved), other) == saved_for(
            files,
            other,
        ),
{
    if patched_at(files, path, 0) is None {
        lemma_patched_at_pushed(files, path, saved, 0);
        if other != path {
            lemma_patched_at_other(files, path, saved, other, 0);
        }
    }
}

proof fn lemma_patched_at_other(
    files: PatchedFiles,
    path: PathView,
    saved: SavedView,
    other: PathView,
    i: int,
)
    requires
        0 <= i <= files.len(),
        other != path,
    ensures
        patched_at(files.push((path, saved)), other, i) == patched_at(files, other, i),
        patched_at(files, other, i) matches Some(k) ==> 0 <= k < files.len(),
    decreases files.len() - i,
{
    if i < files.len() {
        lemma_patched_at_other(files, path, saved, other, i + 1);
    } else {
        assert(patched_at(files.push((path, saved)), other, i + 1) is None);
    }
}

/// After some of the patched files were restored, nothing is kept of those that
/// were, and all is kept of the others.
pub proof fn law_settled_exactly(
    files: PatchedFiles,
    pending: Seq<PathView>,
    ok: Seq<bool>,
    n: int,
    path: PathView,
)
    requires
        distinct_paths(files),
        0 <= n <= pending.len(),
        ok.len() == pending.len(),
    ensures
        distinct_paths(settled(files, pending, ok, n)),
        saved_for(settled(files, pending, ok, n), path) == if exists|i: int|
            0 <= i < n && #[trigger] pending[i] == path && ok[i] {
            None
        } else {
            saved_for(files, path)
        },
    decreases n,
{
    if n > 0 {
        law_settled_exactly(files, pending, ok, n - 1, path);
        let before = settled(files, pending, ok, n - 1);
        if ok[n - 1] {
            law_forgotten(before, pending[n - 1], path);
        }
        if exists|i: int| 0 <= i < n && #[trigger] pending[i] == path && ok[i] {
            let i = choose|i: int| 0 <= i < n && #[trigger] pending[i] == path && ok[i];
            if i < n - 1 {
                assert(pending[i] == path && ok[i]);
            }
        }
        if exists|i: int| 0 <= i < n - 1 && #[trigger] pending[i] == path && ok[i] {
            let i = choose|i: int| 0 <= i < n - 1 && #[trigger] pending[i] == path && ok[i];
            assert(pending[i] == path && ok[i]);
        }
    }
}

/// The failure that is reported is the first.
pub proof fn law_first_failed(ok: Seq<bool>, from: int)
    requires
        0 <= from <= ok.len(),
    ensures
        match first_failed(ok, from) {
            Some(i) => from <= i < ok.len() && !ok[i] && forall|j: int|
                from <= j < i ==> #[trigger] ok[j],
            None => forall|j: int| from <= j < ok.len() ==> #[trigger] ok[j],
        },
    decreases ok.len() - from,
{
    if from < ok.len() {
        law_first_failed(ok, from + 1);
    }
}

/// Where the pending files are patched ones, each once, as many count as restored as
/// went well.
pub proof fn law_restored_count(
    files: PatchedFiles,
    pending: Seq<PathView>,
    ok: Seq<bool>,
    n: int,
)
    requires
        distinct_paths(files),
        pending.no_duplicates(),
        forall|i: int| 0 <= i < pending.len() ==> saved_for(files, #[trigger] pending[i]) is Some,
        0 <= n <= pending.len(),
        ok.len() == pending.len(),
    ensures
        went_well(ok, n).finite(),
        restored_count(files, pending, ok, n) == went_well(ok, n).len(),
    decreases n,
{
    if n == 0 {
        assert(went_well(ok, 0) =~= Set::empty());
    } else {
        law_restored_count(files, pending, ok, n - 1);
        law_settled_exactly(files, pending, ok, n - 1, pending[n - 1]);
        assert(saved_for(files, pending[n - 1]) is Some);
        assert forall|i: int| 0 <= i < n - 1 implies #[trigger] pending[i] != pending[n - 1] by {}
        if ok[n - 1] {
            assert(went_well(ok, n) =~= went_well(ok, n - 1).insert(n - 1));
        } else {
            assert(went_well(ok, n) =~= went_well(ok, n - 1));
        }
    }
}

/// The positions of what went well among the first `n`.
pub open spec fn went_well(ok: Seq<bool>, n: int) -> Set<int> {
    Set::new(|i: int| 0 <= i < n && ok[i])
}

} // verus!
