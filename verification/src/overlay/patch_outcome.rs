//! What a patched map archive holds.

use super::map_cache::{
    archive_items, found_best, last_named, law_patch_covers, law_patched_toc, lemma_last_named,
    lemma_patch_all_names, mount_items, patch_all, patch_of, patch_step, patched_file,
    patched_marks, record_digest_input, PatchState, PatchView,
};
use super::reconciling::{entry_of, finite_mounts, has_at, last_at, lemma_last_at};
use super::wad::archive::{
    ascending, content_of, entries_upto, first_payload_error, lemma_payload_index, loc_for,
    payload_index,
};
use super::wad::entry::{entry_at, entry_wf, optimal_form, stays, Entry};
use super::wad::marks::{lemma_with_marks, marked};
use super::wad::mounted::MountView;
use super::wad::round_trip::{lemma_ascending_exists, lemma_written_wf, stored_form, written_form};
use super::wad::toc::{
    declared_count, loc_fits, toc_error, toc_records, EntryLoc, ENTRY_SIZE, HEADER_SIZE, TocEntry,
    WadError,
};
use crate::bytes::le64_bytes;
use crate::names::Named;
use vstd::prelude::*;

verus! {

/// Whether record `i` is the last of its name.
pub open spec fn is_last_record(records: Seq<TocEntry>, i: int) -> bool {
    &&& 0 <= i < records.len()
    &&& forall|j: int| i < j < records.len() ==> (#[trigger] records[j]).name != records[i].name
}

proof fn lemma_last_record(records: Seq<TocEntry>, i: int)
    requires
        0 <= i < records.len(),
    ensures
        is_last_record(records, i) <==> last_named(
            records,
            records[i].name,
            records.len() as int,
        ) == Some(i),
{
    lemma_last_named(records, records[i].name, records.len() as int);
    match last_named(records, records[i].name, records.len() as int) {
        Some(k) => {
            if i < k {
                assert(records[k].name == records[i].name);
            }
            if k < i {
                assert(records[i].name != records[i].name);
            }
        },
        None => {
            assert(records[i].name != records[i].name);
        },
    }
}

/// Whether item `t` is the last of the name.
spec fn is_last_item(items: Seq<(u64, Entry)>, t: int, name: u64) -> bool {
    &&& 0 <= t < items.len()
    &&& items[t].0 == name
    &&& forall|u: int| t < u < items.len() ==> (#[trigger] items[u]).0 != name
}

/// Whether some item has the name.
spec fn has_item(items: Seq<(u64, Entry)>, name: u64) -> bool {
    exists|t: int| 0 <= t < items.len() && (#[trigger] items[t]).0 == name
}

/// Whether `loc` says where the payload of `o` stands in `data`, the first byte
/// of which stands at `start` in the file.
spec fn stands_at(data: Seq<u8>, start: int, loc: EntryLoc, o: Entry) -> bool {
    &&& loc == loc_for(o, loc.offset)
    &&& start <= loc.offset
    &&& loc.offset - start + o.bytes.len() <= data.len()
    &&& loc.offset + o.bytes.len() <= u64::MAX
    &&& data.subrange(loc.offset - start, loc.offset - start + o.bytes.len()) == o.bytes
}

/// How far a patch has come after the given entries.
spec fn patched_with(
    st: PatchState,
    records: Seq<TocEntry>,
    size: int,
    items: Seq<(u64, Entry)>,
    m: Seq<bool>,
) -> bool {
    &&& st.records.len() == records.len()
    &&& forall|i: int| 0 <= i < records.len() ==> (#[trigger] st.records[i]).name == records[i].name
    &&& forall|i: int, t: int|
        #![trigger st.records[i], is_last_item(items, t, records[i].name)]
        is_last_record(records, i) && is_last_item(items, t, records[i].name) ==> optimal_form(
            items[t].1,
            m,
        ) is Ok && stands_at(st.data, size, st.records[i].loc, written_form(items[t].1, m))
    &&& forall|i: int|
        0 <= i < records.len() && (!is_last_record(records, i) || !has_item(
            items,
            records[i].name,
        )) ==> #[trigger] st.records[i] == records[i]
    &&& st.patched == 0 <==> forall|i: int|
        is_last_record(records, i) ==> !has_item(items, (#[trigger] records[i]).name)
}

proof fn lemma_patch_step(
    st: PatchState,
    records: Seq<TocEntry>,
    size: int,
    items: Seq<(u64, Entry)>,
    item: (u64, Entry),
    m: Seq<bool>,
)
    requires
        0 <= size,
        patched_with(st, records, size, items, m),
        patch_step(st, size, item.0, item.1, m) is Ok,
    ensures
        patched_with(
            patch_step(st, size, item.0, item.1, m)->Ok_0,
            records,
            size,
            items.push(item),
            m,
        ),
{
    let (name, e) = item;
    let after = patch_step(st, size, name, e, m)->Ok_0;
    let all = items.push(item);
    let n = items.len() as int;
    lemma_last_named(st.records, name, st.records.len() as int);
    assert forall|x: u64| #[trigger] has_item(all, x) <==> has_item(items, x) || x == name by {
        if has_item(all, x) && x != name {
            let t = choose|t: int| 0 <= t < all.len() && (#[trigger] all[t]).0 == x;
            assert(items[t].0 == x);
        }
        if has_item(items, x) {
            let t = choose|t: int| 0 <= t < items.len() && (#[trigger] items[t]).0 == x;
            assert(all[t].0 == x);
        }
        assert(all[n].0 == name);
    }
    assert forall|t: int, x: u64| #[trigger] is_last_item(all, t, x) implies (if x == name {
        t == n
    } else {
        is_last_item(items, t, x)
    }) && (t < n ==> all[t] == items[t]) by {
        assert(all[n].0 == name);
        if x != name {
            assert(t < n);
            assert forall|u: int| t < u < items.len() implies (#[trigger] items[u]).0 != x by {
                assert(all[u] == items[u]);
            }
        } else if t < n {
            assert(all[n].0 != x);
        }
    }
    assert forall|i: int| is_last_record(records, i) implies (last_named(
        st.records,
        records[i].name,
        st.records.len() as int,
    ) == Some(i)) by {
        lemma_last_record(st.records, i);
        assert forall|j: int| i < j < st.records.len() implies (#[trigger] st.records[j]).name
            != st.records[i].name by {
            assert(records[j].name != records[i].name);
        }
        assert(st.records[i].name == records[i].name);
    }
    match last_named(st.records, name, st.records.len() as int) {
        None => {
            assert forall|i: int| 0 <= i < records.len() implies (#[trigger] records[i]).name
                != name by {
                assert(st.records[i].name == records[i].name);
            }
            assert forall|i: int, t: int|
                #![trigger after.records[i], is_last_item(all, t, records[i].name)]
                is_last_record(records, i) && is_last_item(all, t, records[i].name) implies
                optimal_form(all[t].1, m) is Ok && stands_at(
                after.data,
                size,
                after.records[i].loc,
                written_form(all[t].1, m),
            ) by {
                assert(is_last_item(items, t, records[i].name));
                assert(st.records[i] == after.records[i]);
            }
        },
        Some(at) => {
            let o = written_form(e, m);
            assert(st.records[at].name == records[at].name);
            assert(is_last_record(records, at)) by {
                assert forall|j: int| at < j < records.len() implies (#[trigger] records[j]).name
                    != records[at].name by {
                    assert(st.records[j].name == records[j].name);
                }
            }
            assert forall|i: int| is_last_record(records, i) && records[i].name == name implies i
                == at by {}
            assert forall|i: int| 0 <= i < records.len() implies (#[trigger] after.records[i]).name
                == records[i].name by {
                assert(st.records[i].name == records[i].name);
            }
            assert(after.data.subrange(
                st.data.len() as int,
                (st.data.len() + o.bytes.len()) as int,
            ) =~= o.bytes);
            assert(stands_at(after.data, size, after.records[at].loc, o));
            assert forall|i: int, t: int|
                #![trigger after.records[i], is_last_item(all, t, records[i].name)]
                is_last_record(records, i) && is_last_item(all, t, records[i].name) implies
                optimal_form(all[t].1, m) is Ok && stands_at(
                after.data,
                size,
                after.records[i].loc,
                written_form(all[t].1, m),
            ) by {
                if records[i].name == name {
                    assert(i == at && t == n);
                } else {
                    assert(is_last_item(items, t, records[i].name));
                    assert(st.records[i] == after.records[i]);
                    let w = written_form(items[t].1, m);
                    let loc = st.records[i].loc;
                    assert(stands_at(st.data, size, loc, w));
                    assert(after.data.subrange(
                        loc.offset - size,
                        loc.offset - size + w.bytes.len(),
                    ) =~= st.data.subrange(loc.offset - size, loc.offset - size + w.bytes.len()));
                }
            }
            assert forall|i: int|
                0 <= i < records.len() && (!is_last_record(records, i) || !has_item(
                    all,
                    records[i].name,
                )) implies #[trigger] after.records[i] == records[i] by {
                assert(i != at) by {
                    assert(has_item(all, name));
                }
                assert(st.records[i] == records[i]);
            }
            assert(has_item(all, records[at].name));
        },
    }
}

proof fn lemma_patch_all(
    records: Seq<TocEntry>,
    size: int,
    items: Seq<(u64, Entry)>,
    m: Seq<bool>,
)
    requires
        0 <= size,
        patch_all(
            PatchState { records, data: Seq::empty(), patched: 0 },
            size,
            items,
            m,
        ) is Ok,
    ensures
        patched_with(
            patch_all(
                PatchState { records, data: Seq::empty(), patched: 0 },
                size,
                items,
                m,
            )->Ok_0,
            records,
            size,
            items,
            m,
        ),
    decreases items.len(),
{
    let st = PatchState { records, data: Seq::empty(), patched: 0 };
    if items.len() > 0 {
        let first = items.drop_last();
        lemma_patch_all(records, size, first, m);
        let s = patch_all(st, size, first, m)->Ok_0;
        lemma_patch_step(s, records, size, first, items.last(), m);
        assert(first.push(items.last()) =~= items);
    }
}

/// The entries of mounts, as items.
proof fn lemma_items(mounts: Named<MountView>, n: int)
    requires
        0 <= n <= mounts.len(),
        finite_mounts(mounts),
    ensures
        forall|name: u64| #[trigger]
            has_item(mount_items(mounts, n), name) <==> exists|k: int|
                k < n && #[trigger] has_at(mounts, k, name),
        forall|t: int, k: int, name: u64|
            #![trigger is_last_item(mount_items(mounts, n), t, name), last_at(mounts, n, k, name)]
            is_last_item(mount_items(mounts, n), t, name) && last_at(mounts, n, k, name)
                ==> mount_items(mounts, n)[t].1 == entry_of(mounts, k, name),
    decreases n,
{
    if n > 0 {
        lemma_items(mounts, n - 1);
        let before = mount_items(mounts, n - 1);
        let all = mount_items(mounts, n);
        let c = mounts[n - 1].1.archive;
        let part = archive_items(c);
        let names = ascending(c.entries.dom());
        assert(mounts[n - 1].1.archive.entries.dom().finite());
        lemma_ascending_exists(c.entries.dom());
        assert(all == before + part);
        assert forall|u: int| 0 <= u < part.len() implies (#[trigger] part[u]) == (
            names[u],
            c.entries[names[u]],
        ) && has_at(mounts, n - 1, part[u].0) by {
            assert(c.entries.dom().contains(names[u]));
        }
        assert forall|name: u64| c.entries.contains_key(name) implies has_item(part, name) by {
            assert(c.entries.dom().contains(name));
            let u = choose|u: int| 0 <= u < names.len() && names[u] == name;
            assert(part[u].0 == name);
        }
        assert forall|name: u64| #[trigger] has_item(all, name) <==> exists|k: int|
            k < n && #[trigger] has_at(mounts, k, name) by {
            if has_item(all, name) {
                let t = choose|t: int| 0 <= t < all.len() && (#[trigger] all[t]).0 == name;
                if t < before.len() {
                    assert(before[t].0 == name);
                    assert(has_item(before, name));
                    let k = choose|k: int| k < n - 1 && #[trigger] has_at(mounts, k, name);
                    assert(has_at(mounts, k, name));
                } else {
                    assert(part[t - before.len()].0 == name);
                    assert(has_at(mounts, n - 1, name));
                }
            }
            if exists|k: int| k < n && #[trigger] has_at(mounts, k, name) {
                let k = choose|k: int| k < n && #[trigger] has_at(mounts, k, name);
                if k < n - 1 {
                    assert(has_item(before, name));
                    let t = choose|t: int|
                        0 <= t < before.len() && (#[trigger] before[t]).0 == name;
                    assert(all[t].0 == name);
                } else {
                    assert(has_item(part, name));
                    let u = choose|u: int| 0 <= u < part.len() && (#[trigger] part[u]).0 == name;
                    assert(all[before.len() + u].0 == name);
                }
            }
        }
        assert forall|t: int, k: int, name: u64|
            #![trigger is_last_item(all, t, name), last_at(mounts, n, k, name)]
            is_last_item(all, t, name) && last_at(mounts, n, k, name) implies all[t].1 == entry_of(
            mounts,
            k,
            name,
        ) by {
            if c.entries.contains_key(name) {
                assert(has_at(mounts, n - 1, name));
                assert(k == n - 1);
                assert(has_item(part, name));
                let u = choose|u: int| 0 <= u < part.len() && (#[trigger] part[u]).0 == name;
                assert(all[before.len() + u].0 == name);
                if t < before.len() {
                    assert(all[before.len() + u].0 != name);
                }
                assert(all[t] == part[t - before.len()]);
            } else {
                if t >= before.len() {
                    assert(all[t] == part[t - before.len()]);
                    assert(has_at(mounts, n - 1, name));
                }
                assert(all[t] == before[t]);
                assert forall|u: int| t < u < before.len() implies (#[trigger] before[u]).0
                    != name by {
                    assert(all[u] == before[u]);
                }
                assert(is_last_item(before, t, name));
                assert(last_at(mounts, n - 1, k, name)) by {
                    if k == n - 1 {
                        assert(has_at(mounts, n - 1, name));
                    }
                }
            }
        }
    }
}

proof fn lemma_last_item(items: Seq<(u64, Entry)>, t: int, name: u64) -> (l: int)
    requires
        0 <= t < items.len(),
        items[t].0 == name,
    ensures
        is_last_item(items, l, name),
    decreases items.len() - t,
{
    if exists|u: int| t < u < items.len() && (#[trigger] items[u]).0 == name {
        let u = choose|u: int| t < u < items.len() && (#[trigger] items[u]).0 == name;
        lemma_last_item(items, u, name)
    } else {
        t
    }
}

/// A record that is read back can be written: its fields fit.
proof fn lemma_read_fits(s: Seq<u8>, i: int)
    requires
        toc_error(s) is None,
        0 <= i < toc_records(s).len(),
    ensures
        loc_fits(toc_records(s)[i].loc),
{
    let at = HEADER_SIZE + i * ENTRY_SIZE;
    let a = s[at + 21];
    let b = s[at + 22];
    let c = s[at + 23];
    assert(0x1_0000 * a + 0x100 * c + b < 0x100_0000);
}

/// The table of contents is the same whatever follows it.
proof fn lemma_prefix_records(file: Seq<u8>)
    requires
        toc_error(file) is None,
    ensures
        ({
            let prefix = file.take(HEADER_SIZE + ENTRY_SIZE * declared_count(file));
            &&& declared_count(prefix) == declared_count(file)
            &&& toc_records(prefix) == toc_records(file)
            &&& prefix.subrange(4, 260) == file.subrange(4, 260)
        }),
{
    let n = HEADER_SIZE + ENTRY_SIZE * declared_count(file);
    let prefix = file.take(n);
    assert(declared_count(prefix) == declared_count(file));
    assert(toc_records(prefix).len() == toc_records(file).len());
    assert forall|i: int| 0 <= i < toc_records(file).len() implies toc_records(prefix)[i]
        == toc_records(file)[i] by {
        let at = HEADER_SIZE + i * ENTRY_SIZE;
        assert(at + 32 <= n);
        assert(forall|x: int| at <= x < at + 32 ==> prefix[x] == file[x]);
    }
    assert(toc_records(prefix) =~= toc_records(file));
    assert(prefix.subrange(4, 260) =~= file.subrange(4, 260));
}

/// Whether records can hold where the entries of mounts are stored.
pub open spec fn can_be_recorded(mounts: Named<MountView>, m: Seq<bool>) -> bool {
    forall|k: int, name: u64| #[trigger]
        has_at(mounts, k, name) && optimal_form(entry_of(mounts, k, name), m) is Ok ==> {
            let o = written_form(entry_of(mounts, k, name), m);
            &&& entry_wf(entry_of(mounts, k, name))
            &&& o.size_decompressed < 0x1_0000_0000
            &&& o.subchunk_count < 16
            &&& o.subchunk_index < 0x100_0000
        }
}

/// In a patched file the table of contents names what it did. The last record of
/// each name that the mod has says where the entry of the last mount with that
/// name stands, in the form in which it is stored: those bytes are there. All
/// other records are as they were, and so are the bytes that they point to behind
/// the table. Files and entries too large for records are left out.
pub proof fn law_patched_file(
    file: Seq<u8>,
    mounts: Named<MountView>,
    p: PatchView,
    m: Seq<bool>,
    i: int,
)
    requires
        toc_error(file) is None,
        finite_mounts(mounts),
        can_be_recorded(mounts, m),
        patch_of(
            file.take(HEADER_SIZE + ENTRY_SIZE * declared_count(file)),
            file.len() as int,
            mounts,
            m,
        ) == Ok::<Option<PatchView>, WadError>(Some(p)),
        file.len() + p.appended.len() < 0x1_0000_0000,
        0 <= i < toc_records(file).len(),
    ensures
        ({
            let now = patched_file(file, p);
            let rec = toc_records(file)[i];
            &&& toc_error(now) is None
            &&& now.subrange(4, 260) == file.subrange(4, 260)
            &&& toc_records(now).len() == toc_records(file).len()
            &&& toc_records(now)[i].name == rec.name
            &&& forall|k: int|
                is_last_record(toc_records(file), i) && #[trigger] last_at(
                    mounts,
                    mounts.len() as int,
                    k,
                    rec.name,
                ) ==> {
                    let e = entry_of(mounts, k, rec.name);
                    &&& optimal_form(e, m) is Ok
                    &&& entry_at(now, toc_records(now)[i].loc) == Ok::<Entry, WadError>(
                        stored_form(written_form(e, m)),
                    )
                    &&& toc_records(now)[i].loc.offset >= file.len()
                }
            &&& !is_last_record(toc_records(file), i) || (forall|k: int|
                !#[trigger] has_at(mounts, k, rec.name)) ==> {
                &&& toc_records(now)[i] == rec
                &&& rec.loc.offset >= HEADER_SIZE + ENTRY_SIZE * declared_count(file) && entry_at(
                    file,
                    rec.loc,
                ) is Ok ==> entry_at(now, rec.loc) == entry_at(file, rec.loc)
            }
        }),
{
    let size = file.len() as int;
    let total = mounts.len() as int;
    let records = toc_records(file);
    let items = mount_items(mounts, total);
    let done = patch_done(file, mounts, m);
    let now = patched_file(file, p);
    let rec = records[i];
    lemma_done(file, mounts, p, m);
    lemma_patched_bytes(file, mounts, p, m);
    lemma_patched_signature(file, mounts, p, m);
    lemma_items(mounts, total);
    assert forall|k: int|
        is_last_record(records, i) && #[trigger] last_at(mounts, total, k, rec.name) implies {
        let e = entry_of(mounts, k, rec.name);
        &&& optimal_form(e, m) is Ok
        &&& entry_at(now, done.records[i].loc) == Ok::<Entry, WadError>(
            stored_form(written_form(e, m)),
        )
        &&& done.records[i].loc.offset >= file.len()
    } by {
        let e = entry_of(mounts, k, rec.name);
        assert(has_at(mounts, k, rec.name));
        assert(has_item(items, rec.name));
        let (t, k2) = lemma_item_mount(mounts, items, rec.name);
        assert(k2 == k);
        assert(is_last_item(items, t, rec.name));
        let loc = done.records[i].loc;
        assert(stands_at(done.data, size, loc, written_form(e, m)));
        lemma_written_wf(e, m);
        lemma_stands_in_file(now, size, done.data, loc, written_form(e, m));
    }
    if !is_last_record(records, i) || (forall|k: int| !#[trigger] has_at(mounts, k, rec.name)) {
        assert(!is_last_record(records, i) || !has_item(items, rec.name)) by {
            if has_item(items, rec.name) {
                let k = choose|k: int| k < total && #[trigger] has_at(mounts, k, rec.name);
            }
        }
        assert(done.records[i] == rec);
        let loc = rec.loc;
        let n = HEADER_SIZE + ENTRY_SIZE * declared_count(file);
        if loc.offset >= n && entry_at(file, loc) is Ok {
            assert(now.subrange(loc.offset as int, loc.offset + loc.size) =~= file.subrange(
                loc.offset as int,
                loc.offset + loc.size,
            ));
        }
    }
}

/// How far a patch has come in the end.
spec fn patch_done(file: Seq<u8>, mounts: Named<MountView>, m: Seq<bool>) -> PatchState {
    patch_all(
        PatchState { records: toc_records(file), data: Seq::empty(), patched: 0 },
        file.len() as int,
        mount_items(mounts, mounts.len() as int),
        m,
    )->Ok_0
}

/// A payload that stands behind the old end of a file is read from there.
proof fn lemma_stands_in_file(now: Seq<u8>, size: int, data: Seq<u8>, loc: EntryLoc, o: Entry)
    requires
        0 <= size,
        now.len() == size + data.len(),
        now.skip(size) == data,
        stands_at(data, size, loc, o),
        entry_wf(o),
    ensures
        entry_at(now, loc) == Ok::<Entry, WadError>(stored_form(o)),
{
    let a = loc.offset - size;
    assert(now.subrange(loc.offset as int, loc.offset + loc.size) =~= data.subrange(
        a,
        a + o.bytes.len(),
    )) by {
        assert forall|x: int| 0 <= x < o.bytes.len() implies now[loc.offset + x]
            == #[trigger] data[a + x] by {
            assert(now.skip(size)[a + x] == now[loc.offset + x]);
        }
    }
}

/// What the bytes of a patched file are.
proof fn lemma_patched_bytes(file: Seq<u8>, mounts: Named<MountView>, p: PatchView, m: Seq<bool>)
    requires
        toc_error(file) is None,
        patch_of(
            file.take(HEADER_SIZE + ENTRY_SIZE * declared_count(file)),
            file.len() as int,
            mounts,
            m,
        ) == Ok::<Option<PatchView>, WadError>(Some(p)),
    ensures
        ({
            let now = patched_file(file, p);
            let n = HEADER_SIZE + ENTRY_SIZE * declared_count(file);
            &&& n <= file.len()
            &&& now.len() == file.len() + p.appended.len()
            &&& forall|x: int| n <= x < file.len() ==> #[trigger] now[x] == file[x]
            &&& now.skip(file.len() as int) == p.appended
        }),
{
    let n = HEADER_SIZE + ENTRY_SIZE * declared_count(file);
    let now = patched_file(file, p);
    lemma_prefix_records(file);
    law_patch_covers(file.take(n), file.len() as int, mounts, p, m);
    let head = p.header + p.toc;
    assert(head.len() == n);
    assert(now == head + file.skip(n) + p.appended);
    assert forall|x: int| n <= x < file.len() implies #[trigger] now[x] == file[x] by {
        assert(file.skip(n)[x - n] == file[x]);
    }
    assert(now.skip(file.len() as int) =~= p.appended);
}

/// What the table of contents of a patched file is.
proof fn lemma_done(file: Seq<u8>, mounts: Named<MountView>, p: PatchView, m: Seq<bool>)
    requires
        toc_error(file) is None,
        finite_mounts(mounts),
        can_be_recorded(mounts, m),
        patch_of(
            file.take(HEADER_SIZE + ENTRY_SIZE * declared_count(file)),
            file.len() as int,
            mounts,
            m,
        ) == Ok::<Option<PatchView>, WadError>(Some(p)),
        file.len() + p.appended.len() < 0x1_0000_0000,
    ensures
        patched_with(
            patch_done(file, mounts, m),
            toc_records(file),
            file.len() as int,
            mount_items(mounts, mounts.len() as int),
            m,
        ),
        patch_done(file, mounts, m).data == p.appended,
        toc_error(patched_file(file, p)) is None,
        toc_records(patched_file(file, p)) == patch_done(file, mounts, m).records,
{
    let size = file.len() as int;
    let records = toc_records(file);
    let items = mount_items(mounts, mounts.len() as int);
    let done = patch_done(file, mounts, m);
    lemma_prefix_records(file);
    lemma_patch_all(records, size, items, m);
    assert forall|x: int| 0 <= x < records.len() implies loc_fits(
        (#[trigger] done.records[x]).loc,
    ) by {
        lemma_read_fits(file, x);
        if is_last_record(records, x) && has_item(items, records[x].name) {
            let (t, k) = lemma_item_mount(mounts, items, records[x].name);
            let e = entry_of(mounts, k, records[x].name);
            assert(is_last_item(items, t, records[x].name));
            assert(stands_at(done.data, size, done.records[x].loc, written_form(e, m)));
            assert(has_at(mounts, k, records[x].name));
        } else {
            assert(done.records[x] == records[x]);
        }
    }
    law_patched_toc(file, mounts, p, m);
}

/// The last item of a name is the entry of the last mount with the name.
proof fn lemma_item_mount(mounts: Named<MountView>, items: Seq<(u64, Entry)>, name: u64) -> (r: (
    int,
    int,
))
    requires
        finite_mounts(mounts),
        items == mount_items(mounts, mounts.len() as int),
        has_item(items, name),
    ensures
        is_last_item(items, r.0, name),
        last_at(mounts, mounts.len() as int, r.1, name),
        items[r.0].1 == entry_of(mounts, r.1, name),
{
    let total = mounts.len() as int;
    lemma_items(mounts, total);
    let t0 = choose|t: int| 0 <= t < items.len() && (#[trigger] items[t]).0 == name;
    let t = lemma_last_item(items, t0, name);
    let k0 = choose|k: int| k < total && #[trigger] has_at(mounts, k, name);
    let k = lemma_last_at(mounts, total, k0, name);
    (t, k)
}

/// A patch keeps the signature of the file.
proof fn lemma_patched_signature(
    file: Seq<u8>,
    mounts: Named<MountView>,
    p: PatchView,
    m: Seq<bool>,
)
    requires
        toc_error(file) is None,
        patch_of(
            file.take(HEADER_SIZE + ENTRY_SIZE * declared_count(file)),
            file.len() as int,
            mounts,
            m,
        ) == Ok::<Option<PatchView>, WadError>(Some(p)),
    ensures
        patched_file(file, p).subrange(4, 260) == file.subrange(4, 260),
{
    broadcast use crate::bytes::lemma_le32_bytes_len, crate::bytes::lemma_le64_bytes_len;

    lemma_prefix_records(file);
    assert(patched_file(file, p).subrange(4, 260) =~= p.header.subrange(4, 260));
    assert(p.header.subrange(4, 260) =~= file.subrange(4, 260));
}

/// Whether a mod has an entry of the name of record `i`.
pub open spec fn is_known(records: Seq<TocEntry>, mounts: Named<MountView>, i: int) -> bool {
    &&& 0 <= i < records.len()
    &&& exists|k: int| #[trigger] has_at(mounts, k, records[i].name)
}

/// A file is patched just where its table names something that the mod has. Where
/// it names nothing there is nothing to do.
pub proof fn law_patched_where_known(file: Seq<u8>, mounts: Named<MountView>, m: Seq<bool>)
    requires
        toc_error(file) is None,
        finite_mounts(mounts),
        patch_of(
            file.take(HEADER_SIZE + ENTRY_SIZE * declared_count(file)),
            file.len() as int,
            mounts,
            m,
        ) is Ok,
    ensures
        patch_of(
            file.take(HEADER_SIZE + ENTRY_SIZE * declared_count(file)),
            file.len() as int,
            mounts,
            m,
        )->Ok_0 is Some <==> exists|i: int| #[trigger] is_known(toc_records(file), mounts, i),
{
    let size = file.len() as int;
    let total = mounts.len() as int;
    let records = toc_records(file);
    let items = mount_items(mounts, total);
    lemma_prefix_records(file);
    lemma_items(mounts, total);
    lemma_patch_all(records, size, items, m);
    let done = patch_done(file, mounts, m);
    if done.patched > 0 {
        let i = choose|i: int|
            is_last_record(records, i) && has_item(items, (#[trigger] records[i]).name);
        assert(has_item(items, records[i].name));
        assert(is_known(records, mounts, i));
    }
    if exists|i: int| #[trigger] is_known(records, mounts, i) {
        let i = choose|i: int| #[trigger] is_known(records, mounts, i);
        assert(has_item(items, records[i].name));
        let l = lemma_last_of_name(records, i);
        assert(has_item(items, records[l].name));
    }
}

proof fn lemma_last_of_name(records: Seq<TocEntry>, i: int) -> (l: int)
    requires
        0 <= i < records.len(),
    ensures
        is_last_record(records, l),
        records[l].name == records[i].name,
    decreases records.len() - i,
{
    if exists|j: int| i < j < records.len() && (#[trigger] records[j]).name == records[i].name {
        let j = choose|j: int|
            i < j < records.len() && (#[trigger] records[j]).name == records[i].name;
        lemma_last_of_name(records, j)
    } else {
        i
    }
}

/// Whether record `k` gives the payload of record `i`: the record itself where it
/// has no checksum, else the first with the same.
pub open spec fn gives_payload(toc: Seq<TocEntry>, k: int, i: int) -> bool {
    &&& 0 <= k <= i < toc.len()
    &&& toc[k].loc.checksum == toc[i].loc.checksum
    &&& if toc[i].loc.checksum == 0 {
        k == i
    } else {
        forall|j: int| 0 <= j < k ==> (#[trigger] toc[j]).loc.checksum != toc[i].loc.checksum
    }
}

/// Whether one of the first `n` records has the name.
pub open spec fn names_entry(toc: Seq<TocEntry>, n: int, name: u64) -> bool {
    exists|i: int| 0 <= i < n && (#[trigger] toc[i]).name == name
}

/// Reading a file gives one entry for every name in its table of contents: the
/// payload of the last record of the name, which records of one checksum share
/// with the first of them. Nothing else is read.
pub proof fn law_read_entries(src: Seq<u8>, signature: Seq<u8>, toc: Seq<TocEntry>, name: u64)
    ensures
        content_of(src, signature, toc).signature == signature,
        content_of(src, signature, toc).entries.contains_key(name) <==> names_entry(
            toc,
            toc.len() as int,
            name,
        ),
        forall|i: int, k: int|
            #![trigger is_last_record(toc, i), gives_payload(toc, k, i)]
            is_last_record(toc, i) && toc[i].name == name && gives_payload(toc, k, i)
                ==> content_of(src, signature, toc).entries[name] == entry_at(
                src,
                toc[k].loc,
            )->Ok_0,
        forall|i: int| #[trigger]
            is_last_record(toc, i) ==> exists|k: int| #[trigger] gives_payload(toc, k, i),
{
    let n = toc.len() as int;
    lemma_read_names(src, toc, n, name);
    assert forall|i: int| #[trigger] is_last_record(toc, i) implies exists|k: int| #[trigger]
        gives_payload(toc, k, i) by {
        lemma_payload_index(toc, i);
        assert(gives_payload(toc, payload_index(toc, i), i));
    }
    assert forall|i: int, k: int|
        #![trigger is_last_record(toc, i), gives_payload(toc, k, i)]
        is_last_record(toc, i) && toc[i].name == name && gives_payload(toc, k, i) implies
        entries_upto(src, toc, n)[name] == entry_at(src, toc[k].loc)->Ok_0 by {
        lemma_payload_index(toc, i);
        let x = payload_index(toc, i);
        if x < k {
            assert(toc[x].loc.checksum == toc[i].loc.checksum);
        }
        if k < x {
            assert(toc[k].loc.checksum == toc[i].loc.checksum);
        }
        lemma_read_last(src, toc, n, i);
    }
}

/// A table of contents is refused just where some record has no payload in the
/// file, and for the reason of the first such record.
pub proof fn law_read_refused(src: Seq<u8>, toc: Seq<TocEntry>, i: int)
    requires
        0 <= i <= toc.len(),
    ensures
        match first_payload_error(src, toc, i) {
            None => forall|j: int, k: int|
                i <= j && #[trigger] gives_payload(toc, k, j) ==> entry_at(src, toc[k].loc) is Ok,
            Some(e) => exists|j: int, k: int|
                i <= j && #[trigger] gives_payload(toc, k, j) && entry_at(src, toc[k].loc) == Err::<
                    Entry,
                    WadError,
                >(e) && forall|x: int, y: int|
                    i <= x < j && #[trigger] gives_payload(toc, y, x) ==> entry_at(
                        src,
                        toc[y].loc,
                    ) is Ok,
        },
    decreases toc.len() - i,
{
    if i < toc.len() {
        law_read_refused(src, toc, i + 1);
        lemma_payload_index(toc, i);
        let p = payload_index(toc, i);
        assert(gives_payload(toc, p, i));
        assert forall|k: int| #[trigger] gives_payload(toc, k, i) implies k == p by {
            if p < k {
                assert(toc[p].loc.checksum == toc[i].loc.checksum);
            }
            if k < p {
                assert(toc[k].loc.checksum == toc[i].loc.checksum);
            }
        }
    }
}

proof fn lemma_read_names(src: Seq<u8>, toc: Seq<TocEntry>, n: int, name: u64)
    requires
        0 <= n <= toc.len(),
    ensures
        entries_upto(src, toc, n).contains_key(name) <==> names_entry(toc, n, name),
    decreases n,
{
    if n > 0 {
        lemma_read_names(src, toc, n - 1, name);
        if names_entry(toc, n, name) {
            let i = choose|i: int| 0 <= i < n && (#[trigger] toc[i]).name == name;
            if i < n - 1 {
                assert(names_entry(toc, n - 1, name));
            }
        }
        if names_entry(toc, n - 1, name) {
            let i = choose|i: int| 0 <= i < n - 1 && (#[trigger] toc[i]).name == name;
            assert(toc[i].name == name);
        }
        if toc[n - 1].name == name {
            assert(names_entry(toc, n, name));
        }
    }
}

proof fn lemma_read_last(src: Seq<u8>, toc: Seq<TocEntry>, n: int, i: int)
    requires
        0 <= i < n <= toc.len(),
        is_last_record(toc, i),
    ensures
        entries_upto(src, toc, n)[toc[i].name] == entry_at(
            src,
            toc[payload_index(toc, i)].loc,
        )->Ok_0,
    decreases n,
{
    if i < n - 1 {
        lemma_read_last(src, toc, n - 1, i);
        assert(toc[n - 1].name != toc[i].name);
    }
}

/// What the checksum of a patched file is taken over: for each record, in order,
/// eight bytes of its name and eight of its checksum.
pub proof fn law_record_digest(records: Seq<TocEntry>, i: int)
    requires
        0 <= i < records.len(),
    ensures
        record_digest_input(records).len() == 16 * records.len(),
        record_digest_input(records).subrange(16 * i, 16 * i + 8) == le64_bytes(
            records[i].name as int,
        ),
        record_digest_input(records).subrange(16 * i + 8, 16 * i + 16) == le64_bytes(
            records[i].loc.checksum as int,
        ),
    decreases records.len(),
{
    lemma_record_digest_len(records);
    lemma_record_digest_len(records.drop_last());
    broadcast use crate::bytes::lemma_le64_bytes_len;

    let before = record_digest_input(records.drop_last());
    let now = record_digest_input(records);
    let n = before.len() as int;
    let a = le64_bytes(records.last().name as int);
    let b = le64_bytes(records.last().loc.checksum as int);
    assert(now == before + a + b);
    if i < records.len() - 1 {
        law_record_digest(records.drop_last(), i);
        assert(records.drop_last()[i] == records[i]);
        assert(now.subrange(16 * i, 16 * i + 8) =~= before.subrange(16 * i, 16 * i + 8));
        assert(now.subrange(16 * i + 8, 16 * i + 16) =~= before.subrange(16 * i + 8, 16 * i + 16));
    } else {
        assert(now.subrange(n, n + 8) =~= a);
        assert(now.subrange(n + 8, n + 16) =~= b);
    }
}

proof fn lemma_record_digest_len(records: Seq<TocEntry>)
    ensures
        record_digest_input(records).len() == 16 * records.len(),
    decreases records.len(),
{
    broadcast use crate::bytes::lemma_le64_bytes_len;

    if records.len() > 0 {
        lemma_record_digest_len(records.drop_last());
    }
}

/// Whether the entry of the name in mount `k` is its own best form.
pub open spec fn is_best_at(mounts: Named<MountView>, k: int, name: u64) -> bool {
    has_at(mounts, k, name) && stays(entry_of(mounts, k, name))
}

/// Working out a patch marks no entry but those of the mod that are their own best
/// form and whose names the file knows, and unmarks none. Where all went well, all
/// of these are marked.
pub proof fn law_patched_marks(
    prefix: Seq<u8>,
    size: int,
    mounts: Named<MountView>,
    m: Seq<bool>,
    id: nat,
)
    requires
        finite_mounts(mounts),
        toc_error(prefix) is None,
    ensures
        marked(m, id) ==> marked(patched_marks(prefix, size, mounts, m), id),
        marked(patched_marks(prefix, size, mounts, m), id) && !marked(m, id) ==> exists|
            k: int,
            name: u64,
        | #[trigger]
            is_best_at(mounts, k, name) && entry_of(mounts, k, name).id == id && has_record(
                toc_records(prefix),
                name,
            ),
        patch_of(prefix, size, mounts, m) is Ok ==> forall|k: int, name: u64| #[trigger]
            is_best_at(mounts, k, name) && entry_of(mounts, k, name).id == id && has_record(
                toc_records(prefix),
                name,
            ) ==> marked(patched_marks(prefix, size, mounts, m), id),
{
    let total = mounts.len() as int;
    let items = mount_items(mounts, total);
    let records = toc_records(prefix);
    let st = PatchState { records, data: Seq::empty(), patched: 0 };
    let best = found_best(st, size, items, m);
    lemma_with_marks(m, best, id);
    if best.contains(id) {
        let t = lemma_found_best(st, size, items, m, id);
        let k = lemma_item_at(mounts, total, t);
        assert(is_best_at(mounts, k, items[t].0));
    }
    if patch_of(prefix, size, mounts, m) is Ok {
        assert forall|k: int, name: u64| #[trigger]
            is_best_at(mounts, k, name) && entry_of(mounts, k, name).id == id && has_record(
                records,
                name,
            ) implies marked(patched_marks(prefix, size, mounts, m), id) by {
            let t = lemma_item_of(mounts, total, k, name);
            lemma_all_best_found(st, size, items, m, t);
        }
    }
}

/// Whether a record has the name.
pub open spec fn has_record(records: Seq<TocEntry>, name: u64) -> bool {
    exists|i: int| 0 <= i < records.len() && (#[trigger] records[i]).name == name
}

proof fn lemma_item_at(mounts: Named<MountView>, n: int, t: int) -> (k: int)
    requires
        0 <= n <= mounts.len(),
        finite_mounts(mounts),
        0 <= t < mount_items(mounts, n).len(),
    ensures
        has_at(mounts, k, mount_items(mounts, n)[t].0),
        entry_of(mounts, k, mount_items(mounts, n)[t].0) == mount_items(mounts, n)[t].1,
    decreases n,
{
    let before = mount_items(mounts, n - 1);
    if n > 0 && t < before.len() {
        assert(mount_items(mounts, n)[t] == before[t]);
        lemma_item_at(mounts, n - 1, t)
    } else {
        let c = mounts[n - 1].1.archive;
        assert(mounts[n - 1].1.archive.entries.dom().finite());
        lemma_ascending_exists(c.entries.dom());
        let names = ascending(c.entries.dom());
        assert(mount_items(mounts, n)[t] == archive_items(c)[t - before.len()]);
        assert(c.entries.dom().contains(names[t - before.len()]));
        n - 1
    }
}

proof fn lemma_item_of(mounts: Named<MountView>, n: int, k: int, name: u64) -> (t: int)
    requires
        0 <= k < n <= mounts.len(),
        finite_mounts(mounts),
        has_at(mounts, k, name),
    ensures
        0 <= t < mount_items(mounts, n).len(),
        mount_items(mounts, n)[t] == (name, entry_of(mounts, k, name)),
    decreases n,
{
    let before = mount_items(mounts, n - 1);
    if k < n - 1 {
        let t = lemma_item_of(mounts, n - 1, k, name);
        assert(mount_items(mounts, n)[t] == before[t]);
        t
    } else {
        let c = mounts[k].1.archive;
        assert(mounts[k].1.archive.entries.dom().finite());
        lemma_ascending_exists(c.entries.dom());
        let names = ascending(c.entries.dom());
        assert(c.entries.dom().contains(name));
        let u = choose|u: int| 0 <= u < names.len() && names[u] == name;
        assert(mount_items(mounts, n)[before.len() + u] == archive_items(c)[u]);
        before.len() + u
    }
}

proof fn lemma_found_best(
    st: PatchState,
    size: int,
    items: Seq<(u64, Entry)>,
    m: Seq<bool>,
    id: nat,
) -> (k: int)
    requires
        found_best(st, size, items, m).contains(id),
    ensures
        0 <= k < items.len(),
        stays(items[k].1),
        items[k].1.id == id,
        has_record(st.records, items[k].0),
    decreases items.len(),
{
    let before = found_best(st, size, items.drop_last(), m);
    let all = found_best(st, size, items, m);
    if before.contains(id) {
        let k = lemma_found_best(st, size, items.drop_last(), m, id);
        assert(items.drop_last()[k] == items[k]);
        k
    } else {
        let x = choose|x: int| 0 <= x < all.len() && all[x] == id;
        if x < before.len() {
            assert(before[x] == id);
        }
        lemma_patch_all_names(st, size, items.drop_last(), m);
        let s = patch_all(st, size, items.drop_last(), m)->Ok_0;
        lemma_last_named(s.records, items.last().0, s.records.len() as int);
        let i = last_named(s.records, items.last().0, s.records.len() as int)->0;
        assert(st.records[i].name == s.records[i].name);
        items.len() - 1
    }
}

proof fn lemma_all_best_found(
    st: PatchState,
    size: int,
    items: Seq<(u64, Entry)>,
    m: Seq<bool>,
    k: int,
)
    requires
        0 <= k < items.len(),
        stays(items[k].1),
        has_record(st.records, items[k].0),
        patch_all(st, size, items, m) is Ok,
    ensures
        found_best(st, size, items, m).contains(items[k].1.id),
    decreases items.len(),
{
    let id = items[k].1.id;
    let before = found_best(st, size, items.drop_last(), m);
    let all = found_best(st, size, items, m);
    if k < items.len() - 1 {
        assert(items.drop_last()[k] == items[k]);
        lemma_all_best_found(st, size, items.drop_last(), m, k);
        let x = choose|x: int| 0 <= x < before.len() && before[x] == id;
        assert(all[x] == id);
    } else {
        lemma_patch_all_names(st, size, items.drop_last(), m);
        let s = patch_all(st, size, items.drop_last(), m)->Ok_0;
        lemma_last_named(s.records, items.last().0, s.records.len() as int);
        let i = choose|i: int|
            0 <= i < st.records.len() && (#[trigger] st.records[i]).name == items[k].0;
        assert(st.records[i].name == s.records[i].name);
        assert(all[before.len() as int] == id);
    }
}

/// A patch is worked out where every entry whose name the file knows has a best form,
/// of at most `most` bytes, and all of them fit behind the file.
pub proof fn law_patch_succeeds(
    prefix: Seq<u8>,
    size: int,
    mounts: Named<MountView>,
    m: Seq<bool>,
    most: int,
)
    requires
        finite_mounts(mounts),
        toc_error(prefix) is None,
        0 <= size,
        0 <= most,
        forall|k: int, name: u64| #[trigger]
            has_at(mounts, k, name) && has_record(toc_records(prefix), name) ==> optimal_form(
                entry_of(mounts, k, name),
                m,
            ) is Ok && optimal_form(entry_of(mounts, k, name), m)->Ok_0.bytes.len() <= most,
        size + mount_items(mounts, mounts.len() as int).len() * most <= u64::MAX,
        mount_items(mounts, mounts.len() as int).len() <= usize::MAX,
    ensures
        patch_of(prefix, size, mounts, m) is Ok,
{
    let total = mounts.len() as int;
    let items = mount_items(mounts, total);
    let records = toc_records(prefix);
    let st = PatchState { records, data: Seq::empty(), patched: 0 };
    assert forall|t: int|
        0 <= t < items.len() && has_record(records, (#[trigger] items[t]).0) implies optimal_form(
        items[t].1,
        m,
    ) is Ok && optimal_form(items[t].1, m)->Ok_0.bytes.len() <= most by {
        let k = lemma_item_at(mounts, total, t);
        assert(has_at(mounts, k, items[t].0));
    }
    lemma_patch_succeeds(st, size, items, m, most);
}

proof fn lemma_patch_succeeds(
    st: PatchState,
    size: int,
    items: Seq<(u64, Entry)>,
    m: Seq<bool>,
    most: int,
)
    requires
        st.data.len() == 0,
        st.patched == 0,
        0 <= size,
        0 <= most,
        forall|t: int|
            0 <= t < items.len() && has_record(st.records, (#[trigger] items[t]).0)
                ==> optimal_form(items[t].1, m) is Ok && optimal_form(
                items[t].1,
                m,
            )->Ok_0.bytes.len() <= most,
        size + items.len() * most <= u64::MAX,
        items.len() <= usize::MAX,
    ensures
        patch_all(st, size, items, m) is Ok,
        patch_all(st, size, items, m)->Ok_0.data.len() <= items.len() * most,
        patch_all(st, size, items, m)->Ok_0.patched <= items.len(),
    decreases items.len(),
{
    if items.len() > 0 {
        let first = items.drop_last();
        let n = items.len() as int;
        assert((n - 1) * most + most == n * most) by (nonlinear_arith);
        assert forall|t: int|
            0 <= t < first.len() && has_record(st.records, (#[trigger] first[t]).0) implies
            optimal_form(first[t].1, m) is Ok && optimal_form(first[t].1, m)->Ok_0.bytes.len()
            <= most by {
            assert(first[t] == items[t]);
        }
        lemma_patch_succeeds(st, size, first, m, most);
        lemma_patch_all_names(st, size, first, m);
        let s = patch_all(st, size, first, m)->Ok_0;
        let name = items.last().0;
        lemma_last_named(s.records, name, s.records.len() as int);
        if let Some(i) = last_named(s.records, name, s.records.len() as int) {
            assert(st.records[i].name == s.records[i].name);
            assert(has_record(st.records, items[n - 1].0));
        }
    }
}

/// A patch is refused for what the file itself is refused for, for want of room, or
/// for an entry that the file knows and that has no best form.
pub proof fn law_patch_refused(
    prefix: Seq<u8>,
    size: int,
    mounts: Named<MountView>,
    m: Seq<bool>,
    e: WadError,
)
    requires
        finite_mounts(mounts),
        patch_of(prefix, size, mounts, m) == Err::<Option<PatchView>, WadError>(e),
    ensures
        toc_error(prefix) == Some(e) || e is PayloadOverflow || exists|k: int, name: u64|
            #[trigger] has_at(mounts, k, name) && has_record(toc_records(prefix), name)
                && optimal_form(entry_of(mounts, k, name), m) == Err::<Entry, WadError>(e),
{
    let total = mounts.len() as int;
    let items = mount_items(mounts, total);
    let records = toc_records(prefix);
    let st = PatchState { records, data: Seq::empty(), patched: 0 };
    if toc_error(prefix) is None && !(e is PayloadOverflow) {
        let t = lemma_patch_refused(st, size, items, m);
        let k = lemma_item_at(mounts, total, t);
        assert(has_at(mounts, k, items[t].0));
    }
}

proof fn lemma_patch_refused(
    st: PatchState,
    size: int,
    items: Seq<(u64, Entry)>,
    m: Seq<bool>,
) -> (t: int)
    requires
        patch_all(st, size, items, m) is Err,
        !(patch_all(st, size, items, m)->Err_0 is PayloadOverflow),
    ensures
        0 <= t < items.len(),
        has_record(st.records, items[t].0),
        optimal_form(items[t].1, m) == Err::<Entry, WadError>(
            patch_all(st, size, items, m)->Err_0,
        ),
    decreases items.len(),
{
    let first = items.drop_last();
    if patch_all(st, size, first, m) is Err {
        let t = lemma_patch_refused(st, size, first, m);
        assert(first[t] == items[t]);
        t
    } else {
        lemma_patch_all_names(st, size, first, m);
        let s = patch_all(st, size, first, m)->Ok_0;
        lemma_last_named(s.records, items.last().0, s.records.len() as int);
        let i = last_named(s.records, items.last().0, s.records.len() as int)->0;
        assert(st.records[i].name == s.records[i].name);
        items.len() - 1
    }
}

} // verus!
