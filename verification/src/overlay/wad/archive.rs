//! WAD archives in memory.

use super::entry::{
    bare, checksum_of, entry_at, optimal_form, raw_entry, staying, Entry, EntryData, Payload,
};
use super::marks::{lemma_with_marks, marked, with_marks, with_new, Marks};
use super::toc::{
    header_bytes, toc_bytes, toc_error, toc_records, v34_record, write_header, write_v34_entry,
    ENTRY_SIZE, EntryLoc, HEADER_SIZE, LATEST_MAJOR, LATEST_MINOR, MAGIC_0, MAGIC_1, Toc, TocEntry,
    WadError,
};
use crate::bytes::{le64_bytes, same_bytes, u64_array, u64_bytes};
use crate::codecs::{xxh3_digest, xxh3_digest_of, xxh3_input, xxh3_new, xxh3_update};
use crate::text::{copy_bytes, forward_slashes, to_forward_slashes};
use crate::overlay::hash::{path_hash, xxh64_from_path};
use std::collections::BTreeMap;
use std::collections::HashMap;
use vstd::prelude::*;
use vstd::slice::slice_to_vec;
use vstd::std_specs::cmp::OrdSpec;
use vstd::std_specs::iter::IteratorSpec;
use vstd::utf8::encode_utf8;

verus! {

/// What an archive holds: entries by name, and a signature.
pub struct Content {
    pub entries: Map<u64, Entry>,
    pub signature: Seq<u8>,
}

/// Entries by the hash of their path, and the signature of the file that they
/// came from.
pub struct Archive {
    pub entries: BTreeMap<u64, EntryData>,
    pub signature: [u8; 256],
}

/// The entries that a map of handles stands for.
pub open spec fn entries_view(m: Map<u64, EntryData>) -> Map<u64, Entry> {
    m.map_values(|e: EntryData| e@)
}

/// Entries apart from their numbers.
pub open spec fn bare_entries(m: Map<u64, Entry>) -> Map<u64, Entry> {
    m.map_values(|e: Entry| bare(e))
}

/// An archive apart from the numbers of its entries.
pub open spec fn bare_content(c: Content) -> Content {
    Content { entries: bare_entries(c.entries), signature: c.signature }
}

/// Whether the numbers of all entries are at least `from` and below `to`.
pub open spec fn numbers_within(m: Map<u64, Entry>, from: nat, to: nat) -> bool {
    forall|n: u64| #[trigger] m.contains_key(n) ==> from <= m[n].id < to
}

/// Whether every entry is marked.
pub open spec fn all_marked(m: Map<u64, Entry>, marks: Seq<bool>) -> bool {
    forall|n: u64| #[trigger] m.contains_key(n) ==> marked(marks, m[n].id)
}

/// Whether no entry is marked.
pub open spec fn none_marked(m: Map<u64, Entry>, marks: Seq<bool>) -> bool {
    forall|n: u64| #[trigger] m.contains_key(n) ==> !marked(marks, m[n].id)
}

impl View for Archive {
    type V = Content;

    open spec fn view(&self) -> Content {
        Content { entries: entries_view(self.entries@), signature: self.signature@ }
    }
}

impl Clone for Archive {
    fn clone(&self) -> (r: Self)
        ensures
            r@ == self@,
    {
        let signature: [u8; 256] = self.signature;
        Archive { entries: self.entries.clone(), signature }
    }
}

/// An archive without entries and with a zero signature.
pub open spec fn empty_content() -> Content {
    Content { entries: Map::empty(), signature: Seq::new(256, |i: int| 0u8) }
}

impl Default for Archive {
    fn default() -> (r: Self)
        ensures
            r@ == empty_content(),
    {
        let r = Archive { entries: BTreeMap::new(), signature: [0u8;256] };
        assert(r@.entries =~= Map::<u64, Entry>::empty());
        assert(r@.signature =~= empty_content().signature);
        r
    }
}

/// Whether `names` lists the members of `dom`, each once and in ascending
/// order.
pub open spec fn lists_ascending(names: Seq<u64>, dom: Set<u64>) -> bool {
    &&& forall|i: int, j: int| 0 <= i < j < names.len() ==> names[i] < names[j]
    &&& forall|i: int| 0 <= i < names.len() ==> dom.contains(#[trigger] names[i])
    &&& forall|n: u64| #[trigger] dom.contains(n) ==> names.contains(n)
}

/// The members of `dom` in ascending order.
pub open spec fn ascending(dom: Set<u64>) -> Seq<u64> {
    choose|names: Seq<u64>| lists_ascending(names, dom)
}

proof fn lemma_lists_ascending_unique(a: Seq<u64>, b: Seq<u64>, dom: Set<u64>)
    requires
        lists_ascending(a, dom),
        lists_ascending(b, dom),
    ensures
        a == b,
    decreases a.len(),
{
    if a.len() == 0 {
        if b.len() > 0 {
            assert(dom.contains(b[0]));
            assert(a.contains(b[0]));
        }
        assert(a =~= b);
    } else {
        let n = a.last();
        assert(dom.contains(n));
        assert(b.contains(n));
        let k = choose|k: int| 0 <= k < b.len() && b[k] == n;
        let m = b.last();
        assert(dom.contains(m));
        assert(a.contains(m));
        let l = choose|l: int| 0 <= l < a.len() && a[l] == m;
        assert(m == n) by {
            if k < b.len() - 1 {
                assert(b[k] < b[b.len() - 1]);
            }
            if l < a.len() - 1 {
                assert(a[l] < a[a.len() - 1]);
            }
        }
        let rest = dom.remove(n);
        let a0 = a.drop_last();
        let b0 = b.drop_last();
        assert(lists_ascending(a0, rest)) by {
            assert forall|x: u64| #[trigger] rest.contains(x) implies a0.contains(x) by {
                assert(dom.contains(x));
                let p = choose|p: int| 0 <= p < a.len() && a[p] == x;
                assert(a0[p] == x);
            }
        }
        assert(lists_ascending(b0, rest)) by {
            assert forall|x: u64| #[trigger] rest.contains(x) implies b0.contains(x) by {
                assert(dom.contains(x));
                let p = choose|p: int| 0 <= p < b.len() && b[p] == x;
                assert(b0[p] == x);
            }
        }
        lemma_lists_ascending_unique(a0, b0, rest);
        assert(a =~= a0.push(n));
        assert(b =~= b0.push(n));
    }
}

/// A listing in ascending order is the listing in ascending order.
pub proof fn lemma_ascending(names: Seq<u64>, dom: Set<u64>)
    requires
        lists_ascending(names, dom),
    ensures
        ascending(dom) == names,
{
    lemma_lists_ascending_unique(names, ascending(dom), dom);
}

/// One more element taken adds just that element.
pub proof fn lemma_take_next<T>(s: Seq<T>, i: int)
    requires
        0 <= i < s.len(),
    ensures
        forall|x: T| #[trigger]
            s.take(i + 1).contains(x) <==> s.take(i).contains(x) || x == s[i],
{
    let now = s.take(i + 1);
    let done = s.take(i);
    assert forall|x: T| #[trigger] now.contains(x) <==> done.contains(x) || x == s[i] by {
        if now.contains(x) {
            let j = choose|j: int| 0 <= j < now.len() && now[j] == x;
            if j < i {
                assert(done[j] == x);
            }
        }
        if done.contains(x) {
            let j = choose|j: int| 0 <= j < done.len() && done[j] == x;
            assert(now[j] == x);
        }
        assert(now[i] == s[i]);
    }
}

/// A listing has exactly the members of what it lists.
pub proof fn lemma_listing(names: Seq<u64>, dom: Set<u64>)
    requires
        lists_ascending(names, dom),
    ensures
        forall|n: u64| #[trigger] names.contains(n) <==> dom.contains(n),
        names.take(names.len() as int) == names,
{
    assert(names.take(names.len() as int) =~= names);
    assert forall|n: u64| #[trigger] names.contains(n) implies dom.contains(n) by {
        let j = choose|j: int| 0 <= j < names.len() && names[j] == n;
        assert(dom.contains(names[j]));
    }
}

/// The names of an entry map in ascending order.
pub fn names_of(entries: &BTreeMap<u64, EntryData>) -> (r: Vec<u64>)
    ensures
        r@ == ascending(entries@.dom()),
        lists_ascending(r@, entries@.dom()),
        r@.len() == entries@.dom().len(),
{
    broadcast use vstd::std_specs::btree::group_btree_axioms;

    let ghost all = vstd::std_specs::btree::spec_btree_map_iter(entries).remaining();
    let ghost keys = all.map_values(|kv: (&u64, &EntryData)| *kv.0);
    let mut names: Vec<u64> = Vec::new();
    for kv in it: entries.iter()
        invariant
            it.seq() == all,
            names@.len() == it.index(),
            forall|i: int| 0 <= i < names@.len() ==> names@[i] == *all[i].0,
            keys == all.map_values(|kv: (&u64, &EntryData)| *kv.0),
            vstd::std_specs::btree::increasing_seq(keys),
    {
        names.push(*kv.0);
    }
    proof {
        assert(names@ =~= keys);
        assert forall|i: int, j: int| 0 <= i < j < names@.len() implies names@[i] < names@[j] by {
            assert(keys[i].cmp_spec(&keys[j]) is Less);
        }
        assert forall|i: int| 0 <= i < names@.len() implies entries@.dom().contains(
            #[trigger] names@[i],
        ) by {
            assert(entries@.contains_key(*all[i].0));
        }
        assert forall|n: u64| #[trigger] entries@.dom().contains(n) implies names@.contains(n) by {
            assert(entries@.contains_key(n));
            assert(all.contains((&n, &entries@[n])));
            let i = choose|i: int| 0 <= i < all.len() && all[i] == (&n, &entries@[n]);
            assert(names@[i] == n);
        }
        lemma_ascending(names@, entries@.dom());
    }
    names
}

/// Which record of a table of contents gives the payload of record `i`: the
/// first with the same checksum, or the record itself where it has none.
pub open spec fn payload_index(toc: Seq<TocEntry>, i: int) -> int {
    let checksum = toc[i].loc.checksum;
    if checksum == 0 {
        i
    } else {
        toc.map_values(|t: TocEntry| t.loc.checksum).index_of_first(checksum)->0
    }
}

/// The payload of record `i`.
pub open spec fn payload_of(src: Seq<u8>, toc: Seq<TocEntry>, i: int) -> Result<Entry, WadError> {
    entry_at(src, toc[payload_index(toc, i)].loc)
}

/// Why the first of the records `i..` that cannot be read is refused.
pub open spec fn first_payload_error(src: Seq<u8>, toc: Seq<TocEntry>, i: int) -> Option<WadError>
    decreases toc.len() - i,
{
    if i >= toc.len() {
        None
    } else {
        match payload_of(src, toc, i) {
            Err(e) => Some(e),
            Ok(_) => first_payload_error(src, toc, i + 1),
        }
    }
}

/// The entries of the first `n` records. Of two records with one name the
/// later counts.
pub open spec fn entries_upto(src: Seq<u8>, toc: Seq<TocEntry>, n: int) -> Map<u64, Entry>
    decreases n,
{
    if n <= 0 {
        Map::empty()
    } else {
        entries_upto(src, toc, n - 1).insert(toc[n - 1].name, payload_of(src, toc, n - 1)->Ok_0)
    }
}

/// The archive in the file `src` with the given signature and records.
pub open spec fn content_of(src: Seq<u8>, signature: Seq<u8>, toc: Seq<TocEntry>) -> Content {
    Content { entries: entries_upto(src, toc, toc.len() as int), signature }
}

/// How many of the first `n` records bring a payload of their own.
pub open spec fn own_upto(toc: Seq<TocEntry>, n: int) -> nat
    decreases n,
{
    if n <= 0 {
        0
    } else if payload_index(toc, n - 1) == n - 1 {
        own_upto(toc, n - 1) + 1
    } else {
        own_upto(toc, n - 1)
    }
}

/// The number of record `i`, where `first` is the first number that is given
/// out: records that share a payload share the number.
pub open spec fn record_number(toc: Seq<TocEntry>, i: int, first: nat) -> nat {
    first + own_upto(toc, payload_index(toc, i))
}

/// The entries of the first `n` records, with their numbers.
pub open spec fn numbered_upto(src: Seq<u8>, toc: Seq<TocEntry>, n: int, first: nat) -> Map<
    u64,
    Entry,
>
    decreases n,
{
    if n <= 0 {
        Map::empty()
    } else {
        numbered_upto(src, toc, n - 1, first).insert(
            toc[n - 1].name,
            Entry {
                id: record_number(toc, n - 1, first),
                ..payload_of(src, toc, n - 1)->Ok_0
            },
        )
    }
}

proof fn lemma_own_upto(toc: Seq<TocEntry>, k: int, n: int)
    requires
        k <= n,
    ensures
        own_upto(toc, k) <= own_upto(toc, n),
        0 <= k < n && payload_index(toc, k) == k ==> own_upto(toc, k) < own_upto(toc, n),
    decreases n - k,
{
    if k < n {
        lemma_own_upto(toc, k + 1, n);
    }
}

/// Two records have one number exactly where they share their payload.
pub proof fn law_numbers_shared(toc: Seq<TocEntry>, i: int, j: int, first: nat)
    requires
        0 <= i < toc.len(),
        0 <= j < toc.len(),
    ensures
        record_number(toc, i, first) == record_number(toc, j, first) <==> payload_index(toc, i)
            == payload_index(toc, j),
        i != j && payload_index(toc, i) == payload_index(toc, j) ==> toc[i].loc.checksum
            == toc[j].loc.checksum && toc[i].loc.checksum != 0,
        toc[i].loc.checksum == toc[j].loc.checksum && toc[i].loc.checksum != 0 ==> payload_index(
            toc,
            i,
        ) == payload_index(toc, j),
{
    lemma_payload_index(toc, i);
    lemma_payload_index(toc, j);
    let a = payload_index(toc, i);
    let b = payload_index(toc, j);
    lemma_payload_index_is(toc, a, a);
    lemma_payload_index_is(toc, b, b);
    if a < b {
        lemma_own_upto(toc, a, b);
    }
    if b < a {
        lemma_own_upto(toc, b, a);
    }
}

/// What is read has new numbers, and is what the records describe.
pub proof fn lemma_numbered(src: Seq<u8>, toc: Seq<TocEntry>, n: int, first: nat)
    requires
        0 <= n <= toc.len(),
        forall|i: int| 0 <= i < n ==> (#[trigger] payload_of(src, toc, i)) is Ok,
    ensures
        bare_entries(numbered_upto(src, toc, n, first)) == entries_upto(src, toc, n),
        numbers_within(numbered_upto(src, toc, n, first), first, first + own_upto(toc, n)),
    decreases n,
{
    let now = numbered_upto(src, toc, n, first);
    if n > 0 {
        let before = numbered_upto(src, toc, n - 1, first);
        lemma_numbered(src, toc, n - 1, first);
        lemma_payload_index(toc, n - 1);
        let k = payload_index(toc, n - 1);
        lemma_payload_index_is(toc, k, k);
        lemma_own_upto(toc, k, n);
        lemma_own_upto(toc, n - 1, n);
        let e = payload_of(src, toc, n - 1)->Ok_0;
        assert(payload_of(src, toc, n - 1) is Ok);
        assert(bare(e) == e);
        assert(bare_entries(now) =~= bare_entries(before).insert(toc[n - 1].name, e));
    } else {
        assert(bare_entries(now) =~= Map::<u64, Entry>::empty());
    }
}

pub proof fn lemma_payload_index(toc: Seq<TocEntry>, i: int)
    requires
        0 <= i < toc.len(),
    ensures
        0 <= payload_index(toc, i) <= i,
        toc[payload_index(toc, i)].loc.checksum == toc[i].loc.checksum,
        toc[i].loc.checksum != 0 ==> forall|j: int|
            0 <= j < payload_index(toc, i) ==> #[trigger] toc[j].loc.checksum
                != toc[i].loc.checksum,
{
    let sums = toc.map_values(|t: TocEntry| t.loc.checksum);
    assert(sums[i] == toc[i].loc.checksum);
    sums.index_of_first_ensures(toc[i].loc.checksum);
    assert forall|j: int| 0 <= j < payload_index(toc, i) && toc[i].loc.checksum != 0 implies
        #[trigger] toc[j].loc.checksum != toc[i].loc.checksum by {
        assert(sums[j] == toc[j].loc.checksum);
    }
}

/// A record is its own payload where no earlier one has its checksum.
proof fn lemma_payload_index_is(toc: Seq<TocEntry>, i: int, k: int)
    requires
        0 <= k <= i < toc.len(),
        toc[k].loc.checksum == toc[i].loc.checksum,
        toc[i].loc.checksum == 0 ==> k == i,
        toc[i].loc.checksum != 0 ==> forall|j: int|
            0 <= j < k ==> #[trigger] toc[j].loc.checksum != toc[i].loc.checksum,
    ensures
        payload_index(toc, i) == k,
{
    lemma_payload_index(toc, i);
    let p = payload_index(toc, i);
    if toc[i].loc.checksum != 0 && p < k {
        assert(toc[p].loc.checksum != toc[i].loc.checksum);
    }
}

/// Sum of the payload sizes of the entries with the given names.
pub open spec fn payload_total(entries: Map<u64, Entry>, names: Seq<u64>) -> nat
    decreases names.len(),
{
    if names.len() == 0 {
        0
    } else {
        payload_total(entries, names.drop_last()) + entries[names.last()].bytes.len()
    }
}

proof fn lemma_payload_total_monotone(entries: Map<u64, Entry>, names: Seq<u64>, i: int)
    requires
        0 <= i <= names.len(),
    ensures
        payload_total(entries, names.take(i)) <= payload_total(entries, names),
    decreases names.len() - i,
{
    if i < names.len() {
        lemma_payload_total_monotone(entries, names, i + 1);
        assert(names.take(i + 1).drop_last() =~= names.take(i));
    } else {
        assert(names.take(i) =~= names);
    }
}

/// A file of a directory tree that is packed: its path below the root, with
/// either kind of slash, and its content.
pub struct PackedFile {
    pub path: String,
    pub bytes: Vec<u8>,
}

/// The entries that the first `n` files of a directory tree are packed into.
pub open spec fn packed_upto(files: Seq<PackedFile>, n: int) -> Map<u64, Entry>
    decreases n,
{
    if n <= 0 {
        Map::empty()
    } else {
        packed_upto(files, n - 1).insert(
            path_hash(encode_utf8(forward_slashes(files[n - 1].path@))),
            raw_entry(files[n - 1].bytes@, 0),
        )
    }
}

/// Whether `k` is the first of the first `n` records with checksum `c`.
spec fn first_record(toc: Seq<TocEntry>, k: int, c: u64, n: int) -> bool {
    &&& 0 <= k < n
    &&& toc[k].loc.checksum == c
    &&& forall|j: int| 0 <= j < k ==> #[trigger] toc[j].loc.checksum != c
}

/// Whether `e` is the entry that record `k` describes.
spec fn holds_record(src: Seq<u8>, toc: Seq<TocEntry>, k: int, first: nat, e: Entry) -> bool {
    &&& entry_at(src, toc[k].loc) == Ok::<Entry, WadError>(bare(e))
    &&& e.id == first + own_upto(toc, k)
}

/// The entries of the given names.
pub open spec fn named_entries(entries: Map<u64, Entry>, names: Seq<u64>) -> Seq<Entry> {
    names.map_values(|n: u64| entries[n])
}

/// The names that two entry maps have in common.
pub open spec fn common_names(a: Map<u64, Entry>, b: Map<u64, Entry>) -> Set<u64> {
    a.dom().intersect(b.dom())
}

impl Archive {
    /// Reads the entries that a parsed table of contents describes. Records
    /// with one checksum share the payload and the number of the first of them.
    pub fn read_from_toc(src: &[u8], toc: &Toc, marks: &mut Marks) -> (r: Result<Self, WadError>)
        ensures
            match r {
                Ok(a) => {
                    &&& first_payload_error(src@, toc.entries@, 0) is None
                    &&& bare_content(a@) == content_of(src@, toc.signature@, toc.entries@)
                    &&& a@.entries == numbered_upto(
                        src@,
                        toc.entries@,
                        toc.entries@.len() as int,
                        old(marks)@.len(),
                    )
                    &&& numbers_within(a@.entries, old(marks)@.len(), final(marks)@.len())
                    &&& final(marks)@ == with_new(
                        old(marks)@,
                        own_upto(toc.entries@, toc.entries@.len() as int),
                    )
                },
                Err(e) => first_payload_error(src@, toc.entries@, 0) == Some(e),
            },
            exists|n: nat| final(marks)@ == #[trigger] with_new(old(marks)@, n),
    {
        let mut entries: BTreeMap<u64, EntryData> = BTreeMap::new();
        let mut seen: HashMap<u64, EntryData> = HashMap::new();
        let ghost records = toc.entries@;
        let ghost start = marks@;
        let ghost first = marks@.len();
        let mut i: usize = 0;
        assert(entries_view(entries@) =~= numbered_upto(src@, records, 0, first));
        assert(marks@ =~= with_new(start, 0));
        while i < toc.entries.len()
            invariant
                i <= records.len(),
                records == toc.entries@,
                first == start.len(),
                start == old(marks)@,
                first_payload_error(src@, records, 0) == first_payload_error(
                    src@,
                    records,
                    i as int,
                ),
                forall|k: int| 0 <= k < i ==> (#[trigger] payload_of(src@, records, k)) is Ok,
                marks@ == with_new(start, own_upto(records, i as int)),
                entries_view(entries@) == numbered_upto(src@, records, i as int, first),
                forall|c: u64| #[trigger]
                    seen@.contains_key(c) ==> c != 0 && exists|k: int|
                        first_record(records, k, c, i as int) && #[trigger] holds_record(
                            src@,
                            records,
                            k,
                            first,
                            seen@[c]@,
                        ),
                forall|k: int|
                    0 <= k < i && #[trigger] records[k].loc.checksum != 0 ==> seen@.contains_key(
                        records[k].loc.checksum,
                    ),
            decreases records.len() - i,
        {
            let rec: TocEntry = toc.entries[i];
            let c: u64 = rec.loc.checksum;
            let shared: Option<EntryData> = if c != 0 {
                match seen.get(&c) {
                    Some(d) => Some(d.clone()),
                    None => None,
                }
            } else {
                None
            };
            let ghost seen_before = seen@;
            let data = match shared {
                Some(d) => {
                    proof {
                        assert(seen@.contains_key(c));
                        let k = choose|k: int|
                            first_record(records, k, c, i as int) && #[trigger] holds_record(
                                src@,
                                records,
                                k,
                                first,
                                seen@[c]@,
                            );
                        lemma_payload_index_is(records, i as int, k);
                    }
                    d
                },
                None => {
                    proof {
                        assert forall|j: int| 0 <= j < i && c != 0 implies
                            #[trigger] records[j].loc.checksum != c by {
                            if records[j].loc.checksum == c {
                                assert(seen@.contains_key(c));
                            }
                        }
                        lemma_payload_index_is(records, i as int, i as int);
                    }
                    match EntryData::from_loc(src, &rec.loc, marks) {
                        Ok(d) => {
                            assert(marks@ =~= with_new(start, own_upto(records, i + 1)));
                            assert(holds_record(src@, records, i as int, first, d@));
                            if c != 0 {
                                seen.insert(c, d.clone());
                            }
                            d
                        },
                        Err(e) => {
                            return Err(e);
                        },
                    }
                },
            };
            let ghost before = entries@;
            let ghost d = data@;
            entries.insert(rec.name, data);
            assert(entries_view(entries@) =~= entries_view(before).insert(rec.name, d));
            assert(payload_of(src@, records, i as int) is Ok);
            i = i + 1;
            assert forall|x: u64| #[trigger] seen@.contains_key(x) implies x != 0 && exists|k: int|
                first_record(records, k, x, i as int) && #[trigger] holds_record(
                    src@,
                    records,
                    k,
                    first,
                    seen@[x]@,
                ) by {
                if seen_before.contains_key(x) {
                    assert(x == c ==> shared is Some);
                    assert(seen@[x] == seen_before[x]);
                    let k = choose|k: int|
                        first_record(records, k, x, i - 1) && #[trigger] holds_record(
                            src@,
                            records,
                            k,
                            first,
                            seen_before[x]@,
                        );
                    assert(first_record(records, k, x, i as int));
                } else {
                    assert(x == c);
                    assert(holds_record(src@, records, i - 1, first, seen@[x]@));
                    assert(first_record(records, i - 1, x, i as int));
                }
            }
        }
        let signature: [u8; 256] = toc.signature;
        let a = Archive { entries, signature };
        proof {
            lemma_numbered(src@, records, i as int, first);
            assert(bare_content(a@) == content_of(src@, toc.signature@, records));
        }
        Ok(a)
    }

    /// Reads a whole WAD file.
    pub fn read_from_bytes(src: &[u8], marks: &mut Marks) -> (r: Result<Self, WadError>)
        ensures
            match r {
                Ok(a) => {
                    &&& read_error(src@) is None
                    &&& bare_content(a@) == read_content(src@)
                    &&& a@.entries == numbered_upto(
                        src@,
                        toc_records(src@),
                        toc_records(src@).len() as int,
                        old(marks)@.len(),
                    )
                    &&& numbers_within(a@.entries, old(marks)@.len(), final(marks)@.len())
                },
                Err(e) => read_error(src@) == Some(e),
            },
            exists|n: nat| final(marks)@ == #[trigger] with_new(old(marks)@, n),
    {
        match Toc::read(src) {
            Ok(toc) => Self::read_from_toc(src, &toc, marks),
            Err(e) => {
                assert(marks@ =~= with_new(marks@, 0));
                Err(e)
            },
        }
    }

    /// Packs the files of a directory tree as uncompressed entries named by
    /// their paths. Of two files with one name the later counts.
    pub fn pack_from_directory(files: &Vec<PackedFile>, marks: &mut Marks) -> (r: Self)
        ensures
            bare_entries(r@.entries) == packed_upto(files@, files@.len() as int),
            r@.signature == empty_content().signature,
            numbers_within(r@.entries, old(marks)@.len(), final(marks)@.len()),
            forall|a: u64, b: u64|
                #![trigger r@.entries[a], r@.entries[b]]
                r@.entries.contains_key(a) && r@.entries.contains_key(b) && a != b
                    ==> r@.entries[a].id != r@.entries[b].id,
            final(marks)@ == with_new(old(marks)@, files@.len()),
    {
        let mut archive = Archive::default();
        let ghost start = marks@;
        let mut i: usize = 0;
        assert(marks@ =~= with_new(start, 0));
        assert(bare_entries(archive@.entries) =~= packed_upto(files@, 0));
        while i < files.len()
            invariant
                i <= files@.len(),
                start == old(marks)@,
                marks@ == with_new(start, i as nat),
                bare_entries(archive@.entries) == packed_upto(files@, i as int),
                archive@.signature == empty_content().signature,
                numbers_within(archive@.entries, start.len(), marks@.len()),
                forall|a: u64, b: u64|
                    #![trigger archive@.entries[a], archive@.entries[b]]
                    archive@.entries.contains_key(a) && archive@.entries.contains_key(b) && a != b
                        ==> archive@.entries[a].id != archive@.entries[b].id,
            decreases files@.len() - i,
        {
            let path = to_forward_slashes(files[i].path.as_str());
            let hash: u64 = xxh64_from_path(path.as_str());
            let bytes = copy_bytes(&files[i].bytes);
            let ghost before = archive@.entries;
            let e = EntryData::from_raw(bytes, 0, marks);
            archive.insert(hash, e);
            assert(bare_entries(archive@.entries) =~= bare_entries(before).insert(hash, bare(e@)));
            i = i + 1;
            assert(marks@ =~= with_new(start, i as nat));
        }
        archive
    }

    /// Adds an entry, in place of any of the same name.
    pub fn insert(&mut self, name: u64, data: EntryData)
        ensures
            final(self)@.entries == old(self)@.entries.insert(name, data@),
            final(self)@.signature == old(self)@.signature,
    {
        let ghost before = self.entries@;
        self.entries.insert(name, data);
        assert(self@.entries =~= entries_view(before).insert(name, data@));
    }

    /// Whether there is an entry of the name.
    pub fn has(&self, name: u64) -> (r: bool)
        ensures
            r == self@.entries.contains_key(name),
    {
        self.entries.contains_key(&name)
    }

    /// Marks every entry as stored the best way.
    pub fn mark_optimal(&self, marks: &mut Marks)
        ensures
            final(marks)@ == with_marks(
                old(marks)@,
                named_entries(self@.entries, ascending(self@.entries.dom())).map_values(
                    |e: Entry| e.id,
                ),
            ),
            lists_ascending(ascending(self@.entries.dom()), self@.entries.dom()),
            all_marked(self@.entries, final(marks)@),
    {
        let names = names_of(&self.entries);
        assert(self.entries@.dom() =~= self@.entries.dom());
        let ghost start = marks@;
        let ghost ids = named_entries(self@.entries, names@).map_values(|e: Entry| e.id);
        let mut i: usize = 0;
        while i < names.len()
            invariant
                i <= names@.len(),
                lists_ascending(names@, self.entries@.dom()),
                ids == named_entries(self@.entries, names@).map_values(|e: Entry| e.id),
                start == old(marks)@,
                marks@ == with_marks(start, ids.take(i as int)),
            decreases names@.len() - i,
        {
            let name: u64 = names[i];
            assert(self.entries@.dom().contains(names@[i as int]));
            if let Some(e) = self.entries.get(&name) {
                e.mark_optimal(marks);
            }
            i = i + 1;
            assert(ids.take(i as int).drop_last() =~= ids.take(i - 1));
            assert(ids.take(i as int).last() == self@.entries[name].id);
        }
        proof {
            assert(ids.take(i as int) =~= ids);
            assert forall|n: u64| #[trigger] self@.entries.contains_key(n) implies marked(
                marks@,
                self@.entries[n].id,
            ) by {
                assert(self.entries@.dom().contains(n));
                let k = choose|k: int| 0 <= k < names@.len() && names@[k] == n;
                assert(ids[k] == self@.entries[n].id);
                lemma_with_marks(start, ids, ids[k]);
            }
        }
    }

    /// Marks those of the named entries that are their own best form.
    fn mark_best(&self, names: &Vec<u64>, n: usize, marks: &mut Marks)
        requires
            n <= names@.len(),
            forall|i: int|
                0 <= i < names@.len() ==> self@.entries.contains_key(#[trigger] names@[i]),
        ensures
            final(marks)@ == with_marks(
                old(marks)@,
                staying(named_entries(self@.entries, names@).take(n as int)),
            ),
    {
        let ghost start = marks@;
        let ghost es = named_entries(self@.entries, names@);
        let mut i: usize = 0;
        assert(es.take(0) =~= Seq::empty());
        while i < n
            invariant
                i <= n <= names@.len(),
                forall|i: int|
                    0 <= i < names@.len() ==> self@.entries.contains_key(#[trigger] names@[i]),
                es == named_entries(self@.entries, names@),
                start == old(marks)@,
                marks@ == with_marks(start, staying(es.take(i as int))),
            decreases n - i,
        {
            let name: u64 = names[i];
            let ghost before = marks@;
            assert(self@.entries.contains_key(names@[i as int]));
            assert(es.take(i + 1).drop_last() =~= es.take(i as int));
            assert(es.take(i + 1).last() == self@.entries[name]);
            if let Some(e) = self.entries.get(&name) {
                if e.payload().is_best() {
                    e.mark_optimal(marks);
                    proof {
                        let ids = staying(es.take(i as int));
                        assert(ids.push(e@.id).drop_last() =~= ids);
                    }
                }
            }
            i = i + 1;
        }
    }

    /// The size of the archive as a file, were every payload stored once per
    /// name.
    pub fn estimate_size(&self) -> (r: usize)
        requires
            HEADER_SIZE + ENTRY_SIZE * self@.entries.dom().len() + payload_total(
                self@.entries,
                ascending(self@.entries.dom()),
            ) <= usize::MAX,
        ensures
            r == HEADER_SIZE + ENTRY_SIZE * self@.entries.dom().len() + payload_total(
                self@.entries,
                ascending(self@.entries.dom()),
            ),
    {
        let names = names_of(&self.entries);
        assert(self.entries@.dom() =~= self@.entries.dom());
        let mut est: usize = HEADER_SIZE + ENTRY_SIZE * names.len();
        let mut i: usize = 0;
        assert(names@.take(0) =~= Seq::empty());
        while i < names.len()
            invariant
                i <= names@.len(),
                lists_ascending(names@, self.entries@.dom()),
                est == HEADER_SIZE + ENTRY_SIZE * names@.len() + payload_total(
                    self@.entries,
                    names@.take(i as int),
                ),
                HEADER_SIZE + ENTRY_SIZE * names@.len() + payload_total(self@.entries, names@)
                    <= usize::MAX,
            decreases names@.len() - i,
        {
            let name: u64 = names[i];
            assert(self.entries@.dom().contains(names@[i as int]));
            proof {
                lemma_payload_total_monotone(self@.entries, names@, i + 1);
                assert(names@.take(i + 1).drop_last() =~= names@.take(i as int));
            }
            match self.entries.get(&name) {
                Some(e) => {
                    est = est + e.bytes_len();
                },
                None => {},
            }
            i = i + 1;
        }
        assert(names@.take(i as int) =~= names@);
        est
    }

    /// The entries of `upper` whose names `self` knows too.
    pub fn overlapping(&self, upper: &Archive) -> (r: Archive)
        ensures
            r@.entries == upper@.entries.restrict(common_names(self@.entries, upper@.entries)),
            r@.signature == empty_content().signature,
    {
        let mut result = Archive::default();
        let keys = overlap_keys(&self.entries, &upper.entries);
        let ghost common = common_names(self@.entries, upper@.entries);
        assert(common =~= self.entries@.dom().intersect(upper.entries@.dom()));
        let mut i: usize = 0;
        while i < keys.len()
            invariant
                i <= keys@.len(),
                lists_ascending(keys@, common),
                common == self.entries@.dom().intersect(upper.entries@.dom()),
                result@.signature == empty_content().signature,
                forall|n: u64| #[trigger]
                    result@.entries.contains_key(n) <==> keys@.take(i as int).contains(n),
                forall|n: u64| #[trigger]
                    result@.entries.contains_key(n) ==> result@.entries[n] == upper@.entries[n],
            decreases keys@.len() - i,
        {
            let name: u64 = keys[i];
            assert(common.contains(keys@[i as int]));
            match upper.entries.get(&name) {
                Some(e) => {
                    result.insert(name, e.clone());
                },
                None => {},
            }
            proof {
                lemma_take_next(keys@, i as int);
            }
            i = i + 1;
        }
        proof {
            lemma_listing(keys@, common);
            assert(result@.entries =~= upper@.entries.restrict(common));
        }
        result
    }

    /// Adds every entry of `other`, in place of those of the same name.
    pub fn merge_in(&mut self, other: &Archive)
        ensures
            final(self)@.entries == old(self)@.entries.union_prefer_right(other@.entries),
            final(self)@.signature == old(self)@.signature,
    {
        let names = names_of(&other.entries);
        let ghost before = self@.entries;
        let mut i: usize = 0;
        while i < names.len()
            invariant
                i <= names@.len(),
                lists_ascending(names@, other.entries@.dom()),
                self@.signature == old(self)@.signature,
                forall|n: u64|
                    #![trigger self@.entries.contains_key(n)]
                    self@.entries.contains_key(n) <==> before.contains_key(n) || names@.take(
                        i as int,
                    ).contains(n),
                forall|n: u64|
                    #![trigger self@.entries[n]]
                    self@.entries.contains_key(n) ==> self@.entries[n] == if names@.take(
                        i as int,
                    ).contains(n) {
                        other@.entries[n]
                    } else {
                        before[n]
                    },
            decreases names@.len() - i,
        {
            let name: u64 = names[i];
            assert(other.entries@.dom().contains(names@[i as int]));
            match other.entries.get(&name) {
                Some(e) => {
                    self.insert(name, e.clone());
                },
                None => {},
            }
            proof {
                lemma_take_next(names@, i as int);
            }
            i = i + 1;
        }
        proof {
            lemma_listing(names@, other.entries@.dom());
            assert(self@.entries =~= before.union_prefer_right(other@.entries));
        }
    }
}

impl Archive {
    /// Keeps the entries for which `keep` says so.
    pub fn retain<F: Fn(u64, &EntryData) -> bool>(&mut self, keep: F)
        requires
            forall|n: u64, e: &EntryData| call_requires(keep, (n, e)),
        ensures
            final(self).signature == old(self).signature,
            forall|n: u64| #[trigger]
                final(self).entries@.contains_key(n) ==> old(self).entries@.contains_key(n)
                    && final(self).entries@[n] == old(self).entries@[n] && call_ensures(
                    keep,
                    (n, &old(self).entries@[n]),
                    true,
                ),
            forall|n: u64| #[trigger]
                old(self).entries@.contains_key(n) && !final(self).entries@.contains_key(n)
                    ==> call_ensures(keep, (n, &old(self).entries@[n]), false),
    {
        let names = names_of(&self.entries);
        let ghost before = self.entries@;
        let mut i: usize = 0;
        while i < names.len()
            invariant
                i <= names@.len(),
                lists_ascending(names@, before.dom()),
                before == old(self).entries@,
                self.signature == old(self).signature,
                forall|n: u64, e: &EntryData| call_requires(keep, (n, e)),
                forall|n: u64| #[trigger]
                    self.entries@.contains_key(n) ==> before.contains_key(n) && self.entries@[n]
                        == before[n],
                forall|n: u64| #[trigger]
                    self.entries@.contains_key(n) && names@.take(i as int).contains(n)
                        ==> call_ensures(keep, (n, &before[n]), true),
                forall|n: u64| #[trigger]
                    before.contains_key(n) && !self.entries@.contains_key(n) ==> call_ensures(
                        keep,
                        (n, &before[n]),
                        false,
                    ),
                forall|j: int|
                    i <= j < names@.len() ==> self.entries@.contains_key(#[trigger] names@[j]),
            decreases names@.len() - i,
        {
            let name: u64 = names[i];
            assert(self.entries@.contains_key(names@[i as int]));
            let keeps = match self.entries.get(&name) {
                Some(e) => keep(name, e),
                None => true,
            };
            if !keeps {
                let _ = self.entries.remove(&name);
            }
            proof {
                lemma_take_next(names@, i as int);
            }
            i = i + 1;
        }
        proof {
            lemma_listing(names@, before.dom());
        }
    }

    /// Calls `f` for every name that both archives know, in ascending order,
    /// and gives what it returned.
    pub fn for_each_overlap<T, F: Fn(u64, &EntryData, &EntryData) -> T>(
        &self,
        other: &Archive,
        f: F,
    ) -> (r: Vec<T>)
        requires
            forall|n: u64, a: &EntryData, b: &EntryData| call_requires(f, (n, a, b)),
        ensures
            ({
                let names = ascending(self.entries@.dom().intersect(other.entries@.dom()));
                &&& r@.len() == names.len()
                &&& forall|i: int|
                    0 <= i < names.len() ==> call_ensures(
                        f,
                        (names[i], &self.entries@[names[i]], &other.entries@[names[i]]),
                        #[trigger] r@[i],
                    )
            }),
    {
        let names = overlap_keys(&self.entries, &other.entries);
        let ghost common = self.entries@.dom().intersect(other.entries@.dom());
        let mut out: Vec<T> = Vec::new();
        let mut i: usize = 0;
        while i < names.len()
            invariant
                i <= names@.len(),
                names@ == ascending(common),
                lists_ascending(names@, common),
                common == self.entries@.dom().intersect(other.entries@.dom()),
                forall|n: u64, a: &EntryData, b: &EntryData| call_requires(f, (n, a, b)),
                out@.len() == i,
                forall|j: int|
                    0 <= j < i ==> call_ensures(
                        f,
                        (names@[j], &self.entries@[names@[j]], &other.entries@[names@[j]]),
                        #[trigger] out@[j],
                    ),
            decreases names@.len() - i,
        {
            let name: u64 = names[i];
            assert(common.contains(names@[i as int]));
            if let Some(a) = self.entries.get(&name) {
                if let Some(b) = other.entries.get(&name) {
                    out.push(f(name, a, b));
                }
            }
            i = i + 1;
        }
        out
    }

    /// Replaces every entry whose name `other` knows too by what `f` returns
    /// for it.
    pub fn for_each_overlap_mut<F: Fn(u64, &EntryData, &EntryData) -> EntryData>(
        &mut self,
        other: &Archive,
        f: F,
    )
        requires
            forall|n: u64, a: &EntryData, b: &EntryData| call_requires(f, (n, a, b)),
        ensures
            final(self).signature == old(self).signature,
            final(self).entries@.dom() == old(self).entries@.dom(),
            forall|n: u64| #[trigger]
                old(self).entries@.contains_key(n) ==> if other.entries@.contains_key(n) {
                    call_ensures(
                        f,
                        (n, &old(self).entries@[n], &other.entries@[n]),
                        final(self).entries@[n],
                    )
                } else {
                    final(self).entries@[n] == old(self).entries@[n]
                },
    {
        let names = overlap_keys(&self.entries, &other.entries);
        let ghost before = self.entries@;
        let ghost common = before.dom().intersect(other.entries@.dom());
        let mut i: usize = 0;
        while i < names.len()
            invariant
                i <= names@.len(),
                before == old(self).entries@,
                lists_ascending(names@, common),
                common == before.dom().intersect(other.entries@.dom()),
                self.signature == old(self).signature,
                self.entries@.dom() == before.dom(),
                forall|n: u64, a: &EntryData, b: &EntryData| call_requires(f, (n, a, b)),
                forall|n: u64| #[trigger]
                    before.contains_key(n) ==> if names@.take(i as int).contains(n) {
                        call_ensures(
                            f,
                            (n, &before[n], &other.entries@[n]),
                            self.entries@[n],
                        )
                    } else {
                        self.entries@[n] == before[n]
                    },
            decreases names@.len() - i,
        {
            let name: u64 = names[i];
            assert(common.contains(names@[i as int]));
            assert(before.contains_key(name));
            proof {
                lemma_not_taken(names@, i as int, common);
                lemma_take_next(names@, i as int);
            }
            let replaced: Option<EntryData> = match (
                self.entries.get(&name),
                other.entries.get(&name),
            ) {
                (Some(a), Some(b)) => Some(f(name, a, b)),
                _ => None,
            };
            if let Some(e) = replaced {
                self.entries.insert(name, e);
            }
            i = i + 1;
            assert(self.entries@.dom() =~= before.dom());
        }
        proof {
            lemma_listing(names@, common);
        }
    }

    /// Removes every entry whose name `other` knows too and for which `f` says
    /// so.
    pub fn erase_overlap<F: Fn(u64, &EntryData, &EntryData) -> bool>(
        &mut self,
        other: &Archive,
        f: F,
    )
        requires
            forall|n: u64, a: &EntryData, b: &EntryData| call_requires(f, (n, a, b)),
        ensures
            final(self).signature == old(self).signature,
            forall|n: u64| #[trigger]
                final(self).entries@.contains_key(n) ==> old(self).entries@.contains_key(n)
                    && final(self).entries@[n] == old(self).entries@[n] && (
                other.entries@.contains_key(n) ==> call_ensures(
                    f,
                    (n, &old(self).entries@[n], &other.entries@[n]),
                    false,
                )),
            forall|n: u64| #[trigger]
                old(self).entries@.contains_key(n) && !final(self).entries@.contains_key(n)
                    ==> other.entries@.contains_key(n) && call_ensures(
                    f,
                    (n, &old(self).entries@[n], &other.entries@[n]),
                    true,
                ),
    {
        let names = overlap_keys(&self.entries, &other.entries);
        let ghost before = self.entries@;
        let ghost common = before.dom().intersect(other.entries@.dom());
        let mut i: usize = 0;
        while i < names.len()
            invariant
                i <= names@.len(),
                before == old(self).entries@,
                lists_ascending(names@, common),
                common == before.dom().intersect(other.entries@.dom()),
                self.signature == old(self).signature,
                forall|n: u64, a: &EntryData, b: &EntryData| call_requires(f, (n, a, b)),
                forall|n: u64| #[trigger]
                    self.entries@.contains_key(n) ==> before.contains_key(n) && self.entries@[n]
                        == before[n],
                forall|n: u64| #[trigger]
                    self.entries@.contains_key(n) && names@.take(i as int).contains(n)
                        ==> call_ensures(f, (n, &before[n], &other.entries@[n]), false),
                forall|n: u64| #[trigger]
                    before.contains_key(n) && !self.entries@.contains_key(n)
                        ==> other.entries@.contains_key(n) && call_ensures(
                        f,
                        (n, &before[n], &other.entries@[n]),
                        true,
                    ),
                forall|j: int|
                    i <= j < names@.len() ==> self.entries@.contains_key(#[trigger] names@[j]),
            decreases names@.len() - i,
        {
            let name: u64 = names[i];
            assert(common.contains(names@[i as int]));
            assert(self.entries@.contains_key(names@[i as int]));
            let erase = match (self.entries.get(&name), other.entries.get(&name)) {
                (Some(a), Some(b)) => f(name, a, b),
                _ => false,
            };
            if erase {
                let _ = self.entries.remove(&name);
            }
            proof {
                lemma_take_next(names@, i as int);
            }
            i = i + 1;
        }
        proof {
            lemma_listing(names@, common);
        }
    }
}

/// What is listed at position `i` is not listed before.
pub proof fn lemma_not_taken(names: Seq<u64>, i: int, dom: Set<u64>)
    requires
        lists_ascending(names, dom),
        0 <= i < names.len(),
    ensures
        !names.take(i).contains(names[i]),
{
    if names.take(i).contains(names[i]) {
        let j = choose|j: int| 0 <= j < i && names.take(i)[j] == names[i];
        assert(names[j] < names[i]);
    }
}

/// Why a WAD file cannot be read; `None` where it can.
pub open spec fn read_error(src: Seq<u8>) -> Option<WadError> {
    match toc_error(src) {
        Some(e) => Some(e),
        None => first_payload_error(src, toc_records(src), 0),
    }
}

/// What a WAD file that can be read holds.
pub open spec fn read_content(src: Seq<u8>) -> Content {
    content_of(src, src.subrange(4, 260), toc_records(src))
}

/// The names that two entry maps have in common, in ascending order.
pub fn overlap_keys(lhs: &BTreeMap<u64, EntryData>, rhs: &BTreeMap<u64, EntryData>) -> (r: Vec<u64>)
    ensures
        r@ == ascending(lhs@.dom().intersect(rhs@.dom())),
        lists_ascending(r@, lhs@.dom().intersect(rhs@.dom())),
{
    let names = names_of(lhs);
    let mut out: Vec<u64> = Vec::new();
    let mut i: usize = 0;
    while i < names.len()
        invariant
            i <= names@.len(),
            lists_ascending(names@, lhs@.dom()),
            forall|a: int, b: int| 0 <= a < b < out@.len() ==> out@[a] < out@[b],
            forall|a: int|
                0 <= a < out@.len() ==> lhs@.dom().contains(#[trigger] out@[a])
                    && rhs@.dom().contains(out@[a]),
            forall|a: int, j: int|
                0 <= a < out@.len() && i <= j < names@.len() ==> out@[a] < names@[j],
            forall|j: int|
                0 <= j < i && rhs@.dom().contains(#[trigger] names@[j]) ==> out@.contains(
                    names@[j],
                ),
        decreases names@.len() - i,
    {
        let name: u64 = names[i];
        assert(lhs@.dom().contains(names@[i as int]));
        let ghost before = out@;
        if rhs.contains_key(&name) {
            out.push(name);
            proof {
                assert(out@[before.len() as int] == name);
                assert forall|j: int|
                    0 <= j < i && rhs@.dom().contains(#[trigger] names@[j]) implies out@.contains(
                    names@[j],
                ) by {
                    let a = choose|a: int| 0 <= a < before.len() && before[a] == names@[j];
                    assert(out@[a] == names@[j]);
                }
            }
        }
        i = i + 1;
    }
    proof {
        let common = lhs@.dom().intersect(rhs@.dom());
        assert forall|n: u64| #[trigger] common.contains(n) implies out@.contains(n) by {
            assert(lhs@.dom().contains(n));
            let j = choose|j: int| 0 <= j < names@.len() && names@[j] == n;
            assert(rhs@.dom().contains(names@[j]));
        }
        lemma_ascending(out@, common);
    }
    out
}

/// Payloads, and positions and sizes in the file, stay below this.
pub const MAX_ENTRY_SIZE: u64 = 0x1_0000_0000;

/// What the header checksum is taken over: name and checksum of each entry.
pub open spec fn digest_input(entries: Map<u64, Entry>, names: Seq<u64>) -> Seq<u8>
    decreases names.len(),
{
    if names.len() == 0 {
        Seq::empty()
    } else {
        digest_input(entries, names.drop_last()) + le64_bytes(names.last() as int) + le64_bytes(
            checksum_of(entries[names.last()]) as int,
        )
    }
}

/// The checksum in the header of an archive: the XXH3 digest of magic, version
/// and the entries' names and checksums in ascending order of names.
pub open spec fn header_checksum(entries: Map<u64, Entry>) -> u64 {
    xxh3_digest_of(
        seq![MAGIC_0, MAGIC_1, LATEST_MAJOR, LATEST_MINOR] + digest_input(
            entries,
            ascending(entries.dom()),
        ),
    )
}

/// The header of the file that an archive is written to.
pub open spec fn archive_header(c: Content) -> Seq<u8> {
    header_bytes(
        c.signature,
        le64_bytes(header_checksum(c.entries) as int),
        c.entries.dom().len() as int,
    )
}

/// Where entries stand in a file, and the payloads that follow its table of
/// contents.
pub struct Layout {
    pub locs: Seq<EntryLoc>,
    pub data: Seq<u8>,
}

/// The location among `locs` with the given checksum.
pub open spec fn loc_with(locs: Seq<EntryLoc>, checksum: u64) -> Option<EntryLoc>
    decreases locs.len(),
{
    if locs.len() == 0 {
        None
    } else {
        match loc_with(locs.drop_last(), checksum) {
            Some(loc) => Some(loc),
            None => if locs.last().checksum == checksum {
                Some(locs.last())
            } else {
                None
            },
        }
    }
}

/// The location of an entry that is stored at `offset`.
pub open spec fn loc_for(o: Entry, offset: u64) -> EntryLoc {
    EntryLoc {
        entry_type: o.entry_type,
        subchunk_count: o.subchunk_count,
        subchunk_index: o.subchunk_index,
        offset,
        size: o.bytes.len() as u64,
        size_decompressed: o.size_decompressed,
        checksum: checksum_of(o),
    }
}

/// One more entry placed: where the payload with its checksum already stands,
/// else behind all payloads. `start` is where the payloads begin.
pub open spec fn placed(l: Layout, start: int, o: Entry) -> Result<Layout, WadError> {
    match loc_with(l.locs, checksum_of(o)) {
        Some(loc) => Ok(Layout { locs: l.locs.push(loc), data: l.data }),
        None => {
            let offset = start + l.data.len();
            if offset >= MAX_ENTRY_SIZE || o.bytes.len() >= MAX_ENTRY_SIZE || o.size_decompressed
                >= MAX_ENTRY_SIZE {
                Err(
                    WadError::EntryTooLarge {
                        offset: offset as u64,
                        size: o.bytes.len() as u64,
                        size_decompressed: o.size_decompressed,
                    },
                )
            } else {
                Ok(
                    Layout {
                        locs: l.locs.push(loc_for(o, offset as u64)),
                        data: l.data + o.bytes,
                    },
                )
            }
        },
    }
}

/// The first `n` of the named entries, each stored the best way under the marks
/// `m`, placed one after the other.
pub open spec fn layout_upto(
    entries: Map<u64, Entry>,
    names: Seq<u64>,
    start: int,
    n: int,
    m: Seq<bool>,
) -> Result<Layout, WadError>
    decreases n,
{
    if n <= 0 {
        Ok(Layout { locs: Seq::empty(), data: Seq::empty() })
    } else {
        match layout_upto(entries, names, start, n - 1, m) {
            Err(e) => Err(e),
            Ok(l) => match optimal_form(entries[names[n - 1]], m) {
                Err(e) => Err(e),
                Ok(o) => placed(l, start, o),
            },
        }
    }
}

/// How many of the first `n` named entries are looked at before one is refused.
pub open spec fn tried_upto(
    entries: Map<u64, Entry>,
    names: Seq<u64>,
    start: int,
    n: int,
    m: Seq<bool>,
) -> int
    decreases n,
{
    if n <= 0 {
        0
    } else if layout_upto(entries, names, start, n - 1, m) is Ok {
        n
    } else {
        tried_upto(entries, names, start, n - 1, m)
    }
}

/// Where the payloads of a file with `n` entries begin.
pub open spec fn payload_start(n: int) -> int {
    HEADER_SIZE + ENTRY_SIZE * n
}

/// The records of named entries at given locations.
pub open spec fn records_of(names: Seq<u64>, locs: Seq<EntryLoc>) -> Seq<TocEntry> {
    Seq::new(names.len(), |i: int| TocEntry { name: names[i], loc: locs[i] })
}

/// How the entries of an archive are placed in its file.
pub open spec fn layout_of(c: Content, m: Seq<bool>) -> Result<Layout, WadError> {
    let names = ascending(c.entries.dom());
    layout_upto(c.entries, names, payload_start(names.len() as int), names.len() as int, m)
}

/// The file that an archive is written to under the marks `m`: header, records
/// in ascending order of names, payloads.
pub open spec fn archive_bytes(c: Content, m: Seq<bool>) -> Result<Seq<u8>, WadError> {
    match layout_of(c, m) {
        Err(e) => Err(e),
        Ok(l) => Ok(
            archive_header(c) + toc_bytes(records_of(ascending(c.entries.dom()), l.locs)) + l.data,
        ),
    }
}

/// The marks after an archive is written: of the entries that were looked at,
/// those that are their own best form are marked.
pub open spec fn written_marks(c: Content, m: Seq<bool>) -> Seq<bool> {
    let names = ascending(c.entries.dom());
    let tried = tried_upto(
        c.entries,
        names,
        payload_start(names.len() as int),
        names.len() as int,
        m,
    );
    with_marks(m, staying(named_entries(c.entries, names).take(tried)))
}

proof fn lemma_layout_len(
    entries: Map<u64, Entry>,
    names: Seq<u64>,
    start: int,
    n: int,
    m: Seq<bool>,
)
    requires
        0 <= n,
        layout_upto(entries, names, start, n, m) is Ok,
    ensures
        layout_upto(entries, names, start, n, m)->Ok_0.locs.len() == n,
    decreases n,
{
    if n > 0 {
        lemma_layout_len(entries, names, start, n - 1, m);
    }
}

/// An error among the first entries is an error of all, and no later entry is
/// looked at.
proof fn lemma_layout_error(
    entries: Map<u64, Entry>,
    names: Seq<u64>,
    start: int,
    n: int,
    all: int,
    m: Seq<bool>,
)
    requires
        0 <= n <= all,
        layout_upto(entries, names, start, n, m) is Err,
    ensures
        layout_upto(entries, names, start, all, m) == layout_upto(entries, names, start, n, m),
        tried_upto(entries, names, start, all, m) == tried_upto(entries, names, start, n, m),
    decreases all - n,
{
    if n < all {
        lemma_layout_error(entries, names, start, n, all - 1, m);
    }
}

impl Archive {
    /// The header of the file that the archive is written to.
    pub fn header(&self) -> (r: Vec<u8>)
        requires
            self@.entries.dom().len() <= u32::MAX,
        ensures
            r@ == archive_header(self@),
            r@.len() == HEADER_SIZE,
    {
        broadcast use crate::bytes::lemma_le32_bytes_len, crate::bytes::lemma_le64_bytes_len;

        let names = names_of(&self.entries);
        assert(self.entries@.dom() =~= self@.entries.dom());
        let mut hasher = xxh3_new();
        let start: [u8; 4] = [MAGIC_0, MAGIC_1, LATEST_MAJOR, LATEST_MINOR];
        let ghost magic = seq![MAGIC_0, MAGIC_1, LATEST_MAJOR, LATEST_MINOR];
        assert(start@ =~= magic);
        xxh3_update(&mut hasher, start.as_slice());
        let mut i: usize = 0;
        assert(names@.take(0) =~= Seq::empty());
        assert(xxh3_input(hasher) =~= magic + digest_input(self@.entries, names@.take(0)));
        while i < names.len()
            invariant
                i <= names@.len(),
                lists_ascending(names@, self.entries@.dom()),
                xxh3_input(hasher) == magic + digest_input(self@.entries, names@.take(i as int)),
            decreases names@.len() - i,
        {
            let name: u64 = names[i];
            assert(self.entries@.dom().contains(names@[i as int]));
            match self.entries.get(&name) {
                Some(e) => {
                    let name_bytes = u64_bytes(name);
                    let sum_bytes = u64_bytes(e.checksum());
                    xxh3_update(&mut hasher, name_bytes.as_slice());
                    xxh3_update(&mut hasher, sum_bytes.as_slice());
                },
                None => {},
            }
            i = i + 1;
            assert(names@.take(i as int).drop_last() =~= names@.take(i - 1));
            assert(xxh3_input(hasher) =~= magic + digest_input(
                self@.entries,
                names@.take(i as int),
            ));
        }
        assert(names@.take(i as int) =~= names@);
        let checksum: [u8; 8] = u64_array(xxh3_digest(&hasher));
        let mut out: Vec<u8> = vec![0u8; HEADER_SIZE];
        write_header(out.as_mut_slice(), &self.signature, checksum, names.len() as u32);
        assert(out@ =~= archive_header(self@));
        out
    }

    /// The file that the archive is written to, as a version 3.4 WAD. Entries
    /// whose payloads have one checksum share one copy of it. Entries that are
    /// their own best form are marked on the way.
    pub fn to_bytes(&self, marks: &mut Marks) -> (r: Result<Vec<u8>, WadError>)
        requires
            self@.entries.dom().len() <= u32::MAX,
        ensures
            match r {
                Ok(v) => archive_bytes(self@, old(marks)@) == Ok::<Seq<u8>, WadError>(v@),
                Err(e) => archive_bytes(self@, old(marks)@) == Err::<Seq<u8>, WadError>(e),
            },
            final(marks)@ == written_marks(self@, old(marks)@),
    {
        let names = names_of(&self.entries);
        assert(self.entries@.dom() =~= self@.entries.dom());
        let start: u64 = HEADER_SIZE as u64 + ENTRY_SIZE as u64 * names.len() as u64;
        let ghost entries = self@.entries;
        let ghost total = names@.len() as int;
        let ghost m = marks@;
        assert forall|i: int| 0 <= i < names@.len() implies self@.entries.contains_key(
            #[trigger] names@[i],
        ) by {
            assert(self.entries@.dom().contains(names@[i]));
        }
        let mut data: Vec<u8> = Vec::new();
        let mut locs: Vec<EntryLoc> = Vec::new();
        let mut seen: HashMap<u64, EntryLoc> = HashMap::new();
        let mut i: usize = 0;
        while i < names.len()
            invariant
                i <= names@.len(),
                total == names@.len(),
                total <= u32::MAX,
                m == old(marks)@,
                m == marks@,
                forall|i: int|
                    0 <= i < names@.len() ==> self@.entries.contains_key(#[trigger] names@[i]),
                entries == self@.entries,
                names@ == ascending(entries.dom()),
                lists_ascending(names@, self.entries@.dom()),
                start == payload_start(total),
                data@.len() == 0 || start + data@.len() <= 2 * MAX_ENTRY_SIZE,
                layout_upto(entries, names@, start as int, i as int, m) == Ok::<Layout, WadError>(
                    Layout { locs: locs@, data: data@ },
                ),
                forall|c: u64|
                    #![trigger seen@.contains_key(c)]
                    #![trigger loc_with(locs@, c)]
                    seen@.contains_key(c) <==> loc_with(locs@, c) is Some,
                forall|c: u64| #[trigger]
                    seen@.contains_key(c) ==> loc_with(locs@, c) == Some(seen@[c]),
            decreases names@.len() - i,
        {
            let name: u64 = names[i];
            assert(self.entries@.dom().contains(names@[i as int]));
            let best: Result<Payload, WadError> = match self.entries.get(&name) {
                Some(e) => e.payload().best(e.is_optimal(marks)),
                None => Ok(Payload::from_raw(Vec::new(), 0)),
            };
            let optimized = match best {
                Ok(o) => o,
                Err(e) => {
                    self.mark_best(&names, i + 1, marks);
                    proof {
                        lemma_layout_error(entries, names@, start as int, i + 1, total, m);
                    }
                    return Err(e);
                },
            };
            assert(optimal_form(entries[names@[i as int]], m) == Ok::<Entry, WadError>(optimized@));
            let checksum: u64 = optimized.checksum();
            let ghost locs_before = locs@;
            let known: Option<EntryLoc> = match seen.get(&checksum) {
                Some(loc) => Some(*loc),
                None => None,
            };
            let loc: EntryLoc = match known {
                Some(loc) => loc,
                None => {
                    let offset: u64 = start + data.len() as u64;
                    let size: u64 = optimized.bytes_len() as u64;
                    let size_decompressed: u64 = optimized.size_decompressed();
                    if offset >= MAX_ENTRY_SIZE || size >= MAX_ENTRY_SIZE || size_decompressed
                        >= MAX_ENTRY_SIZE {
                        self.mark_best(&names, i + 1, marks);
                        proof {
                            lemma_layout_error(entries, names@, start as int, i + 1, total, m);
                        }
                        return Err(WadError::EntryTooLarge { offset, size, size_decompressed });
                    }
                    let mut payload = slice_to_vec(optimized.bytes());
                    data.append(&mut payload);
                    let loc = EntryLoc {
                        entry_type: optimized.entry_type(),
                        subchunk_count: optimized.subchunk_count(),
                        subchunk_index: optimized.subchunk_index(),
                        offset,
                        size,
                        size_decompressed,
                        checksum,
                    };
                    seen.insert(checksum, loc);
                    loc
                },
            };
            locs.push(loc);
            i = i + 1;
            proof {
                assert(locs@.drop_last() =~= locs_before);
                assert(loc_with(locs_before, checksum) is None ==> loc.checksum == checksum);
                lemma_loc_with(locs_before, checksum);
            }
        }
        self.mark_best(&names, names.len(), marks);
        assert(tried_upto(entries, names@, start as int, total, m) == total) by {
            if total > 0 {
                assert(layout_upto(entries, names@, start as int, total - 1, m) is Ok);
            }
        }
        let header = self.header();
        let mut out: Vec<u8> = header;
        let ghost records = records_of(names@, locs@);
        proof {
            lemma_layout_len(entries, names@, start as int, total, m);
            assert(records.take(0) =~= Seq::empty());
        }
        assert(out@ =~= archive_header(self@) + toc_bytes(records.take(0)));
        let mut k: usize = 0;
        while k < names.len()
            invariant
                k <= names@.len(),
                locs@.len() == names@.len(),
                records == records_of(names@, locs@),
                out@ == archive_header(self@) + toc_bytes(records.take(k as int)),
            decreases names@.len() - k,
        {
            let mut rec: Vec<u8> = vec![0u8; ENTRY_SIZE];
            write_v34_entry(rec.as_mut_slice(), names[k], &locs[k]);
            assert(rec@ =~= v34_record(names@[k as int], locs@[k as int]));
            out.append(&mut rec);
            k = k + 1;
            assert(records.take(k as int).drop_last() =~= records.take(k - 1));
            assert(out@ =~= archive_header(self@) + toc_bytes(records.take(k as int)));
        }
        assert(records.take(k as int) =~= records);
        out.append(&mut data);
        Ok(out)
    }

    /// What is to be written to a file whose first `HEADER_SIZE` bytes are
    /// `on_disk`, or `None` where there are not so many: the whole archive, or
    /// nothing where the file already starts with the header of this archive.
    pub fn write_to_file(&self, on_disk: Option<&[u8]>, marks: &mut Marks) -> (r: Result<
        Option<Vec<u8>>,
        WadError,
    >)
        requires
            self@.entries.dom().len() <= u32::MAX,
        ensures
            match r {
                Ok(None) => {
                    &&& on_disk is Some && on_disk->0@ == archive_header(self@)
                    &&& final(marks)@ == old(marks)@
                },
                Ok(Some(v)) => {
                    &&& !(on_disk is Some && on_disk->0@ == archive_header(self@))
                    &&& archive_bytes(self@, old(marks)@) == Ok::<Seq<u8>, WadError>(v@)
                    &&& final(marks)@ == written_marks(self@, old(marks)@)
                },
                Err(e) => {
                    &&& !(on_disk is Some && on_disk->0@ == archive_header(self@))
                    &&& archive_bytes(self@, old(marks)@) == Err::<Seq<u8>, WadError>(e)
                    &&& final(marks)@ == written_marks(self@, old(marks)@)
                },
            },
    {
        let header = self.header();
        if let Some(existing) = on_disk {
            if same_bytes(existing, header.as_slice()) {
                return Ok(None);
            }
        }
        match self.to_bytes(marks) {
            Ok(v) => Ok(Some(v)),
            Err(e) => Err(e),
        }
    }
}

/// A location found by its checksum has that checksum.
proof fn lemma_loc_with(locs: Seq<EntryLoc>, checksum: u64)
    ensures
        match loc_with(locs, checksum) {
            Some(loc) => loc.checksum == checksum && locs.contains(loc),
            None => forall|i: int| 0 <= i < locs.len() ==> #[trigger] locs[i].checksum != checksum,
        },
    decreases locs.len(),
{
    if locs.len() > 0 {
        lemma_loc_with(locs.drop_last(), checksum);
        match loc_with(locs.drop_last(), checksum) {
            Some(loc) => {
                let i = choose|i: int| 0 <= i < locs.len() - 1 && locs.drop_last()[i] == loc;
                assert(locs[i] == loc);
            },
            None => {
                assert(locs[locs.len() - 1] == locs.last());
                assert forall|i: int|
                    0 <= i < locs.len() && loc_with(locs, checksum) is None implies
                    #[trigger] locs[i].checksum != checksum by {
                    if i < locs.len() - 1 {
                        assert(locs.drop_last()[i].checksum != checksum);
                    }
                }
            },
        }
    }
}

} // verus!
