//! Which skins of a champion a mod replaces.

use crate::data_dragon::{sanitize, sanitized};
use crate::names::{lookup, put, NameMap, Named};
use crate::overlay::hash::{path_hash, xxh64_from_path};
use crate::overlay::wad::fantome::fantome_file_mounts;
use crate::overlay::wad::index::{bare_mounts, Index};
use crate::overlay::wad::marks::Marks;
use crate::overlay::wad::mounted::{MountView, OverlayError};
use crate::text::{
    concat, copy_option, decimal, decimal_text, ends_with, has_suffix, option_text, push_text,
    same_text, string_of, strip_suffix, text, texts, trim, trimmed, without_suffix,
};
use vstd::prelude::*;
use vstd::utf8::encode_utf8;

verus! {

/// The highest number of an official skin that is looked for.
pub const MAX_SKIN_SLOT: u32 = 999;

/// `s` without `.wad.client` at its end, however often it stands there.
pub open spec fn without_wad_suffixes(s: Seq<char>) -> Seq<char>
    decreases s.len(),
{
    if has_suffix(s, ".wad.client"@) && ".wad.client"@.len() > 0 {
        without_wad_suffixes(without_suffix(s, ".wad.client"@))
    } else {
        s
    }
}

/// The name of a champion or of its archive as paths spell it: small letters
/// and digits.
pub open spec fn champion_key(value: Seq<char>) -> Seq<char> {
    sanitized(without_wad_suffixes(trimmed(value)))
}

pub fn normalize_champion_key(value: &str) -> (r: String)
    ensures
        r@ == champion_key(value@),
{
    proof {
        reveal_strlit(".wad.client");
    }
    let ghost start = trimmed(value@);
    let mut rest = string_of(trim(value).as_slice());
    while ends_with(rest.as_str(), ".wad.client")
        invariant
            ".wad.client"@.len() > 0,
            without_wad_suffixes(start) == without_wad_suffixes(rest@),
        decreases rest@.len(),
    {
        match strip_suffix(rest.as_str(), ".wad.client") {
            Some(shorter) => {
                rest = shorter;
            },
            None => {},
        }
    }
    sanitize(rest.as_str())
}

/// Where the description of an official skin lies: under `data` or `assets`.
pub open spec fn skin_bin_path(top: Seq<char>, key: Seq<char>, slot: u32) -> Seq<char> {
    top + "/characters/"@ + key + "/skins/skin"@ + decimal_text(slot as int) + ".bin"@
}

fn skin_path(top: &str, key: &str, slot: u32) -> (r: String)
    ensures
        r@ == skin_bin_path(top@, key@, slot),
{
    let mut out = concat(top, "/characters/");
    push_text(&mut out, key);
    push_text(&mut out, "/skins/skin");
    push_text(&mut out, decimal(slot as u64).as_str());
    push_text(&mut out, ".bin");
    out
}

/// Where the description of an official skin may lie.
pub fn candidate_skin_bin_paths(champion_key: &str, slot: u32) -> (r: (String, String))
    ensures
        r.0@ == skin_bin_path("data"@, champion_key@, slot),
        r.1@ == skin_bin_path("assets"@, champion_key@, slot),
{
    (skin_path("data", champion_key, slot), skin_path("assets", champion_key, slot))
}

/// The champions that a mod may be for: the one that it says, and those after
/// which its archives are named. The archive of loose files is no champion.
pub open spec fn is_mod_champion(
    mounts: Named<MountView>,
    champion: Seq<char>,
    key: Seq<char>,
) -> bool {
    &&& key.len() > 0
    &&& {
        ||| key == champion_key(champion)
        ||| exists|i: int|
            0 <= i < mounts.len() && champion_key((#[trigger] mounts[i]).0) == key && key != "raw"@
    }
}

/// Whether some archive holds a file with the name hash.
pub open spec fn has_entry(mounts: Named<MountView>, name: u64) -> bool {
    exists|i: int|
        0 <= i < mounts.len() && (#[trigger] mounts[i]).1.archive.entries.contains_key(name)
}

/// Whether a mod replaces the skin at `slot` of a champion.
pub open spec fn replaces_slot(mounts: Named<MountView>, key: Seq<char>, slot: u32) -> bool {
    ||| has_entry(mounts, path_hash(encode_utf8(skin_bin_path("data"@, key, slot))))
    ||| has_entry(mounts, path_hash(encode_utf8(skin_bin_path("assets"@, key, slot))))
}

/// Whether a mod replaces the official skin at `slot`.
pub open spec fn injects_on_slot(mounts: Named<MountView>, champion: Seq<char>, slot: u32) -> bool {
    exists|key: Seq<char>| #[trigger]
        is_mod_champion(mounts, champion, key) && replaces_slot(mounts, key, slot)
}

/// The slots below `n` that a mod replaces, in order.
pub open spec fn slots_below(mounts: Named<MountView>, champion: Seq<char>, n: int) -> Seq<u32>
    decreases n,
{
    if n <= 0 {
        Seq::empty()
    } else if injects_on_slot(mounts, champion, (n - 1) as u32) {
        slots_below(mounts, champion, n - 1).push((n - 1) as u32)
    } else {
        slots_below(mounts, champion, n - 1)
    }
}

/// The official skins that a mod replaces: the base skin where none is found.
pub open spec fn detected_slots(mounts: Named<MountView>, champion: Seq<char>) -> Seq<u32> {
    let slots = slots_below(mounts, champion, MAX_SKIN_SLOT + 1);
    if slots.len() == 0 {
        seq![0u32]
    } else {
        slots
    }
}

fn contains_text(list: &Vec<String>, s: &str) -> (r: bool)
    ensures
        r == texts(list@).contains(s@),
{
    let mut i: usize = 0;
    while i < list.len()
        invariant
            i <= list@.len(),
            forall|j: int| 0 <= j < i ==> (#[trigger] list@[j])@ != s@,
        decreases list@.len() - i,
    {
        if same_text(list[i].as_str(), s) {
            assert(texts(list@)[i as int] == s@);
            return true;
        }
        i = i + 1;
    }
    assert forall|j: int| 0 <= j < texts(list@).len() implies texts(list@)[j] != s@ by {
        assert(list@[j]@ != s@);
    }
    false
}

fn add_text(list: &mut Vec<String>, s: String)
    ensures
        forall|x: Seq<char>|
            texts(final(list)@).contains(x) <==> (texts(old(list)@).contains(x) || x == s@),
{
    let ghost before = texts(list@);
    if !contains_text(list, s.as_str()) {
        list.push(s);
        let ghost after = texts(list@);
        assert(after =~= before.push(s@));
        assert forall|x: Seq<char>| after.contains(x) <==> (before.contains(x) || x == s@) by {
            if before.contains(x) {
                let k = choose|k: int| 0 <= k < before.len() && before[k] == x;
                assert(after[k] == x);
            }
            if x == s@ {
                assert(after[before.len() as int] == x);
            }
        }
    }
}

/// The champions that a mod may be for, each once.
fn mod_champions(index: &Index, champion: &str) -> (r: Vec<String>)
    ensures
        forall|key: Seq<char>|
            texts(r@).contains(key) <==> #[trigger] is_mod_champion(
                index@.mounts,
                champion@,
                key,
            ),
{
    let ghost mounts = index@.mounts;
    let mut keys: Vec<String> = Vec::new();
    assert(texts(keys@) =~= Seq::<Seq<char>>::empty());
    let own = normalize_champion_key(champion);
    if !own.as_str().is_empty() {
        add_text(&mut keys, own);
    }
    let mut i: usize = 0;
    assert forall|key: Seq<char>|
        texts(keys@).contains(key) <==> #[trigger] is_mod_champion(
            mounts.take(0),
            champion@,
            key,
        ) by {
    }
    while i < index.mounts.len()
        invariant
            i <= index@.mounts.len(),
            mounts == index@.mounts,
            forall|key: Seq<char>|
                texts(keys@).contains(key) <==> #[trigger] is_mod_champion(
                    mounts.take(i as int),
                    champion@,
                    key,
                ),
        decreases index@.mounts.len() - i,
    {
        let ghost before = keys@;
        let key = normalize_champion_key(index.mounts.key(i).as_str());
        let ghost k = key@;
        if !key.as_str().is_empty() && !same_text(key.as_str(), "raw") {
            add_text(&mut keys, key);
        }
        proof {
            let was = mounts.take(i as int);
            let now = mounts.take(i + 1);
            assert(now =~= was.push(mounts[i as int]));
            assert(champion_key(mounts[i as int].0) == k);
            assert forall|key: Seq<char>|
                texts(keys@).contains(key) <==> #[trigger] is_mod_champion(
                    now,
                    champion@,
                    key,
                ) by {
                assert(texts(before).contains(key) <==> is_mod_champion(was, champion@, key));
                if is_mod_champion(was, champion@, key) && key != champion_key(champion@) {
                    let j = choose|j: int|
                        0 <= j < was.len() && champion_key((#[trigger] was[j]).0) == key;
                    assert(now[j] == was[j]);
                }
                if is_mod_champion(now, champion@, key) && key != champion_key(champion@) {
                    let j = choose|j: int|
                        0 <= j < now.len() && champion_key((#[trigger] now[j]).0) == key;
                    if j < i {
                        assert(was[j] == now[j]);
                    }
                }
                if k.len() > 0 && k != "raw"@ {
                    assert(now[i as int].0 == mounts[i as int].0);
                }
            }
        }
        i = i + 1;
    }
    assert(mounts.take(i as int) =~= mounts);
    keys
}

/// Whether some archive of a mod holds a file with the name hash.
pub fn mounts_have(index: &Index, name: u64) -> (r: bool)
    ensures
        r == has_entry(index@.mounts, name),
{
    let mut i: usize = 0;
    while i < index.mounts.len()
        invariant
            i <= index@.mounts.len(),
            forall|j: int|
                0 <= j < i ==> !(#[trigger] index@.mounts[j]).1.archive.entries.contains_key(name),
        decreases index@.mounts.len() - i,
    {
        if index.mounts.value(i).archive.has(name) {
            assert(index@.mounts[i as int].1.archive.entries.contains_key(name));
            return true;
        }
        i = i + 1;
    }
    false
}

fn slot_is_replaced(index: &Index, key: &str, slot: u32) -> (r: bool)
    ensures
        r == replaces_slot(index@.mounts, key@, slot),
{
    let (data, assets) = candidate_skin_bin_paths(key, slot);
    mounts_have(index, xxh64_from_path(data.as_str())) || mounts_have(
        index,
        xxh64_from_path(assets.as_str()),
    )
}

/// The official skins that a mod replaces, by the descriptions of skins that it
/// holds.
pub fn detect_injects_on(index: &Index, champion: &str) -> (r: Vec<u32>)
    ensures
        r@ == detected_slots(index@.mounts, champion@),
{
    let ghost mounts = index@.mounts;
    let keys = mod_champions(index, champion);
    let mut slots: Vec<u32> = Vec::new();
    let mut slot: u32 = 0;
    while slot <= MAX_SKIN_SLOT
        invariant
            slot <= MAX_SKIN_SLOT + 1,
            mounts == index@.mounts,
            forall|key: Seq<char>|
                texts(keys@).contains(key) <==> #[trigger] is_mod_champion(mounts, champion@, key),
            slots@ == slots_below(mounts, champion@, slot as int),
        decreases MAX_SKIN_SLOT + 1 - slot,
    {
        let mut hit = false;
        let mut k: usize = 0;
        while k < keys.len() && !hit
            invariant
                k <= keys@.len(),
                mounts == index@.mounts,
                forall|key: Seq<char>|
                    texts(keys@).contains(key) <==> #[trigger] is_mod_champion(
                        mounts,
                        champion@,
                        key,
                    ),
                !hit ==> forall|j: int|
                    0 <= j < k ==> !replaces_slot(mounts, (#[trigger] keys@[j])@, slot),
                hit ==> injects_on_slot(mounts, champion@, slot),
            decreases keys@.len() - k,
        {
            if slot_is_replaced(index, keys[k].as_str(), slot) {
                hit = true;
                assert(texts(keys@)[k as int] == keys@[k as int]@);
                assert(is_mod_champion(mounts, champion@, keys@[k as int]@));
            }
            k = k + 1;
        }
        proof {
            if !hit && injects_on_slot(mounts, champion@, slot) {
                let key = choose|key: Seq<char>| #[trigger]
                    is_mod_champion(mounts, champion@, key) && replaces_slot(mounts, key, slot);
                assert(texts(keys@).contains(key));
                let j = choose|j: int| 0 <= j < texts(keys@).len() && texts(keys@)[j] == key;
                assert(keys@[j]@ == key);
            }
        }
        if hit {
            slots.push(slot);
        }
        slot = slot + 1;
    }
    if slots.len() == 0 {
        slots.push(0);
        assert(slots@ =~= seq![0u32]);
    }
    slots
}

/// What an earlier index says of a skin.
pub struct PreviousIndexEntry {
    pub file_stem: String,
    pub injects_on: Vec<u32>,
    pub source_file_len: Option<u64>,
    pub source_file_mtime_ns: Option<u128>,
    pub source_champion: Option<String>,
}

pub struct PreviousView {
    pub file_stem: Seq<char>,
    pub injects_on: Seq<u32>,
    pub source_file_len: Option<u64>,
    pub source_file_mtime_ns: Option<u128>,
    pub source_champion: Option<Seq<char>>,
}

impl View for PreviousIndexEntry {
    type V = PreviousView;

    open spec fn view(&self) -> PreviousView {
        PreviousView {
            file_stem: self.file_stem@,
            injects_on: self.injects_on@,
            source_file_len: self.source_file_len,
            source_file_mtime_ns: self.source_file_mtime_ns,
            source_champion: option_text(self.source_champion),
        }
    }
}

/// What is known of a file: its length and when it was last written.
#[derive(Debug, Clone, Copy, PartialEq, Eq, Structural)]
pub struct FileFingerprint {
    pub len: u64,
    pub mtime_ns: u128,
}

/// Whether an earlier entry may be used for a file: it was made from a file
/// with the same fingerprint and champion, or it says nothing of its source.
pub open spec fn is_current(e: PreviousView, file: FileFingerprint, champion: Seq<char>) -> bool {
    ||| e.source_file_len == Some(file.len) && e.source_file_mtime_ns == Some(file.mtime_ns)
        && e.source_champion == Some(champion)
    ||| e.source_file_len is None && e.source_file_mtime_ns is None && e.source_champion is None
}

/// The entries among the first `n`, by file stem. Those without file stem or
/// slots are left out; of two with one file stem the later counts.
pub open spec fn previous_by_stem(entries: Seq<PreviousIndexEntry>, n: int) -> Named<PreviousView>
    decreases n,
{
    if n <= 0 {
        Seq::empty()
    } else {
        let before = previous_by_stem(entries, n - 1);
        let e = entries[n - 1]@;
        if e.file_stem.len() > 0 && e.injects_on.len() > 0 {
            put(before, e.file_stem, e)
        } else {
            before
        }
    }
}

/// The slots that an earlier index has for a file, where they may be used.
pub open spec fn previous_slots(
    entries: Named<PreviousView>,
    id: Seq<char>,
    file: FileFingerprint,
    champion: Seq<char>,
) -> Option<Seq<u32>> {
    match lookup(entries, id) {
        Some(e) => if is_current(e, file, champion) {
            Some(e.injects_on)
        } else {
            None
        },
        None => None,
    }
}

/// What an earlier index says, so that mods need not be read again.
pub struct PreviousInjectsOnIndex {
    entries: NameMap<PreviousIndexEntry>,
}

impl View for PreviousInjectsOnIndex {
    type V = Named<PreviousView>;

    closed spec fn view(&self) -> Named<PreviousView> {
        self.entries@
    }
}

fn copy_slots(v: &Vec<u32>) -> (r: Vec<u32>)
    ensures
        r@ == v@,
{
    let mut out: Vec<u32> = Vec::new();
    let mut i: usize = 0;
    while i < v.len()
        invariant
            i <= v@.len(),
            out@ == v@.take(i as int),
        decreases v@.len() - i,
    {
        out.push(v[i]);
        i = i + 1;
        assert(v@.take(i as int) =~= v@.take(i - 1).push(v@[i - 1]));
    }
    assert(v@.take(i as int) =~= v@);
    out
}

impl PreviousInjectsOnIndex {
    /// Takes the entries of an earlier index, in its order. An index that could
    /// not be read has none.
    pub fn load(entries: &Vec<PreviousIndexEntry>) -> (r: Self)
        ensures
            r@ == previous_by_stem(entries@, entries@.len() as int),
    {
        let mut map: NameMap<PreviousIndexEntry> = NameMap::new();
        let mut i: usize = 0;
        while i < entries.len()
            invariant
                i <= entries@.len(),
                map@ == previous_by_stem(entries@, i as int),
            decreases entries@.len() - i,
        {
            let e = &entries[i];
            if !e.file_stem.as_str().is_empty() && e.injects_on.len() > 0 {
                let copy = PreviousIndexEntry {
                    file_stem: text(e.file_stem.as_str()),
                    injects_on: copy_slots(&e.injects_on),
                    source_file_len: e.source_file_len,
                    source_file_mtime_ns: e.source_file_mtime_ns,
                    source_champion: copy_option(&e.source_champion),
                };
                assert(copy@ == e@);
                map.insert(text(e.file_stem.as_str()), copy);
            }
            i = i + 1;
        }
        PreviousInjectsOnIndex { entries: map }
    }

    /// The slots that the earlier index has for a file, where they may be used.
    pub fn previous(&self, id: &str, file: FileFingerprint, champion: &str) -> (r: Option<Vec<u32>>)
        ensures
            match r {
                Some(slots) => previous_slots(self@, id@, file, champion@) == Some(slots@),
                None => previous_slots(self@, id@, file, champion@) is None,
            },
    {
        match self.entries.get(id) {
            Some(e) => {
                let same_champion = match &e.source_champion {
                    Some(c) => same_text(c.as_str(), champion),
                    None => false,
                };
                let matches_file = e.source_file_len == Some(file.len) && e.source_file_mtime_ns
                    == Some(file.mtime_ns) && same_champion;
                let unsourced = e.source_file_len.is_none() && e.source_file_mtime_ns.is_none()
                    && e.source_champion.is_none();
                if matches_file || unsourced {
                    Some(copy_slots(&e.injects_on))
                } else {
                    None
                }
            },
            None => None,
        }
    }

    /// The slots of a mod: those of the earlier index where they may be used,
    /// otherwise those that the mod itself shows.
    pub fn get_or_detect(
        &self,
        id: &str,
        file: FileFingerprint,
        champion: &str,
        bytes: Vec<u8>,
    ) -> (r: Result<Vec<u32>, OverlayError>)
        ensures
            match previous_slots(self@, id@, file, champion@) {
                Some(slots) => r is Ok && r->Ok_0@ == slots,
                None => match fantome_file_mounts(bytes@) {
                    Ok(mounts) => r is Ok && r->Ok_0@ == detected_slots(mounts, champion@),
                    Err(e) => r == Err::<Vec<u32>, OverlayError>(e),
                },
            },
    {
        if let Some(slots) = self.previous(id, file, champion) {
            return Ok(slots);
        }
        let mut marks = Marks::new();
        match Index::from_fantome(text(id), bytes, &mut marks) {
            Ok(index) => {
                proof {
                    lemma_bare_slots(index@.mounts, champion@, MAX_SKIN_SLOT + 1);
                }
                Ok(detect_injects_on(&index, champion))
            },
            Err(e) => Err(e),
        }
    }
}

/// Which slots a mod replaces does not depend on the numbers of its entries.
proof fn lemma_bare_slots(mounts: Named<MountView>, champion: Seq<char>, n: int)
    requires
        n <= MAX_SKIN_SLOT + 1,
    ensures
        slots_below(bare_mounts(mounts), champion, n) == slots_below(mounts, champion, n),
    decreases n,
{
    let b = bare_mounts(mounts);
    if n > 0 {
        lemma_bare_slots(mounts, champion, n - 1);
        let slot = (n - 1) as u32;
        assert forall|name: u64| #[trigger] has_entry(b, name) == has_entry(mounts, name) by {
            if has_entry(b, name) {
                let i = choose|i: int|
                    0 <= i < b.len() && (#[trigger] b[i]).1.archive.entries.contains_key(name);
                assert(mounts[i].1.archive.entries.contains_key(name));
            }
            if has_entry(mounts, name) {
                let i = choose|i: int|
                    0 <= i < mounts.len() && (#[trigger] mounts[i]).1.archive.entries.contains_key(
                        name,
                    );
                assert(b[i].1.archive.entries.contains_key(name));
            }
        }
        assert forall|key: Seq<char>| #[trigger] is_mod_champion(b, champion, key)
            == is_mod_champion(mounts, champion, key) by {
            if exists|i: int|
                0 <= i < b.len() && champion_key((#[trigger] b[i]).0) == key && key != "raw"@ {
                let i = choose|i: int|
                    0 <= i < b.len() && champion_key((#[trigger] b[i]).0) == key && key != "raw"@;
                assert(champion_key(mounts[i].0) == key);
            }
            if exists|i: int|
                0 <= i < mounts.len() && champion_key((#[trigger] mounts[i]).0) == key && key
                    != "raw"@ {
                let i = choose|i: int|
                    0 <= i < mounts.len() && champion_key((#[trigger] mounts[i]).0) == key && key
                        != "raw"@;
                assert(champion_key(b[i].0) == key);
            }
        }
        if injects_on_slot(b, champion, slot) {
            let key = choose|key: Seq<char>| #[trigger]
                is_mod_champion(b, champion, key) && replaces_slot(b, key, slot);
            assert(is_mod_champion(mounts, champion, key) && replaces_slot(mounts, key, slot));
        }
        if injects_on_slot(mounts, champion, slot) {
            let key = choose|key: Seq<char>| #[trigger]
                is_mod_champion(mounts, champion, key) && replaces_slot(mounts, key, slot);
            assert(is_mod_champion(b, champion, key) && replaces_slot(b, key, slot));
        }
    }
}

/// A mod is always taken to replace some official skin, each is named once, in
/// order, and all are in range.
pub proof fn law_detected_slots(mounts: Named<MountView>, champion: Seq<char>)
    ensures
        detected_slots(mounts, champion).len() > 0,
        forall|i: int|
            0 <= i < detected_slots(mounts, champion).len() ==> #[trigger] detected_slots(
                mounts,
                champion,
            )[i] <= MAX_SKIN_SLOT,
        forall|i: int, j: int|
            0 <= i < j < detected_slots(mounts, champion).len() ==> #[trigger] detected_slots(
                mounts,
                champion,
            )[i] < #[trigger] detected_slots(mounts, champion)[j],
{
    lemma_slots_below(mounts, champion, MAX_SKIN_SLOT + 1);
}

proof fn lemma_slots_below(mounts: Named<MountView>, champion: Seq<char>, n: int)
    requires
        0 <= n <= MAX_SKIN_SLOT + 1,
    ensures
        forall|i: int|
            0 <= i < slots_below(mounts, champion, n).len() ==> #[trigger] slots_below(
                mounts,
                champion,
                n,
            )[i] < n,
        forall|i: int, j: int|
            0 <= i < j < slots_below(mounts, champion, n).len() ==> #[trigger] slots_below(
                mounts,
                champion,
                n,
            )[i] < #[trigger] slots_below(mounts, champion, n)[j],
    decreases n,
{
    if n > 0 {
        lemma_slots_below(mounts, champion, n - 1);
        let was = slots_below(mounts, champion, n - 1);
        let now = slots_below(mounts, champion, n);
        assert forall|i: int| 0 <= i < now.len() implies #[trigger] now[i] < n by {
            if i < was.len() {
                assert(now[i] == was[i]);
            }
        }
        assert forall|i: int, j: int|
            0 <= i < j < now.len() implies #[trigger] now[i] < #[trigger] now[j] by {
            assert(now[i] == was[i]);
            if j < was.len() {
                assert(now[j] == was[j]);
            }
        }
    }
}

} // verus!
