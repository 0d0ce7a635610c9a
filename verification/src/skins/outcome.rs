//! What the library shows of its mods, and what the index says of them.

use super::fantome::{entry_champion, entry_named, info_text, metadata_of, wad_champion, InfoView};
use super::import::{dashed, kept_stem, trim_dashes_end, trim_dashes_start};
use super::index::{
    champion_entries, id_keys, index_entry, index_of, lemma_index_bound, skin_index, titled,
    AssetVersions, IndexEntryView,
};
use super::injection::{
    champion_key, detected_slots, has_entry, injects_on_slot, is_mod_champion, previous_by_stem,
    previous_slots, replaces_slot, skin_bin_path, slots_below, without_wad_suffixes,
    FileFingerprint, PreviousIndexEntry, PreviousView, MAX_SKIN_SLOT,
};
use super::library::{first_met, found_champion, listed, listing, FoundSkin, SkinView};
use super::preview::{image_name, is_fresh, letters_and_digits, loading_url, tile_url};
use super::warm::{splash_source, tile_source, Material, SourceView};
use crate::codecs::uppercase_of;
use crate::data_dragon::{is_alphanumeric, sanitized};
use crate::names::{has_name, in_order, law_put, lemma_slot_of, lookup, Named};
use crate::overlay::hash::path_hash;
use crate::overlay::wad::fantome::ZipView;
use crate::overlay::wad::mounted::MountView;
use crate::sorting::{key_less, law_order, order_of};
use crate::text::{
    has_suffix, i64_digits, is_white, law_part_from, lower_char, occurs_at, option_text, part_from,
    trimmed, without_suffix,
};
use vstd::prelude::*;
use vstd::utf8::{decode_utf8, encode_utf8, valid_utf8};

verus! {

/// Whether a skin is listed under the champion with the given number: it is
/// enabled, and its champion has that number.
pub open spec fn belongs(
    s: SkinView,
    enabled: Set<Seq<char>>,
    champions: Named<i64>,
    key: Seq<char>,
) -> bool {
    &&& enabled.contains(s.id)
    &&& lookup(champions, sanitized(s.champion)) is Some
    &&& i64_digits(lookup(champions, sanitized(s.champion))->0 as int) == key
}

/// Whether an index entry says what a skin is: its number from its champion and its
/// place, its name with capitals, its file, and for each image whether there is one
/// and its version.
pub open spec fn describes(
    e: IndexEntryView,
    s: SkinView,
    v: AssetVersions,
    champion_id: i64,
    place: int,
) -> bool {
    &&& e.id == 9_000_000 + champion_id * 100 + place
    &&& e.champion_id == champion_id
    &&& e.name == titled(s.name, 0, true)
    &&& e.file_stem == s.id
    &&& e.has_splash_asset == (s.preview is Some)
    &&& e.has_background_asset == (s.background_preview is Some)
    &&& e.has_tile_asset == (s.tile_preview is Some)
    &&& e.splash_version == if s.preview is Some { v.splash } else { 0 }
    &&& e.background_version == if s.background_preview is Some { v.background } else { 0 }
    &&& e.tile_version == if s.tile_preview is Some { v.tile } else { 0 }
}

proof fn lemma_index_places(
    skins: Seq<SkinView>,
    versions: Seq<AssetVersions>,
    order: Seq<int>,
    enabled: Set<Seq<char>>,
    champions: Named<i64>,
    n: int,
    key: Seq<char>,
) -> (p: Seq<int>)
    requires
        0 <= n <= order.len(),
    ensures
        ({
            let entries = champion_entries(
                index_of(skins, versions, order, enabled, champions, n),
                key,
            );
            &&& p.len() == entries.len()
            &&& forall|x: int, y: int| 0 <= x < y < p.len() ==> p[x] < p[y]
            &&& forall|x: int|
                0 <= x < p.len() ==> 0 <= #[trigger] p[x] < n && belongs(
                    skins[order[p[x]]],
                    enabled,
                    champions,
                    key,
                ) && describes(
                    entries[x],
                    skins[order[p[x]]],
                    versions[order[p[x]]],
                    lookup(champions, sanitized(skins[order[p[x]]].champion))->0,
                    x,
                )
            &&& forall|m: int|
                0 <= m < n && belongs(skins[#[trigger] order[m]], enabled, champions, key)
                    ==> p.contains(m)
        }),
    decreases n,
{
    if n <= 0 {
        let none: Named<Seq<IndexEntryView>> = Seq::empty();
        if has_name(none, key) {
            lemma_slot_of(none, key);
        }
        Seq::empty()
    } else {
        let q = lemma_index_places(skins, versions, order, enabled, champions, n - 1, key);
        lemma_index_bound(skins, versions, order, enabled, champions, n - 1, key);
        let before = index_of(skins, versions, order, enabled, champions, n - 1);
        let now = index_of(skins, versions, order, enabled, champions, n);
        let s = skins[order[n - 1]];
        let entries = champion_entries(before, key);
        if enabled.contains(s.id) && lookup(champions, sanitized(s.champion)) is Some {
            let id = lookup(champions, sanitized(s.champion))->0;
            let own = i64_digits(id as int);
            let old_own = champion_entries(before, own);
            let new_own = old_own.push(
                index_entry(s, versions[order[n - 1]], id, old_own.len() as int),
            );
            law_put(before, own, new_own, key);
            if own == key {
                let p = q.push(n - 1);
                let after = champion_entries(now, key);
                assert(after == new_own);
                assert forall|x: int| 0 <= x < p.len() implies 0 <= #[trigger] p[x] < n && belongs(
                    skins[order[p[x]]],
                    enabled,
                    champions,
                    key,
                ) && describes(
                    after[x],
                    skins[order[p[x]]],
                    versions[order[p[x]]],
                    lookup(champions, sanitized(skins[order[p[x]]].champion))->0,
                    x,
                ) by {
                    if x < q.len() {
                        assert(p[x] == q[x]);
                        assert(after[x] == entries[x]);
                    }
                }
                assert forall|m: int|
                    0 <= m < n && belongs(
                        skins[#[trigger] order[m]],
                        enabled,
                        champions,
                        key,
                    ) implies p.contains(m) by {
                    if m < n - 1 {
                        let x = choose|x: int| 0 <= x < q.len() && q[x] == m;
                        assert(p[x] == m);
                    } else {
                        assert(p[q.len() as int] == m);
                    }
                }
                p
            } else {
                assert(champion_entries(now, key) == entries);
                q
            }
        } else {
            q
        }
    }
}

/// The index has, under the number of a champion, just the enabled skins of that
/// champion, each once, in the order of their ids: entry `x` describes skin
/// `places[x]`.
pub proof fn law_index_lists(
    skins: Seq<SkinView>,
    versions: Seq<AssetVersions>,
    enabled: Set<Seq<char>>,
    champions: Named<i64>,
    key: Seq<char>,
) -> (places: Seq<int>)
    ensures
        ({
            let entries = champion_entries(
                skin_index(skins, versions, enabled, champions),
                key,
            );
            &&& places.len() == entries.len()
            &&& forall|x: int|
                0 <= x < places.len() ==> 0 <= #[trigger] places[x] < skins.len() && belongs(
                    skins[places[x]],
                    enabled,
                    champions,
                    key,
                ) && describes(
                    entries[x],
                    skins[places[x]],
                    versions[places[x]],
                    lookup(champions, sanitized(skins[places[x]].champion))->0,
                    x,
                )
            &&& forall|i: int|
                0 <= i < skins.len() && belongs(#[trigger] skins[i], enabled, champions, key)
                    ==> places.contains(i)
            &&& forall|x: int, y: int|
                0 <= x < y < places.len() ==> #[trigger] places[x] != #[trigger] places[y]
                    && !key_less(
                    (skins[places[y]].id, Seq::empty()),
                    (skins[places[x]].id, Seq::empty()),
                )
        }),
{
    let n = skins.len() as int;
    let keys = id_keys(skins);
    let order = order_of(keys, n);
    law_order(keys, n);
    let p = lemma_index_places(skins, versions, order, enabled, champions, n, key);
    let places = p.map_values(|m: int| order[m]);
    assert forall|i: int|
        0 <= i < skins.len() && belongs(#[trigger] skins[i], enabled, champions, key) implies
        places.contains(i) by {
        assert(order.contains(i));
        let m = choose|m: int| 0 <= m < order.len() && order[m] == i;
        assert(p.contains(m));
        let x = choose|x: int| 0 <= x < p.len() && p[x] == m;
        assert(places[x] == i);
    }
    assert forall|x: int| 0 <= x < places.len() implies 0 <= #[trigger] places[x] < skins.len()
        && places[x] == order[p[x]] by {
        assert(0 <= p[x] < n);
        assert(0 <= order[p[x]] < n);
    }
    assert forall|x: int, y: int| 0 <= x < y < places.len() implies #[trigger] places[x]
        != #[trigger] places[y] && !key_less(
        (skins[places[y]].id, Seq::empty()),
        (skins[places[x]].id, Seq::empty()),
    ) by {
        assert(0 <= p[x] < p[y] < n);
        assert(order[p[x]] != order[p[y]]);
        assert(keys[places[x]] == (skins[places[x]].id, Seq::<char>::empty()));
        assert(keys[places[y]] == (skins[places[y]].id, Seq::<char>::empty()));
    }
    places
}

/// Capitals are put at the start of each word alone: text in two parts with white
/// space between them is done part by part, a word changes in its first letter
/// only, and white space stays.
pub proof fn law_titled(a: Seq<char>, white: char, b: Seq<char>)
    requires
        is_white(white),
    ensures
        titled(a + seq![white] + b, 0, true) == titled(a, 0, true) + seq![white] + titled(
            b,
            0,
            true,
        ),
        a.len() > 0 && (forall|i: int| 0 <= i < a.len() ==> !is_white(#[trigger] a[i])) ==> titled(
            a,
            0,
            true,
        ) == uppercase_of(a[0]) + a.skip(1),
{
    lemma_titled_parts(a, white, b, 0, true);
    if a.len() > 0 && (forall|i: int| 0 <= i < a.len() ==> !is_white(#[trigger] a[i])) {
        lemma_titled_word(a, 1);
    }
}

proof fn lemma_titled_word(s: Seq<char>, i: int)
    requires
        0 <= i <= s.len(),
        forall|k: int| 0 <= k < s.len() ==> !is_white(#[trigger] s[k]),
    ensures
        titled(s, i, false) == s.skip(i),
    decreases s.len() - i,
{
    if i < s.len() {
        lemma_titled_word(s, i + 1);
        assert(!is_white(s[i]));
        assert(s.skip(i) =~= seq![s[i]] + s.skip(i + 1));
    } else {
        assert(s.skip(i) =~= Seq::empty());
    }
}

proof fn lemma_titled_parts(a: Seq<char>, white: char, b: Seq<char>, i: int, start: bool)
    requires
        is_white(white),
        0 <= i <= a.len(),
    ensures
        titled(a + seq![white] + b, i, start) == titled(a, i, start) + seq![white] + titled(
            b,
            0,
            true,
        ),
    decreases a.len() - i,
{
    let s = a + seq![white] + b;
    let tail = seq![white] + titled(b, 0, true);
    if i < a.len() {
        assert(s[i] == a[i]);
        if is_white(a[i]) {
            lemma_titled_parts(a, white, b, i + 1, true);
        } else {
            lemma_titled_parts(a, white, b, i + 1, false);
        }
        assert(titled(s, i, start) =~= titled(a, i, start) + seq![white] + titled(b, 0, true));
    } else {
        assert(s[i] == white);
        lemma_titled_shift(a + seq![white], b, 0, true);
        assert(s =~= (a + seq![white]) + b);
        assert(titled(s, i, start) =~= titled(a, i, start) + seq![white] + titled(b, 0, true));
    }
}

proof fn lemma_titled_shift(a: Seq<char>, b: Seq<char>, i: int, start: bool)
    requires
        0 <= i <= b.len(),
    ensures
        titled(a + b, a.len() + i, start) == titled(b, i, start),
    decreases b.len() - i,
{
    if i < b.len() {
        assert((a + b)[a.len() + i] == b[i]);
        lemma_titled_shift(a, b, i + 1, true);
        lemma_titled_shift(a, b, i + 1, false);
    }
}

/// Each mod that was found is listed once with what it says of itself: its stem
/// stands in for a missing name, `Unknown` for a missing champion, and the icon is
/// the one that came with the first mod of the champion.
pub proof fn law_listed(found: Seq<FoundSkin>, enabled: Set<Seq<char>>, i: int, first: int)
    requires
        0 <= i < found.len(),
        0 <= first <= i,
        found_champion(found[first]) == found_champion(found[i]),
        forall|j: int|
            0 <= j < first ==> found_champion(#[trigger] found[j]) != found_champion(found[i]),
    ensures
        listing(found, enabled).contains(listed(found, i, enabled)),
        ({
            let s = listed(found, i, enabled);
            let f = found[i];
            &&& s.id == f.stem@
            &&& s.enabled == enabled.contains(f.stem@)
            &&& s.champion_icon == option_text(found[first].champion_icon)
            &&& s.preview == option_text(f.preview)
            &&& s.background_preview == option_text(f.background_preview)
            &&& s.tile_preview == option_text(f.tile_preview)
            &&& match f.meta {
                Some(meta) => {
                    &&& s.name == match meta.name {
                        Some(n) => n@,
                        None => f.stem@,
                    }
                    &&& s.champion == match meta.champion {
                        Some(c) => c@,
                        None => "Unknown"@,
                    }
                    &&& s.author == option_text(meta.author)
                    &&& s.version == option_text(meta.version)
                    &&& s.description == option_text(meta.description)
                },
                None => {
                    &&& s.name == f.stem@
                    &&& s.champion == "Unknown"@
                    &&& s.author is None && s.version is None && s.description is None
                },
            }
        }),
{
    super::library::law_listing(found, enabled);
    lemma_first_met(found, found_champion(found[i]), 0, first);
}

proof fn lemma_first_met(found: Seq<FoundSkin>, champion: Seq<char>, from: int, first: int)
    requires
        0 <= from <= first < found.len(),
        found_champion(found[first]) == champion,
        forall|j: int| from <= j < first ==> found_champion(#[trigger] found[j]) != champion,
    ensures
        first_met(found, champion, from) == first,
    decreases first - from,
{
    if from < first {
        lemma_first_met(found, champion, from + 1, first);
    }
}

/// A slot is among those that a mod replaces just where the mod has the description
/// of the skin at that slot, of a champion that it may be for. Where it has none,
/// it is taken to replace the base skin.
pub proof fn law_detected_exactly(mounts: Named<MountView>, champion: Seq<char>, slot: u32)
    ensures
        detected_slots(mounts, champion).contains(slot) <==> (slot <= 999 && describes_slot(
            mounts,
            champion,
            slot,
        )) || (slot == 0 && forall|s: u32| s <= 999 ==> !#[trigger] describes_slot(
            mounts,
            champion,
            s,
        )),
{
    lemma_slots_exactly(mounts, champion, MAX_SKIN_SLOT + 1);
    let slots = slots_below(mounts, champion, MAX_SKIN_SLOT + 1);
    assert forall|s: u32| #[trigger] describes_slot(mounts, champion, s) == injects_on_slot(
        mounts,
        champion,
        s,
    ) by {
        lemma_describes_slot(mounts, champion, s);
    }
    if slots.len() == 0 {
        assert(seq![0u32][0] == 0);
        assert forall|s: u32| s <= 999 implies !#[trigger] describes_slot(mounts, champion, s) by {
            if describes_slot(mounts, champion, s) {
                assert(slots.contains(s));
            }
        }
        if detected_slots(mounts, champion).contains(slot) {
            assert(slot == 0);
        }
        if slot == 0 {
            assert(detected_slots(mounts, champion)[0] == 0);
        }
        if slot <= 999 && describes_slot(mounts, champion, slot) {
            assert(slots.contains(slot));
        }
    } else {
        assert(slots.contains(slots[0]));
        assert(describes_slot(mounts, champion, slots[0]));
    }
}

/// Whether a mod has the description of the skin at `slot` of a champion that it
/// may be for: the one that it says or one after which an archive of it is named.
pub open spec fn describes_slot(mounts: Named<MountView>, champion: Seq<char>, slot: u32) -> bool {
    exists|key: Seq<char>, i: int|
        #![trigger is_mod_champion(mounts, champion, key), mounts[i]]
        is_mod_champion(mounts, champion, key) && 0 <= i < mounts.len() && (
        mounts[i].1.archive.entries.contains_key(
            path_hash(encode_utf8(skin_bin_path("data"@, key, slot))),
        ) || mounts[i].1.archive.entries.contains_key(
            path_hash(encode_utf8(skin_bin_path("assets"@, key, slot))),
        ))
}

proof fn lemma_describes_slot(mounts: Named<MountView>, champion: Seq<char>, slot: u32)
    ensures
        describes_slot(mounts, champion, slot) == injects_on_slot(mounts, champion, slot),
{
    if describes_slot(mounts, champion, slot) {
        let (key, i) = choose|key: Seq<char>, i: int|
            #![trigger is_mod_champion(mounts, champion, key), mounts[i]]
            is_mod_champion(mounts, champion, key) && 0 <= i < mounts.len() && (
            mounts[i].1.archive.entries.contains_key(
                path_hash(encode_utf8(skin_bin_path("data"@, key, slot))),
            ) || mounts[i].1.archive.entries.contains_key(
                path_hash(encode_utf8(skin_bin_path("assets"@, key, slot))),
            ));
        assert(replaces_slot(mounts, key, slot));
    }
    if injects_on_slot(mounts, champion, slot) {
        let key = choose|key: Seq<char>| #[trigger]
            is_mod_champion(mounts, champion, key) && replaces_slot(mounts, key, slot);
        let data = path_hash(encode_utf8(skin_bin_path("data"@, key, slot)));
        let assets = path_hash(encode_utf8(skin_bin_path("assets"@, key, slot)));
        let name = if has_entry(mounts, data) {
            data
        } else {
            assets
        };
        let i = choose|i: int|
            0 <= i < mounts.len() && (#[trigger] mounts[i]).1.archive.entries.contains_key(name);
        assert(mounts[i].1.archive.entries.contains_key(name));
    }
}

proof fn lemma_slots_exactly(mounts: Named<MountView>, champion: Seq<char>, n: int)
    requires
        0 <= n <= 1000,
    ensures
        forall|s: u32| #[trigger]
            slots_below(mounts, champion, n).contains(s) <==> s < n && injects_on_slot(
                mounts,
                champion,
                s,
            ),
    decreases n,
{
    if n > 0 {
        lemma_slots_exactly(mounts, champion, n - 1);
        let before = slots_below(mounts, champion, n - 1);
        let now = slots_below(mounts, champion, n);
        let last = (n - 1) as u32;
        assert forall|s: u32| #[trigger] now.contains(s) <==> s < n && injects_on_slot(
            mounts,
            champion,
            s,
        ) by {
            assert(before.contains(s) <==> s < n - 1 && injects_on_slot(mounts, champion, s));
            if injects_on_slot(mounts, champion, last) {
                if now.contains(s) {
                    let i = choose|i: int| 0 <= i < now.len() && now[i] == s;
                    if i < before.len() {
                        assert(before[i] == s);
                    }
                }
                if before.contains(s) {
                    let i = choose|i: int| 0 <= i < before.len() && before[i] == s;
                    assert(now[i] == s);
                }
                assert(now[before.len() as int] == last);
            }
        }
    }
}

/// The ending of archives does not count in the name of a champion, however often
/// it stands there.
pub proof fn law_wad_suffixes(s: Seq<char>)
    ensures
        without_wad_suffixes(s + ".wad.client"@) == without_wad_suffixes(s),
        !has_suffix(without_wad_suffixes(s), ".wad.client"@),
        !has_suffix(s, ".wad.client"@) ==> without_wad_suffixes(s) == s,
{
    reveal_strlit(".wad.client");
    let end = ".wad.client"@;
    let t = s + end;
    assert(t.skip(s.len() as int) =~= end);
    assert(t.take(s.len() as int) =~= s);
    lemma_no_wad_suffix(s);
}

proof fn lemma_no_wad_suffix(s: Seq<char>)
    ensures
        !has_suffix(without_wad_suffixes(s), ".wad.client"@),
    decreases s.len(),
{
    reveal_strlit(".wad.client");
    if has_suffix(s, ".wad.client"@) {
        lemma_no_wad_suffix(without_suffix(s, ".wad.client"@));
    }
}

/// Whether entry `i` of an earlier index says something of a file.
pub open spec fn says_slots(entries: Seq<PreviousIndexEntry>, i: int, stem: Seq<char>) -> bool {
    &&& 0 <= i < entries.len()
    &&& entries[i].file_stem@ == stem
    &&& stem.len() > 0
    &&& entries[i].injects_on@.len() > 0
}

/// An earlier index says of a file what its last entry for the file does, and only
/// where that entry was made from the same file for the same champion, or says
/// nothing of its source.
pub proof fn law_previous_slots(
    entries: Seq<PreviousIndexEntry>,
    stem: Seq<char>,
    i: int,
    file: FileFingerprint,
    champion: Seq<char>,
)
    requires
        says_slots(entries, i, stem),
        forall|j: int| i < j < entries.len() ==> !#[trigger] says_slots(entries, j, stem),
    ensures
        ({
            let e = entries[i]@;
            let known = previous_by_stem(entries, entries.len() as int);
            let same = e.source_file_len == Some(file.len) && e.source_file_mtime_ns == Some(
                file.mtime_ns,
            ) && e.source_champion == Some(champion);
            let unsourced = e.source_file_len is None && e.source_file_mtime_ns is None
                && e.source_champion is None;
            &&& same || unsourced ==> previous_slots(known, stem, file, champion) == Some(
                entries[i].injects_on@,
            )
            &&& !same && !unsourced ==> previous_slots(known, stem, file, champion) is None
        }),
{
    lemma_previous(entries, entries.len() as int, stem);
}

/// An earlier index says nothing of a file that none of its entries is for.
pub proof fn law_no_previous_slots(
    entries: Seq<PreviousIndexEntry>,
    stem: Seq<char>,
    file: FileFingerprint,
    champion: Seq<char>,
)
    requires
        forall|j: int| !#[trigger] says_slots(entries, j, stem),
    ensures
        previous_slots(
            previous_by_stem(entries, entries.len() as int),
            stem,
            file,
            champion,
        ) is None,
{
    lemma_previous(entries, entries.len() as int, stem);
}

proof fn lemma_previous(entries: Seq<PreviousIndexEntry>, n: int, stem: Seq<char>)
    requires
        0 <= n <= entries.len(),
    ensures
        in_order(previous_by_stem(entries, n)),
        lookup(previous_by_stem(entries, n), stem) is Some <==> exists|i: int|
            i < n && #[trigger] says_slots(entries, i, stem),
        forall|i: int|
            i < n && #[trigger] says_slots(entries, i, stem) && (forall|j: int|
                i < j < n ==> !#[trigger] says_slots(entries, j, stem)) ==> lookup(
                previous_by_stem(entries, n),
                stem,
            ) == Some(entries[i]@),
    decreases n,
{
    if n > 0 {
        lemma_previous(entries, n - 1, stem);
        let before = previous_by_stem(entries, n - 1);
        let e = entries[n - 1]@;
        if e.file_stem.len() > 0 && e.injects_on.len() > 0 {
            law_put(before, e.file_stem, e, stem);
            if e.file_stem == stem {
                assert(says_slots(entries, n - 1, stem));
            }
        } else {
            assert(!says_slots(entries, n - 1, stem));
        }
    } else {
        let none: Named<PreviousView> = Seq::empty();
        if has_name(none, stem) {
            lemma_slot_of(none, stem);
        }
    }
}

/// What a mod says of itself is shown, but for what is empty. Its champion is the
/// first under `Heroes`, else the first under `Champions`, else the one after which
/// the first of its entries is named that is named after one.
pub proof fn law_metadata(info: InfoView, entries: Seq<ZipView>)
    ensures
        ({
            let m = metadata_of(Some(info), entries);
            &&& info.heroes.len() > 0 && info.heroes[0].len() > 0 ==> m.champion == Some(
                info.heroes[0],
            )
            &&& info.heroes.len() == 0 && info.champions.len() > 0 && info.champions[0].len() > 0
                ==> m.champion == Some(info.champions[0])
            &&& info.heroes.len() == 0 && info.champions.len() == 0 ==> m.champion == metadata_of(
                None,
                entries,
            ).champion
            &&& forall|s: Seq<char>| s.len() > 0 && #[trigger] info.name == Some(s) ==> m.name
                == Some(s)
            &&& info.name is None ==> m.name is None
            &&& forall|s: Seq<char>| s.len() > 0 && #[trigger] info.author == Some(s) ==> m.author
                == Some(s)
            &&& info.author is None ==> m.author is None
            &&& forall|s: Seq<char>| s.len() > 0 && #[trigger] info.version == Some(s)
                ==> m.version == Some(s)
            &&& info.version is None ==> m.version is None
            &&& forall|s: Seq<char>| s.len() > 0 && #[trigger] info.description == Some(s)
                ==> m.description == Some(s)
            &&& info.description is None ==> m.description is None
        }),
{
}

/// The champion after which the content of a mod is named is that of the first
/// entry that is named after one; there is none just where no entry is.
pub proof fn law_wad_champion(entries: Seq<ZipView>, from: int)
    requires
        0 <= from <= entries.len(),
    ensures
        match wad_champion(entries, from) {
            Some(c) => exists|i: int|
                from <= i < entries.len() && entry_champion((#[trigger] entries[i]).name) == Some(c)
                    && forall|j: int|
                    from <= j < i ==> entry_champion((#[trigger] entries[j]).name) is None,
            None => forall|i: int|
                from <= i < entries.len() ==> entry_champion((#[trigger] entries[i]).name) is None,
        },
    decreases entries.len() - from,
{
    if from < entries.len() {
        law_wad_champion(entries, from + 1);
    }
}

/// An archive `WAD/x.wad.client` and its loose files are named after `x`.
pub proof fn law_entry_champion(champion: Seq<char>, rest: Seq<char>)
    requires
        champion.len() > 0,
        forall|at: int|
            at < champion.len() ==> !#[trigger] occurs_at(
                champion + ".wad.client/"@ + rest,
                ".wad.client/"@,
                at,
            ),
        !has_suffix(champion + ".wad.client/"@ + rest, ".wad.client"@),
    ensures
        entry_champion("WAD/"@ + champion + ".wad.client"@) == Some(champion),
        entry_champion("WAD/"@ + (champion + ".wad.client/"@ + rest)) == Some(champion),
{
    reveal_strlit("WAD/");
    reveal_strlit(".wad.client");
    reveal_strlit(".wad.client/");
    let a = "WAD/"@ + champion + ".wad.client"@;
    let tail = champion + ".wad.client"@;
    assert(a.take(4) =~= "WAD/"@);
    assert(a.skip(4) =~= tail);
    assert(tail.skip(champion.len() as int) =~= ".wad.client"@);
    assert(tail.take(champion.len() as int) =~= champion);
    let inner = champion + ".wad.client/"@ + rest;
    let b = "WAD/"@ + inner;
    let n = champion.len() as int;
    assert(b.take(4) =~= "WAD/"@);
    assert(b.skip(4) =~= inner);
    assert(inner.subrange(n, n + ".wad.client/"@.len()) =~= ".wad.client/"@);
    assert(occurs_at(inner, ".wad.client/"@, n));
    law_part_from(inner, ".wad.client/"@, 0);
    assert(part_from(inner, ".wad.client/"@, 0) == Some(n));
    assert(inner.take(n) =~= champion);
}

/// An entry is found by its name: the first that has it, and none just where none
/// has.
pub proof fn law_entry_named(entries: Seq<ZipView>, name: Seq<char>, from: int)
    requires
        0 <= from <= entries.len(),
    ensures
        match entry_named(entries, name, from) {
            Some(i) => from <= i < entries.len() && entries[i].name == name && forall|j: int|
                from <= j < i ==> (#[trigger] entries[j]).name != name,
            None => forall|j: int|
                from <= j < entries.len() ==> (#[trigger] entries[j]).name != name,
        },
    decreases entries.len() - from,
{
    if from < entries.len() {
        law_entry_named(entries, name, from + 1);
    }
}

/// The description of a mod is the text of its first `META/info.json`, where that
/// can be read and is UTF-8.
pub proof fn law_info_text(entries: Seq<ZipView>, i: int)
    requires
        0 <= i < entries.len(),
        entries[i].name == "META/info.json"@,
        forall|j: int| 0 <= j < i ==> (#[trigger] entries[j]).name != "META/info.json"@,
    ensures
        info_text(entries) == match entries[i].body {
            Some(body) => if valid_utf8(body) {
                Some(decode_utf8(body))
            } else {
                None
            },
            None => None,
        },
{
    law_entry_named(entries, "META/info.json"@, 0);
    let k = entry_named(entries, "META/info.json"@, 0)->0;
    if k < i {
        assert(entries[k].name != "META/info.json"@);
    }
    if i < k {
        assert(entries[i].name != "META/info.json"@);
    }
}

/// `s` without dashes.
pub open spec fn undashed(s: Seq<char>) -> Seq<char>
    decreases s.len(),
{
    if s.len() == 0 {
        Seq::empty()
    } else if s.last() == '-' {
        undashed(s.drop_last())
    } else {
        undashed(s.drop_last()).push(s.last())
    }
}

/// The stem under which a mod is kept has all letters and digits of the stem that
/// it came with, in small letters and in order, and no others. Where there are
/// none it is `skin`.
pub proof fn law_kept_letters(stem: Seq<char>)
    ensures
        sanitized(stem).len() > 0 ==> undashed(kept_stem(stem)) == sanitized(stem),
        sanitized(stem).len() == 0 ==> kept_stem(stem) == "skin"@,
{
    lemma_dashed_letters(stem);
    let d = dashed(stem);
    lemma_trim_start_letters(d);
    lemma_trim_end_letters(trim_dashes_start(d));
    let t = trim_dashes_end(trim_dashes_start(d));
    if sanitized(stem).len() == 0 && t.len() > 0 {
        super::import::law_kept_stem(stem);
        assert(kept_stem(stem) == t);
        assert(t[0] != '-');
        lemma_undashed_some(t, 0);
    }
}

proof fn lemma_undashed_some(s: Seq<char>, i: int)
    requires
        0 <= i < s.len(),
        s[i] != '-',
    ensures
        undashed(s).len() > 0,
    decreases s.len(),
{
    if i < s.len() - 1 {
        assert(s.drop_last()[i] == s[i]);
        lemma_undashed_some(s.drop_last(), i);
    }
}

proof fn lemma_dashed_letters(s: Seq<char>)
    ensures
        undashed(dashed(s)) == sanitized(s),
    decreases s.len(),
{
    if s.len() > 0 {
        let before = s.drop_last();
        lemma_dashed_letters(before);
        let d = dashed(before);
        if is_alphanumeric(s.last()) {
            let c = lower_char(s.last());
            assert(c != '-') by {
                if 'A' <= s.last() <= 'Z' {
                    let n: u32 = (s.last() as u32 + 32) as u32;
                    assert(97 <= n <= 122);
                    assert((n as char) as u32 == n);
                }
            }
            assert(d.push(c).drop_last() =~= d);
        } else {
            assert(d.push('-').drop_last() =~= d);
        }
    }
}

proof fn lemma_trim_start_letters(s: Seq<char>)
    ensures
        undashed(trim_dashes_start(s)) == undashed(s),
    decreases s.len(),
{
    if s.len() > 0 && s[0] == '-' {
        lemma_trim_start_letters(s.skip(1));
        lemma_undashed_skip(s);
    }
}

proof fn lemma_undashed_skip(s: Seq<char>)
    requires
        s.len() > 0,
        s[0] == '-',
    ensures
        undashed(s.skip(1)) == undashed(s),
    decreases s.len(),
{
    if s.len() > 1 {
        let before = s.drop_last();
        lemma_undashed_skip(before);
        assert(s.skip(1).drop_last() =~= before.skip(1));
        assert(s.skip(1).last() == s.last());
    } else {
        assert(s.skip(1) =~= Seq::empty());
        assert(s.drop_last() =~= Seq::empty());
    }
}

proof fn lemma_trim_end_letters(s: Seq<char>)
    ensures
        undashed(trim_dashes_end(s)) == undashed(s),
    decreases s.len(),
{
    if s.len() > 0 && s.last() == '-' {
        lemma_trim_end_letters(s.drop_last());
    }
}

/// Words of a stem are kept apart by a dash: where a letter or digit is followed by
/// others than letters and digits and then by a letter or digit, a dash stands
/// between the two.
pub proof fn law_words_dashed(a: Seq<char>, between: Seq<char>, b: Seq<char>)
    requires
        a.len() > 0,
        is_alphanumeric(a.last()),
        between.len() > 0,
        forall|i: int| 0 <= i < between.len() ==> !is_alphanumeric(#[trigger] between[i]),
        b.len() > 0,
        is_alphanumeric(b[0]),
    ensures
        dashed(a + between + b) == dashed(a) + seq!['-'] + dashed(b),
    decreases between.len(), b.len(),
{
    lemma_dash_between(a, between);
    lemma_dashed_tail(a + between, b);
    assert(dashed(a + between + b) =~= dashed(a) + seq!['-'] + dashed(b));
}

proof fn lemma_dash_between(a: Seq<char>, between: Seq<char>)
    requires
        a.len() > 0,
        is_alphanumeric(a.last()),
        between.len() > 0,
        forall|i: int| 0 <= i < between.len() ==> !is_alphanumeric(#[trigger] between[i]),
    ensures
        dashed(a + between) == dashed(a).push('-'),
    decreases between.len(),
{
    let s = a + between;
    assert(!is_alphanumeric(between[between.len() - 1]));
    assert(s.last() == between.last());
    if between.len() == 1 {
        assert(s.drop_last() =~= a);
    } else {
        let rest = between.drop_last();
        assert forall|i: int| 0 <= i < rest.len() implies !is_alphanumeric(#[trigger] rest[i]) by {
            assert(rest[i] == between[i]);
        }
        lemma_dash_between(a, rest);
        assert(s.drop_last() =~= a + rest);
        assert(!is_alphanumeric(rest[rest.len() - 1]));
        assert((a + rest).last() == rest.last());
    }
}

proof fn lemma_dashed_tail(a: Seq<char>, b: Seq<char>)
    requires
        b.len() > 0,
        is_alphanumeric(b[0]),
    ensures
        dashed(a + b) == dashed(a) + dashed(b),
    decreases b.len(),
{
    let s = a + b;
    assert(s.last() == b.last());
    if b.len() == 1 {
        assert(s.drop_last() =~= a);
        assert(b.drop_last() =~= Seq::empty());
        assert(dashed(b.drop_last()) =~= Seq::empty());
        assert(dashed(s) =~= dashed(a) + dashed(b));
    } else {
        let rest = b.drop_last();
        lemma_dashed_tail(a, rest);
        assert(s.drop_last() =~= a + rest);
        assert((a + rest).last() == rest.last());
        assert(dashed(s) =~= dashed(a) + dashed(b));
    }
}

/// The name of a champion as the image server spells it has its letters and digits
/// as they are, and nothing else; two halves of a name count on their own.
pub proof fn law_image_name(a: Seq<char>, b: Seq<char>, c: char)
    ensures
        letters_and_digits(a + b) == letters_and_digits(a) + letters_and_digits(b),
        letters_and_digits(seq![c]) == if 'a' <= c <= 'z' || 'A' <= c <= 'Z' || '0' <= c <= '9' {
            seq![c]
        } else {
            Seq::empty()
        },
        image_name(a) == if letters_and_digits(a).len() > 0 {
            Some(letters_and_digits(a))
        } else {
            None
        },
    decreases b.len(),
{
    reveal_with_fuel(letters_and_digits, 2);
    assert(seq![c].drop_last() =~= Seq::<char>::empty());
    assert(letters_and_digits(seq![c]) =~= if is_alphanumeric(c) {
        seq![c]
    } else {
        Seq::empty()
    });
    if b.len() == 0 {
        assert(a + b =~= a);
        assert(letters_and_digits(a) + letters_and_digits(b) =~= letters_and_digits(a));
    } else {
        law_image_name(a, b.drop_last(), c);
        assert((a + b).drop_last() =~= a + b.drop_last());
        assert((a + b).last() == b.last());
        assert(letters_and_digits(a + b) =~= letters_and_digits(a) + letters_and_digits(b));
    }
}

/// A kept image is used just where it is there and not older than the mod.
pub proof fn law_fresh(fantome: i128, cached: i128)
    ensures
        is_fresh(Some(fantome), Some(cached)) <==> cached >= fantome,
        !is_fresh(Some(fantome), None),
        !is_fresh(None, None),
{
}

/// What an image is made from is the best that there is: nothing is downloaded
/// where the mod brings something, and a loading screen goes before the image that
/// comes with the mod. For the tile, the mod's own tile goes before both.
pub proof fn law_sources(m: Material, champion: Option<Seq<char>>)
    ensures
        splash_source(m, champion) is Splash <==> m.splash,
        splash_source(m, champion) is MetaImage <==> !m.splash && m.meta_image,
        tile_source(m, champion) is Tile <==> m.tile,
        tile_source(m, champion) is Splash <==> !m.tile && m.splash,
        tile_source(m, champion) is MetaImage <==> !m.tile && !m.splash && m.meta_image,
        !m.splash && !m.meta_image && champion is Some && image_name(champion->0) is Some
            ==> splash_source(m, champion) == SourceView::Download(
            loading_url(image_name(champion->0)->0),
        ) && (!m.tile ==> tile_source(m, champion) == SourceView::Download(
            tile_url(image_name(champion->0)->0),
        )),
{
}

/// The champions of a mod are the one that it says and those that its archives are
/// named after, without their suffixes, and no others; the archive of loose files,
/// `RAW`, is none of them.
pub proof fn law_mod_champions(
    mounts: Named<MountView>,
    champion: Seq<char>,
    key: Seq<char>,
    i: int,
)
    requires
        0 <= i < mounts.len(),
    ensures
        sanitized(without_wad_suffixes(trimmed(champion))).len() > 0 ==> is_mod_champion(
            mounts,
            champion,
            sanitized(without_wad_suffixes(trimmed(champion))),
        ),
        ({
            let own = sanitized(without_wad_suffixes(trimmed(mounts[i].0)));
            own.len() > 0 && own != "raw"@ ==> is_mod_champion(mounts, champion, own)
        }),
        key != sanitized(without_wad_suffixes(trimmed(champion))) && is_mod_champion(
            mounts,
            champion,
            key,
        ) ==> key != "raw"@ && exists|j: int|
            0 <= j < mounts.len() && sanitized(
                without_wad_suffixes(trimmed((#[trigger] mounts[j]).0)),
            ) == key,
        !is_mod_champion(mounts, champion, Seq::empty()),
{
    assert(champion_key(mounts[i].0) == sanitized(without_wad_suffixes(trimmed(mounts[i].0))));
}

/// A slot is replaced where some archive of the mod has the description of the skin
/// in that slot, under `data` or under `assets`, and only there.
pub proof fn law_slot_replaced(
    mounts: Named<MountView>,
    key: Seq<char>,
    slot: u32,
    i: int,
    top: Seq<char>,
)
    requires
        top == "data"@ || top == "assets"@,
    ensures
        0 <= i < mounts.len() && mounts[i].1.archive.entries.contains_key(
            path_hash(encode_utf8(skin_bin_path(top, key, slot))),
        ) ==> replaces_slot(mounts, key, slot),
        replaces_slot(mounts, key, slot) ==> exists|j: int|
            0 <= j < mounts.len() && ((#[trigger] mounts[j]).1.archive.entries.contains_key(
                path_hash(encode_utf8(skin_bin_path("data"@, key, slot))),
            ) || mounts[j].1.archive.entries.contains_key(
                path_hash(encode_utf8(skin_bin_path("assets"@, key, slot))),
            )),
{
}

} // verus!
