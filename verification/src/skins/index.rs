//! The index of enabled skins that the in-client plugin reads.

use super::library::{skin_views, SkinEntry, SkinView};
use super::state::SkinState;
use crate::codecs::{uppercase, uppercase_of};
use crate::data_dragon::{lookup, sanitized};
use crate::names::{self, put, NameMap, Named};
use crate::sorting::{key_views, law_order, order_of, positions, sort_order, Key, KeyView};
use crate::text::{chars_of, decimal_i64, i64_digits, is_white, is_white_char, text};
use vstd::prelude::*;

verus! {

/// The lowest id of a skin of the library. Lower ones are official.
pub const CUSTOM_SKIN_ID_BASE: i64 = 9_000_000;

/// The id of a skin: each champion has room for a hundred.
pub open spec fn custom_id(champion_id: int, within: int) -> int {
    CUSTOM_SKIN_ID_BASE + champion_id * 100 + within
}

/// Whether the ids of `n` skins of a champion are in range.
pub open spec fn ids_fit(champion_id: i64, n: int) -> bool {
    &&& i64::MIN <= champion_id * 100
    &&& champion_id * 100 <= i64::MAX
    &&& i64::MIN <= custom_id(champion_id as int, 0)
    &&& custom_id(champion_id as int, n) <= i64::MAX
    &&& n <= i64::MAX
}

pub fn make_custom_id(champion_id: i64, within: usize) -> (r: i64)
    requires
        ids_fit(champion_id, within as int),
    ensures
        r == custom_id(champion_id as int, within as int),
{
    CUSTOM_SKIN_ID_BASE + champion_id * 100 + within as i64
}

/// The champion that an id of a skin belongs to.
pub open spec fn champion_of_id(id: int) -> int {
    (id - CUSTOM_SKIN_ID_BASE) / 100
}

/// The ids of the first hundred skins of a champion are told apart by champion
/// and place, and lie in the range of the library.
pub proof fn law_custom_id(champion_id: int, within: int)
    requires
        champion_id >= 0,
        0 <= within < 100,
    ensures
        custom_id(champion_id, within) >= CUSTOM_SKIN_ID_BASE,
        champion_of_id(custom_id(champion_id, within)) == champion_id,
        (custom_id(champion_id, within) - CUSTOM_SKIN_ID_BASE) % 100 == within,
{
}

/// `s` with the first letter of each word made a capital, from `i` on. `start`
/// says whether a word may start there.
pub open spec fn titled(s: Seq<char>, i: int, start: bool) -> Seq<char>
    decreases s.len() - i,
{
    if i >= s.len() {
        Seq::empty()
    } else if is_white(s[i]) {
        seq![s[i]] + titled(s, i + 1, true)
    } else if start {
        uppercase_of(s[i]) + titled(s, i + 1, false)
    } else {
        seq![s[i]] + titled(s, i + 1, false)
    }
}

/// Makes the first letter of each word a capital, and leaves the rest of the
/// word as it is.
pub fn title_case(s: &str) -> (r: String)
    ensures
        r@ == titled(s@, 0, true),
{
    let chars = chars_of(s);
    let mut out = String::new();
    let mut start = true;
    let mut i: usize = 0;
    let ghost all = titled(s@, 0, true);
    assert(out@ + all =~= all);
    while i < chars.len()
        invariant
            i <= chars@.len(),
            chars@ == s@,
            all == out@ + titled(s@, i as int, start),
        decreases chars@.len() - i,
    {
        let c: char = chars[i];
        let ghost before = out@;
        if is_white_char(c) {
            out.push(c);
            start = true;
            assert(out@ =~= before + seq![c]);
            assert(out@ + titled(s@, i + 1, true) =~= before + (seq![c] + titled(s@, i + 1, true)));
        } else if start {
            let upper = uppercase(c);
            let mut k: usize = 0;
            while k < upper.len()
                invariant
                    k <= upper@.len(),
                    out@ == before + upper@.take(k as int),
                decreases upper@.len() - k,
            {
                out.push(upper[k]);
                k = k + 1;
                assert(before + upper@.take(k as int) =~= (before + upper@.take(k - 1)).push(
                    upper@[k - 1],
                ));
            }
            start = false;
            assert(upper@.take(k as int) =~= upper@);
            assert(out@ + titled(s@, i + 1, false) =~= before + (upper@ + titled(
                s@,
                i + 1,
                false,
            )));
        } else {
            out.push(c);
            assert(out@ =~= before + seq![c]);
            assert(out@ + titled(s@, i + 1, false) =~= before + (seq![c] + titled(
                s@,
                i + 1,
                false,
            )));
        }
        i = i + 1;
    }
    assert(out@ + Seq::<char>::empty() =~= out@);
    out
}

/// When the images of a skin were last written, as seconds since 1970; zero
/// where that is not known.
#[derive(Debug, Clone, Copy, PartialEq, Eq, Structural)]
pub struct AssetVersions {
    pub splash: u64,
    pub background: u64,
    pub tile: u64,
}

/// What the index says of a skin. The versions let the client see when an image
/// has changed.
pub struct IndexEntry {
    pub id: i64,
    pub champion_id: i64,
    pub name: String,
    pub has_splash_asset: bool,
    pub has_background_asset: bool,
    pub has_tile_asset: bool,
    pub splash_version: u64,
    pub background_version: u64,
    pub tile_version: u64,
    pub file_stem: String,
}

pub struct IndexEntryView {
    pub id: int,
    pub champion_id: i64,
    pub name: Seq<char>,
    pub has_splash_asset: bool,
    pub has_background_asset: bool,
    pub has_tile_asset: bool,
    pub splash_version: u64,
    pub background_version: u64,
    pub tile_version: u64,
    pub file_stem: Seq<char>,
}

impl View for IndexEntry {
    type V = IndexEntryView;

    open spec fn view(&self) -> IndexEntryView {
        IndexEntryView {
            id: self.id as int,
            champion_id: self.champion_id,
            name: self.name@,
            has_splash_asset: self.has_splash_asset,
            has_background_asset: self.has_background_asset,
            has_tile_asset: self.has_tile_asset,
            splash_version: self.splash_version,
            background_version: self.background_version,
            tile_version: self.tile_version,
            file_stem: self.file_stem@,
        }
    }
}

/// The skins of one champion in the index.
pub struct ChampionSkins {
    pub entries: Vec<IndexEntry>,
}

impl View for ChampionSkins {
    type V = Seq<IndexEntryView>;

    open spec fn view(&self) -> Seq<IndexEntryView> {
        self.entries@.map_values(|e: IndexEntry| e@)
    }
}

/// The version of an image: zero where there is none.
pub open spec fn version_of(path: Option<Seq<char>>, version: u64) -> u64 {
    if path is Some {
        version
    } else {
        0
    }
}

/// What the index says of a skin, the `within`-th of its champion.
pub open spec fn index_entry(
    s: SkinView,
    v: AssetVersions,
    champion_id: i64,
    within: int,
) -> IndexEntryView {
    IndexEntryView {
        id: custom_id(champion_id as int, within),
        champion_id,
        name: titled(s.name, 0, true),
        has_splash_asset: s.preview is Some,
        has_background_asset: s.background_preview is Some,
        has_tile_asset: s.tile_preview is Some,
        splash_version: version_of(s.preview, v.splash),
        background_version: version_of(s.background_preview, v.background),
        tile_version: version_of(s.tile_preview, v.tile),
        file_stem: s.id,
    }
}

/// What skins are ordered by in the index: their ids.
pub open spec fn id_keys(skins: Seq<SkinView>) -> Seq<KeyView> {
    skins.map_values(|s: SkinView| (s.id, Seq::<char>::empty()))
}

/// What the index has for a champion so far.
pub open spec fn champion_entries(index: Named<Seq<IndexEntryView>>, key: Seq<char>) -> Seq<
    IndexEntryView,
> {
    match names::lookup(index, key) {
        Some(entries) => entries,
        None => Seq::empty(),
    }
}

/// The index of the enabled skins among the first `n` in order, by champion id.
/// Skins of unknown champions are left out.
pub open spec fn index_of(
    skins: Seq<SkinView>,
    versions: Seq<AssetVersions>,
    order: Seq<int>,
    enabled: Set<Seq<char>>,
    champions: Named<i64>,
    n: int,
) -> Named<Seq<IndexEntryView>>
    decreases n,
{
    if n <= 0 {
        Seq::empty()
    } else {
        let before = index_of(skins, versions, order, enabled, champions, n - 1);
        let s = skins[order[n - 1]];
        if !enabled.contains(s.id) {
            before
        } else {
            match names::lookup(champions, sanitized(s.champion)) {
                None => before,
                Some(champion_id) => {
                    let key = i64_digits(champion_id as int);
                    let entries = champion_entries(before, key);
                    put(
                        before,
                        key,
                        entries.push(
                            index_entry(
                                s,
                                versions[order[n - 1]],
                                champion_id,
                                entries.len() as int,
                            ),
                        ),
                    )
                },
            }
        }
    }
}

/// The index of the enabled skins, in the order of their ids.
pub open spec fn skin_index(
    skins: Seq<SkinView>,
    versions: Seq<AssetVersions>,
    enabled: Set<Seq<char>>,
    champions: Named<i64>,
) -> Named<Seq<IndexEntryView>> {
    let n = skins.len() as int;
    index_of(skins, versions, order_of(id_keys(skins), n), enabled, champions, n)
}

/// Whether the ids of `n` skins are in range, whatever their champions.
pub open spec fn all_ids_fit(champions: Named<i64>, n: int) -> bool {
    forall|i: int| 0 <= i < champions.len() ==> ids_fit((#[trigger] champions[i]).1, n)
}

/// Whether the ids of `n` skins are in range, whatever their champions.
pub fn check_ids_fit(champions: &NameMap<i64>, n: usize) -> (r: bool)
    ensures
        r == all_ids_fit(champions@, n as int),
{
    let mut i: usize = 0;
    while i < champions.len()
        invariant
            i <= champions@.len(),
            forall|k: int| 0 <= k < i ==> ids_fit((#[trigger] champions@[k]).1, n as int),
        decreases champions@.len() - i,
    {
        let id: i128 = *champions.value(i) as i128 * 100;
        let low: i128 = id + CUSTOM_SKIN_ID_BASE as i128;
        let high: i128 = low + n as i128;
        if id < i64::MIN as i128 || id > i64::MAX as i128 || low < i64::MIN as i128 || high
            > i64::MAX as i128 || n as i128 > i64::MAX as i128 {
            assert(!ids_fit(champions@[i as int].1, n as int));
            return false;
        }
        i = i + 1;
    }
    true
}

proof fn lemma_lookup_value(champions: Named<i64>, name: Seq<char>, n: int)
    requires
        all_ids_fit(champions, n),
        names::lookup(champions, name) is Some,
    ensures
        ids_fit(names::lookup(champions, name)->0, n),
{
    names::lemma_slot_of(champions, name);
    let i = names::slot(champions, name);
    assert(ids_fit(champions[i].1, n));
}

/// No champion has more skins in the index than were gone through.
pub proof fn lemma_index_bound(
    skins: Seq<SkinView>,
    versions: Seq<AssetVersions>,
    order: Seq<int>,
    enabled: Set<Seq<char>>,
    champions: Named<i64>,
    n: int,
    key: Seq<char>,
)
    requires
        0 <= n,
    ensures
        names::in_order(index_of(skins, versions, order, enabled, champions, n)),
        champion_entries(
            index_of(skins, versions, order, enabled, champions, n),
            key,
        ).len() <= n,
    decreases n,
{
    if n > 0 {
        lemma_index_bound(skins, versions, order, enabled, champions, n - 1, key);
        let before = index_of(skins, versions, order, enabled, champions, n - 1);
        let s = skins[order[n - 1]];
        if enabled.contains(s.id) && names::lookup(champions, sanitized(s.champion)) is Some {
            let champion_id = names::lookup(champions, sanitized(s.champion))->0;
            let own = i64_digits(champion_id as int);
            lemma_index_bound(skins, versions, order, enabled, champions, n - 1, own);
            let entries = champion_entries(before, own);
            let after = entries.push(
                index_entry(s, versions[order[n - 1]], champion_id, entries.len() as int),
            );
            names::law_put(before, own, after, key);
        }
    }
}

fn asset_version(path: &Option<String>, version: u64) -> (r: u64)
    ensures
        r == version_of(crate::text::option_text(*path), version),
{
    match path {
        Some(_) => version,
        None => 0,
    }
}

fn push_entry(list: &mut ChampionSkins, e: IndexEntry)
    ensures
        final(list)@ == old(list)@.push(e@),
{
    let ghost before = list.entries@;
    list.entries.push(e);
    assert(list.entries@ == before.push(e));
    assert(list@ =~= old(list)@.push(e@));
}

/// The index of the enabled skins by champion id, each champion's in the order
/// of their ids. `versions` holds those of the images of each skin.
pub fn regenerate(
    skins: &Vec<SkinEntry>,
    versions: &Vec<AssetVersions>,
    state: &SkinState,
    champion_map: &NameMap<i64>,
) -> (r: NameMap<ChampionSkins>)
    requires
        versions@.len() == skins@.len(),
        all_ids_fit(champion_map@, skins@.len() as int),
    ensures
        r@ == skin_index(skin_views(skins@), versions@, state@, champion_map@),
{
    let ghost views = skin_views(skins@);
    let ghost total = skins@.len() as int;
    let mut keys: Vec<Key> = Vec::new();
    let mut k: usize = 0;
    while k < skins.len()
        invariant
            k <= skins@.len(),
            keys@.len() == k,
            views == skin_views(skins@),
            forall|j: int| 0 <= j < k ==> (#[trigger] keys@[j])@ == id_keys(views)[j],
        decreases skins@.len() - k,
    {
        let key = Key { first: text(skins[k].id.as_str()), second: String::new() };
        assert(key@.1 =~= Seq::<char>::empty());
        keys.push(key);
        k = k + 1;
    }
    assert(key_views(keys@) =~= id_keys(views));
    let order = sort_order(&keys);
    let ghost places = positions(order@);
    let mut index: NameMap<ChampionSkins> = NameMap::new();
    let mut n: usize = 0;
    while n < order.len()
        invariant
            n <= order@.len(),
            order@.len() == skins@.len(),
            total == skins@.len(),
            versions@.len() == skins@.len(),
            views == skin_views(skins@),
            places == positions(order@),
            forall|j: int| 0 <= j < order@.len() ==> #[trigger] order@[j] < skins@.len(),
            all_ids_fit(champion_map@, total),
            index@ == index_of(views, versions@, places, state@, champion_map@, n as int),
        decreases order@.len() - n,
    {
        let at: usize = order[n];
        let s = &skins[at];
        assert(places[n as int] == at);
        assert(views[at as int] == s@);
        if state.is_enabled(s.id.as_str()) {
            if let Some(champion_id) = lookup(champion_map, s.champion.as_str()) {
                proof {
                    lemma_lookup_value(champion_map@, sanitized(s.champion@), total);
                    lemma_index_bound(
                        views,
                        versions@,
                        places,
                        state@,
                        champion_map@,
                        n as int,
                        i64_digits(champion_id as int),
                    );
                }
                let key = decimal_i64(champion_id);
                let ghost before = index@;
                let mut list = match index.remove(key.as_str()) {
                    Some(l) => l,
                    None => ChampionSkins { entries: Vec::new() },
                };
                assert(list@ =~= champion_entries(before, key@));
                let within: usize = list.entries.len();
                let v: AssetVersions = versions[at];
                push_entry(
                    &mut list,
                    IndexEntry {
                        id: make_custom_id(champion_id, within),
                        champion_id,
                        name: title_case(s.name.as_str()),
                        has_splash_asset: s.preview.is_some(),
                        has_background_asset: s.background_preview.is_some(),
                        has_tile_asset: s.tile_preview.is_some(),
                        splash_version: asset_version(&s.preview, v.splash),
                        background_version: asset_version(&s.background_preview, v.background),
                        tile_version: asset_version(&s.tile_preview, v.tile),
                        file_stem: text(s.id.as_str()),
                    },
                );
                let ghost entries = list@;
                proof {
                    names::lemma_take_put(before, key@, entries);
                }
                index.insert(key, list);
            }
        }
        n = n + 1;
    }
    index
}

/// Whether the skins of a champion in the index are numbered in their order, and
/// stand under the id of that champion.
pub open spec fn is_numbered(key: Seq<char>, entries: Seq<IndexEntryView>) -> bool {
    forall|i: int|
        0 <= i < entries.len() ==> (#[trigger] entries[i]).id == custom_id(
            entries[i].champion_id as int,
            i,
        ) && i64_digits(entries[i].champion_id as int) == key
}

proof fn lemma_index_ids(
    skins: Seq<SkinView>,
    versions: Seq<AssetVersions>,
    order: Seq<int>,
    enabled: Set<Seq<char>>,
    champions: Named<i64>,
    n: int,
    key: Seq<char>,
)
    requires
        0 <= n,
    ensures
        is_numbered(
            key,
            champion_entries(index_of(skins, versions, order, enabled, champions, n), key),
        ),
    decreases n,
{
    if n > 0 {
        lemma_index_ids(skins, versions, order, enabled, champions, n - 1, key);
        lemma_index_bound(skins, versions, order, enabled, champions, n - 1, key);
        let before = index_of(skins, versions, order, enabled, champions, n - 1);
        let s = skins[order[n - 1]];
        if enabled.contains(s.id) && names::lookup(champions, sanitized(s.champion)) is Some {
            let champion_id = names::lookup(champions, sanitized(s.champion))->0;
            let own = i64_digits(champion_id as int);
            let entries = champion_entries(before, own);
            let after = entries.push(
                index_entry(s, versions[order[n - 1]], champion_id, entries.len() as int),
            );
            names::law_put(before, own, after, key);
            if key == own {
                assert forall|i: int| 0 <= i < after.len() implies (#[trigger] after[i]).id
                    == custom_id(after[i].champion_id as int, i) && i64_digits(
                    after[i].champion_id as int,
                ) == key by {
                    if i < entries.len() {
                        assert(after[i] == entries[i]);
                    }
                }
            }
        }
    }
}

proof fn lemma_index_ids_fit(
    skins: Seq<SkinView>,
    versions: Seq<AssetVersions>,
    order: Seq<int>,
    enabled: Set<Seq<char>>,
    champions: Named<i64>,
    n: int,
    key: Seq<char>,
    total: int,
)
    requires
        0 <= n,
        all_ids_fit(champions, total),
    ensures
        ({
            let entries = champion_entries(
                index_of(skins, versions, order, enabled, champions, n),
                key,
            );
            forall|i: int|
                0 <= i < entries.len() ==> ids_fit((#[trigger] entries[i]).champion_id, total)
        }),
    decreases n,
{
    if n > 0 {
        lemma_index_ids_fit(skins, versions, order, enabled, champions, n - 1, key, total);
        lemma_index_bound(skins, versions, order, enabled, champions, n - 1, key);
        let before = index_of(skins, versions, order, enabled, champions, n - 1);
        let s = skins[order[n - 1]];
        if enabled.contains(s.id) && names::lookup(champions, sanitized(s.champion)) is Some {
            let champion_id = names::lookup(champions, sanitized(s.champion))->0;
            lemma_lookup_value(champions, sanitized(s.champion), total);
            let own = i64_digits(champion_id as int);
            let entries = champion_entries(before, own);
            let after = entries.push(
                index_entry(s, versions[order[n - 1]], champion_id, entries.len() as int),
            );
            names::law_put(before, own, after, key);
            if key == own {
                assert forall|i: int| 0 <= i < after.len() implies ids_fit(
                    (#[trigger] after[i]).champion_id,
                    total,
                ) by {
                    if i < entries.len() {
                        assert(after[i] == entries[i]);
                    }
                }
            }
        }
    }
}

/// Whether the index has a skin under a champion.
pub open spec fn is_indexed(
    index: Named<Seq<IndexEntryView>>,
    champion_id: i64,
    id: Seq<char>,
) -> bool {
    let entries = champion_entries(index, i64_digits(champion_id as int));
    exists|k: int| 0 <= k < entries.len() && (#[trigger] entries[k]).file_stem == id
}

proof fn lemma_indexed(
    skins: Seq<SkinView>,
    versions: Seq<AssetVersions>,
    order: Seq<int>,
    enabled: Set<Seq<char>>,
    champions: Named<i64>,
    n: int,
    m: int,
)
    requires
        0 <= m < n,
        enabled.contains(skins[order[m]].id),
        names::lookup(champions, sanitized(skins[order[m]].champion)) is Some,
    ensures
        is_indexed(
            index_of(skins, versions, order, enabled, champions, n),
            names::lookup(champions, sanitized(skins[order[m]].champion))->0,
            skins[order[m]].id,
        ),
    decreases n,
{
    let id = skins[order[m]].id;
    let key = i64_digits(
        names::lookup(champions, sanitized(skins[order[m]].champion))->0 as int,
    );
    let before = index_of(skins, versions, order, enabled, champions, n - 1);
    let now = index_of(skins, versions, order, enabled, champions, n);
    lemma_index_bound(skins, versions, order, enabled, champions, n - 1, key);
    let s = skins[order[n - 1]];
    let old_entries = champion_entries(before, key);
    if m < n - 1 {
        lemma_indexed(skins, versions, order, enabled, champions, n - 1, m);
    }
    if enabled.contains(s.id) && names::lookup(champions, sanitized(s.champion)) is Some {
        let champion_id = names::lookup(champions, sanitized(s.champion))->0;
        let own = i64_digits(champion_id as int);
        let entries = champion_entries(before, own);
        let after = entries.push(
            index_entry(s, versions[order[n - 1]], champion_id, entries.len() as int),
        );
        names::law_put(before, own, after, key);
        if m == n - 1 {
            assert(champion_entries(now, key) == after);
            assert(after[entries.len() as int].file_stem == id);
        } else {
            let k = choose|k: int|
                0 <= k < old_entries.len() && (#[trigger] old_entries[k]).file_stem == id;
            if key == own {
                assert(champion_entries(now, key) == after);
                assert(after[k] == old_entries[k]);
            } else {
                assert(champion_entries(now, key) == old_entries);
            }
        }
    }
}

/// The skins of each champion in the index are numbered in their order, from the
/// champion's first id on, and stand under the id of the champion.
pub proof fn law_index_ids(
    skins: Seq<SkinView>,
    versions: Seq<AssetVersions>,
    enabled: Set<Seq<char>>,
    champions: Named<i64>,
    key: Seq<char>,
)
    ensures
        is_numbered(
            key,
            champion_entries(skin_index(skins, versions, enabled, champions), key),
        ),
{
    let n = skins.len() as int;
    let order = order_of(id_keys(skins), n);
    lemma_index_ids(skins, versions, order, enabled, champions, n, key);
}

/// Where the ids are in range, those of all skins in the index are.
pub proof fn lemma_skin_index_fits(
    skins: Seq<SkinView>,
    versions: Seq<AssetVersions>,
    enabled: Set<Seq<char>>,
    champions: Named<i64>,
    key: Seq<char>,
)
    requires
        all_ids_fit(champions, skins.len() as int),
    ensures
        ({
            let index = skin_index(skins, versions, enabled, champions);
            let entries = champion_entries(index, key);
            &&& names::in_order(index)
            &&& entries.len() <= skins.len()
            &&& forall|i: int|
                0 <= i < entries.len() ==> ids_fit(
                    (#[trigger] entries[i]).champion_id,
                    skins.len() as int,
                )
        }),
{
    let n = skins.len() as int;
    let order = order_of(id_keys(skins), n);
    lemma_index_bound(skins, versions, order, enabled, champions, n, key);
    lemma_index_ids_fit(skins, versions, order, enabled, champions, n, key, n);
}

/// Every enabled skin of a known champion is in the index, under that champion.
pub proof fn law_enabled_are_indexed(
    skins: Seq<SkinView>,
    versions: Seq<AssetVersions>,
    enabled: Set<Seq<char>>,
    champions: Named<i64>,
    i: int,
)
    requires
        0 <= i < skins.len(),
        enabled.contains(skins[i].id),
        names::lookup(champions, sanitized(skins[i].champion)) is Some,
    ensures
        is_indexed(
            skin_index(skins, versions, enabled, champions),
            names::lookup(champions, sanitized(skins[i].champion))->0,
            skins[i].id,
        ),
{
    let n = skins.len() as int;
    let order = order_of(id_keys(skins), n);
    law_order(id_keys(skins), n);
    assert(order.contains(i));
    let m = choose|m: int| 0 <= m < order.len() && order[m] == i;
    lemma_indexed(skins, versions, order, enabled, champions, n, m);
}

} // verus!
