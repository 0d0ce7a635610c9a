//! The skin index as the in-client plugin reads it.

use super::index::{
    all_ids_fit, champion_entries, champion_of_id, custom_id, ids_fit, is_numbered, law_index_ids,
    lemma_skin_index_fits, skin_index, AssetVersions, ChampionSkins, IndexEntry, IndexEntryView,
};
use super::library::SkinView;
use crate::json::{field, field_at, int_field, text_field, Field, Json};
use crate::names::{
    self, has_name, in_order, lemma_name_less_irreflexive, name_less, NameMap, Named,
};
use crate::overlay::runtime::{entry_for, indexed_file, ResolveError};
use crate::paths::{joined, PathView};
use crate::text::{decimal_text, i64_digits, is_digit, law_decimal_round_trip, text};
use vstd::prelude::*;

verus! {

/// The JSON value for a number.
pub open spec fn number(n: u64) -> Json {
    if n <= i64::MAX {
        Json::Int(n as i64)
    } else {
        Json::Unsigned(n)
    }
}

/// Whether a field has the given name and value.
pub open spec fn is_field(f: Field, name: Seq<char>, value: Json) -> bool {
    f.name@ == name && f.value == value
}

/// Whether a field has the given name and text.
pub open spec fn is_text_field(f: Field, name: Seq<char>, value: Seq<char>) -> bool {
    f.name@ == name && f.value is Text && f.value->Text_0@ == value
}

/// Whether a JSON value says what the index says of a skin.
pub open spec fn says_entry(j: Json, e: IndexEntryView) -> bool {
    match j {
        Json::Object(fields) => {
            let f = fields@;
            &&& f.len() == 10
            &&& is_field(f[0], "id"@, Json::Int(e.id as i64))
            &&& is_field(f[1], "championId"@, Json::Int(e.champion_id))
            &&& is_text_field(f[2], "name"@, e.name)
            &&& is_field(f[3], "hasSplashAsset"@, Json::Bool(e.has_splash_asset))
            &&& is_field(f[4], "hasBackgroundAsset"@, Json::Bool(e.has_background_asset))
            &&& is_field(f[5], "hasTileAsset"@, Json::Bool(e.has_tile_asset))
            &&& is_field(f[6], "splashVersion"@, number(e.splash_version))
            &&& is_field(f[7], "backgroundVersion"@, number(e.background_version))
            &&& is_field(f[8], "tileVersion"@, number(e.tile_version))
            &&& is_text_field(f[9], "fileStem"@, e.file_stem)
        },
        _ => false,
    }
}

/// Whether a JSON value lists what the index says of skins.
pub open spec fn says_entries(j: Json, entries: Seq<IndexEntryView>) -> bool {
    match j {
        Json::List(items) => {
            &&& items@.len() == entries.len()
            &&& forall|i: int|
                0 <= i < items@.len() ==> says_entry(#[trigger] items@[i], entries[i])
        },
        _ => false,
    }
}

/// Whether a JSON value is the index: the skins of each champion under its id.
pub open spec fn says_index(j: Json, index: Named<Seq<IndexEntryView>>) -> bool {
    match j {
        Json::Object(fields) => {
            &&& fields@.len() == index.len()
            &&& forall|i: int|
                0 <= i < fields@.len() ==> (#[trigger] fields@[i]).name@ == index[i].0
                    && says_entries(fields@[i].value, index[i].1)
        },
        _ => false,
    }
}

fn make_field(name: &str, value: Json) -> (r: Field)
    ensures
        is_field(r, name@, value),
{
    Field { name: text(name), value }
}

fn make_text_field(name: &str, value: &str) -> (r: Field)
    ensures
        is_text_field(r, name@, value@),
{
    Field { name: text(name), value: Json::Text(text(value)) }
}

fn make_number(n: u64) -> (r: Json)
    ensures
        r == number(n),
{
    if n <= i64::MAX as u64 {
        Json::Int(n as i64)
    } else {
        Json::Unsigned(n)
    }
}

fn entry_to_json(e: &IndexEntry) -> (r: Json)
    ensures
        says_entry(r, e@),
{
    let fields: Vec<Field> = vec![
        make_field("id", Json::Int(e.id)),
        make_field("championId", Json::Int(e.champion_id)),
        make_text_field("name", e.name.as_str()),
        make_field("hasSplashAsset", Json::Bool(e.has_splash_asset)),
        make_field("hasBackgroundAsset", Json::Bool(e.has_background_asset)),
        make_field("hasTileAsset", Json::Bool(e.has_tile_asset)),
        make_field("splashVersion", make_number(e.splash_version)),
        make_field("backgroundVersion", make_number(e.background_version)),
        make_field("tileVersion", make_number(e.tile_version)),
        make_text_field("fileStem", e.file_stem.as_str()),
    ];
    Json::Object(fields)
}

fn entries_to_json(skins: &ChampionSkins) -> (r: Json)
    ensures
        says_entries(r, skins@),
{
    let mut items: Vec<Json> = Vec::new();
    let mut i: usize = 0;
    while i < skins.entries.len()
        invariant
            i <= skins.entries@.len(),
            items@.len() == i,
            forall|k: int| 0 <= k < i ==> says_entry(#[trigger] items@[k], skins@[k]),
        decreases skins.entries@.len() - i,
    {
        let item = entry_to_json(&skins.entries[i]);
        assert(skins@[i as int] == skins.entries@[i as int]@);
        items.push(item);
        i = i + 1;
    }
    Json::List(items)
}

/// The index as a JSON value.
pub fn index_to_json(index: &NameMap<ChampionSkins>) -> (r: Json)
    ensures
        says_index(r, index@),
{
    let mut fields: Vec<Field> = Vec::new();
    let mut i: usize = 0;
    while i < index.len()
        invariant
            i <= index@.len(),
            fields@.len() == i,
            forall|k: int|
                0 <= k < i ==> (#[trigger] fields@[k]).name@ == index@[k].0 && says_entries(
                    fields@[k].value,
                    index@[k].1,
                ),
        decreases index@.len() - i,
    {
        fields.push(
            Field { name: text(index.key(i).as_str()), value: entries_to_json(index.value(i)) },
        );
        i = i + 1;
    }
    Json::Object(fields)
}

proof fn lemma_field_at(fields: Seq<Field>, name: Seq<char>, i: int, at: int)
    requires
        0 <= i <= at < fields.len(),
        fields[at].name@ == name,
        forall|k: int| i <= k < at ==> (#[trigger] fields[k]).name@ != name,
    ensures
        field_at(fields, name, i) == Some(fields[at].value),
    decreases at - i,
{
    if i < at {
        lemma_field_at(fields, name, i + 1, at);
    }
}

proof fn lemma_entry_fields(j: Json, e: IndexEntryView)
    requires
        says_entry(j, e),
    ensures
        int_field(j, "id"@) == Some(e.id as i64),
        text_field(j, "fileStem"@) == Some(e.file_stem),
{
    reveal_strlit("id");
    reveal_strlit("championId");
    reveal_strlit("name");
    reveal_strlit("hasSplashAsset");
    reveal_strlit("hasBackgroundAsset");
    reveal_strlit("hasTileAsset");
    reveal_strlit("splashVersion");
    reveal_strlit("backgroundVersion");
    reveal_strlit("tileVersion");
    reveal_strlit("fileStem");
    let f = j->Object_0@;
    let want = "fileStem"@;
    lemma_field_at(f, "id"@, 0, 0);
    assert(want.len() == 8 && want[0] == 'f');
    assert("id"@.len() == 2 && "championId"@.len() == 10 && "name"@.len() == 4);
    assert("hasSplashAsset"@.len() == 14 && "hasBackgroundAsset"@.len() == 18);
    assert("hasTileAsset"@.len() == 12 && "splashVersion"@.len() == 13);
    assert("backgroundVersion"@.len() == 17 && "tileVersion"@.len() == 11);
    assert forall|k: int| 0 <= k < 9 implies (#[trigger] f[k]).name@ != want by {}
    lemma_field_at(f, want, 0, 9);
}

proof fn lemma_digits_injective(a: int, b: int)
    requires
        a >= 0,
        i64_digits(a) == i64_digits(b),
    ensures
        a == b,
{
    law_decimal_round_trip(a);
    if b >= 0 {
        law_decimal_round_trip(b);
    } else {
        assert(i64_digits(b)[0] == '-');
        assert(is_digit(decimal_text(a)[0]));
    }
}

proof fn lemma_entry_for(list: Seq<Json>, entries: Seq<IndexEntryView>, i: int, k: int)
    requires
        0 <= i <= k < entries.len(),
        list.len() == entries.len(),
        forall|j: int| 0 <= j < list.len() ==> says_entry(#[trigger] list[j], entries[j]),
        forall|j: int|
            0 <= j < entries.len() ==> i64::MIN <= (#[trigger] entries[j]).id <= i64::MAX,
        forall|j: int| 0 <= j < k ==> (#[trigger] entries[j]).id != entries[k].id,
    ensures
        entry_for(list, entries[k].id as i64, i) == Some(list[k]),
    decreases k - i,
{
    lemma_entry_fields(list[i], entries[i]);
    if i < k {
        lemma_entry_for(list, entries, i + 1, k);
    }
}

proof fn lemma_index_resolves(
    j: Json,
    index: Named<Seq<IndexEntryView>>,
    skins_dir: PathView,
    champion_id: i64,
    k: int,
)
    requires
        says_index(j, index),
        in_order(index),
        champion_id >= 0,
        is_numbered(
            i64_digits(champion_id as int),
            champion_entries(index, i64_digits(champion_id as int)),
        ),
        0 <= k < champion_entries(index, i64_digits(champion_id as int)).len(),
        k < 100,
        custom_id(
            champion_id as int,
            champion_entries(index, i64_digits(champion_id as int)).len() as int,
        ) <= i64::MAX,
    ensures
        ({
            let e = champion_entries(index, i64_digits(champion_id as int))[k];
            &&& e.id == custom_id(champion_id as int, k)
            &&& indexed_file(j, skins_dir, e.id as i64) == Ok::<PathView, ResolveError>(
                joined(skins_dir, e.file_stem + ".fantome"@),
            )
        }),
{
    let key = i64_digits(champion_id as int);
    let entries = champion_entries(index, key);
    let e = entries[k];
    let fields = j->Object_0@;
    let at = names::slot(index, key);
    assert(has_name(index, key));
    names::lemma_slot_of(index, key);
    assert forall|m: int| 0 <= m < at implies (#[trigger] fields[m]).name@ != key by {
        lemma_name_less_irreflexive(key);
        assert(name_less(index[m].0, index[at].0));
    }
    assert(fields[at].name@ == index[at].0);
    lemma_field_at(fields, key, 0, at);
    assert(field(j, key) == Some(fields[at].value));
    let list = fields[at].value->List_0@;
    assert(says_entries(fields[at].value, entries));
    assert forall|m: int| 0 <= m < entries.len() implies (#[trigger] entries[m]).id == custom_id(
        champion_id as int,
        m,
    ) by {
        lemma_digits_injective(champion_id as int, entries[m].champion_id as int);
    }
    assert(e.id == custom_id(champion_id as int, k));
    assert(champion_of_id(e.id) == champion_id);
    lemma_entry_for(list, entries, 0, k);
    lemma_entry_fields(list[k], e);
}

/// A skin that the index lists, among the first hundred of its champion, is
/// found again by its id: hovering over it leads to its file.
pub proof fn law_index_resolves(
    j: Json,
    skins: Seq<SkinView>,
    versions: Seq<AssetVersions>,
    enabled: Set<Seq<char>>,
    champions: Named<i64>,
    skins_dir: PathView,
    champion_id: i64,
    k: int,
)
    requires
        all_ids_fit(champions, skins.len() as int),
        says_index(j, skin_index(skins, versions, enabled, champions)),
        champion_id >= 0,
        0 <= k < champion_entries(
            skin_index(skins, versions, enabled, champions),
            i64_digits(champion_id as int),
        ).len(),
        k < 100,
    ensures
        ({
            let e = champion_entries(
                skin_index(skins, versions, enabled, champions),
                i64_digits(champion_id as int),
            )[k];
            &&& e.id == custom_id(champion_id as int, k)
            &&& indexed_file(j, skins_dir, e.id as i64) == Ok::<PathView, ResolveError>(
                joined(skins_dir, e.file_stem + ".fantome"@),
            )
        }),
{
    let index = skin_index(skins, versions, enabled, champions);
    let key = i64_digits(champion_id as int);
    let entries = champion_entries(index, key);
    law_index_ids(skins, versions, enabled, champions, key);
    lemma_skin_index_fits(skins, versions, enabled, champions, key);
    lemma_digits_injective(champion_id as int, entries[k].champion_id as int);
    assert(ids_fit(entries[k].champion_id, skins.len() as int));
    lemma_index_resolves(j, index, skins_dir, champion_id, k);
}

/// What the index says of a skin is found under its keys.
pub proof fn law_entry_says(j: Json, e: IndexEntryView)
    requires
        says_entry(j, e),
    ensures
        int_field(j, "id"@) == Some(e.id as i64),
        int_field(j, "championId"@) == Some(e.champion_id),
        text_field(j, "name"@) == Some(e.name),
        text_field(j, "fileStem"@) == Some(e.file_stem),
        field(j, "hasSplashAsset"@) == Some(Json::Bool(e.has_splash_asset)),
        field(j, "hasBackgroundAsset"@) == Some(Json::Bool(e.has_background_asset)),
        field(j, "hasTileAsset"@) == Some(Json::Bool(e.has_tile_asset)),
        field(j, "splashVersion"@) == Some(number(e.splash_version)),
        field(j, "backgroundVersion"@) == Some(number(e.background_version)),
        field(j, "tileVersion"@) == Some(number(e.tile_version)),
{
    lemma_entry_fields(j, e);
    reveal_strlit("id");
    reveal_strlit("championId");
    reveal_strlit("name");
    reveal_strlit("hasSplashAsset");
    reveal_strlit("hasBackgroundAsset");
    reveal_strlit("hasTileAsset");
    reveal_strlit("splashVersion");
    reveal_strlit("backgroundVersion");
    reveal_strlit("tileVersion");
    reveal_strlit("fileStem");
    let f = j->Object_0@;
    assert("id"@.len() == 2 && "championId"@.len() == 10 && "name"@.len() == 4);
    assert("hasSplashAsset"@.len() == 14 && "hasBackgroundAsset"@.len() == 18);
    assert("hasTileAsset"@.len() == 12 && "splashVersion"@.len() == 13);
    assert("backgroundVersion"@.len() == 17 && "tileVersion"@.len() == 11);
    assert(forall|k: int, l: int|
        #![trigger f[k], f[l]]
        0 <= k < l < 9 ==> f[k].name@ != f[l].name@);
    lemma_field_at(f, "championId"@, 0, 1);
    lemma_field_at(f, "name"@, 0, 2);
    lemma_field_at(f, "hasSplashAsset"@, 0, 3);
    lemma_field_at(f, "hasBackgroundAsset"@, 0, 4);
    lemma_field_at(f, "hasTileAsset"@, 0, 5);
    lemma_field_at(f, "splashVersion"@, 0, 6);
    lemma_field_at(f, "backgroundVersion"@, 0, 7);
    lemma_field_at(f, "tileVersion"@, 0, 8);
}

} // verus!
