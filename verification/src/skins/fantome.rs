//! What a mod says of itself.

use crate::codecs::utf8_text;
use crate::overlay::wad::fantome::{zip_views, ZipEntry, ZipView};
use crate::text::{
    chars_between, chars_of, find_part, has_prefix, has_suffix, option_text, part_from, same_text,
    string_of, strip_prefix, strip_suffix, text, texts, without_suffix,
};
use vstd::prelude::*;
use vstd::utf8::{decode_utf8, valid_utf8};

verus! {

/// What `META/info.json` of a mod may say. Some mods name their champions under
/// `Heroes`, others under `Champions`.
pub struct InfoJson {
    pub name: Option<String>,
    pub author: Option<String>,
    pub version: Option<String>,
    pub description: Option<String>,
    pub heroes: Vec<String>,
    pub champions: Vec<String>,
}

pub struct InfoView {
    pub name: Option<Seq<char>>,
    pub author: Option<Seq<char>>,
    pub version: Option<Seq<char>>,
    pub description: Option<Seq<char>>,
    pub heroes: Seq<Seq<char>>,
    pub champions: Seq<Seq<char>>,
}

impl View for InfoJson {
    type V = InfoView;

    open spec fn view(&self) -> InfoView {
        InfoView {
            name: option_text(self.name),
            author: option_text(self.author),
            version: option_text(self.version),
            description: option_text(self.description),
            heroes: texts(self.heroes@),
            champions: texts(self.champions@),
        }
    }
}

/// What is shown of a mod.
pub struct FantomeMetadata {
    pub name: Option<String>,
    pub champion: Option<String>,
    pub author: Option<String>,
    pub version: Option<String>,
    pub description: Option<String>,
}

pub struct MetadataView {
    pub name: Option<Seq<char>>,
    pub champion: Option<Seq<char>>,
    pub author: Option<Seq<char>>,
    pub version: Option<Seq<char>>,
    pub description: Option<Seq<char>>,
}

impl View for FantomeMetadata {
    type V = MetadataView;

    open spec fn view(&self) -> MetadataView {
        MetadataView {
            name: option_text(self.name),
            champion: option_text(self.champion),
            author: option_text(self.author),
            version: option_text(self.version),
            description: option_text(self.description),
        }
    }
}

/// A text that is not empty.
pub open spec fn filled(o: Option<Seq<char>>) -> Option<Seq<char>> {
    match o {
        Some(s) => if s.len() > 0 {
            Some(s)
        } else {
            None
        },
        None => None,
    }
}

/// The champion after which an entry of a mod is named: `WAD/x.wad.client` is
/// an archive of the champion `x`, `WAD/x.wad.client/y` a loose file of it.
pub open spec fn entry_champion(name: Seq<char>) -> Option<Seq<char>> {
    if !has_prefix(name, "WAD/"@) {
        None
    } else {
        let rest = name.skip("WAD/"@.len() as int);
        if has_suffix(rest, ".wad.client"@) && without_suffix(rest, ".wad.client"@).len() > 0 {
            Some(without_suffix(rest, ".wad.client"@))
        } else {
            match part_from(rest, ".wad.client/"@, 0) {
                Some(i) => if i > 0 {
                    Some(rest.take(i))
                } else {
                    None
                },
                None => None,
            }
        }
    }
}

/// The champion of the first entry, from `i` on, that is named after one.
pub open spec fn wad_champion(entries: Seq<ZipView>, i: int) -> Option<Seq<char>>
    decreases entries.len() - i,
{
    if i >= entries.len() {
        None
    } else if entry_champion(entries[i].name) is Some {
        entry_champion(entries[i].name)
    } else {
        wad_champion(entries, i + 1)
    }
}

/// The first of some texts.
pub open spec fn first_text(v: Seq<Seq<char>>) -> Option<Seq<char>> {
    if v.len() > 0 {
        Some(v[0])
    } else {
        None
    }
}

/// The champion that a mod says it is for: the first under `Heroes`, else the
/// first under `Champions`.
pub open spec fn said_champion(info: InfoView) -> Option<Seq<char>> {
    if info.heroes.len() > 0 {
        filled(first_text(info.heroes))
    } else {
        filled(first_text(info.champions))
    }
}

/// What is shown of a mod. The champion is the one that it says, otherwise the
/// one after which its content is named.
pub open spec fn metadata_of(info: Option<InfoView>, entries: Seq<ZipView>) -> MetadataView {
    match info {
        None => MetadataView {
            name: None,
            champion: wad_champion(entries, 0),
            author: None,
            version: None,
            description: None,
        },
        Some(i) => MetadataView {
            name: filled(i.name),
            champion: if said_champion(i) is Some {
                said_champion(i)
            } else {
                wad_champion(entries, 0)
            },
            author: filled(i.author),
            version: filled(i.version),
            description: filled(i.description),
        },
    }
}

fn fill(o: &Option<String>) -> (r: Option<String>)
    ensures
        option_text(r) == filled(option_text(*o)),
{
    match o {
        Some(s) => {
            if s.as_str().is_empty() {
                None
            } else {
                Some(text(s.as_str()))
            }
        },
        None => None,
    }
}

fn champion_of_entry(name: &str) -> (r: Option<String>)
    ensures
        option_text(r) == entry_champion(name@),
{
    let rest = match strip_prefix(name, "WAD/") {
        Some(s) => s,
        None => {
            return None;
        },
    };
    if let Some(champion) = strip_suffix(rest.as_str(), ".wad.client") {
        if !champion.as_str().is_empty() {
            return Some(champion);
        }
    }
    let chars = chars_of(rest.as_str());
    match find_part(&chars, ".wad.client/") {
        Some(i) => {
            if i > 0 {
                let head = chars_between(&chars, 0, i);
                assert(head@ =~= rest@.take(i as int));
                Some(string_of(head.as_slice()))
            } else {
                None
            }
        },
        None => None,
    }
}

/// The champion after which the content of a mod is named.
pub fn find_champion_from_wad_entries(entries: &Vec<ZipEntry>) -> (r: Option<String>)
    ensures
        option_text(r) == wad_champion(zip_views(entries@), 0),
{
    let ghost views = zip_views(entries@);
    let mut i: usize = 0;
    while i < entries.len()
        invariant
            i <= entries@.len(),
            views == zip_views(entries@),
            wad_champion(views, 0) == wad_champion(views, i as int),
        decreases entries@.len() - i,
    {
        assert(views[i as int] == entries@[i as int]@);
        if let Some(champion) = champion_of_entry(entries[i].name.as_str()) {
            return Some(champion);
        }
        i = i + 1;
    }
    None
}

/// The entry of a name, from `i` on.
pub open spec fn entry_named(entries: Seq<ZipView>, name: Seq<char>, i: int) -> Option<int>
    decreases entries.len() - i,
{
    if i >= entries.len() {
        None
    } else if entries[i].name == name {
        Some(i)
    } else {
        entry_named(entries, name, i + 1)
    }
}

/// Finds an entry by its name.
pub fn find_entry(entries: &Vec<ZipEntry>, name: &str) -> (r: Option<usize>)
    ensures
        match r {
            Some(i) => i < entries@.len() && entry_named(zip_views(entries@), name@, 0) == Some(
                i as int,
            ),
            None => entry_named(zip_views(entries@), name@, 0) is None,
        },
{
    let ghost views = zip_views(entries@);
    let mut i: usize = 0;
    while i < entries.len()
        invariant
            i <= entries@.len(),
            views == zip_views(entries@),
            entry_named(views, name@, 0) == entry_named(views, name@, i as int),
        decreases entries@.len() - i,
    {
        assert(views[i as int] == entries@[i as int]@);
        if same_text(entries[i].name.as_str(), name) {
            return Some(i);
        }
        i = i + 1;
    }
    None
}

/// The text of the `META/info.json` of a mod, where it is there and is text.
pub open spec fn info_text(entries: Seq<ZipView>) -> Option<Seq<char>> {
    match entry_named(entries, "META/info.json"@, 0) {
        Some(i) => match entries[i].body {
            Some(body) => if valid_utf8(body) {
                Some(decode_utf8(body))
            } else {
                None
            },
            None => None,
        },
        None => None,
    }
}

/// Reads the text of the `META/info.json` of a mod.
pub fn read_info_json(entries: &Vec<ZipEntry>) -> (r: Option<String>)
    ensures
        option_text(r) == info_text(zip_views(entries@)),
{
    match find_entry(entries, "META/info.json") {
        Some(i) => {
            assert(zip_views(entries@)[i as int] == entries@[i as int]@);
            match &entries[i].body {
                Some(body) => utf8_text(body.as_slice()),
                None => None,
            }
        },
        None => None,
    }
}

/// What is shown of a mod, from its `META/info.json`, where that could be read,
/// and its entries. Entries that cannot be opened are to be left out.
pub fn read(info: Option<&InfoJson>, entries: &Vec<ZipEntry>) -> (r: FantomeMetadata)
    ensures
        r@ == metadata_of(
            match info {
                Some(i) => Some(i@),
                None => None,
            },
            zip_views(entries@),
        ),
{
    let from_wad = find_champion_from_wad_entries(entries);
    match info {
        None => FantomeMetadata {
            name: None,
            champion: from_wad,
            author: None,
            version: None,
            description: None,
        },
        Some(i) => {
            let said: Option<String> = if i.heroes.len() > 0 {
                assert(i@.heroes[0] == i.heroes@[0]@);
                Some(text(i.heroes[0].as_str()))
            } else if i.champions.len() > 0 {
                assert(i@.champions[0] == i.champions@[0]@);
                Some(text(i.champions[0].as_str()))
            } else {
                None
            };
            let champion = match fill(&said) {
                Some(c) => Some(c),
                None => from_wad,
            };
            FantomeMetadata {
                name: fill(&i.name),
                champion,
                author: fill(&i.author),
                version: fill(&i.version),
                description: fill(&i.description),
            }
        },
    }
}

/// Nothing that is shown of a mod is empty.
pub proof fn law_metadata_filled(info: Option<InfoView>, entries: Seq<ZipView>)
    ensures
        ({
            let m = metadata_of(info, entries);
            &&& m.name matches Some(s) ==> s.len() > 0
            &&& m.champion matches Some(s) ==> s.len() > 0
            &&& m.author matches Some(s) ==> s.len() > 0
            &&& m.version matches Some(s) ==> s.len() > 0
            &&& m.description matches Some(s) ==> s.len() > 0
        }),
{
    lemma_wad_champion_filled(entries, 0);
}

proof fn lemma_wad_champion_filled(entries: Seq<ZipView>, i: int)
    ensures
        wad_champion(entries, i) matches Some(s) ==> s.len() > 0,
    decreases entries.len() - i,
{
    if i < entries.len() {
        let name = entries[i].name;
        let rest = name.skip("WAD/"@.len() as int);
        lemma_part_from(rest, ".wad.client/"@, 0);
        lemma_wad_champion_filled(entries, i + 1);
    }
}

proof fn lemma_part_from(s: Seq<char>, part: Seq<char>, i: int)
    requires
        0 <= i,
    ensures
        part_from(s, part, i) matches Some(k) ==> i <= k && k + part.len() <= s.len(),
    decreases s.len() + 1 - i,
{
    if i + part.len() <= s.len() {
        lemma_part_from(s, part, i + 1);
    }
}

} // verus!
