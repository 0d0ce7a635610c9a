//! The list of skins in the library.

use super::fantome::{FantomeMetadata, MetadataView};
use super::state::SkinState;
use crate::paths::{file_stem_of, path_extension, FilePath, PathView};
use crate::sorting::{key_less, key_views, law_order, order_of, positions, sort_order, Key, KeyView};
use crate::text::{copy_option, lower, option_text, same_text, text, to_lower};
use vstd::prelude::*;

verus! {

/// A skin of the library.
pub struct SkinEntry {
    pub id: String,
    pub name: String,
    pub champion: String,
    pub author: Option<String>,
    pub version: Option<String>,
    pub description: Option<String>,
    pub preview: Option<String>,
    pub background_preview: Option<String>,
    pub tile_preview: Option<String>,
    pub champion_icon: Option<String>,
    pub enabled: bool,
}

pub struct SkinView {
    pub id: Seq<char>,
    pub name: Seq<char>,
    pub champion: Seq<char>,
    pub author: Option<Seq<char>>,
    pub version: Option<Seq<char>>,
    pub description: Option<Seq<char>>,
    pub preview: Option<Seq<char>>,
    pub background_preview: Option<Seq<char>>,
    pub tile_preview: Option<Seq<char>>,
    pub champion_icon: Option<Seq<char>>,
    pub enabled: bool,
}

impl View for SkinEntry {
    type V = SkinView;

    open spec fn view(&self) -> SkinView {
        SkinView {
            id: self.id@,
            name: self.name@,
            champion: self.champion@,
            author: option_text(self.author),
            version: option_text(self.version),
            description: option_text(self.description),
            preview: option_text(self.preview),
            background_preview: option_text(self.background_preview),
            tile_preview: option_text(self.tile_preview),
            champion_icon: option_text(self.champion_icon),
            enabled: self.enabled,
        }
    }
}

/// The skins of the library, and where it is.
pub struct SkinLibrary {
    pub dir: String,
    pub skins: Vec<SkinEntry>,
}

/// The skins as values.
pub open spec fn skin_views(v: Seq<SkinEntry>) -> Seq<SkinView> {
    v.map_values(|s: SkinEntry| s@)
}

/// A mod that was found in the library, with what it says of itself, where that
/// could be read, and where its images are. The icon of a champion is only
/// asked for where the champion is met for the first time.
pub struct FoundSkin {
    pub stem: String,
    pub meta: Option<FantomeMetadata>,
    pub preview: Option<String>,
    pub background_preview: Option<String>,
    pub tile_preview: Option<String>,
    pub champion_icon: Option<String>,
}

/// The id of the skin in a file: the stem of a `.fantome` file.
pub open spec fn skin_id(path: PathView) -> Option<Seq<char>> {
    if path_extension(path) == Some("fantome"@) {
        file_stem_of(path)
    } else {
        None
    }
}

pub fn skin_stem(path: &FilePath) -> (r: Option<String>)
    ensures
        option_text(r) == skin_id(path@),
{
    match path.extension() {
        Some(ext) => {
            if same_text(ext.as_str(), "fantome") {
                path.file_stem()
            } else {
                None
            }
        },
        None => None,
    }
}

/// The champion of a mod, or a stand-in.
pub open spec fn champion_or_unknown(meta: Option<MetadataView>) -> Seq<char> {
    match meta {
        Some(m) => match m.champion {
            Some(c) => c,
            None => "Unknown"@,
        },
        None => "Unknown"@,
    }
}

/// What a mod says of itself, as a value.
pub open spec fn meta_view(meta: Option<FantomeMetadata>) -> Option<MetadataView> {
    match meta {
        Some(m) => Some(m@),
        None => None,
    }
}

/// The champion that is shown for a mod.
pub fn shown_champion(meta: &Option<FantomeMetadata>) -> (r: String)
    ensures
        r@ == champion_or_unknown(meta_view(*meta)),
{
    match meta {
        Some(m) => match &m.champion {
            Some(c) => text(c.as_str()),
            None => text("Unknown"),
        },
        None => text("Unknown"),
    }
}

/// The champion that is shown for a found mod.
pub open spec fn found_champion(f: FoundSkin) -> Seq<char> {
    champion_or_unknown(meta_view(f.meta))
}

/// Where a champion is first met, from `i` on.
pub open spec fn first_met(found: Seq<FoundSkin>, champion: Seq<char>, i: int) -> int
    decreases found.len() - i,
{
    if i >= found.len() || found_champion(found[i]) == champion {
        i
    } else {
        first_met(found, champion, i + 1)
    }
}

/// What is listed for a found mod. The file stem stands in for a missing name,
/// and all mods of a champion have the icon that came with the first of them.
pub open spec fn listed(found: Seq<FoundSkin>, i: int, enabled: Set<Seq<char>>) -> SkinView {
    let f = found[i];
    let meta = meta_view(f.meta);
    let champion = found_champion(f);
    SkinView {
        id: f.stem@,
        name: match meta {
            Some(m) => match m.name {
                Some(n) => n,
                None => f.stem@,
            },
            None => f.stem@,
        },
        champion,
        author: match meta {
            Some(m) => m.author,
            None => None,
        },
        version: match meta {
            Some(m) => m.version,
            None => None,
        },
        description: match meta {
            Some(m) => m.description,
            None => None,
        },
        preview: option_text(f.preview),
        background_preview: option_text(f.background_preview),
        tile_preview: option_text(f.tile_preview),
        champion_icon: option_text(found[first_met(found, champion, 0)].champion_icon),
        enabled: enabled.contains(f.stem@),
    }
}

/// What found mods are ordered by: the champion, then the name, whatever the
/// case of their letters.
pub open spec fn listing_keys(found: Seq<FoundSkin>, enabled: Set<Seq<char>>) -> Seq<KeyView> {
    Seq::new(
        found.len(),
        |i: int|
            (lower(listed(found, i, enabled).champion), lower(listed(found, i, enabled).name)),
    )
}

/// The list of skins for the mods that were found.
pub open spec fn listing(found: Seq<FoundSkin>, enabled: Set<Seq<char>>) -> Seq<SkinView> {
    let keys = listing_keys(found, enabled);
    order_of(keys, keys.len() as int).map_values(|i: int| listed(found, i, enabled))
}

fn list_skin(found: &Vec<FoundSkin>, i: usize, state: &SkinState) -> (r: SkinEntry)
    requires
        i < found@.len(),
    ensures
        r@ == listed(found@, i as int, state@),
{
    let f = &found[i];
    let champion = shown_champion(&f.meta);
    let mut k: usize = 0;
    while k < i && !same_text(shown_champion(&found[k].meta).as_str(), champion.as_str())
        invariant
            k <= i < found@.len(),
            first_met(found@, champion@, 0) == first_met(found@, champion@, k as int),
        decreases i - k,
    {
        k = k + 1;
    }
    assert(found_champion(found@[i as int]) == champion@);
    assert(first_met(found@, champion@, 0) == k);
    let (name, author, version, description): (
        String,
        Option<String>,
        Option<String>,
        Option<String>,
    ) = match &f.meta {
        Some(m) => {
            let name = match &m.name {
                Some(n) => text(n.as_str()),
                None => text(f.stem.as_str()),
            };
            (name, copy_option(&m.author), copy_option(&m.version), copy_option(&m.description))
        },
        None => (text(f.stem.as_str()), None, None, None),
    };
    SkinEntry {
        id: text(f.stem.as_str()),
        name,
        champion,
        author,
        version,
        description,
        preview: copy_option(&f.preview),
        background_preview: copy_option(&f.background_preview),
        tile_preview: copy_option(&f.tile_preview),
        champion_icon: copy_option(&found[k].champion_icon),
        enabled: state.is_enabled(f.stem.as_str()),
    }
}

/// The list of skins for the mods that were found, in the order of champions
/// and names.
pub fn scan(found: &Vec<FoundSkin>, state: &SkinState) -> (r: Vec<SkinEntry>)
    ensures
        skin_views(r@) == listing(found@, state@),
{
    let ghost views = listing_keys(found@, state@);
    let mut keys: Vec<Key> = Vec::new();
    let mut i: usize = 0;
    while i < found.len()
        invariant
            i <= found@.len(),
            keys@.len() == i,
            views == listing_keys(found@, state@),
            forall|k: int| 0 <= k < i ==> (#[trigger] keys@[k])@ == views[k],
        decreases found@.len() - i,
    {
        let s = list_skin(found, i, state);
        let key = Key { first: to_lower(s.champion.as_str()), second: to_lower(s.name.as_str()) };
        assert(key@ == views[i as int]);
        keys.push(key);
        i = i + 1;
    }
    assert(key_views(keys@) =~= views);
    let order = sort_order(&keys);
    let ghost want = listing(found@, state@);
    let mut out: Vec<SkinEntry> = Vec::new();
    let mut n: usize = 0;
    while n < order.len()
        invariant
            n <= order@.len(),
            out@.len() == n,
            order@.len() == found@.len(),
            forall|k: int| 0 <= k < order@.len() ==> #[trigger] order@[k] < found@.len(),
            forall|k: int|
                0 <= k < n ==> (#[trigger] out@[k])@ == listed(
                    found@,
                    order@[k] as int,
                    state@,
                ),
        decreases order@.len() - n,
    {
        out.push(list_skin(found, order[n], state));
        n = n + 1;
    }
    proof {
        assert(want.len() == positions(order@).len());
        assert forall|k: int| 0 <= k < out@.len() implies #[trigger] skin_views(out@)[k]
            == want[k] by {
            assert(positions(order@)[k] == order@[k]);
            assert(out@[k]@ == listed(found@, order@[k] as int, state@));
        }
        assert(skin_views(out@) =~= want);
    }
    out
}

/// Whether one skin is listed before another.
pub open spec fn listed_before(a: SkinView, b: SkinView) -> bool {
    key_less((lower(a.champion), lower(a.name)), (lower(b.champion), lower(b.name)))
}

/// The list has every mod that was found, once, and none stands before one that
/// is to be listed before it: skins of a champion stand together, in the order
/// of their names, whatever the case of their letters.
pub proof fn law_listing(found: Seq<FoundSkin>, enabled: Set<Seq<char>>)
    ensures
        listing(found, enabled).len() == found.len(),
        forall|i: int, j: int|
            0 <= i < j < found.len() ==> !listed_before(
                #[trigger] listing(found, enabled)[j],
                #[trigger] listing(found, enabled)[i],
            ),
        forall|k: int|
            0 <= k < found.len() ==> listing(found, enabled).contains(
                #[trigger] listed(found, k, enabled),
            ),
{
    let keys = listing_keys(found, enabled);
    let n = keys.len() as int;
    let order = order_of(keys, n);
    let list = listing(found, enabled);
    law_order(keys, n);
    assert forall|i: int, j: int| 0 <= i < j < found.len() implies !listed_before(
        #[trigger] list[j],
        #[trigger] list[i],
    ) by {
        assert(0 <= order[i] < n && 0 <= order[j] < n);
        assert(list[i] == listed(found, order[i], enabled));
        assert(list[j] == listed(found, order[j], enabled));
        assert(!key_less(keys[order[j]], keys[order[i]]));
    }
    assert forall|k: int| 0 <= k < found.len() implies list.contains(
        #[trigger] listed(found, k, enabled),
    ) by {
        assert(order.contains(k));
        let i = choose|i: int| 0 <= i < order.len() && order[i] == k;
        assert(list[i] == listed(found, k, enabled));
    }
}

} // verus!
