//! Rebuilding the overlay as the player hovers over skins.

use super::game_paths::{is_map_under, map_mounts, GamePathIndex, GamePathsView, NamedPath};
use crate::json::{field, int_field, list_of, text_field, Json};
use crate::names::Named;
use crate::paths::{file_stem_of, joined, lemma_joined_under, FilePath, PartView, PathView};
use crate::skins::index::{champion_of_id, CUSTOM_SKIN_ID_BASE};
use crate::text::{concat, decimal_i64, i64_digits, push_text, text};
use vstd::prelude::*;

verus! {

/// What the overlay worker is asked to do.
#[derive(Debug, Clone, Copy, PartialEq, Eq, Structural)]
pub enum HoverRequest {
    /// Take the overlay away.
    Clear,
    /// Build the overlay for a skin of the library.
    Skin(i64),
}

/// What a hover did.
#[derive(Debug, Clone, Copy, PartialEq, Eq, Structural)]
pub enum HoverEffect {
    Ignored,
    Queued,
    /// An earlier request was still waiting, and was dropped.
    Replaced,
}

/// The request that waits after a hover. Only skins of the library count: the
/// client clears the hover while the game starts, and the overlay is to stay.
pub open spec fn after_hover(waiting: Option<HoverRequest>, hover: Option<i64>) -> Option<
    HoverRequest,
> {
    match hover {
        Some(id) => if id >= CUSTOM_SKIN_ID_BASE {
            Some(HoverRequest::Skin(id))
        } else {
            waiting
        },
        None => waiting,
    }
}

/// The request that waits after several hovers.
pub open spec fn after_hovers(waiting: Option<HoverRequest>, hovers: Seq<Option<i64>>) -> Option<
    HoverRequest,
>
    decreases hovers.len(),
{
    if hovers.len() == 0 {
        waiting
    } else {
        after_hover(after_hovers(waiting, hovers.drop_last()), hovers.last())
    }
}

/// The request that waits for the overlay worker. There is at most one: the
/// latest.
pub struct HoverQueue {
    waiting: Option<HoverRequest>,
}

impl View for HoverQueue {
    type V = Option<HoverRequest>;

    closed spec fn view(&self) -> Option<HoverRequest> {
        self.waiting
    }
}

impl HoverQueue {
    pub fn new() -> (r: Self)
        ensures
            r@ is None,
    {
        HoverQueue { waiting: None }
    }

    /// Takes note of a hover over a skin, or over none.
    pub fn handle_hover(&mut self, skin_id: Option<i64>) -> (r: HoverEffect)
        ensures
            final(self)@ == after_hover(old(self)@, skin_id),
            r == (match skin_id {
                Some(id) => if id < CUSTOM_SKIN_ID_BASE {
                    HoverEffect::Ignored
                } else if old(self)@ is Some {
                    HoverEffect::Replaced
                } else {
                    HoverEffect::Queued
                },
                None => HoverEffect::Ignored,
            }),
    {
        match skin_id {
            Some(id) => {
                if id < CUSTOM_SKIN_ID_BASE {
                    return HoverEffect::Ignored;
                }
                let replaced = self.waiting.is_some();
                self.waiting = Some(HoverRequest::Skin(id));
                if replaced {
                    HoverEffect::Replaced
                } else {
                    HoverEffect::Queued
                }
            },
            None => HoverEffect::Ignored,
        }
    }

    /// Takes the request that waits.
    pub fn take(&mut self) -> (r: Option<HoverRequest>)
        ensures
            r == old(self)@,
            final(self)@ is None,
    {
        let r = self.waiting;
        self.waiting = None;
        r
    }
}

/// However many skins were hovered over, the last one of the library is the one
/// that is built for; where there was none, nothing changes.
pub proof fn law_latest_hover(waiting: Option<HoverRequest>, hovers: Seq<Option<i64>>, i: int)
    requires
        0 <= i < hovers.len(),
        hovers[i] is Some,
        hovers[i]->0 >= CUSTOM_SKIN_ID_BASE,
        forall|j: int|
            i < j < hovers.len() ==> ((#[trigger] hovers[j]) matches Some(id) ==> id
                < CUSTOM_SKIN_ID_BASE),
    ensures
        after_hovers(waiting, hovers) == Some(HoverRequest::Skin(hovers[i]->0)),
    decreases hovers.len(),
{
    let n = hovers.len() - 1;
    if i < n {
        let before = hovers.drop_last();
        assert(before[i] == hovers[i]);
        assert forall|j: int| i < j < before.len() implies ((#[trigger] before[j]) matches Some(
            id,
        ) ==> id < CUSTOM_SKIN_ID_BASE) by {
            assert(before[j] == hovers[j]);
        }
        law_latest_hover(waiting, before, i);
        assert(hovers.last() == hovers[n]);
    }
}

/// Hovers over official skins and over none leave the waiting request alone.
pub proof fn law_official_hovers(waiting: Option<HoverRequest>, hovers: Seq<Option<i64>>)
    requires
        forall|j: int|
            0 <= j < hovers.len() ==> ((#[trigger] hovers[j]) matches Some(id) ==> id
                < CUSTOM_SKIN_ID_BASE),
    ensures
        after_hovers(waiting, hovers) == waiting,
    decreases hovers.len(),
{
    if hovers.len() > 0 {
        let before = hovers.drop_last();
        assert forall|j: int| 0 <= j < before.len() implies ((#[trigger] before[j]) matches Some(
            id,
        ) ==> id < CUSTOM_SKIN_ID_BASE) by {
            assert(before[j] == hovers[j]);
        }
        law_official_hovers(waiting, before);
        assert(hovers.last() == hovers[hovers.len() - 1]);
    }
}

/// What the user interface is told about the overlay.
pub enum OverlayEventView {
    Cleared,
    Built(Seq<char>),
    Failed(Seq<char>),
    PatcherFailed(Seq<char>),
}

pub enum OverlayEvent {
    Cleared,
    /// The overlay for a mod is there.
    Built(String),
    Failed(String),
    PatcherFailed(String),
}

impl View for OverlayEvent {
    type V = OverlayEventView;

    open spec fn view(&self) -> OverlayEventView {
        match self {
            OverlayEvent::Cleared => OverlayEventView::Cleared,
            OverlayEvent::Built(s) => OverlayEventView::Built(s@),
            OverlayEvent::Failed(s) => OverlayEventView::Failed(s@),
            OverlayEvent::PatcherFailed(s) => OverlayEventView::PatcherFailed(s@),
        }
    }
}

impl OverlayEvent {
    /// The name of the event.
    pub fn name(&self) -> (r: String)
        ensures
            r@ == (match self@ {
                OverlayEventView::Cleared => "overlay:cleared"@,
                OverlayEventView::Built(_) => "overlay:built"@,
                OverlayEventView::Failed(_) => "overlay:failed"@,
                OverlayEventView::PatcherFailed(_) => "overlay:patcher-failed"@,
            }),
    {
        match self {
            OverlayEvent::Cleared => text("overlay:cleared"),
            OverlayEvent::Built(_) => text("overlay:built"),
            OverlayEvent::Failed(_) => text("overlay:failed"),
            OverlayEvent::PatcherFailed(_) => text("overlay:patcher-failed"),
        }
    }
}

/// Events as values.
pub open spec fn event_views(v: Seq<OverlayEvent>) -> Seq<OverlayEventView> {
    v.map_values(|e: OverlayEvent| e@)
}

/// What is told of a skin that something failed for.
pub open spec fn failure_text(skin_id: i64, error: Seq<char>) -> Seq<char> {
    i64_digits(skin_id as int) + ": "@ + error
}

fn failure(skin_id: i64, error: &str) -> (r: String)
    ensures
        r@ == failure_text(skin_id, error@),
{
    let mut out = concat(decimal_i64(skin_id).as_str(), ": ");
    push_text(&mut out, error);
    out
}

/// What is told after a build, and after the patcher was started on what was
/// built.
pub open spec fn told_of_build(
    skin_id: i64,
    built: Result<Seq<char>, Seq<char>>,
    patcher: Result<(), Seq<char>>,
) -> Seq<OverlayEventView> {
    match built {
        Err(e) => seq![OverlayEventView::Failed(failure_text(skin_id, e))],
        Ok(stem) => match patcher {
            Ok(_) => seq![OverlayEventView::Built(stem)],
            Err(e) => seq![
                OverlayEventView::PatcherFailed(failure_text(skin_id, e)),
                OverlayEventView::Built(stem),
            ],
        },
    }
}

/// What to tell after a build. Where it succeeded, the patcher is to be started
/// first.
pub fn build_events(
    skin_id: i64,
    built: Result<&str, &str>,
    patcher: Result<(), &str>,
) -> (r: Vec<OverlayEvent>)
    ensures
        event_views(r@) == told_of_build(
            skin_id,
            match built {
                Ok(s) => Ok(s@),
                Err(e) => Err(e@),
            },
            match patcher {
                Ok(_) => Ok(()),
                Err(e) => Err(e@),
            },
        ),
{
    let mut out: Vec<OverlayEvent> = Vec::new();
    match built {
        Err(e) => {
            out.push(OverlayEvent::Failed(failure(skin_id, e)));
            assert(event_views(out@) =~= seq![
                OverlayEventView::Failed(failure_text(skin_id, e@)),
            ]);
        },
        Ok(stem) => {
            if let Err(e) = patcher {
                out.push(OverlayEvent::PatcherFailed(failure(skin_id, e)));
                out.push(OverlayEvent::Built(text(stem)));
                assert(event_views(out@) =~= seq![
                    OverlayEventView::PatcherFailed(failure_text(skin_id, e@)),
                    OverlayEventView::Built(stem@),
                ]);
            } else {
                out.push(OverlayEvent::Built(text(stem)));
                assert(event_views(out@) =~= seq![OverlayEventView::Built(stem@)]);
            }
        },
    }
    out
}

/// What to tell after the overlay was to be taken away.
pub fn clear_events(cleared: bool) -> (r: Vec<OverlayEvent>)
    ensures
        event_views(r@) == (if cleared {
            seq![OverlayEventView::Cleared]
        } else {
            Seq::empty()
        }),
{
    let mut out: Vec<OverlayEvent> = Vec::new();
    if cleared {
        out.push(OverlayEvent::Cleared);
        assert(event_views(out@) =~= seq![OverlayEventView::Cleared]);
    } else {
        assert(event_views(out@) =~= Seq::<OverlayEventView>::empty());
    }
    out
}

/// Why a skin could not be found.
#[derive(Debug, Clone, Copy, PartialEq, Eq, Structural)]
pub enum ResolveError {
    /// The skin is an official one.
    NotCustom,
    /// The skin index is no JSON object.
    BadIndex,
    /// The skin index has nothing for the champion.
    NoChampion { champion_id: i64 },
    /// The skin index does not have the skin.
    NoSkin,
    /// The skin index does not say which file the skin is in.
    NoFileStem,
    /// The file is not there.
    NoFile,
}

/// The first of the entries, from `i` on, that is about the skin.
pub open spec fn entry_for(entries: Seq<Json>, skin_id: i64, i: int) -> Option<Json>
    decreases entries.len() - i,
{
    if i >= entries.len() {
        None
    } else if int_field(entries[i], "id"@) == Some(skin_id) {
        Some(entries[i])
    } else {
        entry_for(entries, skin_id, i + 1)
    }
}

/// The path of the file that the skin index has for a skin.
pub open spec fn indexed_file(index: Json, skins_dir: PathView, skin_id: i64) -> Result<
    PathView,
    ResolveError,
> {
    let champion_id = champion_of_id(skin_id as int);
    if skin_id < CUSTOM_SKIN_ID_BASE {
        Err(ResolveError::NotCustom)
    } else if !(index is Object) {
        Err(ResolveError::BadIndex)
    } else {
        let entries = match field(index, i64_digits(champion_id)) {
            Some(v) => list_of(v),
            None => None,
        };
        match entries {
            None => Err(ResolveError::NoChampion { champion_id: champion_id as i64 }),
            Some(list) => match entry_for(list, skin_id, 0) {
                None => Err(ResolveError::NoSkin),
                Some(e) => match text_field(e, "fileStem"@) {
                    None => Err(ResolveError::NoFileStem),
                    Some(stem) => Ok(joined(skins_dir, stem + ".fantome"@)),
                },
            },
        }
    }
}

/// The file of a skin of the library, by the skin index. `is_file` says whether
/// a file is there.
pub fn resolve_custom_skin_id<F: Fn(&FilePath) -> bool>(
    index: &Json,
    skins_dir: &FilePath,
    skin_id: i64,
    is_file: F,
) -> (r: Result<FilePath, ResolveError>)
    requires
        forall|p: &FilePath| call_requires(is_file, (p,)),
    ensures
        match indexed_file(*index, skins_dir@, skin_id) {
            Err(e) => r == Err::<FilePath, ResolveError>(e),
            Ok(path) => exists|p: FilePath, there: bool| #[trigger]
                call_ensures(is_file, (&p,), there) && p@ == path && (if there {
                    r is Ok && r->Ok_0@ == path
                } else {
                    r == Err::<FilePath, ResolveError>(ResolveError::NoFile)
                }),
        },
{
    if skin_id < CUSTOM_SKIN_ID_BASE {
        return Err(ResolveError::NotCustom);
    }
    let champion_id: i64 = (skin_id - CUSTOM_SKIN_ID_BASE) / 100;
    match index {
        Json::Object(_) => {},
        _ => {
            return Err(ResolveError::BadIndex);
        },
    }
    let key = decimal_i64(champion_id);
    let entries = match index.get(key.as_str()) {
        Some(v) => match v.as_array() {
            Some(l) => l,
            None => {
                return Err(ResolveError::NoChampion { champion_id });
            },
        },
        None => {
            return Err(ResolveError::NoChampion { champion_id });
        },
    };
    let mut i: usize = 0;
    while i < entries.len() && entries[i].int_field("id") != Some(skin_id)
        invariant
            i <= entries@.len(),
            entry_for(entries@, skin_id, 0) == entry_for(entries@, skin_id, i as int),
        decreases entries@.len() - i,
    {
        i = i + 1;
    }
    if i >= entries.len() {
        return Err(ResolveError::NoSkin);
    }
    let stem = match entries[i].text_field("fileStem") {
        Some(s) => s,
        None => {
            return Err(ResolveError::NoFileStem);
        },
    };
    let path = skins_dir.join_text(concat(stem, ".fantome").as_str());
    let there = is_file(&path);
    assert(call_ensures(is_file, (&path,), there));
    if there {
        Ok(path)
    } else {
        Err(ResolveError::NoFile)
    }
}

/// Why there is no game to build an overlay for.
#[derive(Debug, Clone, Copy, PartialEq, Eq, Structural)]
pub enum GameError {
    /// No install is saved, and the client is not running.
    NoInstall,
    /// The install holds no game data.
    BadLayout,
}

/// The game directory of an install, and its data directory.
pub open spec fn game_dir(install: PathView) -> PathView {
    install.push(PartView::Normal("Game"@))
}

pub open spec fn game_data_dir(install: PathView) -> PathView {
    game_dir(install).push(PartView::Normal("DATA"@)).push(PartView::Normal("FINAL"@))
}

/// The game directory of the saved install, or else of the one whose client is
/// running. `is_dir` says whether a directory is there.
pub fn discover_game_path<F: Fn(&FilePath) -> bool>(
    saved: Option<&FilePath>,
    detected: Option<&FilePath>,
    is_dir: F,
) -> (r: Result<FilePath, GameError>)
    requires
        forall|p: &FilePath| call_requires(is_dir, (p,)),
    ensures
        ({
            let install = match saved {
                Some(p) => Some(p@),
                None => match detected {
                    Some(p) => Some(p@),
                    None => None,
                },
            };
            match install {
                None => r == Err::<FilePath, GameError>(GameError::NoInstall),
                Some(at) => exists|p: FilePath, there: bool| #[trigger]
                    call_ensures(is_dir, (&p,), there) && p@ == game_data_dir(at) && (if there {
                        r is Ok && r->Ok_0@ == game_dir(at)
                    } else {
                        r == Err::<FilePath, GameError>(GameError::BadLayout)
                    }),
            }
        }),
{
    let install = match saved {
        Some(p) => p,
        None => match detected {
            Some(p) => p,
            None => {
                return Err(GameError::NoInstall);
            },
        },
    };
    let game = install.join("Game");
    let data = game.join("DATA").join("FINAL");
    let there = is_dir(&data);
    assert(call_ensures(is_dir, (&data,), there));
    if there {
        Ok(game)
    } else {
        Err(GameError::BadLayout)
    }
}

/// The index of game paths, which is built once. An empty one is not kept: it
/// is not that of a game.
pub struct GamePathsCache {
    index: Option<GamePathIndex>,
}

impl View for GamePathsCache {
    type V = Option<GamePathsView>;

    closed spec fn view(&self) -> Option<GamePathsView> {
        match self.index {
            Some(i) => Some(i@),
            None => None,
        }
    }
}

impl GamePathsCache {
    pub fn new() -> (r: Self)
        ensures
            r@ is None,
    {
        GamePathsCache { index: None }
    }

    pub fn get(&self) -> (r: Option<&GamePathIndex>)
        ensures
            match r {
                Some(i) => self@ == Some(i@),
                None => self@ is None,
            },
    {
        match &self.index {
            Some(i) => Some(i),
            None => None,
        }
    }

    /// Keeps an index, and says whether it was one to keep.
    pub fn fill(&mut self, index: GamePathIndex) -> (r: bool)
        ensures
            r == (index@.mounts.len() > 0),
            r ==> final(self)@ == Some(index@),
            !r ==> final(self)@ == old(self)@,
    {
        if index.is_empty() {
            false
        } else {
            self.index = Some(index);
            true
        }
    }
}

/// A map archive of the game, and where its copy is kept.
pub struct MapCopy {
    pub from: FilePath,
    pub to: FilePath,
}

impl View for MapCopy {
    type V = (PathView, PathView);

    open spec fn view(&self) -> (PathView, PathView) {
        (self.from@, self.to@)
    }
}

/// Where the copies of map archives are kept: at the same place in the overlay
/// as in the game.
pub open spec fn map_copies(maps: Named<PathView>, game: PathView, overlay: PathView) -> Seq<
    (PathView, PathView),
> {
    Seq::new(maps.len(), |i: int| (maps[i].1, overlay + maps[i].1.skip(game.len() as int)))
}

/// The map archives whose copies are to be compared with the game's when the
/// program starts.
pub fn validate_map_cache_startup(index: &GamePathIndex, overlay_dir: &FilePath) -> (r: Vec<
    MapCopy,
>)
    ensures
        r@.map_values(|c: MapCopy| c@) == map_copies(
            map_mounts(index@.mounts, index@.game_path, index@.mounts.len() as int),
            index@.game_path,
            overlay_dir@,
        ),
{
    let maps = index.iter_map_shipping_wads();
    let root = index.root();
    let ghost views = map_mounts(index@.mounts, index@.game_path, index@.mounts.len() as int);
    proof {
        lemma_map_mounts_under(index@.mounts, index@.game_path, index@.mounts.len() as int);
    }
    let mut out: Vec<MapCopy> = Vec::new();
    let mut i: usize = 0;
    while i < maps.len()
        invariant
            i <= maps@.len(),
            out@.len() == i,
            maps@.map_values(|p: NamedPath| p@) == views,
            root@ == index@.game_path,
            forall|j: int| 0 <= j < views.len() ==> is_map_under((#[trigger] views[j]).1, root@),
            forall|j: int|
                0 <= j < i ==> (#[trigger] out@[j])@ == (
                    views[j].1,
                    overlay_dir@ + views[j].1.skip(root@.len() as int),
                ),
        decreases maps@.len() - i,
    {
        let from = &maps[i].path;
        assert(views[i as int] == maps@[i as int]@);
        let to = match from.strip_prefix(&root) {
            Some(rel) => overlay_dir.join_path(&rel),
            None => overlay_dir.clone(),
        };
        out.push(MapCopy { from: from.clone(), to });
        i = i + 1;
    }
    assert(out@.map_values(|c: MapCopy| c@) =~= map_copies(views, index@.game_path, overlay_dir@));
    out
}

proof fn lemma_map_mounts_under(mounts: Named<PathView>, root: PathView, n: int)
    ensures
        forall|j: int|
            0 <= j < map_mounts(mounts, root, n).len() ==> is_map_under(
                (#[trigger] map_mounts(mounts, root, n)[j]).1,
                root,
            ),
    decreases n,
{
    if n > 0 {
        lemma_map_mounts_under(mounts, root, n - 1);
        let before = map_mounts(mounts, root, n - 1);
        let after = map_mounts(mounts, root, n);
        assert forall|j: int| 0 <= j < after.len() implies is_map_under(
            (#[trigger] after[j]).1,
            root,
        ) by {
            if j < before.len() {
                assert(after[j] == before[j]);
            }
        }
    }
}

/// What is done with something in the overlay directory that is cleared.
#[derive(Debug, Clone, Copy, PartialEq, Eq, Structural)]
pub enum ClearStep {
    Descend,
    Keep,
    Remove,
}

/// Whether a file of the overlay is the copy of a map archive, which is kept
/// because it is large.
pub fn is_cached_map_wad(path: &FilePath, overlay_dir: &FilePath) -> (r: bool)
    ensures
        r == is_map_under(path@, overlay_dir@),
{
    match path.strip_prefix(overlay_dir) {
        Some(rel) => super::game_paths::is_map_shipping_wad(&rel),
        None => false,
    }
}

pub fn clear_step(path: &FilePath, overlay_dir: &FilePath, is_dir: bool) -> (r: ClearStep)
    ensures
        r == (if is_dir {
            ClearStep::Descend
        } else if is_map_under(path@, overlay_dir@) {
            ClearStep::Keep
        } else {
            ClearStep::Remove
        }),
{
    if is_dir {
        ClearStep::Descend
    } else if is_cached_map_wad(path, overlay_dir) {
        ClearStep::Keep
    } else {
        ClearStep::Remove
    }
}

/// The name of what an overlay is built from: the stem of the mod's file.
pub fn overlay_stem(fantome: &FilePath) -> (r: String)
    ensures
        r@ == (match file_stem_of(fantome@) {
            Some(s) => s,
            None => Seq::empty(),
        }),
{
    match fantome.file_stem() {
        Some(s) => s,
        None => String::new(),
    }
}

/// The copies that are kept of map archives are not removed when the overlay is
/// cleared: where a copy lies in the overlay, clearing keeps it.
pub proof fn law_map_copies_stay(
    mounts: Named<PathView>,
    game: PathView,
    overlay: PathView,
    n: int,
    i: int,
)
    requires
        0 <= n <= mounts.len(),
        0 <= i < map_mounts(mounts, game, n).len(),
    ensures
        is_map_under(map_copies(map_mounts(mounts, game, n), game, overlay)[i].1, overlay),
    decreases n,
{
    let maps = map_mounts(mounts, game, n);
    let before = map_mounts(mounts, game, n - 1);
    if i < before.len() && maps.len() >= before.len() {
        law_map_copies_stay(mounts, game, overlay, n - 1, i);
        assert(maps[i] == before[i]);
    } else {
        assert(maps[i] == mounts[n - 1]);
        let rel = maps[i].1.skip(game.len() as int);
        lemma_joined_under(overlay, rel);
    }
}

/// Of the entries of a champion the first with the id of the skin counts.
pub proof fn law_entry_for(entries: Seq<Json>, skin_id: i64, from: int)
    requires
        0 <= from <= entries.len(),
    ensures
        match entry_for(entries, skin_id, from) {
            Some(e) => exists|i: int|
                from <= i < entries.len() && int_field(#[trigger] entries[i], "id"@) == Some(
                    skin_id,
                ) && entries[i] == e && forall|j: int|
                    from <= j < i ==> int_field(#[trigger] entries[j], "id"@) != Some(skin_id),
            None => forall|i: int|
                from <= i < entries.len() ==> int_field(#[trigger] entries[i], "id"@) != Some(
                    skin_id,
                ),
        },
    decreases entries.len() - from,
{
    if from < entries.len() {
        law_entry_for(entries, skin_id, from + 1);
    }
}

/// Of a build the user interface is told one thing at the end: what it failed with,
/// or what was built. That the patcher failed is told before.
pub proof fn law_told_of_build(
    skin_id: i64,
    built: Result<Seq<char>, Seq<char>>,
    patcher: Result<(), Seq<char>>,
)
    ensures
        built matches Err(e) ==> told_of_build(skin_id, built, patcher) == seq![
            OverlayEventView::Failed(i64_digits(skin_id as int) + ": "@ + e),
        ],
        built matches Ok(stem) ==> told_of_build(skin_id, built, patcher).last()
            == OverlayEventView::Built(stem),
        built is Ok && patcher is Err ==> told_of_build(skin_id, built, patcher).len() == 2
            && told_of_build(skin_id, built, patcher)[0] == OverlayEventView::PatcherFailed(
            i64_digits(skin_id as int) + ": "@ + patcher->Err_0,
        ),
        built is Ok && patcher is Ok ==> told_of_build(skin_id, built, patcher).len() == 1,
{
}

} // verus!
