//! Where the program keeps its files.

use crate::paths::{file_name_of, joined, parent_of, FilePath, PartView, PathView};
use crate::skins::preview::{image_file, image_path, option_path};
use crate::text::{chars_of, concat, has_prefix, lower, same_ignoring_case, strip_prefix, text};
use vstd::prelude::*;

verus! {

/// The data directory: next to the one that the system gives the program.
pub open spec fn data_dir_of(app_data_dir: PathView) -> Option<PathView> {
    match parent_of(app_data_dir) {
        Some(p) => Some(p.push(PartView::Normal("Talon"@))),
        None => None,
    }
}

pub fn talon_data_dir(app_data_dir: &FilePath) -> (r: Option<FilePath>)
    ensures
        option_path(r) == data_dir_of(app_data_dir@),
{
    match app_data_dir.parent() {
        Some(p) => Some(p.join("Talon")),
        None => None,
    }
}

/// A file or directory below the data directory.
pub open spec fn below(data_dir: PathView, a: Seq<char>, b: Seq<char>) -> PathView {
    data_dir.push(PartView::Normal(a)).push(PartView::Normal(b))
}

pub fn app_config_path(data_dir: &FilePath) -> (r: FilePath)
    ensures
        r@ == below(data_dir@, "settings"@, "config.json"@),
{
    data_dir.join("settings").join("config.json")
}

pub fn cslol_dll_dir_path(data_dir: &FilePath) -> (r: FilePath)
    ensures
        r@ == data_dir@.push(PartView::Normal("cslol-tools"@)),
{
    data_dir.join("cslol-tools")
}

pub fn cslol_dll_path(data_dir: &FilePath) -> (r: FilePath)
    ensures
        r@ == below(data_dir@, "cslol-tools"@, "cslol-dll.dll"@),
{
    cslol_dll_dir_path(data_dir).join("cslol-dll.dll")
}

/// Where the parts of the library, the images and the overlay are kept.
pub struct AppPaths {
    pub skins_dir: FilePath,
    pub state_path: FilePath,
    pub skins_index_path: FilePath,
    pub overlay_dir: FilePath,
    pub previews_dir: FilePath,
    pub background_previews_dir: FilePath,
    pub custom_background_previews_dir: FilePath,
    pub tile_previews_dir: FilePath,
    pub custom_tile_previews_dir: FilePath,
    pub champion_icons_dir: FilePath,
}

pub fn resolve_paths(data_dir: &FilePath) -> (r: AppPaths)
    ensures
        ({
            let d = data_dir@;
            let previews = below(d, "cache"@, "previews"@);
            &&& r.skins_dir@ == below(d, "library"@, "skins"@)
            &&& r.state_path@ == below(d, "library"@, "state.json"@)
            &&& r.skins_index_path@ == below(d, "library"@, "skins_index.json"@)
            &&& r.overlay_dir@ == below(d, "runtime"@, "overlay"@)
            &&& r.previews_dir@ == previews.push(PartView::Normal("splash"@))
            &&& r.background_previews_dir@ == previews.push(PartView::Normal("background"@))
            &&& r.custom_background_previews_dir@ == below(d, "user-assets"@, "backgrounds"@)
            &&& r.tile_previews_dir@ == previews.push(PartView::Normal("tile"@))
            &&& r.custom_tile_previews_dir@ == below(d, "user-assets"@, "tiles"@)
            &&& r.champion_icons_dir@ == below(d, "cache"@, "champion-icons"@)
        }),
{
    let library = data_dir.join("library");
    let previews = data_dir.join("cache").join("previews");
    let user_assets = data_dir.join("user-assets");
    AppPaths {
        skins_dir: library.join("skins"),
        state_path: library.join("state.json"),
        skins_index_path: library.join("skins_index.json"),
        overlay_dir: data_dir.join("runtime").join("overlay"),
        previews_dir: previews.join("splash"),
        background_previews_dir: previews.join("background"),
        custom_background_previews_dir: user_assets.join("backgrounds"),
        tile_previews_dir: previews.join("tile"),
        custom_tile_previews_dir: user_assets.join("tiles"),
        champion_icons_dir: data_dir.join("cache").join("champion-icons"),
    }
}

/// Images that a user may choose for a skin.
#[derive(Debug, Clone, Copy, PartialEq, Eq, Structural)]
pub enum CustomAssetKind {
    Tile,
    Background,
}

/// Where an image that a user chose for a skin is kept.
pub fn custom_asset_dest(paths: &AppPaths, kind: CustomAssetKind, id: &str) -> (r: FilePath)
    ensures
        r@ == image_path(
            match kind {
                CustomAssetKind::Tile => paths.custom_tile_previews_dir@,
                CustomAssetKind::Background => paths.custom_background_previews_dir@,
            },
            id@,
        ),
{
    match kind {
        CustomAssetKind::Tile => image_file(&paths.custom_tile_previews_dir, id),
        CustomAssetKind::Background => image_file(&paths.custom_background_previews_dir, id),
    }
}

/// The file of a skin.
pub open spec fn skin_file_path(skins_dir: PathView, id: Seq<char>) -> PathView {
    joined(skins_dir, id + ".fantome"@)
}

pub fn skin_file(paths: &AppPaths, id: &str) -> (r: FilePath)
    ensures
        r@ == skin_file_path(paths.skins_dir@, id@),
{
    paths.skins_dir.join_text(concat(id, ".fantome").as_str())
}

/// The images of a skin, which go with it when it is deleted.
pub fn skin_images(paths: &AppPaths, id: &str) -> (r: Vec<FilePath>)
    ensures
        r@.map_values(|p: FilePath| p@) == seq![
            image_path(paths.previews_dir@, id@),
            image_path(paths.background_previews_dir@, id@),
            image_path(paths.custom_background_previews_dir@, id@),
            image_path(paths.tile_previews_dir@, id@),
            image_path(paths.custom_tile_previews_dir@, id@),
        ],
{
    let out: Vec<FilePath> = vec![
        image_file(&paths.previews_dir, id),
        image_file(&paths.background_previews_dir, id),
        image_file(&paths.custom_background_previews_dir, id),
        image_file(&paths.tile_previews_dir, id),
        image_file(&paths.custom_tile_previews_dir, id),
    ];
    assert(out@.map_values(|p: FilePath| p@) =~= seq![
        image_path(paths.previews_dir@, id@),
        image_path(paths.background_previews_dir@, id@),
        image_path(paths.custom_background_previews_dir@, id@),
        image_path(paths.tile_previews_dir@, id@),
        image_path(paths.custom_tile_previews_dir@, id@),
    ]);
    out
}

/// The directory does not look like a League install.
#[derive(Debug, Clone, Copy, PartialEq, Eq, Structural)]
pub struct NotAnInstall;

/// Whether a path ends in the game directory of an install.
pub open spec fn ends_in_game(path: PathView) -> bool {
    file_name_of(path) matches Some(name) && lower(name) == lower("Game"@)
}

/// The data directory of a game directory.
pub open spec fn data_in(game: PathView) -> PathView {
    game.push(PartView::Normal("DATA"@)).push(PartView::Normal("FINAL"@))
}

/// The install directory that a user means by a path: an install, or the game
/// directory in one. `is_dir` says whether a directory is there.
pub fn normalize_league_install_dir<F: Fn(&FilePath) -> bool>(path: &FilePath, is_dir: F) -> (r:
    Result<FilePath, NotAnInstall>)
    requires
        forall|p: &FilePath| call_requires(is_dir, (p,)),
    ensures
        exists|p: FilePath, install: bool| #[trigger]
            call_ensures(is_dir, (&p,), install) && p@ == data_in(
                path@.push(PartView::Normal("Game"@)),
            ) && (if install {
                r is Ok && r->Ok_0@ == path@
            } else if !ends_in_game(path@) {
                r is Err
            } else {
                exists|q: FilePath, game: bool| #[trigger]
                    call_ensures(is_dir, (&q,), game) && q@ == data_in(path@) && (if game {
                        r is Ok && r->Ok_0@ == path@.drop_last()
                    } else {
                        r is Err
                    })
            }),
{
    let inner = path.join("Game").join("DATA").join("FINAL");
    let install = is_dir(&inner);
    assert(call_ensures(is_dir, (&inner,), install));
    if install {
        return Ok(path.clone());
    }
    let named_game = match path.file_name() {
        Some(name) => same_ignoring_case(name.as_str(), "Game"),
        None => false,
    };
    if !named_game {
        return Err(NotAnInstall);
    }
    let own = path.join("DATA").join("FINAL");
    let game = is_dir(&own);
    assert(call_ensures(is_dir, (&own,), game));
    if !game {
        return Err(NotAnInstall);
    }
    match path.parent() {
        Some(p) => Ok(p),
        None => Err(NotAnInstall),
    }
}

/// A path as a user writes it: without the prefix that asks the system to take
/// it literally.
pub open spec fn user_path(path: Seq<char>) -> Seq<char> {
    if has_prefix(path, r"\\?\UNC\"@) {
        r"\\"@ + path.skip(r"\\?\UNC\"@.len() as int)
    } else if has_prefix(path, r"\\?\"@) {
        path.skip(r"\\?\"@.len() as int)
    } else {
        path
    }
}

pub fn path_to_user_string(path: &str) -> (r: String)
    ensures
        r@ == user_path(path@),
{
    if let Some(rest) = strip_prefix(path, r"\\?\UNC\") {
        return concat(r"\\", rest.as_str());
    }
    if let Some(rest) = strip_prefix(path, r"\\?\") {
        return rest;
    }
    text(path)
}

/// `s` with each quote doubled.
pub open spec fn doubled_quotes(s: Seq<char>) -> Seq<char>
    decreases s.len(),
{
    if s.len() == 0 {
        Seq::empty()
    } else if s.last() == '\'' {
        doubled_quotes(s.drop_last()).push('\'').push('\'')
    } else {
        doubled_quotes(s.drop_last()).push(s.last())
    }
}

/// A text as a literal of the system's shell.
pub fn ps_single_quoted(value: &str) -> (r: String)
    ensures
        r@ == seq!['\''] + doubled_quotes(value@) + seq!['\''],
{
    let chars = chars_of(value);
    let mut out = String::new();
    out.push('\'');
    let mut i: usize = 0;
    assert(value@.take(0) =~= Seq::empty());
    assert(out@ =~= seq!['\''] + doubled_quotes(value@.take(0)));
    while i < chars.len()
        invariant
            i <= chars@.len(),
            chars@ == value@,
            out@ == seq!['\''] + doubled_quotes(value@.take(i as int)),
        decreases chars@.len() - i,
    {
        let ghost before = out@;
        if chars[i] == '\'' {
            out.push('\'');
        }
        out.push(chars[i]);
        i = i + 1;
        assert(value@.take(i as int).drop_last() =~= value@.take(i - 1));
        assert(out@ =~= seq!['\''] + doubled_quotes(value@.take(i as int)));
    }
    assert(value@.take(i as int) =~= value@);
    out.push('\'');
    assert(out@ =~= seq!['\''] + doubled_quotes(value@) + seq!['\'']);
    out
}

/// Quotes are doubled one by one, and all else stays as it is.
pub proof fn law_doubled_quotes(a: Seq<char>, b: Seq<char>, c: char)
    ensures
        doubled_quotes(a + b) == doubled_quotes(a) + doubled_quotes(b),
        c != '\'' ==> doubled_quotes(seq![c]) == seq![c],
        doubled_quotes(seq!['\'']) == seq!['\'', '\''],
    decreases b.len(),
{
    reveal_with_fuel(doubled_quotes, 2);
    assert(seq![c].drop_last() =~= Seq::<char>::empty());
    assert(seq!['\''].drop_last() =~= Seq::<char>::empty());
    assert(c != '\'' ==> doubled_quotes(seq![c]) =~= seq![c]);
    assert(doubled_quotes(seq!['\'']) =~= seq!['\'', '\'']);
    if b.len() == 0 {
        assert(a + b =~= a);
        assert(doubled_quotes(a) + doubled_quotes(b) =~= doubled_quotes(a));
    } else {
        law_doubled_quotes(a, b.drop_last(), c);
        assert((a + b).drop_last() =~= a + b.drop_last());
        assert((a + b).last() == b.last());
        assert(doubled_quotes(a + b) =~= doubled_quotes(a) + doubled_quotes(b));
    }
}

/// A path that is to be taken literally is shown without what says so.
pub proof fn law_user_path(path: Seq<char>)
    ensures
        user_path(r"\\?\UNC\"@ + path) == r"\\"@ + path,
        !has_prefix(r"\\?\"@ + path, r"\\?\UNC\"@) ==> user_path(r"\\?\"@ + path) == path,
        !has_prefix(path, r"\\?\"@) ==> user_path(path) == path,
{
    reveal_strlit(r"\\?\UNC\");
    reveal_strlit(r"\\?\");
    let a = r"\\?\UNC\"@ + path;
    let n = r"\\?\UNC\"@.len() as int;
    assert(a.take(n) =~= r"\\?\UNC\"@);
    assert(a.skip(n) =~= path);
    let b = r"\\?\"@ + path;
    let m = r"\\?\"@.len() as int;
    assert(b.take(m) =~= r"\\?\"@);
    assert(b.skip(m) =~= path);
    if has_prefix(path, r"\\?\UNC\"@) {
        assert(path.take(m) =~= r"\\?\UNC\"@.take(m)) by {
            assert(path.take(n).take(m) =~= path.take(m));
        }
        assert(r"\\?\UNC\"@.take(m) =~= r"\\?\"@);
    }
}

} // verus!
