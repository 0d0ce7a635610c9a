//! Where the archives of a game install are, without reading them.

use super::wad::mounted::{mount_name, Mounted};
use crate::names::{lookup, put, NameMap, Named};
use crate::paths::{file_name_of, is_under, FilePath, Part, PartView, PathView};
use crate::text::{
    chars_of, ends_with, has_prefix, has_suffix, lower, same_ignoring_case, strip_prefix,
    strip_suffix, text,
};
use vstd::prelude::*;

verus! {

/// What a directory entry is.
#[derive(Debug, Clone, Copy, PartialEq, Eq, Structural)]
pub enum FoundKind {
    Symlink,
    /// A directory, or one that is really a link elsewhere.
    Directory { reparse_point: bool },
    File,
    Other,
}

/// What is done with a directory entry of a game install.
#[derive(Debug, Clone, Copy, PartialEq, Eq, Structural)]
pub enum WalkStep {
    Skip,
    Descend,
    Mount,
}

/// What is done with a directory entry: archives are mounted, directories are
/// descended into unless they are links or stand for archives.
pub open spec fn walk_step_of(filename: Seq<char>, kind: FoundKind) -> WalkStep {
    match kind {
        FoundKind::Symlink => WalkStep::Skip,
        FoundKind::Other => WalkStep::Skip,
        FoundKind::Directory { reparse_point } => if reparse_point || has_suffix(
            filename,
            ".wad"@,
        ) || has_suffix(filename, ".wad.client"@) {
            WalkStep::Skip
        } else {
            WalkStep::Descend
        },
        FoundKind::File => if has_suffix(filename, ".wad.client"@) {
            WalkStep::Mount
        } else {
            WalkStep::Skip
        },
    }
}

pub fn walk_step(filename: &str, kind: FoundKind) -> (r: WalkStep)
    ensures
        r == walk_step_of(filename@, kind),
{
    match kind {
        FoundKind::Symlink => WalkStep::Skip,
        FoundKind::Other => WalkStep::Skip,
        FoundKind::Directory { reparse_point } => {
            if reparse_point || ends_with(filename, ".wad") || ends_with(filename, ".wad.client") {
                WalkStep::Skip
            } else {
                WalkStep::Descend
            }
        },
        FoundKind::File => {
            if ends_with(filename, ".wad.client") {
                WalkStep::Mount
            } else {
                WalkStep::Skip
            }
        },
    }
}

/// A directory entry of a game install.
pub struct Found {
    pub path: FilePath,
    pub kind: FoundKind,
}

/// The file name of a path, or nothing.
pub open spec fn name_or_empty(p: PathView) -> Seq<char> {
    match file_name_of(p) {
        Some(s) => s,
        None => Seq::empty(),
    }
}

/// The archives among the first `n` directory entries, by mount name. Of two
/// with one mount name the later counts.
pub open spec fn found_mounts(found: Seq<Found>, n: int) -> Named<PathView>
    decreases n,
{
    if n <= 0 {
        Seq::empty()
    } else {
        let before = found_mounts(found, n - 1);
        let name = name_or_empty(found[n - 1].path@);
        if walk_step_of(name, found[n - 1].kind) is Mount {
            put(before, mount_name(name), found[n - 1].path@)
        } else {
            before
        }
    }
}

/// Whether `rel` is `DATA/FINAL/Maps/Shipping/` in letters of either case,
/// followed by the archive of a map that is not localised.
pub open spec fn is_map_shipping_path(rel: PathView) -> bool {
    &&& rel.len() == 5
    &&& is_named(rel[0], "DATA"@)
    &&& is_named(rel[1], "FINAL"@)
    &&& is_named(rel[2], "Maps"@)
    &&& is_named(rel[3], "Shipping"@)
    &&& rel[4] matches PartView::Normal(name) && is_base_map_name(name)
}

/// Whether a part of a path is `name` in letters of either case.
pub open spec fn is_named(part: PartView, name: Seq<char>) -> bool {
    part matches PartView::Normal(s) && lower(s) == lower(name)
}

/// Whether a file name is `Map`, digits, `.wad.client`.
pub open spec fn is_base_map_name(name: Seq<char>) -> bool {
    let stem = name.take(name.len() - ".wad.client"@.len());
    &&& has_suffix(name, ".wad.client"@)
    &&& has_prefix(stem, "Map"@)
    &&& forall|i: int| "Map"@.len() <= i < stem.len() ==> '0' <= #[trigger] stem[i] <= '9'
}

/// Whether `path` is the archive of a map under `root`.
pub open spec fn is_map_under(path: PathView, root: PathView) -> bool {
    is_under(path, root) && is_map_shipping_path(path.skip(root.len() as int))
}

pub fn is_base_map_wad_filename(name: &str) -> (r: bool)
    ensures
        r == is_base_map_name(name@),
{
    let stem = match strip_suffix(name, ".wad.client") {
        Some(s) => s,
        None => {
            return false;
        },
    };
    let digits = match strip_prefix(stem.as_str(), "Map") {
        Some(s) => s,
        None => {
            return false;
        },
    };
    let chars = chars_of(digits.as_str());
    let mut i: usize = 0;
    while i < chars.len()
        invariant
            i <= chars@.len(),
            chars@ == digits@,
            digits@ == stem@.skip("Map"@.len() as int),
            has_prefix(stem@, "Map"@),
            stem@ == name@.take(name@.len() - ".wad.client"@.len()),
            has_suffix(name@, ".wad.client"@),
            forall|j: int|
                "Map"@.len() <= j < "Map"@.len() + i ==> '0' <= #[trigger] stem@[j] <= '9',
        decreases chars@.len() - i,
    {
        let c: char = chars[i];
        assert(c == stem@["Map"@.len() + i]);
        if c < '0' || c > '9' {
            return false;
        }
        i = i + 1;
    }
    true
}

fn part_is_named(part: &Part, name: &str) -> (r: bool)
    ensures
        r == is_named(part@, name@),
{
    match part {
        Part::Normal(s) => same_ignoring_case(s.as_str(), name),
        _ => false,
    }
}

/// Whether a path relative to the game install is the archive of a map.
pub fn is_map_shipping_wad(rel: &FilePath) -> (r: bool)
    ensures
        r == is_map_shipping_path(rel@),
{
    if rel.parts.len() != 5 {
        return false;
    }
    assert(forall|i: int| 0 <= i < 5 ==> rel@[i] == #[trigger] rel.parts@[i]@);
    let placed = part_is_named(&rel.parts[0], "DATA") && part_is_named(&rel.parts[1], "FINAL")
        && part_is_named(&rel.parts[2], "Maps") && part_is_named(&rel.parts[3], "Shipping");
    if !placed {
        return false;
    }
    match &rel.parts[4] {
        Part::Normal(name) => is_base_map_wad_filename(name.as_str()),
        _ => false,
    }
}

/// What an index of game paths is.
pub struct GamePathsView {
    pub game_path: PathView,
    pub mounts: Named<PathView>,
}

/// The archives of a game install by mount name.
pub struct GamePathIndex {
    pub game_path: FilePath,
    mounts: NameMap<FilePath>,
}

impl View for GamePathIndex {
    type V = GamePathsView;

    closed spec fn view(&self) -> GamePathsView {
        GamePathsView { game_path: self.game_path@, mounts: self.mounts@ }
    }
}

/// A mount name and a path.
pub struct NamedPath {
    pub name: String,
    pub path: FilePath,
}

impl View for NamedPath {
    type V = (Seq<char>, PathView);

    open spec fn view(&self) -> (Seq<char>, PathView) {
        (self.name@, self.path@)
    }
}

/// A path below `root`, or the path itself where it lies elsewhere.
pub open spec fn relative_to(path: PathView, root: PathView) -> PathView {
    if is_under(path, root) {
        path.skip(root.len() as int)
    } else {
        path
    }
}

/// The first `n` mounts that are archives of maps under `root`, in order.
pub open spec fn map_mounts(mounts: Named<PathView>, root: PathView, n: int) -> Named<PathView>
    decreases n,
{
    if n <= 0 {
        Seq::empty()
    } else if is_map_under(mounts[n - 1].1, root) {
        map_mounts(mounts, root, n - 1).push(mounts[n - 1])
    } else {
        map_mounts(mounts, root, n - 1)
    }
}

impl GamePathIndex {
    /// Builds the index from what was found under `DATA/FINAL` of a game
    /// install; `None` where there is no such directory.
    pub fn build(game_path: &FilePath, found: Option<&Vec<Found>>) -> (r: Option<Self>)
        ensures
            match (r, found) {
                (Some(index), Some(f)) => index@ == (GamePathsView {
                    game_path: game_path@,
                    mounts: found_mounts(f@, f@.len() as int),
                }),
                (None, None) => true,
                _ => false,
            },
    {
        let found = match found {
            Some(f) => f,
            None => {
                return None;
            },
        };
        let mut mounts: NameMap<FilePath> = NameMap::new();
        let mut i: usize = 0;
        while i < found.len()
            invariant
                i <= found@.len(),
                mounts@ == found_mounts(found@, i as int),
            decreases found@.len() - i,
        {
            let name = match found[i].path.file_name() {
                Some(s) => s,
                None => String::new(),
            };
            if walk_step(name.as_str(), found[i].kind) == WalkStep::Mount {
                mounts.insert(Mounted::make_name(name.as_str()), found[i].path.clone());
            }
            i = i + 1;
        }
        Some(GamePathIndex { game_path: game_path.clone(), mounts })
    }

    /// The directory of the game install.
    pub fn root(&self) -> (r: FilePath)
        ensures
            r@ == self@.game_path,
    {
        self.game_path.clone()
    }

    pub fn len(&self) -> (r: usize)
        ensures
            r == self@.mounts.len(),
    {
        self.mounts.len()
    }

    pub fn is_empty(&self) -> (r: bool)
        ensures
            r == (self@.mounts.len() == 0),
    {
        self.mounts.len() == 0
    }

    /// The path of the archive with the given mount name.
    pub fn find(&self, mount_name: &str) -> (r: Option<&FilePath>)
        ensures
            match r {
                Some(p) => lookup(self@.mounts, mount_name@) == Some(p@),
                None => lookup(self@.mounts, mount_name@) is None,
            },
    {
        self.mounts.get(mount_name)
    }

    /// Mount names with paths relative to the game install, in order of names.
    pub fn iter_rel(&self) -> (r: Vec<NamedPath>)
        ensures
            r@.map_values(|p: NamedPath| p@) == Seq::new(
                self@.mounts.len(),
                |i: int|
                    (
                        self@.mounts[i].0,
                        relative_to(self@.mounts[i].1, self@.game_path),
                    ),
            ),
    {
        let mut out: Vec<NamedPath> = Vec::new();
        let mut i: usize = 0;
        while i < self.mounts.len()
            invariant
                i <= self@.mounts.len(),
                out@.len() == i,
                forall|j: int|
                    0 <= j < i ==> (#[trigger] out@[j])@ == (
                        self@.mounts[j].0,
                        relative_to(self@.mounts[j].1, self@.game_path),
                    ),
            decreases self@.mounts.len() - i,
        {
            let abs = self.mounts.value(i);
            let rel = match abs.strip_prefix(&self.game_path) {
                Some(p) => p,
                None => abs.clone(),
            };
            out.push(NamedPath { name: text(self.mounts.key(i).as_str()), path: rel });
            i = i + 1;
        }
        assert(out@.map_values(|p: NamedPath| p@) =~= Seq::new(
            self@.mounts.len(),
            |i: int| (self@.mounts[i].0, relative_to(self@.mounts[i].1, self@.game_path)),
        ));
        out
    }

    /// The archives of maps, in order of names.
    pub fn iter_map_shipping_wads(&self) -> (r: Vec<NamedPath>)
        ensures
            r@.map_values(|p: NamedPath| p@) == map_mounts(
                self@.mounts,
                self@.game_path,
                self@.mounts.len() as int,
            ),
    {
        let mut out: Vec<NamedPath> = Vec::new();
        let mut i: usize = 0;
        assert(out@.map_values(|p: NamedPath| p@) =~= map_mounts(self@.mounts, self@.game_path, 0));
        while i < self.mounts.len()
            invariant
                i <= self@.mounts.len(),
                out@.map_values(|p: NamedPath| p@) == map_mounts(
                    self@.mounts,
                    self@.game_path,
                    i as int,
                ),
            decreases self@.mounts.len() - i,
        {
            let ghost before = out@;
            if self.is_map_shipping_wad(self.mounts.value(i)) {
                let item = NamedPath {
                    name: text(self.mounts.key(i).as_str()),
                    path: self.mounts.value(i).clone(),
                };
                let ghost v = item@;
                out.push(item);
                assert(out@.map_values(|p: NamedPath| p@) =~= before.map_values(
                    |p: NamedPath| p@,
                ).push(v));
            }
            i = i + 1;
        }
        out
    }

    /// Whether a path is the archive of a map of this game install.
    pub fn is_map_shipping_wad(&self, abs_path: &FilePath) -> (r: bool)
        ensures
            r == is_map_under(abs_path@, self@.game_path),
    {
        match abs_path.strip_prefix(&self.game_path) {
            Some(rel) => is_map_shipping_wad(&rel),
            None => false,
        }
    }
}

} // verus!
