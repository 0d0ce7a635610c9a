//! Building the overlay of a single mod quickly.
//!
//! Only the game archives that the mod's mounts are named after are read, and
//! cached map archives are patched in place. The build is a sequence of
//! actions: after each the caller reports back, and learns what to write.

use super::game_paths::{is_map_under, map_mounts, GamePathIndex, GamePathsView, NamedPath};
use super::map_cache::{patch_of, patch_wad_in_place, patched_marks, MapPatch};
use super::pipeline::{blocked_names, blocklist_of_game, game_rel_paths, strip_blocked, stripped};
use super::wad::archive::Content;
use super::wad::fantome::fantome_file_mounts;
use super::wad::index::{merged, reconcile_within, unmarked_mounts, Index};
use super::wad::marks::{kept, Marks};
use super::wad::mounted::{
    game_content, game_file_error, marked_copy, mount_name, MountView, Mounted, OverlayError,
};
use crate::names::{lookup, Named};
use crate::paths::{FilePath, PathView};
use crate::text::{ends_with, has_suffix, same_text, text};
use vstd::prelude::*;

verus! {

/// A mount of a mod, by position, and the game archive that it is named after.
pub struct Target {
    pub mount: usize,
    pub path: FilePath,
}

impl View for Target {
    type V = (int, PathView);

    open spec fn view(&self) -> (int, PathView) {
        (self.mount as int, self.path@)
    }
}

/// Those of the first `n` mounts of a mod that are named after a game archive,
/// with that archive.
pub open spec fn targets_of(mods: Named<MountView>, game: Named<PathView>, n: int) -> Seq<
    (int, PathView),
>
    decreases n,
{
    if n <= 0 {
        Seq::empty()
    } else {
        match lookup(game, mods[n - 1].0) {
            Some(path) => targets_of(mods, game, n - 1).push((n - 1, path)),
            None => targets_of(mods, game, n - 1),
        }
    }
}

/// What is left of a mod without its blocked entries.
pub open spec fn unblocked(
    mods: Named<MountView>,
    game: Named<PathView>,
    game_path: PathView,
) -> Named<MountView> {
    stripped(mods, blocked_names(game_rel_paths(game, game_path)), mods.len() as int)
}

/// How far a build has come.
pub struct FastView {
    /// The name of the mod.
    pub name: Seq<char>,
    /// The mod, without its blocked entries and reconciled within itself.
    pub mods: Named<MountView>,
    pub game_path: PathView,
    pub targets: Seq<(int, PathView)>,
    /// The map archives of the game.
    pub maps: Named<PathView>,
    /// How many targets and then maps are done.
    pub done: int,
    /// The mount names of what was written.
    pub written: Seq<Seq<char>>,
}

/// What to do next.
pub enum FastAction {
    /// Read the game archive at this path, and call `base_read`.
    ReadBase(FilePath),
    /// See that there is a copy of the map archive at this path, read the start
    /// of the copy, and call `map_read`.
    ReadMap(FilePath),
    /// Call `finish`.
    Finish,
}

/// What an action is.
pub enum ActionView {
    ReadBase(PathView),
    ReadMap(PathView),
    Finish,
}

impl View for FastAction {
    type V = ActionView;

    open spec fn view(&self) -> ActionView {
        match self {
            FastAction::ReadBase(p) => ActionView::ReadBase(p@),
            FastAction::ReadMap(p) => ActionView::ReadMap(p@),
            FastAction::Finish => ActionView::Finish,
        }
    }
}

/// What to do next: all targets, then all maps.
pub open spec fn next_action(b: FastView) -> ActionView {
    if b.done < b.targets.len() {
        ActionView::ReadBase(b.targets[b.done].1)
    } else if b.done - b.targets.len() < b.maps.len() {
        ActionView::ReadMap(b.maps[b.done - b.targets.len()].1)
    } else {
        ActionView::Finish
    }
}

/// A build with one more thing done, and written where `name` is given.
pub open spec fn advanced(b: FastView, name: Option<Seq<char>>) -> FastView {
    FastView {
        done: b.done + 1,
        written: match name {
            Some(n) => b.written.push(n),
            None => b.written,
        },
        ..b
    }
}

/// A build in progress.
pub struct FastBuild {
    mods: Index,
    game_path: FilePath,
    targets: Vec<Target>,
    maps: Vec<NamedPath>,
    bases_done: usize,
    maps_done: usize,
    written: Vec<String>,
}

impl View for FastBuild {
    type V = FastView;

    closed spec fn view(&self) -> FastView {
        FastView {
            name: self.mods@.name,
            mods: self.mods@.mounts,
            game_path: self.game_path@,
            targets: self.targets@.map_values(|t: Target| t@),
            maps: self.maps@.map_values(|m: NamedPath| m@),
            done: self.bases_done + self.maps_done,
            written: self.written@.map_values(|s: String| s@),
        }
    }
}

/// What starting the build of a mod gives: without what is blocked and
/// reconciled, nothing of it is done.
pub open spec fn started(
    r: Result<FastBuild, OverlayError>,
    name: Seq<char>,
    mounts: Named<MountView>,
    game: GamePathsView,
    ignore: bool,
) -> bool {
    let left = unblocked(mounts, game.mounts, game.game_path);
    let (mods, failed) = reconcile_within(left, ignore, left.len() as int);
    if left.len() == 0 {
        r == Err::<FastBuild, OverlayError>(OverlayError::EmptyMod)
    } else if failed is Some {
        r == Err::<FastBuild, OverlayError>(OverlayError::Conflicts { count: failed->0 as usize })
    } else {
        &&& r is Ok
        &&& r->Ok_0@ == (FastView {
            name,
            mods,
            game_path: game.game_path,
            targets: targets_of(mods, game.mounts, mods.len() as int),
            maps: map_mounts(game.mounts, game.game_path, game.mounts.len() as int),
            done: 0,
            written: Seq::empty(),
        })
    }
}

impl FastBuild {
    /// Whether the targets are mounts of the mod, and no more is done than
    /// there is.
    #[verifier::type_invariant]
    spec fn wf(&self) -> bool {
        &&& forall|i: int|
            0 <= i < self.targets@.len() ==> (#[trigger] self.targets@[i]).mount
                < self.mods@.mounts.len()
        &&& self.bases_done <= self.targets@.len()
        &&& self.maps_done <= self.maps@.len()
        &&& self.maps_done > 0 ==> self.bases_done == self.targets@.len()
    }

    /// Starts the build of a mod: takes out what is blocked and reconciles the
    /// rest.
    pub fn start(game_paths: &GamePathIndex, mod_idx: Index, ignore_conflict: bool) -> (r: Result<
        Self,
        OverlayError,
    >)
        ensures
            started(r, mod_idx@.name, mod_idx@.mounts, game_paths@, ignore_conflict),
    {
        let blocked = blocklist_of_game(game_paths);
        let mut mods = mod_idx;
        strip_blocked(&mut mods, &blocked);
        if mods.mounts.len() == 0 {
            return Err(OverlayError::EmptyMod);
        }
        if let Err(e) = mods.resolve_conflicts_within(ignore_conflict) {
            return Err(e);
        }
        let mut targets: Vec<Target> = Vec::new();
        let mut i: usize = 0;
        assert(targets@.map_values(|t: Target| t@) =~= targets_of(
            mods@.mounts,
            game_paths@.mounts,
            0,
        ));
        while i < mods.mounts.len()
            invariant
                i <= mods@.mounts.len(),
                targets@.map_values(|t: Target| t@) == targets_of(
                    mods@.mounts,
                    game_paths@.mounts,
                    i as int,
                ),
                forall|k: int|
                    0 <= k < targets@.len() ==> (#[trigger] targets@[k]).mount
                        < mods@.mounts.len(),
            decreases mods@.mounts.len() - i,
        {
            if let Some(path) = game_paths.find(mods.mounts.key(i).as_str()) {
                let ghost before = targets@;
                let t = Target { mount: i, path: path.clone() };
                let ghost v = t@;
                targets.push(t);
                assert(targets@.map_values(|t: Target| t@) =~= before.map_values(
                    |t: Target| t@,
                ).push(v));
            }
            i = i + 1;
        }
        let maps = game_paths.iter_map_shipping_wads();
        let r = FastBuild {
            mods,
            game_path: game_paths.root(),
            targets,
            maps,
            bases_done: 0,
            maps_done: 0,
            written: Vec::new(),
        };
        assert(r@.written =~= Seq::empty());
        Ok(r)
    }

    /// Starts the build of a mod from the bytes of its `.fantome` file.
    pub fn open(
        game_paths: &GamePathIndex,
        name: String,
        bytes: Vec<u8>,
        ignore_conflict: bool,
        marks: &mut Marks,
    ) -> (r: Result<Self, OverlayError>)
        ensures
            kept(old(marks)@, final(marks)@),
            match fantome_file_mounts(bytes@) {
                Ok(mounts) => exists|copy: Named<MountView>|
                    #[trigger] unmarked_mounts(copy, mounts, old(marks)@, final(marks)@)
                        && started(r, name@, copy, game_paths@, ignore_conflict),
                Err(e) => r == Err::<Self, OverlayError>(e),
            },
    {
        match Index::from_fantome(name, bytes, marks) {
            Ok(index) => FastBuild::start(game_paths, index, ignore_conflict),
            Err(e) => Err(e),
        }
    }

    /// What to do next.
    pub fn next(&self) -> (r: FastAction)
        ensures
            r@ == next_action(self@),
    {
        proof {
            use_type_invariant(self);
        }
        if self.bases_done < self.targets.len() {
            let k: usize = self.bases_done;
            assert(self@.targets[k as int] == self.targets@[k as int]@);
            FastAction::ReadBase(self.targets[k].path.clone())
        } else if self.maps_done < self.maps.len() {
            let k: usize = self.maps_done;
            assert(self@.maps[k as int] == self.maps@[k as int]@);
            FastAction::ReadMap(self.maps[k].path.clone())
        } else {
            FastAction::Finish
        }
    }

    /// Takes the bytes of the game archive that was asked for, and gives what
    /// to write: the archive with the mod's entries merged in.
    pub fn base_read(&mut self, bytes: &[u8], marks: &mut Marks) -> (r: Result<
        Mounted,
        OverlayError,
    >)
        requires
            next_action(old(self)@) is ReadBase,
        ensures
            kept(old(marks)@, final(marks)@),
            ({
                let b = old(self)@;
                let (mount, path) = b.targets[b.done];
                match r {
                    Ok(m) => {
                        &&& game_file_error(path, b.game_path, bytes@) is None
                        &&& exists|base: Content|
                            #[trigger] marked_copy(
                                base,
                                game_content(bytes@),
                                old(marks)@,
                                final(marks)@,
                            ) && m@ == merged(
                                MountView {
                                    relpath: path.skip(b.game_path.len() as int),
                                    archive: base,
                                },
                                b.mods[mount].1.archive.entries,
                            )
                        &&& final(self)@ == advanced(b, Some(b.mods[mount].0))
                    },
                    Err(e) => {
                        &&& game_file_error(path, b.game_path, bytes@) == Some(e)
                        &&& final(self)@ == b
                    },
                }
            }),
    {
        proof {
            use_type_invariant(&*self);
        }
        let ghost b = self@;
        let k: usize = self.bases_done;
        let _n: usize = self.targets.len();
        assert(b.targets[k as int] == self.targets@[k as int]@);
        let mut base = match Mounted::from_game_file(
            &self.targets[k].path,
            &self.game_path,
            bytes,
            marks,
        ) {
            Ok(m) => m,
            Err(e) => {
                return Err(e);
            },
        };
        let ghost copy = base@.archive;
        assert(marked_copy(copy, game_content(bytes@), old(marks)@, marks@));
        let mount: usize = self.targets[k].mount;
        base.archive.merge_in(&self.mods.mounts.value(mount).archive);
        let name = text(self.mods.mounts.key(mount).as_str());
        let ghost n = name@;
        let mut written: Vec<String> = Vec::new();
        std::mem::swap(&mut written, &mut self.written);
        written.push(name);
        self.written = written;
        self.bases_done = k + 1;
        assert(self@.written =~= b.written.push(n));
        Ok(base)
    }

    /// Takes the start (header and table of contents) and the size of the
    /// cached map archive that was asked for, and gives the patch to apply to
    /// it.
    pub fn map_read(&mut self, prefix: &[u8], size: u64, marks: &mut Marks) -> (r: Result<
        Option<MapPatch>,
        OverlayError,
    >)
        requires
            next_action(old(self)@) is ReadMap,
        ensures
            final(marks)@ == patched_marks(prefix@, size as int, old(self)@.mods, old(marks)@),
            ({
                let b = old(self)@;
                let name = b.maps[b.done - b.targets.len()].0;
                match (r, patch_of(prefix@, size as int, b.mods, old(marks)@)) {
                    (Ok(Some(p)), Ok(Some(v))) => p@ == v && final(self)@ == advanced(
                        b,
                        Some(name),
                    ),
                    (Ok(None), Ok(None)) => final(self)@ == advanced(b, None),
                    (Err(e), Err(w)) => e == OverlayError::Wad(w) && final(self)@ == b,
                    _ => false,
                }
            }),
    {
        proof {
            use_type_invariant(&*self);
        }
        let ghost b = self@;
        let k: usize = self.maps_done;
        assert(b.maps[k as int] == self.maps@[k as int]@);
        let count: usize = self.maps.len();
        assert(k < count);
        match patch_wad_in_place(prefix, size, &self.mods.mounts, marks) {
            Err(e) => Err(OverlayError::Wad(e)),
            Ok(patch) => {
                if patch.is_some() {
                    let name = text(self.maps[k].name.as_str());
                    let ghost n = name@;
                    let mut written: Vec<String> = Vec::new();
                    std::mem::swap(&mut written, &mut self.written);
                    written.push(name);
                    self.written = written;
                    assert(self.written@.map_values(|s: String| s@) =~= b.written.push(n));
                }
                self.maps_done = k + 1;
                Ok(patch)
            },
        }
    }

    /// The mount names of what was written.
    pub fn finish(self) -> (r: Result<Vec<String>, OverlayError>)
        ensures
            match r {
                Ok(names) => self@.written.len() > 0 && names@.map_values(|s: String| s@)
                    == self@.written,
                Err(e) => self@.written.len() == 0 && e == OverlayError::NothingWritten,
            },
    {
        if self.written.len() == 0 {
            return Err(OverlayError::NothingWritten);
        }
        Ok(self.written)
    }
}

/// Whether a file of an overlay directory is a leftover of an earlier build: an
/// archive that was not written now and is not a cached map.
pub open spec fn is_overlay_leftover(
    filename: Seq<char>,
    written: Seq<Seq<char>>,
    game: Named<PathView>,
    game_path: PathView,
) -> bool {
    &&& has_suffix(filename, ".wad.client"@)
    &&& !written.contains(mount_name(filename))
    &&& !(lookup(game, mount_name(filename)) matches Some(p) && is_map_under(p, game_path))
}

pub fn removes_overlay_file(
    filename: &str,
    written: &Vec<String>,
    game_paths: &GamePathIndex,
) -> (r: bool)
    ensures
        r == is_overlay_leftover(
            filename@,
            written@.map_values(|s: String| s@),
            game_paths@.mounts,
            game_paths@.game_path,
        ),
{
    if !ends_with(filename, ".wad.client") {
        return false;
    }
    let mount = Mounted::make_name(filename);
    let ghost names = written@.map_values(|s: String| s@);
    let mut i: usize = 0;
    while i < written.len()
        invariant
            i <= written@.len(),
            names == written@.map_values(|s: String| s@),
            mount@ == mount_name(filename@),
            forall|j: int| 0 <= j < i ==> #[trigger] names[j] != mount@,
        decreases written@.len() - i,
    {
        assert(names[i as int] == written@[i as int]@);
        if same_text(written[i].as_str(), mount.as_str()) {
            assert(names.contains(mount@));
            return false;
        }
        i = i + 1;
    }
    assert(!names.contains(mount@));
    match game_paths.find(mount.as_str()) {
        Some(path) => !game_paths.is_map_shipping_wad(path),
        None => true,
    }
}

/// A cached map archive of the game is never removed.
pub proof fn law_maps_stay(
    filename: Seq<char>,
    written: Seq<Seq<char>>,
    game: Named<PathView>,
    game_path: PathView,
    path: PathView,
)
    requires
        lookup(game, mount_name(filename)) == Some(path),
        is_map_under(path, game_path),
    ensures
        !is_overlay_leftover(filename, written, game, game_path),
{
}

} // verus!
