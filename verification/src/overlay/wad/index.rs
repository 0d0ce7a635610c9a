//! Collections of mounts: a game install, a mod, or an overlay.

use super::archive::{
    all_marked, ascending, common_names, none_marked, numbers_within, overlap_keys, Archive,
    Content,
};
use super::entry::Entry;
use super::marks::{kept, marked, Marks};
use super::mounted::{
    bare_mount, conflicts, game_content, game_file_error, marked_copy, mount_name, path_mount_name,
    reconciled, MountView, Mounted, OverlayError,
};
use crate::names::{
    has_name, lemma_put_members, lemma_slot_by_names, lookup, put, NameMap, Named,
};
use crate::paths::{file_name_of, FilePath, PathView};
use crate::text::{ends_with, has_suffix, same_text, text};
use vstd::prelude::*;

verus! {

/// What an index is: a name, and mounts in the order of their names.
pub struct IndexView {
    pub name: Seq<char>,
    pub mounts: Named<MountView>,
}

/// Mounts by mount name.
pub struct Index {
    pub name: String,
    pub mounts: NameMap<Mounted>,
}

impl View for Index {
    type V = IndexView;

    open spec fn view(&self) -> IndexView {
        IndexView { name: self.name@, mounts: self.mounts@ }
    }
}

impl Default for Index {
    fn default() -> (r: Self)
        ensures
            r@ == (IndexView { name: Seq::empty(), mounts: Seq::empty() }),
    {
        Index { name: String::new(), mounts: NameMap::new() }
    }
}

/// A file of a game install.
pub struct GameFile {
    pub path: FilePath,
    pub bytes: Vec<u8>,
}

/// The mounts of the first `n` files of a game install. Files that cannot be
/// mounted are left out; of two with one mount name the later counts.
pub open spec fn game_mounts(files: Seq<GameFile>, game_path: PathView, n: int) -> Named<MountView>
    decreases n,
{
    if n <= 0 {
        Seq::empty()
    } else {
        let before = game_mounts(files, game_path, n - 1);
        let f = files[n - 1];
        if game_file_error(f.path@, game_path, f.bytes@) is Some {
            before
        } else {
            let relpath = f.path@.skip(game_path.len() as int);
            put(
                before,
                path_mount_name(relpath),
                MountView { relpath, archive: game_content(f.bytes@) },
            )
        }
    }
}

/// Mounts apart from the numbers of their entries.
pub open spec fn bare_mounts(s: Named<MountView>) -> Named<MountView> {
    Seq::new(s.len(), |i: int| (s[i].0, bare_mount(s[i].1)))
}

/// Whether the numbers of all entries are at least `from` and below `to`.
pub open spec fn mounts_within(s: Named<MountView>, from: nat, to: nat) -> bool {
    forall|i: int|
        0 <= i < s.len() ==> numbers_within((#[trigger] s[i]).1.archive.entries, from, to)
}

/// Whether every entry of every mount is marked.
pub open spec fn mounts_marked(s: Named<MountView>, m: Seq<bool>) -> bool {
    forall|i: int| 0 <= i < s.len() ==> all_marked((#[trigger] s[i]).1.archive.entries, m)
}

/// Whether no entry of any mount is marked.
pub open spec fn mounts_unmarked(s: Named<MountView>, m: Seq<bool>) -> bool {
    forall|i: int| 0 <= i < s.len() ==> none_marked((#[trigger] s[i]).1.archive.entries, m)
}

/// Whether the mounts hold what `expected` do, under numbers that were given out
/// between `before` and `after`, none of them marked.
pub open spec fn unmarked_mounts(
    s: Named<MountView>,
    expected: Named<MountView>,
    before: Seq<bool>,
    after: Seq<bool>,
) -> bool {
    &&& bare_mounts(s) == expected
    &&& mounts_within(s, before.len(), after.len())
    &&& mounts_unmarked(s, after)
}

/// Whether the mounts hold what `expected` do, under numbers that were given out
/// between `before` and `after` and are all marked.
pub open spec fn marked_mounts(
    s: Named<MountView>,
    expected: Named<MountView>,
    before: Seq<bool>,
    after: Seq<bool>,
) -> bool {
    &&& bare_mounts(s) == expected
    &&& mounts_within(s, before.len(), after.len())
    &&& mounts_marked(s, after)
}

/// Putting a mount into a list does not look at numbers.
pub proof fn lemma_bare_put(s: Named<MountView>, name: Seq<char>, v: MountView)
    ensures
        bare_mounts(put(s, name, v)) == put(bare_mounts(s), name, bare_mount(v)),
{
    lemma_slot_by_names(s, bare_mounts(s), name);
    assert(bare_mounts(put(s, name, v)) =~= put(bare_mounts(s), name, bare_mount(v)));
}

/// Mounts that are marked stay so where the marks of old numbers are kept.
pub proof fn lemma_marked_kept(
    s: Named<MountView>,
    from: nat,
    before: Seq<bool>,
    after: Seq<bool>,
)
    requires
        kept(before, after),
        mounts_within(s, from, before.len()),
    ensures
        mounts_within(s, from, after.len()),
        mounts_marked(s, before) ==> mounts_marked(s, after),
        mounts_unmarked(s, before) ==> mounts_unmarked(s, after),
{
    assert forall|i: int| 0 <= i < s.len() implies {
        &&& numbers_within((#[trigger] s[i]).1.archive.entries, from, after.len())
        &&& all_marked(s[i].1.archive.entries, before) ==> all_marked(
            s[i].1.archive.entries,
            after,
        )
        &&& none_marked(s[i].1.archive.entries, before) ==> none_marked(
            s[i].1.archive.entries,
            after,
        )
    } by {
        let e = s[i].1.archive.entries;
        assert(numbers_within(e, from, before.len()));
        assert forall|n: u64| #[trigger] e.contains_key(n) implies marked(after, e[n].id) == marked(
            before,
            e[n].id,
        ) by {}
    }
}

/// What holds of the numbers of all mounts and of one more holds of all with
/// that one put in.
pub proof fn lemma_put_numbers(
    s: Named<MountView>,
    name: Seq<char>,
    v: MountView,
    from: nat,
    m: Seq<bool>,
)
    requires
        mounts_within(s, from, m.len()),
        numbers_within(v.archive.entries, from, m.len()),
    ensures
        mounts_within(put(s, name, v), from, m.len()),
        mounts_marked(s, m) && all_marked(v.archive.entries, m) ==> mounts_marked(
            put(s, name, v),
            m,
        ),
        mounts_unmarked(s, m) && none_marked(v.archive.entries, m) ==> mounts_unmarked(
            put(s, name, v),
            m,
        ),
{
    let t = put(s, name, v);
    assert forall|i: int| 0 <= i < t.len() implies (#[trigger] t[i]).1 == v || exists|j: int|
        0 <= j < s.len() && #[trigger] s[j] == t[i] by {
        lemma_put_members(s, name, v, i);
    }
}

/// How many names two archives have in common.
pub open spec fn overlap_count(a: Content, b: Content) -> nat {
    ascending(common_names(a.entries, b.entries)).len()
}

/// Which of the first `n` mounts shares most names with `archive`: the first of
/// those with the highest count, and none where no mount shares any.
pub open spec fn best_overlap(mounts: Named<MountView>, archive: Content, n: int) -> Option<int>
    decreases n,
{
    if n <= 0 {
        None
    } else {
        let best = best_overlap(mounts, archive, n - 1);
        let best_count = match best {
            Some(i) => overlap_count(mounts[i].1.archive, archive),
            None => 0,
        };
        if overlap_count(mounts[n - 1].1.archive, archive) > best_count {
            Some(n - 1)
        } else {
            best
        }
    }
}

/// The mount that stands for `name`, else the one that shares most names with
/// `archive`.
pub open spec fn base_mount(
    mounts: Named<MountView>,
    name: Seq<char>,
    archive: Content,
) -> Option<MountView> {
    match lookup(mounts, name) {
        Some(m) => Some(m),
        None => match best_overlap(mounts, archive, mounts.len() as int) {
            Some(i) => Some(mounts[i].1),
            None => None,
        },
    }
}

/// `m` with the given entries added, in place of those of the same names.
pub open spec fn merged(m: MountView, entries: Map<u64, Entry>) -> MountView {
    MountView {
        relpath: m.relpath,
        archive: Content {
            entries: m.archive.entries.union_prefer_right(entries),
            signature: m.archive.signature,
        },
    }
}

/// The overlay with `entries` merged into its mount `name`, which starts out as
/// a copy of `base`.
pub open spec fn merge_into(
    overlay: Named<MountView>,
    name: Seq<char>,
    base: MountView,
    entries: Map<u64, Entry>,
) -> Named<MountView> {
    let start = match lookup(overlay, name) {
        Some(m) => m,
        None => base,
    };
    put(overlay, name, merged(start, entries))
}

/// The overlay with the entries of a mod merged into each of the first `n` game
/// mounts, other than `base_name`, that shares names with the mod.
pub open spec fn merge_into_others(
    overlay: Named<MountView>,
    game: Named<MountView>,
    base_name: Seq<char>,
    archive: Content,
    n: int,
) -> Named<MountView>
    decreases n,
{
    if n <= 0 {
        overlay
    } else {
        let before = merge_into_others(overlay, game, base_name, archive, n - 1);
        let (name, mount) = game[n - 1];
        let common = common_names(mount.archive.entries, archive.entries);
        if name == base_name || common.is_empty() {
            before
        } else {
            merge_into(before, name, mount, archive.entries.restrict(common))
        }
    }
}

/// The overlay with one mount of a mod added; `None` where it has no base.
pub open spec fn with_mod_mount(
    overlay: Named<MountView>,
    game: Named<MountView>,
    name: Seq<char>,
    archive: Content,
) -> Option<Named<MountView>> {
    match base_mount(game, name, archive) {
        None => None,
        Some(base) => {
            let base_name = path_mount_name(base.relpath);
            Some(
                merge_into_others(
                    merge_into(overlay, base_name, base, archive.entries),
                    game,
                    base_name,
                    archive,
                    game.len() as int,
                ),
            )
        },
    }
}

/// The overlay with the first `n` mounts of a mod added; the first of them that
/// has no base where there is one.
pub open spec fn with_mod_mounts(
    overlay: Named<MountView>,
    game: Named<MountView>,
    mods: Named<MountView>,
    n: int,
) -> Result<Named<MountView>, int>
    decreases n,
{
    if n <= 0 {
        Ok(overlay)
    } else {
        match with_mod_mounts(overlay, game, mods, n - 1) {
            Err(k) => Err(k),
            Ok(before) => match with_mod_mount(
                before,
                game,
                mods[n - 1].0,
                mods[n - 1].1.archive,
            ) {
                None => Err(n - 1),
                Some(after) => Ok(after),
            },
        }
    }
}

proof fn lemma_no_base_later(
    overlay: Named<MountView>,
    game: Named<MountView>,
    mods: Named<MountView>,
    n: int,
    total: int,
)
    requires
        0 <= n <= total,
        with_mod_mounts(overlay, game, mods, n) is Err,
    ensures
        with_mod_mounts(overlay, game, mods, total) == with_mod_mounts(overlay, game, mods, n),
    decreases total - n,
{
    if n < total {
        lemma_no_base_later(overlay, game, mods, n, total - 1);
    }
}

/// A mount reconciled with the first `n` of `others`, one after the other, up
/// to the first that conflicts; with the number of conflicts there.
pub open spec fn reconcile_with(
    m: MountView,
    others: Named<MountView>,
    ignore: bool,
    n: int,
) -> (MountView, Option<nat>)
    decreases n,
{
    if n <= 0 {
        (m, None)
    } else {
        let (x, failed) = reconcile_with(m, others, ignore, n - 1);
        if failed is Some {
            (x, failed)
        } else {
            let other = others[n - 1].1;
            let count = conflicts(x.archive, other.archive, ignore);
            (
                MountView {
                    relpath: x.relpath,
                    archive: Content {
                        entries: reconciled(x.archive.entries, other.archive.entries, ignore),
                        signature: x.archive.signature,
                    },
                },
                if count == 0 {
                    None
                } else {
                    Some(count)
                },
            )
        }
    }
}

/// The first `n` mounts reconciled with all of `others`, up to the first
/// conflict.
pub open spec fn reconcile_all(
    mounts: Named<MountView>,
    others: Named<MountView>,
    ignore: bool,
    n: int,
) -> (Named<MountView>, Option<nat>)
    decreases n,
{
    if n <= 0 {
        (mounts, None)
    } else {
        let (before, failed) = reconcile_all(mounts, others, ignore, n - 1);
        if failed is Some {
            (before, failed)
        } else {
            let (m, now) = reconcile_with(before[n - 1].1, others, ignore, others.len() as int);
            (before.update(n - 1, (before[n - 1].0, m)), now)
        }
    }
}

/// The first `n` mounts reconciled with all the others, up to the first
/// conflict. A mount that conflicts is taken out.
pub open spec fn reconcile_within(mounts: Named<MountView>, ignore: bool, n: int) -> (
    Named<MountView>,
    Option<nat>,
)
    decreases n,
{
    if n <= 0 {
        (mounts, None)
    } else {
        let (before, failed) = reconcile_within(mounts, ignore, n - 1);
        if failed is Some {
            (before, failed)
        } else {
            let others = before.remove(n - 1);
            let (m, now) = reconcile_with(before[n - 1].1, others, ignore, others.len() as int);
            if now is Some {
                (others, now)
            } else {
                (before.update(n - 1, (before[n - 1].0, m)), None)
            }
        }
    }
}

/// Relates a result to a number of conflicts.
pub open spec fn conflict_result(r: Result<(), OverlayError>, failed: Option<nat>) -> bool {
    match r {
        Ok(_) => failed is None,
        Err(e) => failed is Some && e == (OverlayError::Conflicts { count: failed->0 as usize }),
    }
}

/// Whether a file of an overlay directory is a leftover: an archive that is not
/// among `mounts`.
pub open spec fn is_leftover(mounts: Named<MountView>, filename: Seq<char>) -> bool {
    has_suffix(filename, ".wad.client"@) && !has_name(mounts, mount_name(filename))
}

proof fn lemma_reconcile_with_failed(
    m: MountView,
    others: Named<MountView>,
    ignore: bool,
    n: int,
    total: int,
)
    requires
        0 <= n <= total,
        reconcile_with(m, others, ignore, n).1 is Some,
    ensures
        reconcile_with(m, others, ignore, total) == reconcile_with(m, others, ignore, n),
    decreases total - n,
{
    if n < total {
        lemma_reconcile_with_failed(m, others, ignore, n, total - 1);
    }
}

proof fn lemma_reconcile_all_failed(
    mounts: Named<MountView>,
    others: Named<MountView>,
    ignore: bool,
    n: int,
    total: int,
)
    requires
        0 <= n <= total,
        reconcile_all(mounts, others, ignore, n).1 is Some,
    ensures
        reconcile_all(mounts, others, ignore, total) == reconcile_all(mounts, others, ignore, n),
    decreases total - n,
{
    if n < total {
        lemma_reconcile_all_failed(mounts, others, ignore, n, total - 1);
    }
}

proof fn lemma_reconcile_within_failed(mounts: Named<MountView>, ignore: bool, n: int, total: int)
    requires
        0 <= n <= total,
        reconcile_within(mounts, ignore, n).1 is Some,
    ensures
        reconcile_within(mounts, ignore, total) == reconcile_within(mounts, ignore, n),
    decreases total - n,
{
    if n < total {
        lemma_reconcile_within_failed(mounts, ignore, n, total - 1);
    }
}

impl Index {
    /// Builds the index of a game install from its archive files. All entries
    /// are marked as stored the best way.
    pub fn from_game_folder(game_path: &FilePath, files: &Vec<GameFile>, marks: &mut Marks) -> (r:
        Self)
        ensures
            marked_mounts(
                r@.mounts,
                game_mounts(files@, game_path@, files@.len() as int),
                old(marks)@,
                final(marks)@,
            ),
            kept(old(marks)@, final(marks)@),
            r@.name == match file_name_of(game_path@) {
                Some(s) => s,
                None => Seq::empty(),
            },
    {
        let name = match game_path.file_name() {
            Some(s) => s,
            None => String::new(),
        };
        let mut index = Index { name, mounts: NameMap::new() };
        let ghost index_name = index@.name;
        let ghost start = marks@;
        let mut i: usize = 0;
        assert(bare_mounts(index@.mounts) =~= game_mounts(files@, game_path@, 0));
        while i < files.len()
            invariant
                i <= files@.len(),
                index@.name == index_name,
                start == old(marks)@,
                kept(start, marks@),
                bare_mounts(index@.mounts) == game_mounts(files@, game_path@, i as int),
                mounts_within(index@.mounts, start.len(), marks@.len()),
                mounts_marked(index@.mounts, marks@),
            decreases files@.len() - i,
        {
            let ghost before = index@.mounts;
            let ghost m = marks@;
            let _ = index.add_game_file(
                &files[i].path,
                game_path,
                files[i].bytes.as_slice(),
                marks,
            );
            proof {
                let f = files@[i as int];
                lemma_marked_kept(before, start.len(), m, marks@);
                if game_file_error(f.path@, game_path@, f.bytes@) is None {
                    let relpath = f.path@.skip(game_path@.len() as int);
                    let c = choose|c: Content|
                        #[trigger] marked_copy(c, game_content(f.bytes@), m, marks@)
                            && index@.mounts == put(
                            before,
                            path_mount_name(relpath),
                            MountView { relpath, archive: c },
                        );
                    let v = MountView { relpath, archive: c };
                    lemma_bare_put(before, path_mount_name(relpath), v);
                    lemma_put_numbers(before, path_mount_name(relpath), v, start.len(), marks@);
                }
            }
            i = i + 1;
        }
        index
    }

    /// Mounts one file of a game install, in place of any of the same mount
    /// name. A file that cannot be mounted changes nothing.
    pub fn add_game_file(
        &mut self,
        path: &FilePath,
        game_path: &FilePath,
        bytes: &[u8],
        marks: &mut Marks,
    ) -> (r: Result<(), OverlayError>)
        ensures
            final(self)@.name == old(self)@.name,
            kept(old(marks)@, final(marks)@),
            match r {
                Ok(_) => {
                    let relpath = path@.skip(game_path@.len() as int);
                    &&& game_file_error(path@, game_path@, bytes@) is None
                    &&& exists|c: Content|
                        #[trigger] marked_copy(
                            c,
                            game_content(bytes@),
                            old(marks)@,
                            final(marks)@,
                        ) && final(self)@.mounts == put(
                            old(self)@.mounts,
                            path_mount_name(relpath),
                            MountView { relpath, archive: c },
                        )
                },
                Err(e) => {
                    &&& game_file_error(path@, game_path@, bytes@) == Some(e)
                    &&& final(self)@.mounts == old(self)@.mounts
                },
            },
    {
        match Mounted::from_game_file(path, game_path, bytes, marks) {
            Ok(m) => {
                let name = m.name();
                self.mounts.insert(name, m);
                Ok(())
            },
            Err(e) => Err(e),
        }
    }

    pub fn find_by_mount_name(&self, name: &str) -> (r: Option<&Mounted>)
        ensures
            match r {
                Some(m) => lookup(self@.mounts, name@) == Some(m@),
                None => lookup(self@.mounts, name@) is None,
            },
    {
        self.mounts.get(name)
    }

    /// The mount that shares most names with `archive`.
    pub fn find_by_overlap(&self, archive: &Archive) -> (r: Option<&Mounted>)
        ensures
            match (r, best_overlap(self@.mounts, archive@, self@.mounts.len() as int)) {
                (Some(m), Some(i)) => 0 <= i < self@.mounts.len() && m@ == self@.mounts[i].1,
                (None, None) => true,
                _ => false,
            },
    {
        let mut best_count: usize = 0;
        let mut best: Option<usize> = None;
        let mut i: usize = 0;
        while i < self.mounts.len()
            invariant
                i <= self@.mounts.len(),
                match (best, best_overlap(self@.mounts, archive@, i as int)) {
                    (Some(b), Some(j)) => b == j && b < i && best_count == overlap_count(
                        self@.mounts[j].1.archive,
                        archive@,
                    ),
                    (None, None) => best_count == 0,
                    _ => false,
                },
            decreases self@.mounts.len() - i,
        {
            let mounted = self.mounts.value(i);
            let common = overlap_keys(&mounted.archive.entries, &archive.entries);
            assert(common_names(mounted@.archive.entries, archive@.entries)
                =~= mounted.archive.entries@.dom().intersect(archive.entries@.dom()));
            if common.len() > best_count {
                best_count = common.len();
                best = Some(i);
            }
            i = i + 1;
        }
        match best {
            Some(b) => Some(self.mounts.value(b)),
            None => None,
        }
    }

    pub fn find_by_mount_name_or_overlap(&self, name: &str, archive: &Archive) -> (r: Option<
        &Mounted,
    >)
        ensures
            match r {
                Some(m) => base_mount(self@.mounts, name@, archive@) == Some(m@),
                None => base_mount(self@.mounts, name@, archive@) is None,
            },
    {
        match self.find_by_mount_name(name) {
            Some(m) => Some(m),
            None => self.find_by_overlap(archive),
        }
    }

    /// Removes the mounts for which `pred` says so.
    pub fn remove_filter<F: Fn(&str, &Mounted) -> bool>(&mut self, pred: F)
        requires
            forall|k: &str, m: &Mounted| call_requires(pred, (k, m)),
        ensures
            final(self)@.name == old(self)@.name,
            exists|removed: Seq<bool>|
                removed.len() == old(self)@.mounts.len() && #[trigger] decides(
                    pred,
                    old(self)@.mounts,
                    removed,
                ) && final(self)@.mounts == without(old(self)@.mounts, removed),
    {
        let ghost all = self@.mounts;
        let ghost mut removed: Seq<bool> = Seq::empty();
        let n: usize = self.mounts.len();
        let mut i: usize = 0;
        let mut at: usize = 0;
        assert(without(all.take(0), removed) + all.skip(0) =~= all);
        while i < n
            invariant
                at <= i <= n,
                n == all.len(),
                self@.name == old(self)@.name,
                forall|k: &str, m: &Mounted| call_requires(pred, (k, m)),
                removed.len() == i,
                decides(pred, all.take(i as int), removed),
                without(all.take(i as int), removed).len() == at,
                self@.mounts == without(all.take(i as int), removed) + all.skip(i as int),
            decreases n - i,
        {
            assert(self@.mounts[at as int] == all[i as int]);
            let key: &str = self.mounts.key(at).as_str();
            let value: &Mounted = self.mounts.value(at);
            let gone = pred(key, value);
            let ghost kept = without(all.take(i as int), removed);
            proof {
                assert(all.take(i + 1).drop_last() =~= all.take(i as int));
                assert(removed.push(gone).drop_last() =~= removed);
                let before = removed;
                removed = removed.push(gone);
                assert(decides(pred, all.take(i + 1), removed)) by {
                    let now = all.take(i + 1);
                    assert forall|j: int| 0 <= j < now.len() implies #[trigger] can_say(
                        pred,
                        now[j].0,
                        now[j].1,
                        removed[j],
                    ) by {
                        if j < i {
                            let done = all.take(i as int);
                            assert(can_say(pred, done[j].0, done[j].1, before[j]));
                            assert(done[j] == now[j] && before[j] == removed[j]);
                        } else {
                            assert(call_ensures(pred, (key, value), gone));
                        }
                    }
                }
            }
            if gone {
                self.mounts.remove_at(at);
                assert(self@.mounts =~= kept + all.skip(i + 1));
            } else {
                assert(kept.push(all[i as int]) + all.skip(i + 1) =~= kept + all.skip(i as int));
                at = at + 1;
            }
            i = i + 1;
        }
        proof {
            assert(all.take(n as int) =~= all);
            assert(without(all, removed) + all.skip(n as int) =~= without(all, removed));
        }
    }

    /// Merges a mod into this overlay, which mirrors the parts of the game that
    /// mods change. Each mount of the mod goes into the copy of its base, found
    /// by name or else by overlap, and what it shares with other game mounts
    /// goes into copies of those. A mount without a base ends the merging.
    pub fn add_overlay_mod(&mut self, game: &Index, mod_idx: &Index) -> (r: Result<
        (),
        OverlayError,
    >)
        ensures
            final(self)@.name == old(self)@.name,
            match with_mod_mounts(
                old(self)@.mounts,
                game@.mounts,
                mod_idx@.mounts,
                mod_idx@.mounts.len() as int,
            ) {
                Ok(mounts) => r is Ok && final(self)@.mounts == mounts,
                Err(k) => {
                    &&& r == Err::<(), OverlayError>(OverlayError::NoBase { mount: k as usize })
                    &&& with_mod_mounts(old(self)@.mounts, game@.mounts, mod_idx@.mounts, k)
                        == Ok::<Named<MountView>, int>(final(self)@.mounts)
                },
            },
    {
        let mut k: usize = 0;
        while k < mod_idx.mounts.len()
            invariant
                k <= mod_idx@.mounts.len(),
                self@.name == old(self)@.name,
                with_mod_mounts(old(self)@.mounts, game@.mounts, mod_idx@.mounts, k as int) == Ok::<
                    Named<MountView>,
                    int,
                >(self@.mounts),
            decreases mod_idx@.mounts.len() - k,
        {
            let mod_mounted = mod_idx.mounts.value(k);
            let base = match game.find_by_mount_name_or_overlap(
                mod_idx.mounts.key(k).as_str(),
                &mod_mounted.archive,
            ) {
                Some(b) => b,
                None => {
                    proof {
                        lemma_no_base_later(
                            old(self)@.mounts,
                            game@.mounts,
                            mod_idx@.mounts,
                            k + 1,
                            mod_idx@.mounts.len() as int,
                        );
                    }
                    return Err(OverlayError::NoBase { mount: k });
                },
            };
            let base_name = base.name();
            self.merge_mount(text(base_name.as_str()), base, &mod_mounted.archive);
            let ghost first = self@.mounts;
            let mut g: usize = 0;
            while g < game.mounts.len()
                invariant
                    g <= game@.mounts.len(),
                    self@.name == old(self)@.name,
                    self@.mounts == merge_into_others(
                        first,
                        game@.mounts,
                        base_name@,
                        mod_mounted@.archive,
                        g as int,
                    ),
                decreases game@.mounts.len() - g,
            {
                if !same_text(game.mounts.key(g).as_str(), base_name.as_str()) {
                    let extra = game.mounts.value(g);
                    let overlap = extra.archive.overlapping(&mod_mounted.archive);
                    let ghost common = common_names(
                        extra@.archive.entries,
                        mod_mounted@.archive.entries,
                    );
                    assert(overlap@.entries.dom() =~= common);
                    assert(overlap.entries@.dom() =~= overlap@.entries.dom());
                    assert(overlap.entries@.is_empty() <==> common.is_empty()) by {
                        if overlap.entries@.is_empty() {
                            assert(overlap.entries@.dom() =~= Set::empty());
                        }
                        if common.is_empty() {
                            assert(overlap.entries@ =~= Map::empty());
                        }
                    }
                    if !overlap.entries.is_empty() {
                        self.merge_mount(text(game.mounts.key(g).as_str()), extra, &overlap);
                    }
                }
                g = g + 1;
            }
            k = k + 1;
        }
        Ok(())
    }

    fn merge_mount(&mut self, name: String, base: &Mounted, archive: &Archive)
        ensures
            final(self)@.name == old(self)@.name,
            final(self)@.mounts == merge_into(
                old(self)@.mounts,
                name@,
                base@,
                archive@.entries,
            ),
    {
        let mut combined = match self.mounts.get(name.as_str()) {
            Some(m) => m.clone(),
            None => base.clone(),
        };
        combined.archive.merge_in(archive);
        self.mounts.insert(name, combined);
    }

    /// Reconciles every mount with every mount of `other`, in order, up to the
    /// first conflict.
    pub fn resolve_conflicts_with(&mut self, other: &Index, ignore: bool) -> (r: Result<
        (),
        OverlayError,
    >)
        ensures
            final(self)@.name == old(self)@.name,
            ({
                let (mounts, failed) = reconcile_all(
                    old(self)@.mounts,
                    other@.mounts,
                    ignore,
                    old(self)@.mounts.len() as int,
                );
                &&& final(self)@.mounts == mounts
                &&& conflict_result(r, failed)
            }),
    {
        let ghost all = self@.mounts;
        let n: usize = self.mounts.len();
        let mut i: usize = 0;
        while i < n
            invariant
                i <= n,
                n == all.len(),
                self@.name == old(self)@.name,
                self@.mounts.len() == n,
                all == old(self)@.mounts,
                reconcile_all(all, other@.mounts, ignore, i as int) == (
                    self@.mounts,
                    None::<nat>,
                ),
            decreases n - i,
        {
            let mut m = self.mounts.value(i).clone();
            let result = reconcile_one(&mut m, &other.mounts, other.mounts.len(), ignore);
            self.mounts.set_value(i, m);
            if result.is_err() {
                proof {
                    lemma_reconcile_all_failed(all, other@.mounts, ignore, i + 1, n as int);
                }
                return result;
            }
            i = i + 1;
        }
        Ok(())
    }

    /// Reconciles the mounts with each other, in order, up to the first
    /// conflict.
    pub fn resolve_conflicts_within(&mut self, ignore: bool) -> (r: Result<(), OverlayError>)
        ensures
            final(self)@.name == old(self)@.name,
            ({
                let (mounts, failed) = reconcile_within(
                    old(self)@.mounts,
                    ignore,
                    old(self)@.mounts.len() as int,
                );
                &&& final(self)@.mounts == mounts
                &&& conflict_result(r, failed)
            }),
    {
        let ghost all = self@.mounts;
        let n: usize = self.mounts.len();
        let mut i: usize = 0;
        while i < n
            invariant
                i <= n,
                n == all.len(),
                self@.name == old(self)@.name,
                self@.mounts.len() == n,
                all == old(self)@.mounts,
                reconcile_within(all, ignore, i as int) == (self@.mounts, None::<nat>),
            decreases n - i,
        {
            let ghost before = self@.mounts;
            let ghost others = before.remove(i as int);
            let mut m = self.mounts.value(i).clone();
            let ghost start = m@;
            let mut result: Result<(), OverlayError> = Ok(());
            let mut j: usize = 0;
            let ghost mut done: int = 0;
            while j < n && result.is_ok()
                invariant
                    i < n,
                    j <= n,
                    self@.mounts == before,
                    before.len() == n,
                    others == before.remove(i as int),
                    done == if j <= i {
                        j as int
                    } else {
                        j - 1
                    },
                    reconcile_with(start, others, ignore, done).0 == m@,
                    conflict_result(result, reconcile_with(start, others, ignore, done).1),
                decreases n - j,
            {
                if j != i {
                    assert(others[done] == before[j as int]);
                    result = m.resolve_conflicts(self.mounts.value(j), ignore);
                    proof {
                        done = done + 1;
                    }
                }
                j = j + 1;
            }
            if result.is_err() {
                proof {
                    lemma_reconcile_with_failed(
                        start,
                        others,
                        ignore,
                        done,
                        others.len() as int,
                    );
                    lemma_reconcile_within_failed(all, ignore, i + 1, n as int);
                }
                self.mounts.remove_at(i);
                return result;
            }
            self.mounts.set_value(i, m);
            i = i + 1;
        }
        Ok(())
    }

    /// Which of the given files of an overlay directory, by position, are
    /// archives that are no longer among the mounts.
    pub fn cleanup_in_directory(&self, filenames: &Vec<String>) -> (r: Vec<usize>)
        ensures
            forall|i: int, j: int| 0 <= i < j < r@.len() ==> r@[i] < r@[j],
            forall|i: int| 0 <= i < filenames@.len() ==> (r@.contains(i as usize) <==> is_leftover(
                self@.mounts,
                #[trigger] filenames@[i]@,
            )),
            forall|k: int| 0 <= k < r@.len() ==> #[trigger] r@[k] < filenames@.len(),
    {
        let mut out: Vec<usize> = Vec::new();
        let mut i: usize = 0;
        while i < filenames.len()
            invariant
                i <= filenames@.len(),
                forall|a: int, b: int| 0 <= a < b < out@.len() ==> out@[a] < out@[b],
                forall|k: int| 0 <= k < out@.len() ==> #[trigger] out@[k] < i,
                forall|j: int|
                    0 <= j < i ==> (out@.contains(j as usize) <==> is_leftover(
                        self@.mounts,
                        #[trigger] filenames@[j]@,
                    )),
            decreases filenames@.len() - i,
        {
            let ghost before = out@;
            if self.is_stale(filenames[i].as_str()) {
                out.push(i);
                proof {
                    assert(out@[before.len() as int] == i);
                    assert forall|j: int| 0 <= j < i implies (out@.contains(j as usize)
                        <==> is_leftover(self@.mounts, #[trigger] filenames@[j]@)) by {
                        if out@.contains(j as usize) {
                            let a = choose|a: int| 0 <= a < out@.len() && out@[a] == j as usize;
                            assert(before[a] == j as usize);
                        }
                        if before.contains(j as usize) {
                            let a = choose|a: int| 0 <= a < before.len() && before[a] == j as usize;
                            assert(out@[a] == j as usize);
                        }
                    }
                }
            }
            i = i + 1;
        }
        out
    }

    /// Whether a file of an overlay directory is an archive that is no longer
    /// among the mounts.
    pub fn is_stale(&self, filename: &str) -> (r: bool)
        ensures
            r == is_leftover(self@.mounts, filename@),
    {
        if !ends_with(filename, ".wad.client") {
            return false;
        }
        let name = Mounted::make_name(filename);
        !self.mounts.contains(name.as_str())
    }
}

fn reconcile_one(m: &mut Mounted, others: &NameMap<Mounted>, n: usize, ignore: bool) -> (r: Result<
    (),
    OverlayError,
>)
    requires
        n == others@.len(),
    ensures
        final(m)@ == reconcile_with(old(m)@, others@, ignore, n as int).0,
        conflict_result(r, reconcile_with(old(m)@, others@, ignore, n as int).1),
{
    let ghost start = m@;
    let mut j: usize = 0;
    while j < n
        invariant
            j <= n,
            n == others@.len(),
            start == old(m)@,
            reconcile_with(start, others@, ignore, j as int) == (m@, None::<nat>),
        decreases n - j,
    {
        let result = m.resolve_conflicts(others.value(j), ignore);
        if result.is_err() {
            proof {
                lemma_reconcile_with_failed(start, others@, ignore, j + 1, n as int);
            }
            return result;
        }
        j = j + 1;
    }
    Ok(())
}

/// Whether `pred` can have said `gone` of a mount.
pub open spec fn can_say<F: Fn(&str, &Mounted) -> bool>(
    pred: F,
    name: Seq<char>,
    mount: MountView,
    gone: bool,
) -> bool {
    exists|k: &str, m: &Mounted|
        k@ == name && m@ == mount && #[trigger] call_ensures(pred, (k, m), gone)
}

/// Whether `pred` can have decided on each mount as `removed` says.
pub open spec fn decides<F: Fn(&str, &Mounted) -> bool>(
    pred: F,
    mounts: Named<MountView>,
    removed: Seq<bool>,
) -> bool {
    forall|i: int|
        0 <= i < mounts.len() ==> #[trigger] can_say(pred, mounts[i].0, mounts[i].1, removed[i])
}

/// The mounts that are not removed.
pub open spec fn without(mounts: Named<MountView>, removed: Seq<bool>) -> Named<MountView>
    decreases mounts.len(),
{
    if mounts.len() == 0 {
        Seq::empty()
    } else {
        let before = without(mounts.drop_last(), removed.drop_last());
        if removed.last() {
            before
        } else {
            before.push(mounts.last())
        }
    }
}

} // verus!
