//! Building an overlay from mods and the game.

use super::game_paths::{relative_to, GamePathIndex};
use super::hash::{lower_hash, xxh64_lower};
use super::wad::archive::{numbers_within, Archive, Content};
use super::wad::entry::EntryData;
use super::wad::fantome::fantome_file_mounts;
use super::wad::index::{
    game_mounts, lemma_marked_kept, marked_mounts, mounts_within, reconcile_all, reconcile_within,
    unmarked_mounts, with_mod_mounts, GameFile, Index,
};
use super::wad::marks::{kept, Marks};
use super::wad::mounted::{MountView, Mounted, OverlayError};
use crate::names::{in_order, name_less, NameMap, Named};
use crate::paths::{path_text, with_extension_of, FilePath, PathView};
use crate::text::{copy_bytes, same_text};
use std::collections::HashSet;
use vstd::prelude::*;
use vstd::utf8::encode_utf8;

verus! {

/// How an overlay is built.
#[derive(Debug, Clone, Copy, PartialEq, Eq, Structural)]
pub struct BuildOverlayOptions {
    /// Leaves the maps of Teamfight Tactics out, so that no mod is taken to
    /// belong to them.
    pub no_tft: bool,
    /// Where two mods change one file, the later wins instead of failing.
    pub ignore_conflict: bool,
}

impl Default for BuildOverlayOptions {
    fn default() -> (r: Self)
        ensures
            r == (BuildOverlayOptions { no_tft: false, ignore_conflict: false }),
    {
        BuildOverlayOptions { no_tft: false, ignore_conflict: false }
    }
}

/// The name of the entry that holds the subchunk table of the archive at
/// `relpath`: the archive's path with another extension.
pub open spec fn subchunk_toc_hash(relpath: PathView) -> u64 {
    lower_hash(encode_utf8(path_text(with_extension_of(relpath, "SubChunkTOC"@))))
}

pub fn subchunk_toc_name(relpath: &FilePath) -> (r: u64)
    ensures
        r == subchunk_toc_hash(relpath@),
{
    let path = relpath.with_extension("SubChunkTOC").to_text();
    xxh64_lower(path.as_str())
}

/// The names of the subchunk tables of the archives at the given paths. A mod
/// that replaces one breaks streaming, so mods lose such entries.
pub open spec fn blocked_names(paths: Seq<PathView>) -> Set<u64> {
    Set::new(
        |n: u64|
            exists|i: int|
                0 <= i < paths.len() && #[trigger] subchunk_toc_hash(paths[i]) == n,
    )
}

/// The paths of mounts.
pub open spec fn mount_paths(mounts: Named<MountView>) -> Seq<PathView> {
    mounts.map_values(|m: (Seq<char>, MountView)| m.1.relpath)
}

/// The paths of the archives of a game install, relative to it.
pub open spec fn game_rel_paths(mounts: Named<PathView>, game_path: PathView) -> Seq<PathView> {
    mounts.map_values(|m: (Seq<char>, PathView)| relative_to(m.1, game_path))
}

/// A mount without the blocked entries.
pub open spec fn without_blocked(m: MountView, blocked: Set<u64>) -> MountView {
    MountView {
        relpath: m.relpath,
        archive: Content {
            entries: m.archive.entries.remove_keys(blocked),
            signature: m.archive.signature,
        },
    }
}

/// The first `n` mounts without the blocked entries, and without those mounts
/// of which nothing is left.
pub open spec fn stripped(mounts: Named<MountView>, blocked: Set<u64>, n: int) -> Named<MountView>
    decreases n,
{
    if n <= 0 {
        Seq::empty()
    } else {
        let before = stripped(mounts, blocked, n - 1);
        let m = without_blocked(mounts[n - 1].1, blocked);
        if m.archive.entries.dom().is_empty() {
            before
        } else {
            before.push((mounts[n - 1].0, m))
        }
    }
}

/// The set of names of the subchunk tables of mounts.
pub fn blocklist_of_mounts(mounts: &NameMap<Mounted>) -> (r: HashSet<u64>)
    ensures
        r@ == blocked_names(mount_paths(mounts@)),
{
    let mut blocked: HashSet<u64> = HashSet::new();
    let ghost paths = mount_paths(mounts@);
    let mut i: usize = 0;
    assert(blocked@ =~= blocked_names(paths.take(0)));
    while i < mounts.len()
        invariant
            i <= mounts@.len(),
            paths == mount_paths(mounts@),
            blocked@ == blocked_names(paths.take(i as int)),
        decreases mounts@.len() - i,
    {
        let name: u64 = subchunk_toc_name(&mounts.value(i).relpath);
        blocked.insert(name);
        proof {
            lemma_blocked_next(paths, i as int);
        }
        i = i + 1;
    }
    assert(paths.take(i as int) =~= paths);
    blocked
}

/// The set of names of the subchunk tables of a game install.
pub fn blocklist_of_game(game_paths: &GamePathIndex) -> (r: HashSet<u64>)
    ensures
        r@ == blocked_names(game_rel_paths(game_paths@.mounts, game_paths@.game_path)),
{
    let all = game_paths.iter_rel();
    let mut blocked: HashSet<u64> = HashSet::new();
    let ghost paths = game_rel_paths(game_paths@.mounts, game_paths@.game_path);
    let ghost pairs = all@.map_values(|p: super::game_paths::NamedPath| p@);
    assert(pairs.len() == all@.len());
    assert(paths.len() == pairs.len());
    let mut i: usize = 0;
    assert(blocked@ =~= blocked_names(paths.take(0)));
    while i < all.len()
        invariant
            i <= all@.len(),
            all@.len() == paths.len(),
            paths == game_rel_paths(game_paths@.mounts, game_paths@.game_path),
            pairs == all@.map_values(|p: super::game_paths::NamedPath| p@),
            pairs == Seq::new(
                game_paths@.mounts.len(),
                |i: int|
                    (
                        game_paths@.mounts[i].0,
                        relative_to(game_paths@.mounts[i].1, game_paths@.game_path),
                    ),
            ),
            blocked@ == blocked_names(paths.take(i as int)),
        decreases all@.len() - i,
    {
        assert(pairs[i as int] == all@[i as int]@);
        assert(pairs[i as int].1 == paths[i as int]);
        let name: u64 = subchunk_toc_name(&all[i].path);
        blocked.insert(name);
        proof {
            lemma_blocked_next(paths, i as int);
        }
        i = i + 1;
    }
    assert(paths.take(i as int) =~= paths);
    blocked
}

proof fn lemma_blocked_next(paths: Seq<PathView>, i: int)
    requires
        0 <= i < paths.len(),
    ensures
        blocked_names(paths.take(i + 1)) == blocked_names(paths.take(i)).insert(
            subchunk_toc_hash(paths[i]),
        ),
{
    let now = paths.take(i + 1);
    let done = paths.take(i);
    assert forall|n: u64| blocked_names(now).contains(n) <==> #[trigger] blocked_names(done).insert(
        subchunk_toc_hash(paths[i]),
    ).contains(n) by {
        if blocked_names(now).contains(n) {
            let j = choose|j: int|
                0 <= j < now.len() && #[trigger] subchunk_toc_hash(now[j]) == n;
            if j < i {
                assert(subchunk_toc_hash(done[j]) == n);
            }
        }
        if blocked_names(done).contains(n) {
            let j = choose|j: int|
                0 <= j < done.len() && #[trigger] subchunk_toc_hash(done[j]) == n;
            assert(subchunk_toc_hash(now[j]) == n);
        }
        assert(subchunk_toc_hash(now[i]) == subchunk_toc_hash(paths[i]));
    }
    assert(blocked_names(now) =~= blocked_names(done).insert(subchunk_toc_hash(paths[i])));
}

/// What is left of a mod keeps its order.
proof fn lemma_stripped_order(mounts: Named<MountView>, blocked: Set<u64>, n: int)
    requires
        in_order(mounts),
        0 <= n <= mounts.len(),
    ensures
        in_order(stripped(mounts, blocked, n)),
        forall|i: int|
            0 <= i < stripped(mounts, blocked, n).len() ==> exists|k: int|
                0 <= k < n && #[trigger] mounts[k].0 == (#[trigger] stripped(
                    mounts,
                    blocked,
                    n,
                )[i]).0,
    decreases n,
{
    if n > 0 {
        lemma_stripped_order(mounts, blocked, n - 1);
        let before = stripped(mounts, blocked, n - 1);
        let after = stripped(mounts, blocked, n);
        assert forall|i: int| 0 <= i < after.len() implies exists|k: int|
            0 <= k < n && #[trigger] mounts[k].0 == (#[trigger] after[i]).0 by {
            if i < before.len() {
                assert(after[i] == before[i]);
                let k = choose|k: int| 0 <= k < n - 1 && #[trigger] mounts[k].0 == before[i].0;
                assert(mounts[k].0 == after[i].0);
            } else {
                assert(mounts[n - 1].0 == after[i].0);
            }
        }
        assert forall|i: int, j: int|
            #![trigger after[i], after[j]]
            0 <= i < j < after.len() implies name_less(after[i].0, after[j].0) by {
            assert(after[i] == before[i]);
            if j < before.len() {
                assert(after[j] == before[j]);
            } else {
                let k = choose|k: int| 0 <= k < n - 1 && #[trigger] mounts[k].0 == before[i].0;
                assert(name_less(mounts[k].0, mounts[n - 1].0));
            }
        }
    }
}

/// Removes the blocked entries of a mod, and the mounts of which nothing is
/// left.
pub fn strip_blocked(index: &mut Index, blocked: &HashSet<u64>)
    ensures
        final(index)@.name == old(index)@.name,
        final(index)@.mounts == stripped(
            old(index)@.mounts,
            blocked@,
            old(index)@.mounts.len() as int,
        ),
{
    let ghost all = index@.mounts;
    let n: usize = index.mounts.len();
    let mut kept: NameMap<Mounted> = NameMap::new();
    let mut i: usize = 0;
    while i < n
        invariant
            i <= n,
            n == all.len(),
            index@.mounts == all,
            index@.name == old(index)@.name,
            kept@ == stripped(all, blocked@, i as int),
            in_order(all),
        decreases n - i,
    {
        let mut m = index.mounts.value(i).clone();
        let ghost before = m@;
        strip_archive(&mut m.archive, blocked);
        assert(m@ == without_blocked(before, blocked@));
        assert(m.archive.entries@.dom() =~= m@.archive.entries.dom());
        if m.archive.entries.is_empty() {
            assert(m.archive.entries@.dom() =~= Set::empty());
        } else {
            assert(!m@.archive.entries.dom().is_empty()) by {
                if m.archive.entries@.dom().is_empty() {
                    assert(m.archive.entries@ =~= Map::empty());
                }
            }
            proof {
                lemma_stripped_order(all, blocked@, i + 1);
            }
            kept.push(crate::text::text(index.mounts.key(i).as_str()), m);
        }
        i = i + 1;
    }
    index.mounts = kept;
}

fn strip_archive(archive: &mut Archive, blocked: &HashSet<u64>)
    ensures
        final(archive)@.signature == old(archive)@.signature,
        final(archive)@.entries == old(archive)@.entries.remove_keys(blocked@),
{
    let keep = |n: u64, _e: &EntryData| -> (k: bool)
        ensures
            k == !blocked@.contains(n),
        { !blocked.contains(&n) };
    archive.retain(keep);
    assert(archive@.entries =~= old(archive)@.entries.remove_keys(blocked@));
}

/// The first `k` queued mods reconciled with a new one; the number of conflicts
/// where there are any.
pub open spec fn queue_reconciled(
    queue: Seq<Named<MountView>>,
    newer: Named<MountView>,
    ignore: bool,
    k: int,
) -> Result<Seq<Named<MountView>>, nat>
    decreases k,
{
    if k <= 0 {
        Ok(queue)
    } else {
        match queue_reconciled(queue, newer, ignore, k - 1) {
            Err(c) => Err(c),
            Ok(q) => match reconcile_all(q[k - 1], newer, ignore, q[k - 1].len() as int) {
                (m, None) => Ok(q.update(k - 1, m)),
                (_, Some(c)) => Err(c),
            },
        }
    }
}

/// The queue with one more mod: stripped, left out where nothing remains,
/// reconciled within itself, and with the earlier mods reconciled with it.
pub open spec fn queue_with(
    queue: Seq<Named<MountView>>,
    mounts: Named<MountView>,
    blocked: Set<u64>,
    ignore: bool,
) -> Result<Seq<Named<MountView>>, nat> {
    let left = stripped(mounts, blocked, mounts.len() as int);
    if left.len() == 0 {
        Ok(queue)
    } else {
        match reconcile_within(left, ignore, left.len() as int) {
            (_, Some(c)) => Err(c),
            (newer, None) => match queue_reconciled(queue, newer, ignore, queue.len() as int) {
                Err(c) => Err(c),
                Ok(q) => Ok(q.push(newer)),
            },
        }
    }
}

/// The queue of the first `n` mods.
pub open spec fn mod_queue(
    mods: Seq<Named<MountView>>,
    blocked: Set<u64>,
    ignore: bool,
    n: int,
) -> Result<Seq<Named<MountView>>, nat>
    decreases n,
{
    if n <= 0 {
        Ok(Seq::empty())
    } else {
        match mod_queue(mods, blocked, ignore, n - 1) {
            Err(c) => Err(c),
            Ok(queue) => queue_with(queue, mods[n - 1], blocked, ignore),
        }
    }
}

/// The overlay of the first `n` queued mods; the position within its mod of the
/// first mount without a base where there is one.
pub open spec fn queue_overlay(
    queue: Seq<Named<MountView>>,
    game: Named<MountView>,
    n: int,
) -> Result<Named<MountView>, int>
    decreases n,
{
    if n <= 0 {
        Ok(Seq::empty())
    } else {
        match queue_overlay(queue, game, n - 1) {
            Err(k) => Err(k),
            Ok(overlay) => with_mod_mounts(
                overlay,
                game,
                queue[n - 1],
                queue[n - 1].len() as int,
            ),
        }
    }
}

/// The mounts of indices.
pub open spec fn mounts_of(indices: Seq<Index>) -> Seq<Named<MountView>> {
    indices.map_values(|i: Index| i@.mounts)
}

/// A mod: its name and the bytes of its file.
pub struct ModFile {
    pub name: String,
    pub bytes: Vec<u8>,
}

/// The mounts of those of the first `n` mods that can be read.
pub open spec fn readable_mods(mods: Seq<ModFile>, n: int) -> Seq<Named<MountView>>
    decreases n,
{
    if n <= 0 {
        Seq::empty()
    } else {
        let before = readable_mods(mods, n - 1);
        match fantome_file_mounts(mods[n - 1].bytes@) {
            Ok(mounts) => before.push(mounts),
            Err(_) => before,
        }
    }
}

/// Whether each of `a` holds what the one of `expected` at its place does, under
/// numbers that were given out between `before` and `after`, none of them
/// marked.
pub open spec fn unmarked_mods(
    a: Seq<Named<MountView>>,
    expected: Seq<Named<MountView>>,
    before: Seq<bool>,
    after: Seq<bool>,
) -> bool {
    &&& a.len() == expected.len()
    &&& forall|i: int|
        0 <= i < a.len() ==> unmarked_mounts(#[trigger] a[i], expected[i], before, after)
}

/// Reads mods. Those that cannot be read are left out.
pub fn load_mods(mods: &Vec<ModFile>, marks: &mut Marks) -> (r: Vec<Index>)
    ensures
        unmarked_mods(
            mounts_of(r@),
            readable_mods(mods@, mods@.len() as int),
            old(marks)@,
            final(marks)@,
        ),
        kept(old(marks)@, final(marks)@),
{
    let mut out: Vec<Index> = Vec::new();
    let ghost start = marks@;
    let mut i: usize = 0;
    while i < mods.len()
        invariant
            i <= mods@.len(),
            start == old(marks)@,
            kept(start, marks@),
            unmarked_mods(mounts_of(out@), readable_mods(mods@, i as int), start, marks@),
        decreases mods@.len() - i,
    {
        let name = crate::text::text(mods[i].name.as_str());
        let ghost before = mounts_of(out@);
        let ghost expected = readable_mods(mods@, i as int);
        let ghost m = marks@;
        let read = Index::from_fantome(name, copy_bytes(&mods[i].bytes), marks);
        proof {
            assert forall|k: int| 0 <= k < before.len() implies unmarked_mounts(
                #[trigger] before[k],
                expected[k],
                start,
                marks@,
            ) by {
                lemma_marked_kept(before[k], start.len(), m, marks@);
            }
        }
        if let Ok(index) = read {
            let ghost mounts = index@.mounts;
            out.push(index);
            assert(mounts_of(out@) =~= before.push(mounts));
            proof {
                let all = readable_mods(mods@, i + 1);
                assert(all == expected.push(all.last()));
                assert(unmarked_mounts(mounts, all.last(), m, marks@));
                lemma_numbers_from(mounts, m.len(), start.len(), marks@.len());
                assert forall|k: int| 0 <= k < before.len() + 1 implies unmarked_mounts(
                    #[trigger] before.push(mounts)[k],
                    all[k],
                    start,
                    marks@,
                ) by {
                    if k < before.len() {
                        assert(unmarked_mounts(before[k], expected[k], start, marks@));
                    }
                }
            }
        }
        i = i + 1;
    }
    out
}

proof fn lemma_numbers_from(s: Named<MountView>, from: nat, lower: nat, to: nat)
    requires
        mounts_within(s, from, to),
        lower <= from,
    ensures
        mounts_within(s, lower, to),
{
    assert forall|i: int| 0 <= i < s.len() implies numbers_within(
        (#[trigger] s[i]).1.archive.entries,
        lower,
        to,
    ) by {
        assert(numbers_within(s[i].1.archive.entries, from, to));
    }
}

/// What building an overlay gives.
pub open spec fn overlay_result(
    r: Result<Index, OverlayError>,
    game: Named<MountView>,
    mods: Seq<Named<MountView>>,
    ignore: bool,
) -> bool {
    match mod_queue(mods, blocked_names(mount_paths(game)), ignore, mods.len() as int) {
        Err(c) => r == Err::<Index, OverlayError>(OverlayError::Conflicts { count: c as usize }),
        Ok(queue) => match (r, queue_overlay(queue, game, queue.len() as int)) {
            (Ok(index), Ok(overlay)) => index@.mounts == overlay && index@.name == Seq::<
                char,
            >::empty(),
            (Err(e), Err(k)) => e == (OverlayError::NoBase { mount: k as usize }),
            _ => false,
        },
    }
}

proof fn lemma_mod_queue_error(
    mods: Seq<Named<MountView>>,
    blocked: Set<u64>,
    ignore: bool,
    n: int,
    total: int,
)
    requires
        0 <= n <= total,
        mod_queue(mods, blocked, ignore, n) is Err,
    ensures
        mod_queue(mods, blocked, ignore, total) == mod_queue(mods, blocked, ignore, n),
    decreases total - n,
{
    if n < total {
        lemma_mod_queue_error(mods, blocked, ignore, n, total - 1);
    }
}

proof fn lemma_queue_reconciled_error(
    queue: Seq<Named<MountView>>,
    newer: Named<MountView>,
    ignore: bool,
    n: int,
    total: int,
)
    requires
        0 <= n <= total,
        queue_reconciled(queue, newer, ignore, n) is Err,
    ensures
        queue_reconciled(queue, newer, ignore, total) == queue_reconciled(queue, newer, ignore, n),
    decreases total - n,
{
    if n < total {
        lemma_queue_reconciled_error(queue, newer, ignore, n, total - 1);
    }
}

proof fn lemma_queue_overlay_error(
    queue: Seq<Named<MountView>>,
    game: Named<MountView>,
    n: int,
    total: int,
)
    requires
        0 <= n <= total,
        queue_overlay(queue, game, n) is Err,
    ensures
        queue_overlay(queue, game, total) == queue_overlay(queue, game, n),
    decreases total - n,
{
    if n < total {
        lemma_queue_overlay_error(queue, game, n, total - 1);
    }
}

/// Adds a mod to the queue.
pub fn queue_mod(
    queue: &mut Vec<Index>,
    mod_index: Index,
    blocked: &HashSet<u64>,
    ignore_conflict: bool,
) -> (r: Result<(), OverlayError>)
    ensures
        match queue_with(
            mounts_of(old(queue)@),
            mod_index@.mounts,
            blocked@,
            ignore_conflict,
        ) {
            Ok(q) => r is Ok && mounts_of(final(queue)@) == q,
            Err(c) => r == Err::<(), OverlayError>(OverlayError::Conflicts { count: c as usize }),
        },
{
    let ghost start = mounts_of(queue@);
    let ghost left = stripped(mod_index@.mounts, blocked@, mod_index@.mounts.len() as int);
    let mut newer = mod_index;
    strip_blocked(&mut newer, blocked);
    if newer.mounts.len() == 0 {
        return Ok(());
    }
    if let Err(e) = newer.resolve_conflicts_within(ignore_conflict) {
        return Err(e);
    }
    let n: usize = queue.len();
    let mut k: usize = 0;
    while k < n
        invariant
            k <= n,
            n == queue@.len(),
            n == start.len(),
            start == mounts_of(old(queue)@),
            left == stripped(mod_index@.mounts, blocked@, mod_index@.mounts.len() as int),
            left.len() > 0,
            reconcile_within(left, ignore_conflict, left.len() as int) == (
                newer@.mounts,
                None::<nat>,
            ),
            queue_reconciled(start, newer@.mounts, ignore_conflict, k as int) == Ok::<
                Seq<Named<MountView>>,
                nat,
            >(mounts_of(queue@)),
        decreases n - k,
    {
        let ghost before = mounts_of(queue@);
        assert(before[k as int] == queue@[k as int]@.mounts);
        let result = queue[k].resolve_conflicts_with(&newer, ignore_conflict);
        if let Err(e) = result {
            proof {
                lemma_queue_reconciled_error(
                    start,
                    newer@.mounts,
                    ignore_conflict,
                    k + 1,
                    n as int,
                );
            }
            return Err(e);
        }
        assert(mounts_of(queue@) =~= before.update(k as int, queue@[k as int]@.mounts));
        k = k + 1;
    }
    let ghost before = mounts_of(queue@);
    let ghost m = newer@.mounts;
    queue.push(newer);
    assert(mounts_of(queue@) =~= before.push(m));
    Ok(())
}

/// Builds the overlay of mods, given in order, against an index of the game.
pub fn build_overlay_from_index(game_index: &Index, mods: Vec<Index>, ignore_conflict: bool) -> (r:
    Result<Index, OverlayError>)
    ensures
        overlay_result(r, game_index@.mounts, mounts_of(mods@), ignore_conflict),
{
    let blocked = blocklist_of_mounts(&game_index.mounts);
    let ghost all = mounts_of(mods@);
    let ghost total = all.len() as int;
    let mut rest = mods;
    let mut queue: Vec<Index> = Vec::new();
    let ghost mut done: int = 0;
    assert(mounts_of(queue@) =~= Seq::empty());
    assert(all.skip(0) =~= all);
    while rest.len() > 0
        invariant
            0 <= done <= total,
            total == all.len(),
            all == mounts_of(mods@),
            mounts_of(rest@) == all.skip(done),
            blocked@ == blocked_names(mount_paths(game_index@.mounts)),
            mod_queue(all, blocked@, ignore_conflict, done) == Ok::<Seq<Named<MountView>>, nat>(
                mounts_of(queue@),
            ),
        decreases rest@.len(),
    {
        let ghost before = rest@;
        assert(mounts_of(before).len() == before.len());
        let next = rest.remove(0);
        proof {
            assert(mounts_of(before)[0] == next@.mounts);
            assert(all[done] == next@.mounts);
            assert forall|i: int| 0 <= i < rest@.len() implies #[trigger] mounts_of(rest@)[i]
                == all.skip(done + 1)[i] by {
                assert(mounts_of(before)[i + 1] == all.skip(done)[i + 1]);
            }
            assert(mounts_of(rest@) =~= all.skip(done + 1));
        }
        let result = queue_mod(&mut queue, next, &blocked, ignore_conflict);
        if let Err(e) = result {
            proof {
                lemma_mod_queue_error(all, blocked@, ignore_conflict, done + 1, total);
            }
            return Err(e);
        }
        proof {
            done = done + 1;
        }
    }
    assert(done == total) by {
        assert(mounts_of(rest@).len() == 0);
    }
    let mut overlay = Index::default();
    let mut k: usize = 0;
    while k < queue.len()
        invariant
            k <= queue@.len(),
            total == all.len(),
            all == mounts_of(mods@),
            blocked@ == blocked_names(mount_paths(game_index@.mounts)),
            mod_queue(all, blocked@, ignore_conflict, total) == Ok::<Seq<Named<MountView>>, nat>(
                mounts_of(queue@),
            ),
            overlay@.name == Seq::<char>::empty(),
            queue_overlay(mounts_of(queue@), game_index@.mounts, k as int) == Ok::<
                Named<MountView>,
                int,
            >(overlay@.mounts),
        decreases queue@.len() - k,
    {
        let ghost current = queue@[k as int]@.mounts;
        assert(mounts_of(queue@)[k as int] == current);
        if let Err(e) = overlay.add_overlay_mod(game_index, &queue[k]) {
            proof {
                lemma_queue_overlay_error(
                    mounts_of(queue@),
                    game_index@.mounts,
                    k + 1,
                    queue@.len() as int,
                );
            }
            return Err(e);
        }
        k = k + 1;
    }
    Ok(overlay)
}

/// Whether a mount name is that of a map of Teamfight Tactics.
pub open spec fn is_tft_map(name: Seq<char>) -> bool {
    name == "map21"@ || name == "map22"@
}

/// The first `n` mounts but for the maps of Teamfight Tactics.
pub open spec fn without_tft(mounts: Named<MountView>, n: int) -> Named<MountView>
    decreases n,
{
    if n <= 0 {
        Seq::empty()
    } else if is_tft_map(mounts[n - 1].0) {
        without_tft(mounts, n - 1)
    } else {
        without_tft(mounts, n - 1).push(mounts[n - 1])
    }
}

fn is_tft_name(name: &str) -> (r: bool)
    ensures
        r == is_tft_map(name@),
{
    same_text(name, "map21") || same_text(name, "map22")
}

/// Decisions by name alone remove just the maps of Teamfight Tactics.
proof fn lemma_without_tft(mounts: Named<MountView>, removed: Seq<bool>)
    requires
        removed.len() == mounts.len(),
        forall|i: int| 0 <= i < mounts.len() ==> #[trigger] removed[i] == is_tft_map(mounts[i].0),
    ensures
        super::wad::index::without(mounts, removed) == without_tft(mounts, mounts.len() as int),
    decreases mounts.len(),
{
    if mounts.len() > 0 {
        let m = mounts.drop_last();
        let d = removed.drop_last();
        assert forall|i: int| 0 <= i < m.len() implies #[trigger] d[i] == is_tft_map(m[i].0) by {
            assert(d[i] == removed[i]);
        }
        lemma_without_tft(m, d);
        lemma_without_tft_prefix(mounts, m.len() as int);
        assert(removed[mounts.len() - 1] == removed.last());
    }
}

proof fn lemma_without_tft_prefix(mounts: Named<MountView>, n: int)
    requires
        0 <= n < mounts.len(),
    ensures
        without_tft(mounts.drop_last(), n) == without_tft(mounts, n),
    decreases n,
{
    if n > 0 {
        lemma_without_tft_prefix(mounts, n - 1);
    }
}

/// Builds the overlay of mods, given in order, against the files of a game
/// install.
pub fn build_overlay(
    game_path: &FilePath,
    files: &Vec<GameFile>,
    mods: Vec<Index>,
    opts: &BuildOverlayOptions,
    marks: &mut Marks,
) -> (r: Result<Index, OverlayError>)
    ensures
        kept(old(marks)@, final(marks)@),
        exists|game: Named<MountView>|
            #[trigger] marked_mounts(
                game,
                game_mounts(files@, game_path@, files@.len() as int),
                old(marks)@,
                final(marks)@,
            ) && if game.len() == 0 {
                r == Err::<Index, OverlayError>(OverlayError::NoGameFiles)
            } else {
                overlay_result(
                    r,
                    if opts.no_tft {
                        without_tft(game, game.len() as int)
                    } else {
                        game
                    },
                    mounts_of(mods@),
                    opts.ignore_conflict,
                )
            },
{
    let mut game_index = Index::from_game_folder(game_path, files, marks);
    let ghost game = game_index@.mounts;
    if game_index.mounts.len() == 0 {
        return Err(OverlayError::NoGameFiles);
    }
    if opts.no_tft {
        let ghost all = game_index@.mounts;
        let tft = |k: &str, _m: &Mounted| -> (gone: bool)
            ensures
                gone == is_tft_map(k@),
            { is_tft_name(k) };
        game_index.remove_filter(tft);
        proof {
            let removed = choose|removed: Seq<bool>|
                removed.len() == all.len() && #[trigger] super::wad::index::decides(
                    tft,
                    all,
                    removed,
                ) && game_index@.mounts == super::wad::index::without(all, removed);
            assert forall|i: int| 0 <= i < all.len() implies #[trigger] removed[i] == is_tft_map(
                all[i].0,
            ) by {
                assert(super::wad::index::can_say(tft, all[i].0, all[i].1, removed[i]));
            }
            lemma_without_tft(all, removed);
        }
    }
    build_overlay_from_index(&game_index, mods, opts.ignore_conflict)
}

} // verus!
