//! What the overlay of several mods holds.

use super::laws::{law_best_overlap, lemma_merge_into};
use super::pipeline::{blocked_names, mod_queue, mount_paths, overlay_result, queue_overlay};
use super::reconciling::{
    came_from, entry_of, finite_mods, finite_mounts, has_at, has_origin, has_unblocked, holds,
    is_rest_of, last_holder, law_agreeing_mods_queue, law_queue, lemma_last_holder, mods_agree,
    queue_is,
};
use super::wad::archive::{ascending, common_names, Content};
use super::wad::entry::Entry;
use super::wad::index::{
    base_mount, best_overlap, merge_into, merge_into_others, merged, overlap_count, with_mod_mount,
    with_mod_mounts, Index,
};
use super::wad::mounted::{path_mount_name, MountView, OverlayError};
use super::wad::round_trip::{lemma_ascending_exists, lemma_ascending_len};
use crate::names::{
    has_name, in_order, lemma_has_name, lemma_name_less_irreflexive, lemma_slot_of, lookup,
    name_less, Named,
};
use vstd::prelude::*;

verus! {

/// How many names two archives share.
pub open spec fn shared_names(a: Content, b: Content) -> nat {
    a.entries.dom().intersect(b.entries.dom()).len()
}

/// Whether two archives share a name.
pub open spec fn share(a: Content, b: Content, name: u64) -> bool {
    a.entries.contains_key(name) && b.entries.contains_key(name)
}

proof fn lemma_overlap_count(a: Content, b: Content)
    requires
        a.entries.dom().finite(),
    ensures
        overlap_count(a, b) == shared_names(a, b),
        overlap_count(a, b) == 0 <==> forall|name: u64| !#[trigger] share(a, b, name),
{
    let common = common_names(a.entries, b.entries);
    lemma_ascending_exists(common);
    lemma_ascending_len(ascending(common), common);
    if common.len() == 0 {
        assert forall|name: u64| !#[trigger] share(a, b, name) by {
            if share(a, b, name) {
                assert(common.contains(name));
                assert(common =~= Set::empty());
            }
        }
    } else {
        let name = common.choose();
        assert(common.contains(name)) by {
            if forall|x: u64| !common.contains(x) {
                assert(common =~= Set::empty());
            }
        }
        assert(share(a, b, name));
    }
}

/// The game archive that a mod's archive is merged into is the one of its name.
/// Where there is none, it is the first of those that share most names with it,
/// and there is no such where none shares any.
pub proof fn law_base(game: Named<MountView>, name: Seq<char>, archive: Content)
    requires
        in_order(game),
        finite_mounts(game),
    ensures
        forall|g: int|
            0 <= g < game.len() && (#[trigger] game[g]).0 == name ==> base_mount(
                game,
                name,
                archive,
            ) == Some(game[g].1),
        (forall|g: int| 0 <= g < game.len() ==> (#[trigger] game[g]).0 != name) ==> match base_mount(
            game,
            name,
            archive,
        ) {
            Some(m) => exists|g: int| #[trigger]
                is_most_shared(game, archive, g) && m == game[g].1,
            None => forall|g: int, x: u64|
                0 <= g < game.len() ==> !#[trigger] share(game[g].1.archive, archive, x),
        },
        base_mount(game, name, archive) matches Some(m) ==> exists|g: int|
            0 <= g < game.len() && (#[trigger] game[g]).1 == m,
{
    assert forall|g: int| 0 <= g < game.len() && (#[trigger] game[g]).0 == name implies base_mount(
        game,
        name,
        archive,
    ) == Some(game[g].1) by {
        lemma_has_name(game, name, g);
    }
    if has_name(game, name) {
        lemma_slot_of(game, name);
        let g = crate::names::slot(game, name);
        assert(game[g].0 == name);
    } else {
        let n = game.len() as int;
        law_best_overlap(game, archive, n);
        assert forall|g: int| 0 <= g < n implies overlap_count(
            (#[trigger] game[g]).1.archive,
            archive,
        ) == shared_names(game[g].1.archive, archive) && (overlap_count(
            game[g].1.archive,
            archive,
        ) == 0 <==> forall|x: u64| !#[trigger] share(game[g].1.archive, archive, x)) by {
            lemma_overlap_count(game[g].1.archive, archive);
        }
        match best_overlap(game, archive, n) {
            Some(g) => {
                assert(overlap_count(game[g].1.archive, archive) > 0);
                assert(is_most_shared(game, archive, g));
            },
            None => {},
        }
    }
}

/// Whether game archive `g` shares a name with another, none shares more names,
/// and none before it as many.
pub open spec fn is_most_shared(game: Named<MountView>, archive: Content, g: int) -> bool {
    &&& 0 <= g < game.len()
    &&& shared_names(game[g].1.archive, archive) > 0
    &&& forall|x: int|
        0 <= x < game.len() ==> shared_names((#[trigger] game[x]).1.archive, archive)
            <= shared_names(game[g].1.archive, archive)
    &&& forall|x: int|
        0 <= x < g ==> shared_names((#[trigger] game[x]).1.archive, archive) < shared_names(
            game[g].1.archive,
            archive,
        )
}

/// What becomes of one mount of an overlay when a mod's entries are merged into
/// the game archives that share some with it.
proof fn lemma_others(
    overlay: Named<MountView>,
    game: Named<MountView>,
    base_name: Seq<char>,
    archive: Content,
    n: int,
    name: Seq<char>,
)
    requires
        in_order(overlay),
        in_order(game),
        0 <= n <= game.len(),
    ensures
        in_order(merge_into_others(overlay, game, base_name, archive, n)),
        (forall|g: int|
            0 <= g < n && (#[trigger] game[g]).0 == name ==> name == base_name || forall|x: u64|
                !#[trigger] share(game[g].1.archive, archive, x)) ==> lookup(
            merge_into_others(overlay, game, base_name, archive, n),
            name,
        ) == lookup(overlay, name),
        forall|g: int, x: u64|
            0 <= g < n && game[g].0 == name && name != base_name && #[trigger] share(
                game[g].1.archive,
                archive,
                x,
            ) ==> lookup(merge_into_others(overlay, game, base_name, archive, n), name) == Some(
                merged(
                    match lookup(overlay, name) {
                        Some(m) => m,
                        None => game[g].1,
                    },
                    archive.entries.restrict(
                        common_names(game[g].1.archive.entries, archive.entries),
                    ),
                ),
            ),
    decreases n,
{
    if n > 0 {
        lemma_others(overlay, game, base_name, archive, n - 1, name);
        let before = merge_into_others(overlay, game, base_name, archive, n - 1);
        let after = merge_into_others(overlay, game, base_name, archive, n);
        let (last, mount) = game[n - 1];
        let common = common_names(mount.archive.entries, archive.entries);
        let part = archive.entries.restrict(common);
        lemma_merge_into(before, last, mount, part, name);
        assert(common.is_empty() <==> forall|x: u64| !#[trigger] share(mount.archive, archive, x))
            by {
            if common.is_empty() {
                assert forall|x: u64| !#[trigger] share(mount.archive, archive, x) by {
                    assert(!common.contains(x));
                }
            }
            if forall|x: u64| !#[trigger] share(mount.archive, archive, x) {
                assert forall|x: u64| !common.contains(x) by {
                    assert(!share(mount.archive, archive, x));
                }
                assert(common =~= Set::empty());
            }
        }
        assert forall|g: int| 0 <= g < n - 1 && last == name implies (#[trigger] game[g]).0
            != name by {
            lemma_name_less_irreflexive(name);
            assert(name_less(game[g].0, game[n - 1].0));
        }
        if forall|g: int|
            0 <= g < n && (#[trigger] game[g]).0 == name ==> name == base_name || forall|x: u64|
                !#[trigger] share(game[g].1.archive, archive, x) {
            if last == name {
                assert(game[n - 1].0 == name);
            }
        }
        assert forall|g: int, x: u64|
            0 <= g < n && game[g].0 == name && name != base_name && #[trigger] share(
                game[g].1.archive,
                archive,
                x,
            ) implies lookup(after, name) == Some(
            merged(
                match lookup(overlay, name) {
                    Some(m) => m,
                    None => game[g].1,
                },
                archive.entries.restrict(common_names(game[g].1.archive.entries, archive.entries)),
            ),
        ) by {
            if g < n - 1 {
                assert(game[g].0 == name);
                assert(last != name);
            }
        }
    }
}

/// What becomes of one mount of an overlay when one mount of a mod is added.
proof fn lemma_mod_mount(
    overlay: Named<MountView>,
    game: Named<MountView>,
    mod_name: Seq<char>,
    archive: Content,
    name: Seq<char>,
)
    requires
        in_order(overlay),
        in_order(game),
        with_mod_mount(overlay, game, mod_name, archive) is Some,
    ensures
        ({
            let base = base_mount(game, mod_name, archive)->0;
            let base_name = path_mount_name(base.relpath);
            let after = with_mod_mount(overlay, game, mod_name, archive)->0;
            &&& base_mount(game, mod_name, archive) is Some
            &&& in_order(after)
            &&& name == base_name ==> lookup(after, name) == Some(
                merged(
                    match lookup(overlay, name) {
                        Some(m) => m,
                        None => base,
                    },
                    archive.entries,
                ),
            )
            &&& name != base_name && (forall|g: int|
                0 <= g < game.len() && (#[trigger] game[g]).0 == name ==> forall|x: u64|
                    !#[trigger] share(game[g].1.archive, archive, x)) ==> lookup(after, name)
                == lookup(overlay, name)
            &&& forall|g: int, x: u64|
                0 <= g < game.len() && game[g].0 == name && name != base_name && #[trigger] share(
                    game[g].1.archive,
                    archive,
                    x,
                ) ==> lookup(after, name) == Some(
                    merged(
                        match lookup(overlay, name) {
                            Some(m) => m,
                            None => game[g].1,
                        },
                        archive.entries.restrict(
                            common_names(game[g].1.archive.entries, archive.entries),
                        ),
                    ),
                )
        }),
{
    let base = base_mount(game, mod_name, archive)->0;
    let base_name = path_mount_name(base.relpath);
    let first = merge_into(overlay, base_name, base, archive.entries);
    lemma_merge_into(overlay, base_name, base, archive.entries, name);
    lemma_others(first, game, base_name, archive, game.len() as int, name);
}

/// Whether the mount `name` of an overlay has an entry.
pub open spec fn overlay_has(overlay: Named<MountView>, name: Seq<char>, entry: u64) -> bool {
    lookup(overlay, name) is Some && lookup(overlay, name)->0.archive.entries.contains_key(entry)
}

/// The entry in the mount `name` of an overlay.
pub open spec fn overlay_entry(overlay: Named<MountView>, name: Seq<char>, entry: u64) -> Entry {
    lookup(overlay, name)->0.archive.entries[entry]
}

/// Whether every mount and entry of `before` is in `after`, in the same place and
/// with the same signature, and an entry that differs is the mod's.
pub open spec fn only_adds(
    before: Named<MountView>,
    after: Named<MountView>,
    mods: Named<MountView>,
    n: int,
) -> bool {
    &&& forall|name: Seq<char>| #[trigger]
        lookup(before, name) is Some ==> {
            &&& lookup(after, name) is Some
            &&& lookup(after, name)->0.relpath == lookup(before, name)->0.relpath
            &&& lookup(after, name)->0.archive.signature == lookup(
                before,
                name,
            )->0.archive.signature
        }
    &&& forall|name: Seq<char>, entry: u64| #[trigger]
        overlay_has(before, name, entry) ==> overlay_has(after, name, entry) && (overlay_entry(
            after,
            name,
            entry,
        ) == overlay_entry(before, name, entry) || exists|i: int|
            i < n && #[trigger] has_at(mods, i, entry) && entry_of(mods, i, entry)
                == overlay_entry(after, name, entry))
}

/// Adding a mod to an overlay removes no mount and no entry: what was there
/// stays, but for entries that the mod has too, which may be the mod's then.
pub proof fn law_adding_removes_nothing(
    overlay: Named<MountView>,
    game: Named<MountView>,
    mods: Named<MountView>,
    n: int,
)
    requires
        in_order(overlay),
        in_order(game),
        0 <= n <= mods.len(),
        with_mod_mounts(overlay, game, mods, n) is Ok,
    ensures
        in_order(with_mod_mounts(overlay, game, mods, n)->Ok_0),
        only_adds(overlay, with_mod_mounts(overlay, game, mods, n)->Ok_0, mods, n),
    decreases n,
{
    if n > 0 {
        law_adding_removes_nothing(overlay, game, mods, n - 1);
        let before = with_mod_mounts(overlay, game, mods, n - 1)->Ok_0;
        let after = with_mod_mounts(overlay, game, mods, n)->Ok_0;
        let archive = mods[n - 1].1.archive;
        lemma_one_only_adds(before, game, mods[n - 1].0, archive);
        assert(with_mod_mount(before, game, mods[n - 1].0, archive) == Some(after));
        assert forall|name: Seq<char>| #[trigger] lookup(overlay, name) is Some implies {
            &&& lookup(after, name) is Some
            &&& lookup(after, name)->0.relpath == lookup(overlay, name)->0.relpath
            &&& lookup(after, name)->0.archive.signature == lookup(
                overlay,
                name,
            )->0.archive.signature
        } by {
            assert(lookup(before, name) is Some);
        }
        assert forall|name: Seq<char>, entry: u64| #[trigger]
            overlay_has(overlay, name, entry) implies overlay_has(after, name, entry) && (
        overlay_entry(after, name, entry) == overlay_entry(overlay, name, entry) || exists|i: int|
            i < n && #[trigger] has_at(mods, i, entry) && entry_of(mods, i, entry)
                == overlay_entry(after, name, entry)) by {
            assert(overlay_has(before, name, entry));
            if overlay_entry(after, name, entry) != overlay_entry(before, name, entry) {
                assert(has_at(mods, n - 1, entry));
            } else if overlay_entry(before, name, entry) != overlay_entry(overlay, name, entry) {
                let i = choose|i: int|
                    i < n - 1 && #[trigger] has_at(mods, i, entry) && entry_of(mods, i, entry)
                        == overlay_entry(before, name, entry);
                assert(has_at(mods, i, entry));
            }
        }
    }
}

proof fn lemma_one_only_adds(
    overlay: Named<MountView>,
    game: Named<MountView>,
    mod_name: Seq<char>,
    archive: Content,
)
    requires
        in_order(overlay),
        in_order(game),
        with_mod_mount(overlay, game, mod_name, archive) is Some,
    ensures
        ({
            let after = with_mod_mount(overlay, game, mod_name, archive)->0;
            &&& in_order(after)
            &&& forall|name: Seq<char>| #[trigger]
                lookup(overlay, name) is Some ==> {
                    &&& lookup(after, name) is Some
                    &&& lookup(after, name)->0.relpath == lookup(overlay, name)->0.relpath
                    &&& lookup(after, name)->0.archive.signature == lookup(
                        overlay,
                        name,
                    )->0.archive.signature
                }
            &&& forall|name: Seq<char>, entry: u64| #[trigger]
                overlay_has(overlay, name, entry) ==> overlay_has(after, name, entry) && (
                overlay_entry(after, name, entry) == overlay_entry(overlay, name, entry) || (
                archive.entries.contains_key(entry) && overlay_entry(after, name, entry)
                    == archive.entries[entry]))
        }),
{
    let after = with_mod_mount(overlay, game, mod_name, archive)->0;
    lemma_mod_mount(overlay, game, mod_name, archive, mod_name);
    assert forall|name: Seq<char>| #[trigger] lookup(overlay, name) is Some implies {
        &&& lookup(after, name) is Some
        &&& lookup(after, name)->0.relpath == lookup(overlay, name)->0.relpath
        &&& lookup(after, name)->0.archive.signature == lookup(overlay, name)->0.archive.signature
        &&& forall|entry: u64| #[trigger]
            overlay_has(overlay, name, entry) ==> overlay_has(after, name, entry) && (overlay_entry(
                after,
                name,
                entry,
            ) == overlay_entry(overlay, name, entry) || (archive.entries.contains_key(entry)
                && overlay_entry(after, name, entry) == archive.entries[entry]))
    } by {
        lemma_mod_mount(overlay, game, mod_name, archive, name);
        let base_name = path_mount_name(base_mount(game, mod_name, archive)->0.relpath);
        if name != base_name {
            if exists|g: int, x: u64|
                0 <= g < game.len() && game[g].0 == name && #[trigger] share(
                    game[g].1.archive,
                    archive,
                    x,
                ) {
                let (g, x) = choose|g: int, x: u64|
                    0 <= g < game.len() && game[g].0 == name && #[trigger] share(
                        game[g].1.archive,
                        archive,
                        x,
                    );
                assert(lookup(after, name) is Some);
            } else {
                assert(lookup(after, name) == lookup(overlay, name));
            }
        }
    }
}

/// Whether the mounts have one entry for every name.
spec fn uniform(mounts: Named<MountView>) -> bool {
    forall|name: u64, i: int, j: int|
        #![trigger has_at(mounts, i, name), has_at(mounts, j, name)]
        has_at(mounts, i, name) && has_at(mounts, j, name) ==> entry_of(mounts, i, name)
            == entry_of(mounts, j, name)
}

/// Whether the mounts of mods have all been added to the overlay: each is in the
/// place of its base, and in that of every game archive that shares entries.
spec fn covered(
    overlay: Named<MountView>,
    game: Named<MountView>,
    added: Named<MountView>,
) -> bool {
    &&& in_order(overlay)
    &&& forall|d: int|
        0 <= d < added.len() ==> {
            let base = base_mount(game, (#[trigger] added[d]).0, added[d].1.archive);
            &&& base is Some
            &&& lookup(overlay, path_mount_name(base->0.relpath)) is Some
        }
    &&& forall|d: int, name: u64| #[trigger]
        has_at(added, d, name) ==> {
            let base = base_mount(game, added[d].0, added[d].1.archive)->0;
            let base_name = path_mount_name(base.relpath);
            &&& overlay_has(overlay, base_name, name)
            &&& overlay_entry(overlay, base_name, name) == entry_of(added, d, name)
        }
    &&& forall|d: int, g: int, name: u64|
        #![trigger has_at(added, d, name), has_at(game, g, name)]
        has_at(added, d, name) && has_at(game, g, name) ==> overlay_has(overlay, game[g].0, name)
            && overlay_entry(overlay, game[g].0, name) == entry_of(added, d, name)
}

proof fn lemma_covered_step(
    overlay: Named<MountView>,
    game: Named<MountView>,
    added: Named<MountView>,
    m: (Seq<char>, MountView),
)
    requires
        in_order(game),
        covered(overlay, game, added),
        uniform(added.push(m)),
        with_mod_mount(overlay, game, m.0, m.1.archive) is Some,
    ensures
        covered(with_mod_mount(overlay, game, m.0, m.1.archive)->0, game, added.push(m)),
{
    let all = added.push(m);
    let last = added.len() as int;
    let archive = m.1.archive;
    let after = with_mod_mount(overlay, game, m.0, archive)->0;
    let base = base_mount(game, m.0, archive)->0;
    let base_name = path_mount_name(base.relpath);
    lemma_mod_mount(overlay, game, m.0, archive, base_name);
    lemma_one_only_adds(overlay, game, m.0, archive);
    assert(all[last] == m);
    assert forall|d: int, name: u64| #[trigger] has_at(all, d, name) && d < last implies has_at(
        added,
        d,
        name,
    ) && entry_of(all, d, name) == entry_of(added, d, name) && (archive.entries.contains_key(name)
        ==> archive.entries[name] == entry_of(added, d, name)) by {
        assert(all[d] == added[d]);
        if archive.entries.contains_key(name) {
            assert(has_at(all, last, name));
        }
    }
    assert forall|d: int| 0 <= d < all.len() implies {
        let b = base_mount(game, (#[trigger] all[d]).0, all[d].1.archive);
        &&& b is Some
        &&& lookup(after, path_mount_name(b->0.relpath)) is Some
    } by {
        if d < last {
            assert(all[d] == added[d]);
        }
    }
    assert forall|d: int, name: u64| #[trigger] has_at(all, d, name) implies {
        let b = base_mount(game, all[d].0, all[d].1.archive)->0;
        &&& overlay_has(after, path_mount_name(b.relpath), name)
        &&& overlay_entry(after, path_mount_name(b.relpath), name) == entry_of(all, d, name)
    } by {
        if d < last {
            let b = base_mount(game, added[d].0, added[d].1.archive)->0;
            assert(all[d] == added[d]);
            assert(overlay_has(overlay, path_mount_name(b.relpath), name));
        }
    }
    assert forall|d: int, g: int, name: u64|
        #![trigger has_at(all, d, name), has_at(game, g, name)]
        has_at(all, d, name) && has_at(game, g, name) implies overlay_has(after, game[g].0, name)
        && overlay_entry(after, game[g].0, name) == entry_of(all, d, name) by {
        if d < last {
            assert(has_at(added, d, name));
            assert(overlay_has(overlay, game[g].0, name));
        } else {
            lemma_mod_mount(overlay, game, m.0, archive, game[g].0);
            assert(share(game[g].1.archive, archive, name));
            let common = common_names(game[g].1.archive.entries, archive.entries);
            assert(common.contains(name));
            assert(archive.entries.restrict(common).contains_key(name));
        }
    }
}

/// Whether the mount that `added[d]` is merged into is game archive `g`.
spec fn based(game: Named<MountView>, added: Named<MountView>, d: int, g: int) -> bool {
    &&& 0 <= d < added.len()
    &&& 0 <= g < game.len()
    &&& base_mount(game, added[d].0, added[d].1.archive) == Some(game[g].1)
}

/// Whether some of `added` is merged into game archive `g`.
spec fn touched(game: Named<MountView>, added: Named<MountView>, g: int) -> bool {
    exists|d: int| #[trigger] touches(game, added, d, g)
}

spec fn touches(game: Named<MountView>, added: Named<MountView>, d: int, g: int) -> bool {
    &&& 0 <= d < added.len()
    &&& 0 <= g < game.len()
    &&& based(game, added, d, g) || exists|x: u64| #[trigger]
        share(game[g].1.archive, added[d].1.archive, x)
}

/// Whether the archives of a game stand under the mount names of their paths.
pub open spec fn keyed(game: Named<MountView>) -> bool {
    forall|g: int|
        0 <= g < game.len() ==> (#[trigger] game[g]).0 == path_mount_name(game[g].1.relpath)
}

/// What an overlay is after the mounts of mods were added.
spec fn overlay_is(
    overlay: Named<MountView>,
    game: Named<MountView>,
    added: Named<MountView>,
) -> bool {
    &&& covered(overlay, game, added)
    &&& forall|name: Seq<char>| #[trigger]
        lookup(overlay, name) is Some ==> exists|g: int|
            0 <= g < game.len() && (#[trigger] game[g]).0 == name
    &&& forall|g: int|
        0 <= g < game.len() ==> mount_is(overlay, game, added, #[trigger] game[g].0, g)
}

spec fn mount_is(
    overlay: Named<MountView>,
    game: Named<MountView>,
    added: Named<MountView>,
    name: Seq<char>,
    g: int,
) -> bool {
    &&& lookup(overlay, name) is Some <==> touched(game, added, g)
    &&& lookup(overlay, name) matches Some(m) ==> {
        &&& m.relpath == game[g].1.relpath
        &&& m.archive.signature == game[g].1.archive.signature
        &&& forall|e: u64| #[trigger]
            m.archive.entries.contains_key(e) <==> game[g].1.archive.entries.contains_key(e)
                || exists|d: int| based(game, added, d, g) && #[trigger] has_at(added, d, e)
        &&& forall|e: u64, d: int|
            m.archive.entries.contains_key(e) && #[trigger] has_at(added, d, e)
                ==> m.archive.entries[e] == entry_of(added, d, e)
        &&& forall|e: u64| #[trigger]
            m.archive.entries.contains_key(e) && (forall|d: int| !#[trigger] has_at(added, d, e))
                ==> m.archive.entries[e] == game[g].1.archive.entries[e]
    }
}

proof fn lemma_mount_step(
    overlay: Named<MountView>,
    game: Named<MountView>,
    added: Named<MountView>,
    m: (Seq<char>, MountView),
    g: int,
)
    requires
        in_order(overlay),
        in_order(game),
        keyed(game),
        finite_mounts(game),
        0 <= g < game.len(),
        mount_is(overlay, game, added, game[g].0, g),
        uniform(added.push(m)),
        with_mod_mount(overlay, game, m.0, m.1.archive) is Some,
    ensures
        mount_is(
            with_mod_mount(overlay, game, m.0, m.1.archive)->0,
            game,
            added.push(m),
            game[g].0,
            g,
        ),
{
    let all = added.push(m);
    let last = added.len() as int;
    let archive = m.1.archive;
    let name = game[g].0;
    let after = with_mod_mount(overlay, game, m.0, archive)->0;
    let base = base_mount(game, m.0, archive)->0;
    let base_name = path_mount_name(base.relpath);
    lemma_mod_mount(overlay, game, m.0, archive, name);
    law_base(game, m.0, archive);
    let b = choose|b: int| 0 <= b < game.len() && (#[trigger] game[b]).1 == base;
    assert(game[b].0 == base_name);
    assert(all[last] == m);
    assert(base_name == name <==> base == game[g].1) by {
        if base == game[g].1 {
            assert(game[g].0 == path_mount_name(game[g].1.relpath));
        }
        if base_name == name {
            lemma_has_name(game, name, g);
            lemma_has_name(game, name, b);
        }
    }
    assert(based(game, all, last, g) <==> base_name == name);
    assert forall|d: int, e: u64| #[trigger] has_at(all, d, e) <==> has_at(added, d, e) || (d == last
        && archive.entries.contains_key(e)) by {
        if d < last && 0 <= d {
            assert(all[d] == added[d]);
        }
    }
    assert forall|d: int| #[trigger] based(game, all, d, g) && d < last implies based(
        game,
        added,
        d,
        g,
    ) by {
        assert(all[d] == added[d]);
    }
    assert forall|d: int| #[trigger] based(game, added, d, g) implies based(game, all, d, g) by {
        assert(all[d] == added[d]);
    }
    assert forall|d: int, e: u64| #[trigger] has_at(added, d, e) implies entry_of(added, d, e)
        == entry_of(all, d, e) && (archive.entries.contains_key(e) ==> entry_of(added, d, e)
        == archive.entries[e]) by {
        assert(all[d] == added[d]);
        assert(has_at(all, d, e));
        if archive.entries.contains_key(e) {
            assert(has_at(all, last, e));
        }
    }
    let old_m = lookup(overlay, name);
    let new_m = lookup(after, name);
    let sharing = exists|x: u64| #[trigger] share(game[g].1.archive, archive, x);
    // Whether the archive is touched.
    assert(touched(game, all, g) <==> touched(game, added, g) || base_name == name || sharing) by {
        if touched(game, all, g) {
            let d = choose|d: int| #[trigger] touches(game, all, d, g);
            if d < last {
                assert(all[d] == added[d]);
                assert(touches(game, added, d, g));
            } else {
                assert(d == last);
            }
        }
        if touched(game, added, g) {
            let d = choose|d: int| #[trigger] touches(game, added, d, g);
            assert(all[d] == added[d]);
            assert(touches(game, all, d, g));
        }
        if base_name == name || sharing {
            assert(touches(game, all, last, g));
        }
    }
    let common = common_names(game[g].1.archive.entries, archive.entries);
    let start = match old_m {
        Some(x) => x,
        None => game[g].1,
    };
    let part = if base_name == name {
        archive.entries
    } else {
        archive.entries.restrict(common)
    };
    if base_name == name {
        assert(new_m == Some(merged(start, archive.entries)));
    } else if sharing {
        let x = choose|x: u64| #[trigger] share(game[g].1.archive, archive, x);
        assert(new_m == Some(merged(start, part)));
    } else {
        assert forall|h: int| 0 <= h < game.len() && (#[trigger] game[h]).0 == name implies forall|
            x: u64,
        | !#[trigger] share(game[h].1.archive, archive, x) by {
            lemma_has_name(game, name, h);
            lemma_has_name(game, name, g);
        }
        assert(new_m == old_m);
    }
    if new_m is Some {
        let now = new_m->0;
        assert forall|e: u64| old_m is None && #[trigger] game[g].1.archive.entries.contains_key(
            e,
        ) implies forall|d: int| !#[trigger] has_at(added, d, e) by {
            if exists|d: int| has_at(added, d, e) {
                let d = choose|d: int| has_at(added, d, e);
                assert(share(game[g].1.archive, added[d].1.archive, e));
                assert(touches(game, added, d, g));
            }
        }
        assert forall|d: int| old_m is None implies !#[trigger] based(game, added, d, g) by {
            if based(game, added, d, g) {
                assert(touches(game, added, d, g));
            }
        }
        assert forall|e: u64| #[trigger] part.contains_key(e) <==> archive.entries.contains_key(e)
            && (base_name == name || game[g].1.archive.entries.contains_key(e)) by {
            assert(common.contains(e) <==> game[g].1.archive.entries.contains_key(e)
                && archive.entries.contains_key(e));
        }
        assert forall|e: u64| #[trigger] now.archive.entries.contains_key(e) <==> (
        game[g].1.archive.entries.contains_key(e) || exists|d: int|
            based(game, all, d, g) && #[trigger] has_at(all, d, e)) by {
            if game[g].1.archive.entries.contains_key(e) && archive.entries.contains_key(e) {
                assert(share(game[g].1.archive, archive, e));
            }
            if exists|d: int| based(game, all, d, g) && #[trigger] has_at(all, d, e) {
                let d = choose|d: int| based(game, all, d, g) && #[trigger] has_at(all, d, e);
                if d < last {
                    assert(based(game, added, d, g) && has_at(added, d, e));
                }
            }
            if old_m is Some && old_m->0.archive.entries.contains_key(e)
                && !game[g].1.archive.entries.contains_key(e) {
                let d = choose|d: int| based(game, added, d, g) && #[trigger] has_at(added, d, e);
                assert(based(game, all, d, g) && has_at(all, d, e));
            }
            if base_name == name && archive.entries.contains_key(e) {
                assert(based(game, all, last, g) && has_at(all, last, e));
            }
        }
        assert forall|e: u64, d: int|
            now.archive.entries.contains_key(e) && #[trigger] has_at(all, d, e) implies
            now.archive.entries[e] == entry_of(all, d, e) by {
            if archive.entries.contains_key(e) && game[g].1.archive.entries.contains_key(e) {
                assert(share(game[g].1.archive, archive, e));
                assert(part.contains_key(e));
            }
            if d < last {
                assert(has_at(added, d, e));
            } else if !part.contains_key(e) {
                assert(old_m is Some && old_m->0.archive.entries.contains_key(e));
                let c = choose|c: int| based(game, added, c, g) && #[trigger] has_at(added, c, e);
                assert(has_at(added, c, e));
            }
        }
        assert forall|e: u64| #[trigger]
            now.archive.entries.contains_key(e) && (forall|d: int|
                !#[trigger] has_at(all, d, e)) implies now.archive.entries[e]
            == game[g].1.archive.entries[e] by {
            assert(!has_at(all, last, e));
            assert forall|d: int| !#[trigger] has_at(added, d, e) by {
                if has_at(added, d, e) {
                    assert(has_at(all, d, e));
                }
            }
        }
    }
}

/// The mounts of the first `n` mods, one after the other.
spec fn all_mounts(queue: Seq<Named<MountView>>, n: int) -> Named<MountView>
    decreases n,
{
    if n <= 0 {
        Seq::empty()
    } else {
        all_mounts(queue, n - 1) + queue[n - 1]
    }
}

spec fn is_in(queue: Seq<Named<MountView>>, n: int, m: (Seq<char>, MountView)) -> bool {
    exists|q: int, i: int|
        0 <= q < n && 0 <= i < queue[q].len() && #[trigger] queue[q][i] == m
}

proof fn lemma_all_mounts(queue: Seq<Named<MountView>>, n: int)
    requires
        0 <= n <= queue.len(),
    ensures
        forall|d: int|
            0 <= d < all_mounts(queue, n).len() ==> is_in(
                queue,
                n,
                #[trigger] all_mounts(queue, n)[d],
            ),
        forall|q: int, i: int|
            0 <= q < n && 0 <= i < queue[q].len() ==> all_mounts(queue, n).contains(
                #[trigger] queue[q][i],
            ),
    decreases n,
{
    if n > 0 {
        lemma_all_mounts(queue, n - 1);
        let before = all_mounts(queue, n - 1);
        let all = all_mounts(queue, n);
        assert forall|d: int| 0 <= d < all.len() implies is_in(queue, n, #[trigger] all[d]) by {
            if d < before.len() {
                assert(is_in(queue, n - 1, before[d]));
                let (q, i) = choose|q: int, i: int|
                    0 <= q < n - 1 && 0 <= i < queue[q].len() && #[trigger] queue[q][i]
                        == before[d];
                assert(queue[q][i] == all[d]);
            } else {
                assert(queue[n - 1][d - before.len()] == all[d]);
            }
        }
        assert forall|q: int, i: int| 0 <= q < n && 0 <= i < queue[q].len() implies all.contains(
            #[trigger] queue[q][i],
        ) by {
            if q < n - 1 {
                let d = choose|d: int| 0 <= d < before.len() && before[d] == queue[q][i];
                assert(all[d] == queue[q][i]);
            } else {
                assert(all[before.len() + i] == queue[q][i]);
            }
        }
    }
}

proof fn lemma_uniform_part(a: Named<MountView>, b: Named<MountView>)
    requires
        uniform(b),
        a.len() <= b.len(),
        forall|i: int| 0 <= i < a.len() ==> #[trigger] a[i] == b[i],
    ensures
        uniform(a),
{
    assert forall|name: u64, i: int, j: int|
        #![trigger has_at(a, i, name), has_at(a, j, name)]
        has_at(a, i, name) && has_at(a, j, name) implies entry_of(a, i, name) == entry_of(
        a,
        j,
        name,
    ) by {
        assert(a[i] == b[i] && a[j] == b[j]);
        assert(has_at(b, i, name) && has_at(b, j, name));
    }
}

proof fn lemma_overlay_mod(
    overlay: Named<MountView>,
    game: Named<MountView>,
    added: Named<MountView>,
    mods: Named<MountView>,
    n: int,
)
    requires
        in_order(game),
        finite_mounts(game),
        0 <= n <= mods.len(),
        covered(overlay, game, added),
        uniform(added + mods.take(n)),
        with_mod_mounts(overlay, game, mods, n) is Ok,
    ensures
        covered(with_mod_mounts(overlay, game, mods, n)->Ok_0, game, added + mods.take(n)),
        keyed(game) && overlay_is(overlay, game, added) ==> overlay_is(
            with_mod_mounts(overlay, game, mods, n)->Ok_0,
            game,
            added + mods.take(n),
        ),
    decreases n,
{
    let all = added + mods.take(n);
    if n == 0 {
        assert(all =~= added);
    } else {
        let before_all = added + mods.take(n - 1);
        let m = mods[n - 1];
        assert(all =~= before_all.push(m));
        lemma_uniform_part(before_all, all);
        lemma_overlay_mod(overlay, game, added, mods, n - 1);
        let before = with_mod_mounts(overlay, game, mods, n - 1)->Ok_0;
        let after = with_mod_mounts(overlay, game, mods, n)->Ok_0;
        assert(with_mod_mount(before, game, m.0, m.1.archive) == Some(after));
        lemma_covered_step(before, game, before_all, m);
        if keyed(game) && overlay_is(overlay, game, added) {
            lemma_overlay_step(before, game, before_all, m);
        }
    }
}

proof fn lemma_overlay_step(
    overlay: Named<MountView>,
    game: Named<MountView>,
    added: Named<MountView>,
    m: (Seq<char>, MountView),
)
    requires
        in_order(game),
        finite_mounts(game),
        keyed(game),
        overlay_is(overlay, game, added),
        uniform(added.push(m)),
        with_mod_mount(overlay, game, m.0, m.1.archive) is Some,
    ensures
        overlay_is(with_mod_mount(overlay, game, m.0, m.1.archive)->0, game, added.push(m)),
{
    let after = with_mod_mount(overlay, game, m.0, m.1.archive)->0;
    lemma_covered_step(overlay, game, added, m);
    assert forall|name: Seq<char>| #[trigger] lookup(after, name) is Some implies exists|g: int|
        0 <= g < game.len() && (#[trigger] game[g]).0 == name by {
        if forall|g: int| 0 <= g < game.len() ==> (#[trigger] game[g]).0 != name {
            lemma_mod_mount(overlay, game, m.0, m.1.archive, name);
            law_base(game, m.0, m.1.archive);
            let base = base_mount(game, m.0, m.1.archive)->0;
            let b = choose|b: int| 0 <= b < game.len() && (#[trigger] game[b]).1 == base;
            assert(game[b].0 == path_mount_name(base.relpath));
            assert(lookup(after, name) == lookup(overlay, name));
            assert(lookup(overlay, name) is Some);
        }
    }
    assert forall|g: int| 0 <= g < game.len() implies mount_is(
        after,
        game,
        added.push(m),
        #[trigger] game[g].0,
        g,
    ) by {
        assert(mount_is(overlay, game, added, game[g].0, g));
        lemma_mount_step(overlay, game, added, m, g);
    }
}

proof fn lemma_queue_built(queue: Seq<Named<MountView>>, game: Named<MountView>, n: int)
    requires
        in_order(game),
        finite_mounts(game),
        0 <= n <= queue.len(),
        uniform(all_mounts(queue, n)),
        queue_overlay(queue, game, n) is Ok,
    ensures
        covered(queue_overlay(queue, game, n)->Ok_0, game, all_mounts(queue, n)),
        keyed(game) ==> overlay_is(
            queue_overlay(queue, game, n)->Ok_0,
            game,
            all_mounts(queue, n),
        ),
    decreases n,
{
    if n == 0 {
        let none: Named<MountView> = Seq::empty();
        assert forall|name: Seq<char>| #[trigger] lookup(none, name) is None by {
            if has_name(none, name) {
                lemma_slot_of(none, name);
            }
        }
        assert forall|g: int| 0 <= g < game.len() implies mount_is(
            none,
            game,
            none,
            #[trigger] game[g].0,
            g,
        ) by {
            assert(lookup(none, game[g].0) is None);
        }
    } else {
        let before = all_mounts(queue, n - 1);
        let m = queue[n - 1];
        assert(m.take(m.len() as int) =~= m);
        lemma_uniform_part(before, all_mounts(queue, n));
        lemma_queue_built(queue, game, n - 1);
        let overlay = queue_overlay(queue, game, n - 1)->Ok_0;
        lemma_overlay_mod(overlay, game, before, m, m.len() as int);
    }
}

/// Every queued name stands for one entry.
proof fn lemma_queue_uniform(
    queue: Seq<Named<MountView>>,
    mods: Seq<Named<MountView>>,
    blocked: Set<u64>,
)
    requires
        queue_is(queue, mods, blocked, mods.len() as int),
    ensures
        uniform(all_mounts(queue, queue.len() as int)),
        forall|d: int, name: u64| #[trigger]
            has_at(all_mounts(queue, queue.len() as int), d, name) ==> exists|q: int, i: int|
                #[trigger]
                holds(queue, q, i, name) && queue[q][i] == all_mounts(queue, queue.len() as int)[d]
                    && !blocked.contains(name),
{
    let all = all_mounts(queue, queue.len() as int);
    let n = mods.len() as int;
    lemma_all_mounts(queue, queue.len() as int);
    assert forall|d: int, name: u64| #[trigger] has_at(all, d, name) implies exists|
        q: int,
        i: int,
        k: int,
        j: int,
    |
        #![trigger holds(queue, q, i, name), last_holder(mods, n, k, j, name)]
        holds(queue, q, i, name) && queue[q][i] == all[d] && last_holder(mods, n, k, j, name)
            && entry_of(all, d, name) == entry_of(mods[k], j, name) && !blocked.contains(name) by {
        assert(is_in(queue, queue.len() as int, all[d]));
        let (q, i) = choose|q: int, i: int|
            0 <= q < queue.len() && 0 <= i < queue[q].len() && #[trigger] queue[q][i] == all[d];
        assert(holds(queue, q, i, name));
        assert(has_origin(queue, q, i, mods, blocked, n));
        let (k0, j0) = choose|k: int, j: int|
            k < n && has_unblocked(mods, k, j, blocked) && #[trigger] came_from(
                queue,
                q,
                i,
                mods,
                k,
                j,
                blocked,
            );
        assert(queue[q][i].1.archive.entries.contains_key(name));
        assert(holds(mods, k0, j0, name));
        let (k, j) = lemma_last_holder(mods, n, k0, j0, name);
        assert(last_holder(mods, n, k, j, name));
    }
    assert forall|name: u64, a: int, b: int|
        #![trigger has_at(all, a, name), has_at(all, b, name)]
        has_at(all, a, name) && has_at(all, b, name) implies entry_of(all, a, name) == entry_of(
        all,
        b,
        name,
    ) by {
        let (q, i, k, j) = choose|q: int, i: int, k: int, j: int|
            #![trigger holds(queue, q, i, name), last_holder(mods, n, k, j, name)]
            holds(queue, q, i, name) && queue[q][i] == all[a] && last_holder(mods, n, k, j, name)
                && entry_of(all, a, name) == entry_of(mods[k], j, name) && !blocked.contains(name);
        let (q2, i2, k2, j2) = choose|q: int, i: int, k: int, j: int|
            #![trigger holds(queue, q, i, name), last_holder(mods, n, k, j, name)]
            holds(queue, q, i, name) && queue[q][i] == all[b] && last_holder(mods, n, k, j, name)
                && entry_of(all, b, name) == entry_of(mods[k], j, name) && !blocked.contains(name);
        assert(holds(mods, k, j, name) && holds(mods, k2, j2, name));
    }
}

proof fn lemma_best_by_names(game: Named<MountView>, a: Content, b: Content, n: int)
    requires
        a.entries.dom() == b.entries.dom(),
    ensures
        best_overlap(game, a, n) == best_overlap(game, b, n),
    decreases n,
{
    assert forall|m: Content| #[trigger] overlap_count(m, a) == overlap_count(m, b) by {
        assert(common_names(m.entries, a.entries) =~= common_names(m.entries, b.entries));
    }
    if n > 0 {
        lemma_best_by_names(game, a, b, n - 1);
    }
}

/// The game archive that mount `j` of mod `k` is merged into: the one of its name,
/// else the one that shares most names with it, blocked ones aside.
pub open spec fn goes_to(
    game: Named<MountView>,
    mods: Seq<Named<MountView>>,
    k: int,
    j: int,
    blocked: Set<u64>,
) -> Option<MountView> {
    base_mount(
        game,
        mods[k][j].0,
        Content {
            entries: mods[k][j].1.archive.entries.remove_keys(blocked),
            signature: mods[k][j].1.archive.signature,
        },
    )
}

/// The names that mods lose: those of the subchunk tables of the game's archives.
pub open spec fn lost_names(game: Named<MountView>) -> Set<u64> {
    blocked_names(mount_paths(game))
}

/// What is queued goes where the mount that it comes from goes.
proof fn lemma_goes_to(
    queue: Seq<Named<MountView>>,
    q: int,
    i: int,
    game: Named<MountView>,
    mods: Seq<Named<MountView>>,
    k: int,
    j: int,
    blocked: Set<u64>,
)
    requires
        came_from(queue, q, i, mods, k, j, blocked),
    ensures
        base_mount(game, queue[q][i].0, queue[q][i].1.archive) == goes_to(
            game,
            mods,
            k,
            j,
            blocked,
        ),
{
    let a = queue[q][i].1.archive;
    let b = Content {
        entries: mods[k][j].1.archive.entries.remove_keys(blocked),
        signature: mods[k][j].1.archive.signature,
    };
    assert forall|x: u64| #[trigger] a.entries.dom().contains(x) <==> b.entries.dom().contains(
        x,
    ) by {
        assert(a.entries.contains_key(x) <==> !blocked.contains(x)
            && mods[k][j].1.archive.entries.contains_key(x));
    }
    assert(a.entries.dom() =~= b.entries.dom());
    lemma_best_by_names(game, a, b, game.len() as int);
}

/// An overlay that was built has every mod: for each mount of each mod there is a
/// game archive in whose place the overlay has a mount with all its entries that
/// are not blocked, and every other game archive that has such an entry is there
/// with it too. The entry is that of the last mod that has it.
pub proof fn law_overlay_has_every_mod(
    r: Result<Index, OverlayError>,
    game: Named<MountView>,
    mods: Seq<Named<MountView>>,
    ignore: bool,
    x: int,
    y: int,
    name: u64,
    k: int,
    j: int,
)
    requires
        in_order(game),
        finite_mounts(game),
        finite_mods(mods),
        overlay_result(r, game, mods, ignore),
        r is Ok,
        holds(mods, x, y, name),
        !lost_names(game).contains(name),
        last_holder(mods, mods.len() as int, k, j, name),
    ensures
        goes_to(game, mods, x, y, lost_names(game)) is Some,
        ({
            let base = goes_to(game, mods, x, y, lost_names(game))->0;
            let base_name = path_mount_name(base.relpath);
            &&& overlay_has(r->Ok_0@.mounts, base_name, name)
            &&& overlay_entry(r->Ok_0@.mounts, base_name, name) == entry_of(mods[k], j, name)
        }),
        forall|g: int| #[trigger]
            has_at(game, g, name) ==> overlay_has(r->Ok_0@.mounts, game[g].0, name)
                && overlay_entry(r->Ok_0@.mounts, game[g].0, name) == entry_of(mods[k], j, name),
{
    let blocked = lost_names(game);
    let n = mods.len() as int;
    let overlay = r->Ok_0@.mounts;
    let queue = mod_queue(mods, blocked, ignore, n)->Ok_0;
    let all = all_mounts(queue, queue.len() as int);
    law_queue(mods, blocked, ignore, n);
    lemma_queue_uniform(queue, mods, blocked);
    lemma_queue_built(queue, game, queue.len() as int);
    lemma_all_mounts(queue, queue.len() as int);
    assert(has_unblocked(mods, x, y, blocked));
    let (q, i) = choose|q: int, i: int| #[trigger] came_from(queue, q, i, mods, x, y, blocked);
    lemma_goes_to(queue, q, i, game, mods, x, y, blocked);
    assert(queue[q][i].1.archive.entries.contains_key(name));
    assert(holds(queue, q, i, name));
    assert(all.contains(queue[q][i]));
    let d = choose|d: int| 0 <= d < all.len() && all[d] == queue[q][i];
    assert(has_at(all, d, name));
    assert(entry_of(queue[q], i, name) == entry_of(mods[k], j, name));
}

/// Whether an overlay holds just what the game archives and the mods make up.
pub open spec fn overlay_holds(
    overlay: Named<MountView>,
    game: Named<MountView>,
    mods: Seq<Named<MountView>>,
    blocked: Set<u64>,
) -> bool {
    // There are no mounts but those of game archives.
    &&& forall|name: Seq<char>| #[trigger]
        lookup(overlay, name) is Some ==> exists|g: int|
            0 <= g < game.len() && (#[trigger] game[g]).0 == name
    // A game archive is there where a mod goes to it or shares an entry with it.
    &&& forall|g: int|
        0 <= g < game.len() ==> (lookup(overlay, (#[trigger] game[g]).0) is Some <==> exists|
            k: int,
            j: int,
        | #[trigger]
            has_unblocked(mods, k, j, blocked) && (goes_to(game, mods, k, j, blocked) == Some(
                game[g].1,
            ) || exists|e: u64| #[trigger]
                holds(mods, k, j, e) && !blocked.contains(e) && has_at(game, g, e)))
    // It is in its place, with its signature.
    &&& forall|g: int|
        0 <= g < game.len() ==> (lookup(overlay, (#[trigger] game[g]).0) matches Some(m)
            ==> m.relpath == game[g].1.relpath && m.archive.signature
            == game[g].1.archive.signature)
    // It has its own entries and those of the mods that go to it.
    &&& forall|g: int, e: u64|
        0 <= g < game.len() && lookup(overlay, game[g].0) is Some ==> (#[trigger] overlay_has(
            overlay,
            game[g].0,
            e,
        ) <==> has_at(game, g, e) || exists|k: int, j: int| #[trigger]
            holds(mods, k, j, e) && !blocked.contains(e) && goes_to(game, mods, k, j, blocked)
                == Some(game[g].1))
    // What mods have is that of the last one that has it.
    &&& forall|g: int, e: u64, k: int, j: int|
        #![trigger overlay_has(overlay, game[g].0, e), last_holder(mods, mods.len() as int, k, j, e)]
        0 <= g < game.len() && overlay_has(overlay, game[g].0, e) && !blocked.contains(e)
            && last_holder(mods, mods.len() as int, k, j, e) ==> overlay_entry(
            overlay,
            game[g].0,
            e,
        ) == entry_of(mods[k], j, e)
    // What no mod has is the game's.
    &&& forall|g: int, e: u64|
        0 <= g < game.len() && #[trigger] overlay_has(overlay, game[g].0, e) && (blocked.contains(e)
            || forall|k: int, j: int| !#[trigger] holds(mods, k, j, e)) ==> overlay_entry(
            overlay,
            game[g].0,
            e,
        ) == entry_of(game, g, e)
}

/// An overlay that was built against the archives of a game, each under the mount
/// name of its path, holds just what the game's archives and the mods make up.
pub proof fn law_overlay_holds(
    r: Result<Index, OverlayError>,
    game: Named<MountView>,
    mods: Seq<Named<MountView>>,
    ignore: bool,
)
    requires
        in_order(game),
        keyed(game),
        finite_mounts(game),
        finite_mods(mods),
        overlay_result(r, game, mods, ignore),
        r is Ok,
    ensures
        overlay_holds(r->Ok_0@.mounts, game, mods, lost_names(game)),
{
    let blocked = lost_names(game);
    let n = mods.len() as int;
    let overlay = r->Ok_0@.mounts;
    let queue = mod_queue(mods, blocked, ignore, n)->Ok_0;
    let all = all_mounts(queue, queue.len() as int);
    law_queue(mods, blocked, ignore, n);
    lemma_queue_uniform(queue, mods, blocked);
    lemma_queue_built(queue, game, queue.len() as int);
    lemma_all_mounts(queue, queue.len() as int);
    // What was added is what the mods have, and goes where they go.
    assert forall|d: int| 0 <= d < all.len() implies #[trigger] is_some_mount(
        all,
        d,
        game,
        mods,
        blocked,
    ) by {
        assert(is_in(queue, queue.len() as int, all[d]));
        let (q, i) = choose|q: int, i: int|
            0 <= q < queue.len() && 0 <= i < queue[q].len() && #[trigger] queue[q][i] == all[d];
        assert(has_origin(queue, q, i, mods, blocked, n));
        let (k, j) = choose|k: int, j: int|
            k < n && has_unblocked(mods, k, j, blocked) && #[trigger] came_from(
                queue,
                q,
                i,
                mods,
                k,
                j,
                blocked,
            );
        lemma_goes_to(queue, q, i, game, mods, k, j, blocked);
        assert(is_mount_of(all, d, game, mods, k, j, blocked));
    }
    assert forall|k: int, j: int| #[trigger] has_unblocked(mods, k, j, blocked) implies exists|
        d: int,
    | #[trigger] is_mount_of(all, d, game, mods, k, j, blocked) by {
        let e = choose|e: u64| #[trigger] holds(mods, k, j, e) && !blocked.contains(e);
        let (q, i) = choose|q: int, i: int| #[trigger] came_from(queue, q, i, mods, k, j, blocked);
        lemma_goes_to(queue, q, i, game, mods, k, j, blocked);
        assert(all.contains(queue[q][i]));
        let d = choose|d: int| 0 <= d < all.len() && all[d] == queue[q][i];
        assert(is_mount_of(all, d, game, mods, k, j, blocked));
    }
    assert forall|d: int, e: u64, k: int, j: int|
        #![trigger has_at(all, d, e), last_holder(mods, n, k, j, e)]
        has_at(all, d, e) && last_holder(mods, n, k, j, e) implies entry_of(all, d, e) == entry_of(
        mods[k],
        j,
        e,
    ) by {
        let (q, i) = choose|q: int, i: int| #[trigger]
            holds(queue, q, i, e) && queue[q][i] == all[d] && !blocked.contains(e);
        assert(holds(queue, q, i, e));
    }
    assert(added_all(all, game, mods, blocked));
    lemma_holds(overlay, game, mods, blocked, all);
}

/// Whether `added[d]` is mount `j` of mod `k` without its blocked entries.
spec fn is_mount_of(
    added: Named<MountView>,
    d: int,
    game: Named<MountView>,
    mods: Seq<Named<MountView>>,
    k: int,
    j: int,
    blocked: Set<u64>,
) -> bool {
    &&& 0 <= d < added.len()
    &&& 0 <= k < mods.len()
    &&& 0 <= j < mods[k].len()
    &&& has_unblocked(mods, k, j, blocked)
    &&& is_rest_of(added[d], mods[k][j], blocked)
    &&& base_mount(game, added[d].0, added[d].1.archive) == goes_to(game, mods, k, j, blocked)
}

/// Whether `added[d]` is some mount of some mod without its blocked entries.
spec fn is_some_mount(
    added: Named<MountView>,
    d: int,
    game: Named<MountView>,
    mods: Seq<Named<MountView>>,
    blocked: Set<u64>,
) -> bool {
    exists|k: int, j: int| #[trigger] is_mount_of(added, d, game, mods, k, j, blocked)
}

/// Whether `all` are just the mounts of mods, without their blocked entries, and
/// with the entries of the last mod that has any of the name.
spec fn added_all(
    all: Named<MountView>,
    game: Named<MountView>,
    mods: Seq<Named<MountView>>,
    blocked: Set<u64>,
) -> bool {
    &&& forall|d: int|
        0 <= d < all.len() ==> #[trigger] is_some_mount(all, d, game, mods, blocked)
    &&& forall|k: int, j: int| #[trigger]
        has_unblocked(mods, k, j, blocked) ==> exists|d: int| #[trigger]
            is_mount_of(all, d, game, mods, k, j, blocked)
    &&& forall|d: int, e: u64, k: int, j: int|
        #![trigger has_at(all, d, e), last_holder(mods, mods.len() as int, k, j, e)]
        has_at(all, d, e) && last_holder(mods, mods.len() as int, k, j, e) ==> entry_of(all, d, e)
            == entry_of(mods[k], j, e)
}

proof fn lemma_added_at(
    all: Named<MountView>,
    game: Named<MountView>,
    mods: Seq<Named<MountView>>,
    blocked: Set<u64>,
    k: int,
    j: int,
    e: u64,
) -> (d: int)
    requires
        added_all(all, game, mods, blocked),
        holds(mods, k, j, e),
        !blocked.contains(e),
    ensures
        is_mount_of(all, d, game, mods, k, j, blocked),
        has_at(all, d, e),
{
    assert(has_unblocked(mods, k, j, blocked));
    let d = choose|d: int| #[trigger] is_mount_of(all, d, game, mods, k, j, blocked);
    assert(all[d].1.archive.entries.contains_key(e));
    d
}

proof fn lemma_added_from(
    all: Named<MountView>,
    game: Named<MountView>,
    mods: Seq<Named<MountView>>,
    blocked: Set<u64>,
    d: int,
    e: u64,
) -> (r: (int, int))
    requires
        added_all(all, game, mods, blocked),
        has_at(all, d, e),
    ensures
        !blocked.contains(e),
        holds(mods, r.0, r.1, e),
        is_mount_of(all, d, game, mods, r.0, r.1, blocked),
{
    assert(is_some_mount(all, d, game, mods, blocked));
    let (k, j) = choose|k: int, j: int| #[trigger] is_mount_of(all, d, game, mods, k, j, blocked);
    assert(all[d].1.archive.entries.contains_key(e));
    (k, j)
}

proof fn lemma_mount_there(
    overlay: Named<MountView>,
    game: Named<MountView>,
    mods: Seq<Named<MountView>>,
    blocked: Set<u64>,
    all: Named<MountView>,
    g: int,
)
    requires
        added_all(all, game, mods, blocked),
        0 <= g < game.len(),
        mount_is(overlay, game, all, game[g].0, g),
    ensures
        lookup(overlay, game[g].0) is Some <==> exists|k: int, j: int| #[trigger]
            has_unblocked(mods, k, j, blocked) && (goes_to(game, mods, k, j, blocked) == Some(
                game[g].1,
            ) || exists|e: u64| #[trigger]
                holds(mods, k, j, e) && !blocked.contains(e) && has_at(game, g, e)),
{
    if lookup(overlay, game[g].0) is Some {
        let d = choose|d: int| #[trigger] touches(game, all, d, g);
        assert(is_some_mount(all, d, game, mods, blocked));
        let (k, j) = choose|k: int, j: int| #[trigger]
            is_mount_of(all, d, game, mods, k, j, blocked);
        assert(has_unblocked(mods, k, j, blocked));
        if !based(game, all, d, g) {
            let e = choose|e: u64| #[trigger] share(game[g].1.archive, all[d].1.archive, e);
            assert(all[d].1.archive.entries.contains_key(e));
            assert(holds(mods, k, j, e) && has_at(game, g, e));
        }
    }
    if exists|k: int, j: int| #[trigger]
        has_unblocked(mods, k, j, blocked) && (goes_to(game, mods, k, j, blocked) == Some(
            game[g].1,
        ) || exists|e: u64| #[trigger]
            holds(mods, k, j, e) && !blocked.contains(e) && has_at(game, g, e)) {
        let (k, j) = choose|k: int, j: int| #[trigger]
            has_unblocked(mods, k, j, blocked) && (goes_to(game, mods, k, j, blocked) == Some(
                game[g].1,
            ) || exists|e: u64| #[trigger]
                holds(mods, k, j, e) && !blocked.contains(e) && has_at(game, g, e));
        if goes_to(game, mods, k, j, blocked) == Some(game[g].1) {
            let d = choose|d: int| #[trigger] is_mount_of(all, d, game, mods, k, j, blocked);
            assert(based(game, all, d, g));
            assert(touches(game, all, d, g));
        } else {
            let e = choose|e: u64| #[trigger]
                holds(mods, k, j, e) && !blocked.contains(e) && has_at(game, g, e);
            let d = lemma_added_at(all, game, mods, blocked, k, j, e);
            assert(share(game[g].1.archive, all[d].1.archive, e));
            assert(touches(game, all, d, g));
        }
    }
}

proof fn lemma_mount_names(
    overlay: Named<MountView>,
    game: Named<MountView>,
    mods: Seq<Named<MountView>>,
    blocked: Set<u64>,
    all: Named<MountView>,
    g: int,
    e: u64,
)
    requires
        added_all(all, game, mods, blocked),
        0 <= g < game.len(),
        mount_is(overlay, game, all, game[g].0, g),
        lookup(overlay, game[g].0) is Some,
    ensures
        overlay_has(overlay, game[g].0, e) <==> has_at(game, g, e) || exists|k: int, j: int|
            #[trigger]
            holds(mods, k, j, e) && !blocked.contains(e) && goes_to(game, mods, k, j, blocked)
                == Some(game[g].1),
{
    let m = lookup(overlay, game[g].0)->0;
    assert(m.archive.entries.contains_key(e) == overlay_has(overlay, game[g].0, e));
    if overlay_has(overlay, game[g].0, e) && !has_at(game, g, e) {
        let d = choose|d: int| based(game, all, d, g) && #[trigger] has_at(all, d, e);
        let (k, j) = lemma_added_from(all, game, mods, blocked, d, e);
        assert(holds(mods, k, j, e));
    }
    if exists|k: int, j: int| #[trigger]
        holds(mods, k, j, e) && !blocked.contains(e) && goes_to(game, mods, k, j, blocked)
            == Some(game[g].1) {
        let (k, j) = choose|k: int, j: int| #[trigger]
            holds(mods, k, j, e) && !blocked.contains(e) && goes_to(game, mods, k, j, blocked)
                == Some(game[g].1);
        let d = lemma_added_at(all, game, mods, blocked, k, j, e);
        assert(based(game, all, d, g) && has_at(all, d, e));
    }
}

proof fn lemma_mount_entries(
    overlay: Named<MountView>,
    game: Named<MountView>,
    mods: Seq<Named<MountView>>,
    blocked: Set<u64>,
    all: Named<MountView>,
    g: int,
    e: u64,
)
    requires
        added_all(all, game, mods, blocked),
        0 <= g < game.len(),
        mount_is(overlay, game, all, game[g].0, g),
        overlay_has(overlay, game[g].0, e),
    ensures
        forall|k: int, j: int|
            !blocked.contains(e) && #[trigger] last_holder(mods, mods.len() as int, k, j, e)
                ==> overlay_entry(overlay, game[g].0, e) == entry_of(mods[k], j, e),
        blocked.contains(e) || (forall|k: int, j: int| !#[trigger] holds(mods, k, j, e))
            ==> overlay_entry(overlay, game[g].0, e) == entry_of(game, g, e),
{
    let n = mods.len() as int;
    assert forall|k: int, j: int|
        !blocked.contains(e) && #[trigger] last_holder(mods, n, k, j, e) implies overlay_entry(
        overlay,
        game[g].0,
        e,
    ) == entry_of(mods[k], j, e) by {
        let d = lemma_added_at(all, game, mods, blocked, k, j, e);
        assert(holds(mods, k, j, e));
        assert(has_at(all, d, e));
    }
    if blocked.contains(e) || (forall|k: int, j: int| !#[trigger] holds(mods, k, j, e)) {
        let m = lookup(overlay, game[g].0)->0;
        assert(m.archive.entries.contains_key(e));
        assert forall|d: int| !#[trigger] has_at(all, d, e) by {
            if has_at(all, d, e) {
                let (k, j) = lemma_added_from(all, game, mods, blocked, d, e);
                assert(holds(mods, k, j, e));
            }
        }
    }
}

proof fn lemma_holds(
    overlay: Named<MountView>,
    game: Named<MountView>,
    mods: Seq<Named<MountView>>,
    blocked: Set<u64>,
    all: Named<MountView>,
)
    requires
        overlay_is(overlay, game, all),
        added_all(all, game, mods, blocked),
    ensures
        overlay_holds(overlay, game, mods, blocked),
{
    let n = mods.len() as int;
    assert forall|g: int| 0 <= g < game.len() implies (lookup(
        overlay,
        (#[trigger] game[g]).0,
    ) is Some <==> exists|k: int, j: int| #[trigger]
        has_unblocked(mods, k, j, blocked) && (goes_to(game, mods, k, j, blocked) == Some(game[g].1)
            || exists|e: u64| #[trigger]
            holds(mods, k, j, e) && !blocked.contains(e) && has_at(game, g, e))) by {
        assert(mount_is(overlay, game, all, game[g].0, g));
        lemma_mount_there(overlay, game, mods, blocked, all, g);
    }
    assert forall|g: int| 0 <= g < game.len() implies (lookup(
        overlay,
        (#[trigger] game[g]).0,
    ) matches Some(m) ==> m.relpath == game[g].1.relpath && m.archive.signature
        == game[g].1.archive.signature) by {
        assert(mount_is(overlay, game, all, game[g].0, g));
    }
    assert forall|g: int, e: u64|
        0 <= g < game.len() && lookup(overlay, game[g].0) is Some implies (#[trigger] overlay_has(
        overlay,
        game[g].0,
        e,
    ) <==> has_at(game, g, e) || exists|k: int, j: int| #[trigger]
        holds(mods, k, j, e) && !blocked.contains(e) && goes_to(game, mods, k, j, blocked) == Some(
            game[g].1,
        )) by {
        assert(mount_is(overlay, game, all, game[g].0, g));
        lemma_mount_names(overlay, game, mods, blocked, all, g, e);
    }
    assert forall|g: int, e: u64, k: int, j: int|
        #![trigger overlay_has(overlay, game[g].0, e), last_holder(mods, n, k, j, e)]
        0 <= g < game.len() && overlay_has(overlay, game[g].0, e) && !blocked.contains(e)
            && last_holder(mods, n, k, j, e) implies overlay_entry(overlay, game[g].0, e)
        == entry_of(mods[k], j, e) by {
        assert(mount_is(overlay, game, all, game[g].0, g));
        lemma_mount_entries(overlay, game, mods, blocked, all, g, e);
    }
    assert forall|g: int, e: u64|
        0 <= g < game.len() && #[trigger] overlay_has(overlay, game[g].0, e) && (blocked.contains(e)
            || forall|k: int, j: int| !#[trigger] holds(mods, k, j, e)) implies overlay_entry(
        overlay,
        game[g].0,
        e,
    ) == entry_of(game, g, e) by {
        assert(mount_is(overlay, game, all, game[g].0, g));
        lemma_mount_entries(overlay, game, mods, blocked, all, g, e);
    }
}

/// Building an overlay fails only for a reason: mods whose entries reconcile do
/// not conflict, and where they do not, it fails just where some mount of a mod
/// has nowhere to go.
pub proof fn law_overlay_fails_for_a_reason(
    r: Result<Index, OverlayError>,
    game: Named<MountView>,
    mods: Seq<Named<MountView>>,
    ignore: bool,
)
    requires
        in_order(game),
        finite_mounts(game),
        finite_mods(mods),
        overlay_result(r, game, mods, ignore),
    ensures
        ignore || mods_agree(mods, lost_names(game), ignore, mods.len() as int) ==> (r is Ok
            <==> forall|k: int, j: int| #[trigger]
            has_unblocked(mods, k, j, lost_names(game)) ==> goes_to(
                game,
                mods,
                k,
                j,
                lost_names(game),
            ) is Some),
        r is Ok ==> forall|k: int, j: int| #[trigger]
            has_unblocked(mods, k, j, lost_names(game)) ==> goes_to(
                game,
                mods,
                k,
                j,
                lost_names(game),
            ) is Some,
        r matches Err(e) ==> e is Conflicts || e is NoBase,
        r matches Err(e) ==> (e is NoBase ==> exists|k: int, j: int| #[trigger]
            has_unblocked(mods, k, j, lost_names(game)) && goes_to(
                game,
                mods,
                k,
                j,
                lost_names(game),
            ) is None),
{
    let blocked = lost_names(game);
    let n = mods.len() as int;
    if ignore || mods_agree(mods, blocked, ignore, n) {
        law_agreeing_mods_queue(mods, blocked, ignore, n);
    }
    if mod_queue(mods, blocked, ignore, n) is Ok {
        let queue = mod_queue(mods, blocked, ignore, n)->Ok_0;
        law_queue(mods, blocked, ignore, n);
        lemma_queue_uniform(queue, mods, blocked);
        lemma_all_mounts(queue, queue.len() as int);
        let all = all_mounts(queue, queue.len() as int);
        if queue_overlay(queue, game, queue.len() as int) is Ok {
            lemma_queue_built(queue, game, queue.len() as int);
            assert forall|k: int, j: int| #[trigger] has_unblocked(mods, k, j, blocked) implies goes_to(
                game,
                mods,
                k,
                j,
                blocked,
            ) is Some by {
                let e = choose|e: u64| #[trigger] holds(mods, k, j, e) && !blocked.contains(e);
                let (q, i) = choose|q: int, i: int| #[trigger]
                    came_from(queue, q, i, mods, k, j, blocked);
                lemma_goes_to(queue, q, i, game, mods, k, j, blocked);
                assert(all.contains(queue[q][i]));
                let d = choose|d: int| 0 <= d < all.len() && all[d] == queue[q][i];
                assert(base_mount(game, all[d].0, all[d].1.archive) is Some);
            }
        } else {
            let (q, i) = lemma_no_base(queue, game, queue.len() as int);
            assert(has_origin(queue, q, i, mods, blocked, n));
            let (k, j) = choose|k: int, j: int|
                k < n && has_unblocked(mods, k, j, blocked) && #[trigger] came_from(
                    queue,
                    q,
                    i,
                    mods,
                    k,
                    j,
                    blocked,
                );
            lemma_goes_to(queue, q, i, game, mods, k, j, blocked);
            assert(has_unblocked(mods, k, j, blocked));
        }
    }
}

/// A queue that cannot be merged has a mount without a base.
proof fn lemma_no_base(
    queue: Seq<Named<MountView>>,
    game: Named<MountView>,
    n: int,
) -> (r: (int, int))
    requires
        0 <= n <= queue.len(),
        queue_overlay(queue, game, n) is Err,
    ensures
        0 <= r.0 < n,
        0 <= r.1 < queue[r.0].len(),
        base_mount(game, queue[r.0][r.1].0, queue[r.0][r.1].1.archive) is None,
    decreases n,
{
    if queue_overlay(queue, game, n - 1) is Err {
        lemma_no_base(queue, game, n - 1)
    } else {
        let overlay = queue_overlay(queue, game, n - 1)->Ok_0;
        let i = lemma_no_base_in(overlay, game, queue[n - 1], queue[n - 1].len() as int);
        (n - 1, i)
    }
}

proof fn lemma_no_base_in(
    overlay: Named<MountView>,
    game: Named<MountView>,
    mods: Named<MountView>,
    n: int,
) -> (i: int)
    requires
        0 <= n <= mods.len(),
        with_mod_mounts(overlay, game, mods, n) is Err,
    ensures
        0 <= i < n,
        base_mount(game, mods[i].0, mods[i].1.archive) is None,
    decreases n,
{
    if with_mod_mounts(overlay, game, mods, n - 1) is Err {
        lemma_no_base_in(overlay, game, mods, n - 1)
    } else {
        n - 1
    }
}

} // verus!
