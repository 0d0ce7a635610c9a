//! What is known of a game install, and what a build does with it.

use super::fast::{
    advanced, is_overlay_leftover, next_action, started, targets_of, ActionView, FastBuild,
    FastView,
};
use super::game_paths::{
    found_mounts, is_base_map_name, is_map_under, map_mounts, name_or_empty, relative_to,
    walk_step_of, Found, FoundKind, GamePathsView,
};
use super::hash::lower_hash;
use super::laws::law_stripped_keeps;
use super::outcome::{keyed, lost_names};
use super::pipeline::{
    blocked_names, game_rel_paths, mod_queue, mount_paths, queue_reconciled, readable_mods,
    stripped, subchunk_toc_hash, without_tft, ModFile,
};
use super::reconciling::{
    finite_mounts, has_at, law_agreeing_mods_queue, law_queue, mods_agree, queue_is,
};
use super::runtime::map_copies;
use super::wad::archive::read_error;
use super::wad::fantome::fantome_file_mounts;
use super::wad::index::{game_mounts, is_leftover, reconcile_within, GameFile};
use super::wad::mounted::{
    game_content, game_file_error, mount_name, path_mount_name, MountView, OverlayError,
};
use super::wad::toc::toc_error;
use crate::names::{
    has_name, in_order, law_put, lemma_has_name, lemma_put_members, lemma_slot_of, lookup,
    name_less, Named,
};
use crate::paths::{
    extension_of, file_stem_of, is_under, last_dot, lemma_joined_under, path_extension, path_text,
    stem_of, with_extension_of, PartView, PathView,
};
use crate::text::{has_suffix, lower};
use vstd::prelude::*;
use vstd::utf8::encode_utf8;

verus! {

/// Whether file `i` of a game install can be mounted, under the given name.
pub open spec fn is_game_file(
    files: Seq<GameFile>,
    game_path: PathView,
    i: int,
    name: Seq<char>,
) -> bool {
    &&& 0 <= i < files.len()
    &&& game_file_error(files[i].path@, game_path, files[i].bytes@) is None
    &&& path_mount_name(files[i].path@.skip(game_path.len() as int)) == name
}

/// The archives of a game install are all its files that can be mounted, each
/// under the mount name of its path and with its content; of several with one
/// mount name the last counts. Nothing else is there.
pub proof fn law_game_mounts(files: Seq<GameFile>, game_path: PathView, n: int, name: Seq<char>)
    requires
        0 <= n <= files.len(),
    ensures
        in_order(game_mounts(files, game_path, n)),
        keyed(game_mounts(files, game_path, n)),
        lookup(game_mounts(files, game_path, n), name) is Some <==> exists|i: int|
            i < n && #[trigger] is_game_file(files, game_path, i, name),
        forall|i: int|
            i < n && #[trigger] is_game_file(files, game_path, i, name) && (forall|j: int|
                i < j < n ==> !#[trigger] is_game_file(files, game_path, j, name)) ==> lookup(
                game_mounts(files, game_path, n),
                name,
            ) == Some(
                MountView {
                    relpath: files[i].path@.skip(game_path.len() as int),
                    archive: game_content(files[i].bytes@),
                },
            ),
    decreases n,
{
    if n > 0 {
        law_game_mounts(files, game_path, n - 1, name);
        let before = game_mounts(files, game_path, n - 1);
        let now = game_mounts(files, game_path, n);
        let f = files[n - 1];
        if game_file_error(f.path@, game_path, f.bytes@) is None {
            let relpath = f.path@.skip(game_path.len() as int);
            let v = MountView { relpath, archive: game_content(f.bytes@) };
            let at = path_mount_name(relpath);
            law_put(before, at, v, name);
            assert forall|g: int| 0 <= g < now.len() implies (#[trigger] now[g]).0
                == path_mount_name(now[g].1.relpath) by {
                lemma_put_members(before, at, v, g);
                if now[g] != (at, v) {
                    let h = choose|h: int| 0 <= h < before.len() && #[trigger] before[h] == now[g];
                    assert(before[h].0 == path_mount_name(before[h].1.relpath));
                }
            }
            if at == name {
                assert(is_game_file(files, game_path, n - 1, name));
            } else {
                assert(!is_game_file(files, game_path, n - 1, name));
            }
        } else {
            assert(!is_game_file(files, game_path, n - 1, name));
        }
    } else {
        lemma_none::<MountView>(name);
    }
}

proof fn lemma_none<V>(name: Seq<char>)
    ensures
        lookup(Seq::<(Seq<char>, V)>::empty(), name) is None,
{
    let none: Named<V> = Seq::empty();
    if has_name(none, name) {
        lemma_slot_of(none, name);
    }
}

/// Whether directory entry `i` of a game install is an archive with the given
/// mount name: a file whose name ends in `.wad.client`.
pub open spec fn is_found_archive(found: Seq<Found>, i: int, name: Seq<char>) -> bool {
    &&& 0 <= i < found.len()
    &&& found[i].kind is File
    &&& has_suffix(name_or_empty(found[i].path@), ".wad.client"@)
    &&& mount_name(name_or_empty(found[i].path@)) == name
}

/// The archives of a game install by mount name are all files that are archives;
/// of several with one mount name the last counts.
pub proof fn law_found_mounts(found: Seq<Found>, n: int, name: Seq<char>)
    requires
        0 <= n <= found.len(),
    ensures
        in_order(found_mounts(found, n)),
        lookup(found_mounts(found, n), name) is Some <==> exists|i: int|
            i < n && #[trigger] is_found_archive(found, i, name),
        forall|i: int|
            i < n && #[trigger] is_found_archive(found, i, name) && (forall|j: int|
                i < j < n ==> !#[trigger] is_found_archive(found, j, name)) ==> lookup(
                found_mounts(found, n),
                name,
            ) == Some(found[i].path@),
    decreases n,
{
    if n > 0 {
        law_found_mounts(found, n - 1, name);
        let before = found_mounts(found, n - 1);
        let f = found[n - 1];
        let filename = name_or_empty(f.path@);
        law_put(before, mount_name(filename), f.path@, name);
        if f.kind is File && has_suffix(filename, ".wad.client"@) && mount_name(filename) == name {
            assert(is_found_archive(found, n - 1, name));
        } else {
            assert(!is_found_archive(found, n - 1, name));
        }
    } else {
        lemma_none::<PathView>(name);
    }
}

/// The maps of a game install are just those of its archives that lie where maps
/// do, in the same order.
pub proof fn law_map_mounts(mounts: Named<PathView>, root: PathView, n: int)
    requires
        in_order(mounts),
        0 <= n <= mounts.len(),
    ensures
        in_order(map_mounts(mounts, root, n)),
        forall|i: int|
            0 <= i < n && is_map_under((#[trigger] mounts[i]).1, root) ==> map_mounts(
                mounts,
                root,
                n,
            ).contains(mounts[i]),
        forall|x: int|
            0 <= x < map_mounts(mounts, root, n).len() ==> is_map_under(
                (#[trigger] map_mounts(mounts, root, n)[x]).1,
                root,
            ) && mounts.take(n).contains(map_mounts(mounts, root, n)[x]),
    decreases n,
{
    if n > 0 {
        law_map_mounts(mounts, root, n - 1);
        let before = map_mounts(mounts, root, n - 1);
        let now = map_mounts(mounts, root, n);
        let last = mounts[n - 1];
        lemma_kept_one(mounts, before, now, n, is_map_under(last.1, root));
    }
}

/// One more of a list in order, kept or left out.
proof fn lemma_kept_one<V>(s: Named<V>, before: Named<V>, now: Named<V>, n: int, keep: bool)
    requires
        in_order(s),
        in_order(before),
        0 < n <= s.len(),
        now == if keep {
            before.push(s[n - 1])
        } else {
            before
        },
        forall|x: int| 0 <= x < before.len() ==> s.take(n - 1).contains(#[trigger] before[x]),
    ensures
        in_order(now),
        forall|x: int| 0 <= x < now.len() ==> s.take(n).contains(#[trigger] now[x]),
        forall|v: (Seq<char>, V)| #[trigger] before.contains(v) ==> now.contains(v),
        keep ==> now.contains(s[n - 1]),
        forall|x: int|
            0 <= x < now.len() ==> before.contains(#[trigger] now[x]) || (keep && now[x] == s[n
                - 1]),
{
    assert forall|x: int| 0 <= x < before.len() implies exists|i: int|
        0 <= i < n - 1 && #[trigger] s[i] == #[trigger] before[x] by {
        let part = s.take(n - 1);
        assert(part.contains(before[x]));
        let i = choose|i: int| 0 <= i < part.len() && part[i] == before[x];
        assert(s[i] == before[x]);
    }
    assert forall|x: int| 0 <= x < now.len() implies s.take(n).contains(#[trigger] now[x]) by {
        if x < before.len() {
            let i = choose|i: int| 0 <= i < n - 1 && #[trigger] s[i] == before[x];
            assert(s.take(n)[i] == now[x]);
        } else {
            assert(s.take(n)[n - 1] == now[x]);
        }
    }
    assert forall|i: int, j: int|
        #![trigger now[i], now[j]]
        0 <= i < j < now.len() implies name_less(now[i].0, now[j].0) by {
        assert(now[i] == before[i]);
        if j < before.len() {
            assert(now[j] == before[j]);
        } else {
            let a = choose|a: int| 0 <= a < n - 1 && #[trigger] s[a] == before[i];
            assert(name_less(s[a].0, s[n - 1].0));
        }
    }
    assert forall|v: (Seq<char>, V)| #[trigger] before.contains(v) implies now.contains(v) by {
        let x = choose|x: int| 0 <= x < before.len() && before[x] == v;
        assert(now[x] == v);
    }
    if keep {
        assert(now[before.len() as int] == s[n - 1]);
    }
    assert forall|x: int| 0 <= x < now.len() implies before.contains(#[trigger] now[x]) || (keep
        && now[x] == s[n - 1]) by {
        if x < before.len() {
            assert(before[x] == now[x]);
        }
    }
}

/// Leaving out the maps of Teamfight Tactics leaves out `map21` and `map22`, and
/// nothing else.
pub proof fn law_without_tft(mounts: Named<MountView>, n: int)
    requires
        in_order(mounts),
        0 <= n <= mounts.len(),
    ensures
        in_order(without_tft(mounts, n)),
        forall|i: int|
            0 <= i < n && (#[trigger] mounts[i]).0 != "map21"@ && mounts[i].0 != "map22"@
                ==> without_tft(mounts, n).contains(mounts[i]),
        forall|x: int|
            0 <= x < without_tft(mounts, n).len() ==> (#[trigger] without_tft(mounts, n)[x]).0
                != "map21"@ && without_tft(mounts, n)[x].0 != "map22"@ && mounts.take(n).contains(
                without_tft(mounts, n)[x],
            ),
    decreases n,
{
    if n > 0 {
        law_without_tft(mounts, n - 1);
        let before = without_tft(mounts, n - 1);
        let now = without_tft(mounts, n);
        let name = mounts[n - 1].0;
        lemma_kept_one(mounts, before, now, n, name != "map21"@ && name != "map22"@);
    }
}

/// The archives that a quick build reads are those of the mounts of the mod that
/// the game has an archive for, each once, in the order of the mod.
pub proof fn law_targets(mods: Named<MountView>, game: Named<PathView>, n: int)
    requires
        0 <= n <= mods.len(),
    ensures
        forall|x: int|
            0 <= x < targets_of(mods, game, n).len() ==> 0 <= (#[trigger] targets_of(
                mods,
                game,
                n,
            )[x]).0 < n && lookup(game, mods[targets_of(mods, game, n)[x].0].0) == Some(
                targets_of(mods, game, n)[x].1,
            ),
        forall|x: int, y: int|
            0 <= x < y < targets_of(mods, game, n).len() ==> (#[trigger] targets_of(
                mods,
                game,
                n,
            )[x]).0 < (#[trigger] targets_of(mods, game, n)[y]).0,
        forall|i: int|
            0 <= i < n && lookup(game, (#[trigger] mods[i]).0) is Some ==> targets_of(
                mods,
                game,
                n,
            ).contains((i, lookup(game, mods[i].0)->0)),
    decreases n,
{
    if n > 0 {
        law_targets(mods, game, n - 1);
        let before = targets_of(mods, game, n - 1);
        let now = targets_of(mods, game, n);
        assert forall|x: int| 0 <= x < now.len() implies 0 <= (#[trigger] now[x]).0 < n && lookup(
            game,
            mods[now[x].0].0,
        ) == Some(now[x].1) by {
            if x < before.len() {
                assert(now[x] == before[x]);
            }
        }
        assert forall|x: int, y: int| 0 <= x < y < now.len() implies (#[trigger] now[x]).0 < (
        #[trigger] now[y]).0 by {
            assert(now[x] == before[x]);
            if y < before.len() {
                assert(now[y] == before[y]);
            }
        }
        assert forall|i: int|
            0 <= i < n && lookup(game, (#[trigger] mods[i]).0) is Some implies now.contains(
            (i, lookup(game, mods[i].0)->0),
        ) by {
            let v = (i, lookup(game, mods[i].0)->0);
            if i < n - 1 {
                let x = choose|x: int| 0 <= x < before.len() && before[x] == v;
                assert(now[x] == v);
            } else {
                assert(now[before.len() as int] == v);
            }
        }
    }
}

/// A quick build after steps of which each wrote under a name, or nothing.
pub open spec fn after_steps(b: FastView, steps: Seq<Option<Seq<char>>>) -> FastView
    decreases steps.len(),
{
    if steps.len() == 0 {
        b
    } else {
        advanced(after_steps(b, steps.drop_last()), steps.last())
    }
}

/// A quick build asks for all its targets, one after the other, then for all maps,
/// and then for nothing more. What was written under a name stays noted, and the
/// mod stays what it is.
pub proof fn law_fast_steps(b: FastView, steps: Seq<Option<Seq<char>>>)
    requires
        b.done == 0,
    ensures
        ({
            let now = after_steps(b, steps);
            let k = steps.len() as int;
            &&& now.mods == b.mods && now.targets == b.targets && now.maps == b.maps
            &&& now.game_path == b.game_path && now.name == b.name
            &&& k < b.targets.len() ==> next_action(now) == ActionView::ReadBase(b.targets[k].1)
            &&& b.targets.len() <= k < b.targets.len() + b.maps.len() ==> next_action(now)
                == ActionView::ReadMap(b.maps[k - b.targets.len()].1)
            &&& k >= b.targets.len() + b.maps.len() ==> next_action(now) is Finish
            &&& forall|x: Seq<char>| #[trigger]
                now.written.contains(x) <==> b.written.contains(x) || steps.contains(Some(x))
            &&& b.written.is_prefix_of(now.written)
        }),
    decreases steps.len(),
{
    lemma_steps_done(b, steps);
    if steps.len() > 0 {
        let first = steps.drop_last();
        law_fast_steps(b, first);
        let before = after_steps(b, first);
        let now = after_steps(b, steps);
        assert forall|x: Seq<char>| #[trigger] now.written.contains(x) <==> b.written.contains(x)
            || steps.contains(Some(x)) by {
            let v = Some(x);
            if steps.contains(v) {
                let i = choose|i: int| 0 <= i < steps.len() && steps[i] == v;
                if i < first.len() {
                    assert(first[i] == v);
                }
            }
            if first.contains(v) {
                let i = choose|i: int| 0 <= i < first.len() && first[i] == v;
                assert(steps[i] == v);
            }
            assert(steps[steps.len() - 1] == steps.last());
            if before.written.contains(x) {
                let i = choose|i: int| 0 <= i < before.written.len() && before.written[i] == x;
                assert(now.written[i] == x);
            }
            if now.written.contains(x) {
                let i = choose|i: int| 0 <= i < now.written.len() && now.written[i] == x;
                if i < before.written.len() {
                    assert(before.written[i] == x);
                }
            }
            if steps.last() == v {
                assert(now.written[before.written.len() as int] == x);
            }
        }
    }
}

proof fn lemma_steps_done(b: FastView, steps: Seq<Option<Seq<char>>>)
    ensures
        after_steps(b, steps).done == b.done + steps.len(),
    decreases steps.len(),
{
    if steps.len() > 0 {
        lemma_steps_done(b, steps.drop_last());
    }
}

/// The mods that are loaded are all that can be read, in order: mod `x` is file
/// `places[x]`.
pub proof fn law_readable_mods(mods: Seq<ModFile>, n: int) -> (places: Seq<int>)
    requires
        0 <= n <= mods.len(),
    ensures
        places.len() == readable_mods(mods, n).len(),
        forall|x: int, y: int| 0 <= x < y < places.len() ==> places[x] < places[y],
        forall|x: int|
            0 <= x < places.len() ==> 0 <= #[trigger] places[x] < n && fantome_file_mounts(
                mods[places[x]].bytes@,
            ) == Ok::<Named<MountView>, OverlayError>(
                readable_mods(mods, n)[x],
            ),
        forall|i: int|
            0 <= i < n && fantome_file_mounts((#[trigger] mods[i]).bytes@) is Ok
                ==> places.contains(i),
    decreases n,
{
    if n <= 0 {
        Seq::empty()
    } else {
        let before = law_readable_mods(mods, n - 1);
        if fantome_file_mounts(mods[n - 1].bytes@) is Ok {
            let places = before.push(n - 1);
            assert forall|x: int| 0 <= x < places.len() implies 0 <= #[trigger] places[x] < n
                && fantome_file_mounts(mods[places[x]].bytes@) == Ok::<
                Named<MountView>,
                OverlayError,
            >(readable_mods(mods, n)[x]) by {
                if x < before.len() {
                    assert(places[x] == before[x]);
                }
            }
            assert forall|i: int|
                0 <= i < n && fantome_file_mounts((#[trigger] mods[i]).bytes@) is Ok implies
                places.contains(i) by {
                if i < n - 1 {
                    let x = choose|x: int| 0 <= x < before.len() && before[x] == i;
                    assert(places[x] == i);
                } else {
                    assert(places[before.len() as int] == i);
                }
            }
            places
        } else {
            before
        }
    }
}

/// A path with another extension has that extension, and is otherwise the same:
/// only its file name differs, and not before its last dot.
pub proof fn law_with_extension(p: PathView, name: Seq<char>, ext: Seq<char>)
    requires
        p.len() > 0,
        p.last() == PartView::Normal(name),
        stem_of(name).len() > 0,
        forall|i: int| 0 <= i < ext.len() ==> ext[i] != '.',
    ensures
        with_extension_of(p, ext).drop_last() == p.drop_last(),
        file_stem_of(with_extension_of(p, ext)) == file_stem_of(p),
        path_extension(with_extension_of(p, ext)) == Some(ext),
{
    let stem = stem_of(name);
    let now = stem + seq!['.'] + ext;
    let n = stem.len() as int;
    assert(with_extension_of(p, ext).drop_last() =~= p.drop_last());
    assert(with_extension_of(p, ext).last() == PartView::Normal(now));
    assert(now[n] == '.');
    assert forall|i: int| n < i < now.len() implies now[i] != '.' by {
        assert(now[i] == ext[i - n - 1]);
    }
    lemma_last_dot(now, now.len() as int, n);
    assert(now.take(n) =~= stem);
    assert(now.skip(n + 1) =~= ext);
}

proof fn lemma_last_dot(s: Seq<char>, n: int, at: int)
    requires
        0 <= at < n <= s.len(),
        s[at] == '.',
        forall|i: int| at < i < n ==> s[i] != '.',
    ensures
        last_dot(s, n) == Some(at),
    decreases n,
{
    if at < n - 1 {
        lemma_last_dot(s, n - 1, at);
    }
}

/// A name and its extension make up a file name again, and the extension has no
/// dot.
pub proof fn law_stem_and_extension(name: Seq<char>)
    ensures
        match extension_of(name) {
            Some(ext) => {
                &&& name == stem_of(name) + seq!['.'] + ext
                &&& stem_of(name).len() > 0
                &&& forall|i: int| 0 <= i < ext.len() ==> ext[i] != '.'
            },
            None => {
                &&& stem_of(name) == name
                &&& forall|i: int| 0 < i < name.len() ==> name[i] != '.'
            },
        },
{
    lemma_dot(name, name.len() as int);
    match last_dot(name, name.len() as int) {
        Some(at) => {
            assert(name =~= name.take(at) + seq!['.'] + name.skip(at + 1));
        },
        None => {},
    }
}

proof fn lemma_dot(s: Seq<char>, n: int)
    requires
        0 <= n <= s.len(),
    ensures
        match last_dot(s, n) {
            Some(at) => 0 <= at < n && s[at] == '.' && forall|i: int| at < i < n ==> s[i] != '.',
            None => forall|i: int| 0 <= i < n ==> s[i] != '.',
        },
    decreases n,
{
    if n > 0 {
        lemma_dot(s, n - 1);
    }
}

/// The names that mods lose are those of the subchunk tables of all archives of the
/// game: the hash of the archive's path, with `SubChunkTOC` as its extension, in
/// small letters. No others are lost.
pub proof fn law_lost_names(game: Named<MountView>, name: u64)
    ensures
        lost_names(game).contains(name) <==> exists|g: int| #[trigger]
            is_table_of(game, g, name),
{
    let paths = mount_paths(game);
    if lost_names(game).contains(name) {
        let g = choose|g: int|
            0 <= g < paths.len() && #[trigger] subchunk_toc_hash(paths[g]) == name;
        assert(is_table_of(game, g, name));
    }
    if exists|g: int| #[trigger] is_table_of(game, g, name) {
        let g = choose|g: int| #[trigger] is_table_of(game, g, name);
        assert(subchunk_toc_hash(paths[g]) == name);
    }
}

/// Whether `name` is that of the subchunk table of archive `g`.
pub open spec fn is_table_of(game: Named<MountView>, g: int, name: u64) -> bool {
    &&& 0 <= g < game.len()
    &&& name == lower_hash(
        encode_utf8(path_text(with_extension_of(game[g].1.relpath, "SubChunkTOC"@))),
    )
}

/// Whether `name` is that of the subchunk table of archive `g` of a game install.
pub open spec fn is_table_at(game: GamePathsView, g: int, name: u64) -> bool {
    &&& 0 <= g < game.mounts.len()
    &&& name == lower_hash(
        encode_utf8(
            path_text(
                with_extension_of(
                    relative_to(game.mounts[g].1, game.game_path),
                    "SubChunkTOC"@,
                ),
            ),
        ),
    )
}

/// The names that a mod loses in a quick build are those of the subchunk tables of
/// all archives of the game, by their paths in it.
pub proof fn law_lost_quickly(game: GamePathsView, name: u64)
    ensures
        blocked_names(game_rel_paths(game.mounts, game.game_path)).contains(name) <==> exists|
            g: int,
        | #[trigger] is_table_at(game, g, name),
{
    let paths = game_rel_paths(game.mounts, game.game_path);
    let blocked = blocked_names(paths);
    if blocked.contains(name) {
        let g = choose|g: int|
            0 <= g < paths.len() && #[trigger] subchunk_toc_hash(paths[g]) == name;
        assert(is_table_at(game, g, name));
    }
    if exists|g: int| #[trigger] is_table_at(game, g, name) {
        let g = choose|g: int| #[trigger] is_table_at(game, g, name);
        assert(subchunk_toc_hash(paths[g]) == name);
    }
}

/// A quick build that has started has every mount of the mod, without what is lost,
/// and with one entry for each name: that of the last mount that has it. Nothing is
/// done yet. The game archives of the mod's names are to be read, and then all maps.
pub proof fn law_fast_started(
    r: Result<FastBuild, OverlayError>,
    name: Seq<char>,
    mounts: Named<MountView>,
    game: GamePathsView,
    ignore: bool,
)
    requires
        finite_mounts(mounts),
        started(r, name, mounts, game, ignore),
        r is Ok,
    ensures
        ({
            let blocked = blocked_names(game_rel_paths(game.mounts, game.game_path));
            let b = r->Ok_0@;
            &&& queue_is(seq![b.mods], seq![mounts], blocked, 1)
            &&& b.mods.len() > 0
            &&& b.done == 0 && b.written.len() == 0
            &&& b.name == name && b.game_path == game.game_path
            &&& b.targets == targets_of(b.mods, game.mounts, b.mods.len() as int)
            &&& b.maps == map_mounts(game.mounts, game.game_path, game.mounts.len() as int)
        }),
{
    let blocked = blocked_names(game_rel_paths(game.mounts, game.game_path));
    let mods = seq![mounts];
    assert(mods[0] == mounts);
    reveal_with_fuel(mod_queue, 2);
    reveal_with_fuel(queue_reconciled, 2);
    let b = r->Ok_0@;
    assert(mod_queue(mods, blocked, ignore, 1) == Ok::<Seq<Named<MountView>>, nat>(
        Seq::<Named<MountView>>::empty().push(b.mods),
    ));
    assert(Seq::<Named<MountView>>::empty().push(b.mods) =~= seq![b.mods]);
    assert forall|k: int| 0 <= k < mods.len() implies finite_mounts(#[trigger] mods[k]) by {}
    law_queue(mods, blocked, ignore, 1);
    lemma_within_len(mounts, blocked, ignore);
}

proof fn lemma_within_len(mounts: Named<MountView>, blocked: Set<u64>, ignore: bool)
    requires
        ({
            let left = stripped(mounts, blocked, mounts.len() as int);
            reconcile_within(left, ignore, left.len() as int).1 is None
        }),
    ensures
        ({
            let left = stripped(mounts, blocked, mounts.len() as int);
            reconcile_within(left, ignore, left.len() as int).0.len() == left.len()
        }),
{
    let left = stripped(mounts, blocked, mounts.len() as int);
    lemma_within_keeps_len(left, ignore, left.len() as int);
}

proof fn lemma_within_keeps_len(left: Named<MountView>, ignore: bool, n: int)
    requires
        0 <= n <= left.len(),
        reconcile_within(left, ignore, n).1 is None,
    ensures
        reconcile_within(left, ignore, n).0.len() == left.len(),
    decreases n,
{
    if n > 0 {
        lemma_within_keeps_len(left, ignore, n - 1);
    }
}

/// A quick build does not start just where the mod has nothing that is not lost, or
/// its mounts conflict; where its entries reconcile, or conflicts are ignored, they
/// do not.
pub proof fn law_fast_refused(
    r: Result<FastBuild, OverlayError>,
    name: Seq<char>,
    mounts: Named<MountView>,
    game: GamePathsView,
    ignore: bool,
)
    requires
        finite_mounts(mounts),
        started(r, name, mounts, game, ignore),
        r is Err,
    ensures
        ({
            let blocked = blocked_names(game_rel_paths(game.mounts, game.game_path));
            ||| r->Err_0 is EmptyMod && forall|j: int, e: u64| #[trigger]
                has_at(mounts, j, e) ==> blocked.contains(e)
            ||| r->Err_0 is Conflicts && !ignore && !mods_agree(
                seq![mounts],
                blocked,
                ignore,
                1,
            )
        }),
{
    let blocked = blocked_names(game_rel_paths(game.mounts, game.game_path));
    let total = mounts.len() as int;
    let left = stripped(mounts, blocked, total);
    if left.len() == 0 {
        assert forall|j: int, e: u64| #[trigger] has_at(mounts, j, e) implies blocked.contains(
            e,
        ) by {
            if !blocked.contains(e) {
                let i = law_stripped_keeps(mounts, blocked, total, j, e);
            }
        }
    } else {
        let mods = seq![mounts];
        assert(mods[0] == mounts);
        assert forall|k: int| 0 <= k < mods.len() implies finite_mounts(#[trigger] mods[k]) by {}
        if ignore || mods_agree(mods, blocked, ignore, 1) {
            law_agreeing_mods_queue(mods, blocked, ignore, 1);
            reveal_with_fuel(mod_queue, 2);
        }
    }
}

/// A file of an overlay directory is left over just where it is an archive and no
/// mount has its name: what belongs to a mount is never removed.
pub proof fn law_leftovers(mounts: Named<MountView>, filename: Seq<char>)
    requires
        in_order(mounts),
    ensures
        is_leftover(mounts, filename) <==> has_suffix(filename, ".wad.client"@) && forall|i: int|
            0 <= i < mounts.len() ==> (#[trigger] mounts[i]).0 != mount_name(filename),
{
    let name = mount_name(filename);
    if has_name(mounts, name) {
        lemma_slot_of(mounts, name);
        assert(mounts[crate::names::slot(mounts, name)].0 == name);
    } else {
        assert forall|i: int| 0 <= i < mounts.len() implies (#[trigger] mounts[i]).0 != name by {
            if mounts[i].0 == name {
                lemma_has_name(mounts, name, i);
            }
        }
    }
}

/// Of a quick build, what was written now is never taken for a leftover; any other
/// archive that is no map of the game is.
pub proof fn law_overlay_leftovers(
    filename: Seq<char>,
    written: Seq<Seq<char>>,
    game: Named<PathView>,
    game_path: PathView,
)
    ensures
        written.contains(mount_name(filename)) ==> !is_overlay_leftover(
            filename,
            written,
            game,
            game_path,
        ),
        !has_suffix(filename, ".wad.client"@) ==> !is_overlay_leftover(
            filename,
            written,
            game,
            game_path,
        ),
        has_suffix(filename, ".wad.client"@) && !written.contains(mount_name(filename)) && lookup(
            game,
            mount_name(filename),
        ) is None ==> is_overlay_leftover(filename, written, game, game_path),
{
}

/// Whether `s` holds digits alone.
pub open spec fn digits_only(s: Seq<char>) -> bool {
    forall|i: int| 0 <= i < s.len() ==> '0' <= #[trigger] s[i] <= '9'
}

/// `Map`, digits and `.wad.client` name a map; what stands between the two decides,
/// so that a map with a language in its name is none.
pub proof fn law_map_names(middle: Seq<char>, name: Seq<char>)
    ensures
        is_base_map_name("Map"@ + middle + ".wad.client"@) <==> digits_only(middle),
        is_base_map_name(name) ==> exists|digits: Seq<char>| #[trigger]
            digits_only(digits) && name == "Map"@ + digits + ".wad.client"@,
{
    let start = "Map"@;
    let end = ".wad.client"@;
    let whole = start + middle + end;
    let stem = whole.take(whole.len() - end.len());
    assert(stem =~= start + middle);
    assert(whole.skip(whole.len() - end.len()) =~= end);
    assert(stem.take(start.len() as int) =~= start);
    if digits_only(middle) {
        assert forall|i: int| start.len() <= i < stem.len() implies '0' <= #[trigger] stem[i]
            <= '9' by {
            assert(stem[i] == middle[i - start.len()]);
        }
    }
    if is_base_map_name(whole) {
        assert forall|i: int| 0 <= i < middle.len() implies '0' <= #[trigger] middle[i] <= '9' by {
            assert(stem[start.len() + i] == middle[i]);
        }
    }
    if is_base_map_name(name) {
        let stem = name.take(name.len() - end.len());
        let digits = stem.skip(start.len() as int);
        assert forall|i: int| 0 <= i < digits.len() implies '0' <= #[trigger] digits[i] <= '9' by {
            assert(stem[start.len() + i] == digits[i]);
        }
        assert(digits_only(digits));
        assert(stem =~= start + digits);
        assert(name =~= stem + end);
    }
}

/// The maps of an install are the archives of maps that stand in
/// `DATA/FINAL/Maps/Shipping` of it, in letters of either case.
pub proof fn law_map_paths(
    root: PathView,
    a: Seq<char>,
    b: Seq<char>,
    c: Seq<char>,
    d: Seq<char>,
    name: Seq<char>,
)
    ensures
        is_map_under(
            root + seq![
                PartView::Normal(a),
                PartView::Normal(b),
                PartView::Normal(c),
                PartView::Normal(d),
                PartView::Normal(name),
            ],
            root,
        ) <==> lower(a) == lower("DATA"@) && lower(b) == lower("FINAL"@) && lower(c) == lower(
            "Maps"@,
        ) && lower(d) == lower("Shipping"@) && is_base_map_name(name),
{
    let rel = seq![
        PartView::Normal(a),
        PartView::Normal(b),
        PartView::Normal(c),
        PartView::Normal(d),
        PartView::Normal(name),
    ];
    lemma_joined_under(root, rel);
}

/// Every map of the game is copied to the overlay, to the place where it stands in
/// the game.
pub proof fn law_maps_are_copied(
    mounts: Named<PathView>,
    game: PathView,
    overlay: PathView,
    i: int,
)
    requires
        in_order(mounts),
        0 <= i < mounts.len(),
        is_map_under(mounts[i].1, game),
    ensures
        map_copies(map_mounts(mounts, game, mounts.len() as int), game, overlay).contains(
            (mounts[i].1, overlay + mounts[i].1.skip(game.len() as int)),
        ),
{
    let total = mounts.len() as int;
    law_map_mounts(mounts, game, total);
    let maps = map_mounts(mounts, game, total);
    assert(maps.contains(mounts[i]));
    let x = choose|x: int| 0 <= x < maps.len() && maps[x] == mounts[i];
    assert(map_copies(maps, game, overlay)[x] == (
        mounts[i].1,
        overlay + mounts[i].1.skip(game.len() as int),
    ));
}

/// Walking an install, an archive file is mounted and no other file is; a directory
/// is descended into unless it is a link, or is named as an archive. Links are never
/// followed.
pub proof fn law_walk(stem: Seq<char>, name: Seq<char>, kind: FoundKind)
    ensures
        walk_step_of(stem + ".wad.client"@, FoundKind::File) is Mount,
        walk_step_of(name, kind) is Mount ==> kind is File && has_suffix(name, ".wad.client"@),
        walk_step_of(name, kind) is Descend ==> kind == (FoundKind::Directory {
            reparse_point: false,
        }),
        walk_step_of(name, FoundKind::Directory { reparse_point: false }) is Descend <==> !(
        has_suffix(name, ".wad"@) || has_suffix(name, ".wad.client"@)),
{
    let whole = stem + ".wad.client"@;
    assert(whole.skip(stem.len() as int) =~= ".wad.client"@);
    assert(whole.len() - ".wad.client"@.len() == stem.len());
}

/// A file of the game is mounted just where it lies in the game, is an archive of the
/// latest version and all its payloads can be read.
pub proof fn law_game_file(path: PathView, game_path: PathView, src: Seq<u8>)
    ensures
        game_file_error(path, game_path, src) is None <==> is_under(path, game_path) && read_error(
            src,
        ) is None && src[2] == 3 && src[3] == 4,
        !is_under(path, game_path) ==> game_file_error(path, game_path, src) == Some(
            OverlayError::NotUnderRoot,
        ),
        is_under(path, game_path) && toc_error(src) is Some ==> game_file_error(
            path,
            game_path,
            src,
        ) == Some(OverlayError::Wad(toc_error(src)->0)),
        is_under(path, game_path) && toc_error(src) is None && src[3] != 4 ==> game_file_error(
            path,
            game_path,
            src,
        ) == Some(OverlayError::UnknownVersion { major: 3, minor: src[3] }),
{
}

} // verus!
