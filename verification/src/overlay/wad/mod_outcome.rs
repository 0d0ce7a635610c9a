//! What a mod file holds.

use super::archive::{
    empty_content, packed_upto, payload_total, read_content, read_error, PackedFile,
};
use super::entry::{raw_entry, Entry};
use super::fantome::{
    fantome_mounts, loose_content, loose_entries, loose_roots, loose_skip, mod_relpath,
    packed_mounts, role_of, with_loose, RoleView, ZipView,
};
use super::index::without;
use super::mounted::{path_mount_name, MountView, OverlayError};
use crate::names::{
    in_order, has_name, law_put, lemma_has_name, lemma_name_less_irreflexive, lemma_slot_of, lookup,
    name_less, Named,
};
use crate::overlay::hash::path_hash;
use crate::text::{first_of, forward_slashes, has_prefix, has_suffix, lemma_first_of};
use vstd::prelude::*;
use vstd::utf8::encode_utf8;

verus! {

/// Whether entry `i` has the role.
pub open spec fn has_role(entries: Seq<ZipView>, i: int, role: RoleView) -> bool {
    0 <= i < entries.len() && role_of(entries[i].name, entries[i].is_dir) == role
}

/// The name in an archive of the file that entry `i` is: the hash of its path
/// behind `skip` characters.
pub open spec fn inner_name(entries: Seq<ZipView>, i: int, skip: int) -> u64 {
    path_hash(encode_utf8(entries[i].name.skip(skip)))
}

/// Whether entry `i` is the last of the first `n` with the role under its name.
pub open spec fn is_last_file(
    entries: Seq<ZipView>,
    role: RoleView,
    skip: int,
    n: int,
    i: int,
) -> bool {
    &&& has_role(entries, i, role)
    &&& i < n
    &&& forall|j: int|
        i < j < n && #[trigger] has_role(entries, j, role) ==> inner_name(entries, j, skip)
            != inner_name(entries, i, skip)
}

/// Whether entries are just the files with the role, each under the hash of its
/// path; of several with one hash the last counts.
pub open spec fn are_files(
    m: Map<u64, Entry>,
    entries: Seq<ZipView>,
    role: RoleView,
    skip: int,
    n: int,
) -> bool {
    &&& forall|i: int|
        i < n && #[trigger] has_role(entries, i, role) ==> m.contains_key(
            inner_name(entries, i, skip),
        )
    &&& forall|name: u64| #[trigger]
        m.contains_key(name) ==> exists|i: int|
            i < n && #[trigger] has_role(entries, i, role) && inner_name(entries, i, skip) == name
    &&& forall|i: int| #[trigger]
        is_last_file(entries, role, skip, n, i) ==> entries[i].body is Some && m[inner_name(
            entries,
            i,
            skip,
        )] == raw_entry(entries[i].body->0, 0)
}

/// The loose files of a mod with one role make up an archive of just these files,
/// uncompressed, each under the hash of its path; of several with one hash the
/// last counts. It is refused just where one cannot be read, and the first such is
/// named.
pub proof fn law_loose_files(entries: Seq<ZipView>, role: RoleView, skip: int, n: int)
    requires
        0 <= n <= entries.len(),
    ensures
        match loose_entries(entries, role, skip, n) {
            Ok(m) => are_files(m, entries, role, skip, n) && forall|i: int|
                i < n && #[trigger] has_role(entries, i, role) ==> entries[i].body is Some,
            Err(e) => exists|i: int|
                i < n && #[trigger] has_role(entries, i, role) && entries[i].body is None && e == (
                OverlayError::Unreadable { position: i as usize }) && forall|j: int|
                    j < i && #[trigger] has_role(entries, j, role) ==> entries[j].body is Some,
        },
    decreases n,
{
    if n > 0 {
        law_loose_files(entries, role, skip, n - 1);
        match loose_entries(entries, role, skip, n - 1) {
            Err(e) => {},
            Ok(before) => {
                if has_role(entries, n - 1, role) {
                    if entries[n - 1].body is Some {
                        let now = loose_entries(entries, role, skip, n)->Ok_0;
                        let h = inner_name(entries, n - 1, skip);
                        assert(now == before.insert(h, raw_entry(entries[n - 1].body->0, 0)));
                        assert forall|i: int| #[trigger]
                            is_last_file(entries, role, skip, n, i) implies entries[i].body is Some
                            && now[inner_name(entries, i, skip)] == raw_entry(
                            entries[i].body->0,
                            0,
                        ) by {
                            if i < n - 1 {
                                assert(inner_name(entries, i, skip) != h);
                                assert(is_last_file(entries, role, skip, n - 1, i));
                            }
                        }
                        assert forall|name: u64| #[trigger] now.contains_key(name) implies exists|
                            i: int,
                        |
                            i < n && #[trigger] has_role(entries, i, role) && inner_name(
                                entries,
                                i,
                                skip,
                            ) == name by {
                            if name == h {
                                assert(has_role(entries, n - 1, role));
                            } else {
                                assert(before.contains_key(name));
                            }
                        }
                    }
                } else {
                    assert forall|i: int| #[trigger] is_last_file(
                        entries,
                        role,
                        skip,
                        n,
                        i,
                    ) implies is_last_file(entries, role, skip, n - 1, i) by {}
                }
            },
        }
    }
}

/// The loose archives of a mod are named by the entries that are files of theirs.
proof fn lemma_roots(entries: Seq<ZipView>, n: int)
    requires
        0 <= n <= entries.len(),
    ensures
        in_order(loose_roots(entries, n)),
        forall|root: Seq<char>| #[trigger]
            has_name(loose_roots(entries, n), root) <==> exists|i: int|
                i < n && #[trigger] has_role(entries, i, RoleView::Loose(root)),
    decreases n,
{
    if n > 0 {
        lemma_roots(entries, n - 1);
        let before = loose_roots(entries, n - 1);
        let now = loose_roots(entries, n);
        match role_of(entries[n - 1].name, entries[n - 1].is_dir) {
            RoleView::Loose(last) => {
                assert forall|root: Seq<char>| #[trigger] has_name(now, root) <==> exists|i: int|
                    i < n && #[trigger] has_role(entries, i, RoleView::Loose(root)) by {
                    law_put(before, last, (), root);
                    assert(has_name(now, root) == (lookup(now, root) is Some));
                    assert(has_name(before, root) == (lookup(before, root) is Some));
                    if root == last {
                        assert(has_role(entries, n - 1, RoleView::Loose(root)));
                    }
                }
                law_put(before, last, (), last);
            },
            _ => {},
        }
    } else {
        let none: Named<()> = Seq::empty();
        assert forall|root: Seq<char>| !#[trigger] has_name(none, root) by {
            if has_name(none, root) {
                lemma_slot_of(none, root);
            }
        }
    }
}

/// The mount name of an archive of a mod.
pub open spec fn archive_mount(filename: Seq<char>) -> Seq<char> {
    path_mount_name(mod_relpath(filename))
}

/// Whether entry `i` is an archive file.
pub open spec fn is_packed(entries: Seq<ZipView>, i: int, filename: Seq<char>) -> bool {
    has_role(entries, i, RoleView::Packed(filename))
}

/// Whether entry `i` is the last archive file with its mount name.
pub open spec fn is_last_packed(
    entries: Seq<ZipView>,
    i: int,
    filename: Seq<char>,
    n: int,
) -> bool {
    &&& is_packed(entries, i, filename)
    &&& i < n
    &&& forall|j: int, other: Seq<char>|
        i < j < n && #[trigger] is_packed(entries, j, other) ==> archive_mount(other)
            != archive_mount(filename)
}

/// The archive files of a mod.
proof fn lemma_packed(entries: Seq<ZipView>, n: int)
    requires
        0 <= n <= entries.len(),
    ensures
        match packed_mounts(entries, n) {
            Ok(mounts) => {
                &&& in_order(mounts)
                &&& forall|i: int, f: Seq<char>|
                    i < n && #[trigger] is_packed(entries, i, f) ==> entries[i].body is Some
                        && read_error(entries[i].body->0) is None
                &&& forall|i: int, f: Seq<char>| #[trigger]
                    is_last_packed(entries, i, f, n) ==> lookup(mounts, archive_mount(f)) == Some(
                        MountView {
                            relpath: mod_relpath(f),
                            archive: read_content(entries[i].body->0),
                        },
                    )
                &&& forall|name: Seq<char>| #[trigger]
                    lookup(mounts, name) is Some ==> exists|i: int, f: Seq<char>|
                        i < n && #[trigger] is_packed(entries, i, f) && archive_mount(f) == name
            },
            Err(e) => exists|i: int, f: Seq<char>|
                i < n && #[trigger] is_packed(entries, i, f) && refuses(entries[i], i, e),
        },
    decreases n,
{
    if n > 0 {
        lemma_packed(entries, n - 1);
        let last = entries[n - 1];
        match packed_mounts(entries, n - 1) {
            Err(e) => {},
            Ok(before) => match role_of(last.name, last.is_dir) {
                RoleView::Packed(filename) => {
                    assert(is_packed(entries, n - 1, filename));
                    assert forall|f: Seq<char>| #[trigger]
                        is_packed(entries, n - 1, f) implies f == filename by {}
                    if packed_mounts(entries, n) is Ok {
                        let now = packed_mounts(entries, n)->Ok_0;
                        let body = last.body->0;
                        let v = MountView {
                            relpath: mod_relpath(filename),
                            archive: read_content(body),
                        };
                        let at = archive_mount(filename);
                        law_put(before, at, v, at);
                        assert forall|i: int, f: Seq<char>| #[trigger]
                            is_last_packed(entries, i, f, n) implies lookup(now, archive_mount(f))
                            == Some(
                            MountView {
                                relpath: mod_relpath(f),
                                archive: read_content(entries[i].body->0),
                            },
                        ) by {
                            if i < n - 1 {
                                assert(archive_mount(f) != at);
                                assert(is_last_packed(entries, i, f, n - 1));
                                law_put(before, at, v, archive_mount(f));
                            }
                        }
                        assert forall|name: Seq<char>| #[trigger]
                            lookup(now, name) is Some implies exists|i: int, f: Seq<char>|
                            i < n && #[trigger] is_packed(entries, i, f) && archive_mount(f)
                                == name by {
                            if name != at {
                                law_put(before, at, v, name);
                            }
                        }
                    } else {
                        let e = packed_mounts(entries, n)->Err_0;
                        assert(refuses(last, n - 1, e));
                    }
                },
                _ => {
                    assert forall|i: int, f: Seq<char>| #[trigger]
                        is_last_packed(entries, i, f, n) implies is_last_packed(
                        entries,
                        i,
                        f,
                        n - 1,
                    ) by {}
                },
            },
        }
    } else {
        let none: Named<MountView> = Seq::empty();
        assert forall|name: Seq<char>| #[trigger] lookup(none, name) is None by {
            if has_name(none, name) {
                lemma_slot_of(none, name);
            }
        }
    }
}

/// Whether entry `i` cannot be read for the reason `e`: it is damaged, or no
/// archive.
pub open spec fn refuses(entry: ZipView, i: int, e: OverlayError) -> bool {
    match entry.body {
        None => e == (OverlayError::Unreadable { position: i as usize }),
        Some(body) => read_error(body) is Some && e == OverlayError::Wad(read_error(body)->0),
    }
}

/// Whether a mount is the archive `filename` made of just the files with the role.
pub open spec fn is_loose_mount(
    m: MountView,
    filename: Seq<char>,
    entries: Seq<ZipView>,
    role: RoleView,
    skip: int,
) -> bool {
    &&& m.relpath == mod_relpath(filename)
    &&& m.archive.signature == empty_content().signature
    &&& are_files(m.archive.entries, entries, role, skip, entries.len() as int)
}

/// Whether root `x` is the last of the first `n` with its mount name.
spec fn is_last_root(roots: Named<()>, x: int, n: int) -> bool {
    &&& 0 <= x < n <= roots.len()
    &&& forall|y: int|
        x < y < n ==> archive_mount((#[trigger] roots[y]).0) != archive_mount(roots[x].0)
}

proof fn lemma_loose(mounts: Named<MountView>, entries: Seq<ZipView>, roots: Named<()>, n: int)
    requires
        in_order(mounts),
        0 <= n <= roots.len(),
        forall|x: int| 0 <= x < roots.len() ==> is_root(entries, (#[trigger] roots[x]).0),
    ensures
        match with_loose(mounts, entries, roots, n) {
            Ok(after) => {
                &&& in_order(after)
                &&& forall|x: int| #[trigger]
                    is_last_root(roots, x, n) ==> lookup(
                        after,
                        archive_mount(roots[x].0),
                    ) is Some && is_loose_mount(
                        lookup(after, archive_mount(roots[x].0))->0,
                        roots[x].0,
                        entries,
                        RoleView::Loose(roots[x].0),
                        loose_skip(roots[x].0),
                    )
                &&& forall|name: Seq<char>|
                    (forall|x: int|
                        0 <= x < n ==> archive_mount((#[trigger] roots[x]).0) != name)
                        ==> #[trigger] lookup(after, name) == lookup(mounts, name)
                &&& forall|x: int, i: int|
                    #![trigger roots[x], entries[i]]
                    0 <= x < n && has_role(entries, i, RoleView::Loose(roots[x].0))
                        ==> entries[i].body is Some
            },
            Err(e) => exists|x: int, i: int|
                0 <= x < n && #[trigger] has_role(entries, i, RoleView::Loose(roots[x].0))
                    && entries[i].body is None && e == (OverlayError::Unreadable {
                    position: i as usize,
                }),
        },
    decreases n,
{
    if n > 0 {
        lemma_loose(mounts, entries, roots, n - 1);
        let root = roots[n - 1].0;
        let role = RoleView::Loose(root);
        let skip = loose_skip(root);
        let total = entries.len() as int;
        law_loose_files(entries, role, skip, total);
        match with_loose(mounts, entries, roots, n - 1) {
            Err(e) => {
                let (x, i) = choose|x: int, i: int|
                    0 <= x < n - 1 && #[trigger] has_role(entries, i, RoleView::Loose(roots[x].0))
                        && entries[i].body is None && e == (OverlayError::Unreadable {
                        position: i as usize,
                    });
                assert(has_role(entries, i, RoleView::Loose(roots[x].0)));
            },
            Ok(before) => match loose_entries(entries, role, skip, total) {
                Err(e) => {
                    let i = choose|i: int|
                        i < total && #[trigger] has_role(entries, i, role) && entries[i].body
                            is None && e == (OverlayError::Unreadable { position: i as usize })
                            && forall|j: int|
                            j < i && #[trigger] has_role(entries, j, role) ==> entries[j].body
                                is Some;
                    assert(has_role(entries, i, RoleView::Loose(roots[n - 1].0)));
                },
                Ok(files) => {
                    assert(is_root(entries, root));
                    let i = choose|i: int| #[trigger] has_role(entries, i, role);
                    assert(files.dom().contains(inner_name(entries, i, skip)));
                    let at = archive_mount(root);
                    let v = MountView {
                        relpath: mod_relpath(root),
                        archive: loose_content(files),
                    };
                    let after = with_loose(mounts, entries, roots, n)->Ok_0;
                    law_put(before, at, v, at);
                    assert(is_loose_mount(v, root, entries, role, skip));
                    assert forall|x: int| #[trigger] is_last_root(roots, x, n) implies lookup(
                        after,
                        archive_mount(roots[x].0),
                    ) is Some && is_loose_mount(
                        lookup(after, archive_mount(roots[x].0))->0,
                        roots[x].0,
                        entries,
                        RoleView::Loose(roots[x].0),
                        loose_skip(roots[x].0),
                    ) by {
                        if x < n - 1 {
                            assert(archive_mount(roots[n - 1].0) != archive_mount(roots[x].0));
                            assert(is_last_root(roots, x, n - 1));
                            law_put(before, at, v, archive_mount(roots[x].0));
                        }
                    }
                    assert forall|name: Seq<char>|
                        (forall|x: int|
                            0 <= x < n ==> archive_mount((#[trigger] roots[x]).0)
                                != name) implies #[trigger] lookup(after, name) == lookup(
                        mounts,
                        name,
                    ) by {
                        assert(archive_mount(roots[n - 1].0) != name);
                        law_put(before, at, v, name);
                        assert(lookup(before, name) == lookup(mounts, name));
                    }
                },
            },
        }
    }
}

/// Whether some entry is a loose file of the archive `root`.
pub open spec fn is_root(entries: Seq<ZipView>, root: Seq<char>) -> bool {
    exists|i: int| #[trigger] has_role(entries, i, RoleView::Loose(root))
}

/// Whether some entry is a loose file of no particular archive.
pub open spec fn has_raw(entries: Seq<ZipView>) -> bool {
    exists|i: int| #[trigger] has_role(entries, i, RoleView::Raw)
}

/// The mount name of the loose files of no particular archive.
pub open spec fn raw_mount() -> Seq<char> {
    archive_mount("_RAW.wad.client"@)
}

/// Whether `root` is the last, in the order of names, of the archives that come as
/// loose files under its mount name.
pub open spec fn is_last_named_root(entries: Seq<ZipView>, root: Seq<char>) -> bool {
    &&& is_root(entries, root)
    &&& forall|other: Seq<char>| #[trigger]
        is_root(entries, other) && archive_mount(other) == archive_mount(root) ==> other == root
            || name_less(other, root)
}

/// What a mod holds under a mount name: its loose files of no particular archive
/// under theirs, else the loose files of the last archive of the name, else the
/// last archive file of the name. There is nothing else. Archives of loose files
/// hold just those, each under the hash of its path; of several with one hash the
/// last counts.
pub proof fn law_mod_holds(entries: Seq<ZipView>, mounts: Named<MountView>)
    requires
        fantome_mounts(entries) == Ok::<Named<MountView>, OverlayError>(mounts),
    ensures
        in_order(mounts),
        has_raw(entries) ==> lookup(mounts, raw_mount()) is Some && is_loose_mount(
            lookup(mounts, raw_mount())->0,
            "_RAW.wad.client"@,
            entries,
            RoleView::Raw,
            "RAW/"@.len() as int,
        ),
        forall|root: Seq<char>| #[trigger]
            is_last_named_root(entries, root) && !(has_raw(entries) && archive_mount(root)
                == raw_mount()) ==> lookup(mounts, archive_mount(root)) is Some && is_loose_mount(
                lookup(mounts, archive_mount(root))->0,
                root,
                entries,
                RoleView::Loose(root),
                loose_skip(root),
            ),
        forall|i: int, f: Seq<char>| #[trigger]
            is_last_packed(entries, i, f, entries.len() as int) && !(has_raw(entries)
                && archive_mount(f) == raw_mount()) && (forall|root: Seq<char>| #[trigger]
                is_root(entries, root) ==> archive_mount(root) != archive_mount(f)) ==> lookup(
                mounts,
                archive_mount(f),
            ) == Some(
                MountView {
                    relpath: mod_relpath(f),
                    archive: read_content(entries[i].body->0),
                },
            ),
        forall|name: Seq<char>| #[trigger]
            lookup(mounts, name) is Some ==> (has_raw(entries) && name == raw_mount()) || (exists|
                root: Seq<char>,
            | #[trigger] is_root(entries, root) && archive_mount(root) == name) || (exists|
                i: int,
                f: Seq<char>,
            | #[trigger] is_packed(entries, i, f) && archive_mount(f) == name),
{
    let n = entries.len() as int;
    let packed = packed_mounts(entries, n)->Ok_0;
    let roots = loose_roots(entries, n);
    let total = roots.len() as int;
    lemma_packed(entries, n);
    lemma_roots(entries, n);
    assert forall|x: int| 0 <= x < total implies is_root(entries, (#[trigger] roots[x]).0) by {
        lemma_has_name(roots, roots[x].0, x);
        assert(has_name(roots, roots[x].0));
    }
    lemma_loose(packed, entries, roots, total);
    let loose = with_loose(packed, entries, roots, total)->Ok_0;
    law_loose_files(entries, RoleView::Raw, "RAW/"@.len() as int, n);
    let files = loose_entries(entries, RoleView::Raw, "RAW/"@.len() as int, n)->Ok_0;
    let at = raw_mount();
    let v = MountView {
        relpath: mod_relpath("_RAW.wad.client"@),
        archive: loose_content(files),
    };
    assert(files.dom().is_empty() <==> !has_raw(entries)) by {
        if has_raw(entries) {
            let i = choose|i: int| #[trigger] has_role(entries, i, RoleView::Raw);
            assert(files.dom().contains(inner_name(entries, i, "RAW/"@.len() as int)));
        } else {
            assert forall|h: u64| !files.dom().contains(h) by {
                if files.contains_key(h) {
                    let i = choose|i: int|
                        i < n && #[trigger] has_role(entries, i, RoleView::Raw) && inner_name(
                            entries,
                            i,
                            "RAW/"@.len() as int,
                        ) == h;
                    assert(has_role(entries, i, RoleView::Raw));
                }
            }
            assert(files.dom() =~= Set::empty());
        }
    }
    assert forall|name: Seq<char>| !(has_raw(entries) && name == at) implies #[trigger] lookup(
        mounts,
        name,
    ) == lookup(loose, name) by {
        if has_raw(entries) {
            law_put(loose, at, v, name);
        }
    }
    if has_raw(entries) {
        law_put(loose, at, v, at);
    }
    assert forall|root: Seq<char>| #[trigger]
        is_last_named_root(entries, root) && !(has_raw(entries) && archive_mount(root)
            == raw_mount()) implies lookup(mounts, archive_mount(root)) is Some && is_loose_mount(
        lookup(mounts, archive_mount(root))->0,
        root,
        entries,
        RoleView::Loose(root),
        loose_skip(root),
    ) by {
        let i = choose|i: int| #[trigger] has_role(entries, i, RoleView::Loose(root));
        assert(has_name(roots, root));
        lemma_slot_of(roots, root);
        let x = crate::names::slot(roots, root);
        assert forall|y: int| x < y < total implies archive_mount((#[trigger] roots[y]).0)
            != archive_mount(roots[x].0) by {
            assert(is_root(entries, roots[y].0));
            assert(name_less(roots[x].0, roots[y].0));
            lemma_name_less_irreflexive(root);
            if archive_mount(roots[y].0) == archive_mount(root) && name_less(roots[y].0, root) {
                crate::names::lemma_name_less_transitive(root, roots[y].0, root);
            }
        }
        assert(is_last_root(roots, x, total));
    }
    assert forall|i: int, f: Seq<char>| #[trigger]
        is_last_packed(entries, i, f, n) && !(has_raw(entries) && archive_mount(f) == raw_mount())
            && (forall|root: Seq<char>| #[trigger]
            is_root(entries, root) ==> archive_mount(root) != archive_mount(f)) implies lookup(
        mounts,
        archive_mount(f),
    ) == Some(
        MountView { relpath: mod_relpath(f), archive: read_content(entries[i].body->0) },
    ) by {
        assert forall|x: int| 0 <= x < total implies archive_mount((#[trigger] roots[x]).0)
            != archive_mount(f) by {
            assert(is_root(entries, roots[x].0));
        }
        assert(lookup(loose, archive_mount(f)) == lookup(packed, archive_mount(f)));
    }
    assert forall|name: Seq<char>| #[trigger] lookup(mounts, name) is Some implies (has_raw(entries)
        && name == raw_mount()) || (exists|root: Seq<char>| #[trigger]
        is_root(entries, root) && archive_mount(root) == name) || (exists|i: int, f: Seq<char>|
        #[trigger]
        is_packed(entries, i, f) && archive_mount(f) == name) by {
        if !(has_raw(entries) && name == at) {
            if exists|x: int| 0 <= x < total && archive_mount((#[trigger] roots[x]).0) == name {
                let x = choose|x: int|
                    0 <= x < total && archive_mount((#[trigger] roots[x]).0) == name;
                assert(is_root(entries, roots[x].0));
            } else {
                assert(lookup(loose, name) == lookup(packed, name));
                assert(lookup(packed, name) is Some);
            }
        }
    }
}

/// A mod is refused just where one of its files cannot be read or is no archive
/// though it is named like one.
pub proof fn law_mod_refused(entries: Seq<ZipView>)
    ensures
        fantome_mounts(entries) is Ok <==> {
            &&& forall|i: int, f: Seq<char>| #[trigger]
                is_packed(entries, i, f) ==> entries[i].body is Some && read_error(
                    entries[i].body->0,
                ) is None
            &&& forall|i: int, root: Seq<char>| #[trigger]
                has_role(entries, i, RoleView::Loose(root)) ==> entries[i].body is Some
            &&& forall|i: int| #[trigger]
                has_role(entries, i, RoleView::Raw) ==> entries[i].body is Some
        },
        fantome_mounts(entries) matches Err(e) ==> exists|i: int|
            0 <= i < entries.len() && refuses(#[trigger] entries[i], i, e),
{
    let n = entries.len() as int;
    let roots = loose_roots(entries, n);
    let total = roots.len() as int;
    lemma_packed(entries, n);
    lemma_roots(entries, n);
    law_loose_files(entries, RoleView::Raw, "RAW/"@.len() as int, n);
    if packed_mounts(entries, n) is Ok {
        let packed = packed_mounts(entries, n)->Ok_0;
        assert forall|x: int| 0 <= x < total implies is_root(entries, (#[trigger] roots[x]).0) by {
            lemma_has_name(roots, roots[x].0, x);
            assert(has_name(roots, roots[x].0));
        }
        lemma_loose(packed, entries, roots, total);
        if with_loose(packed, entries, roots, total) is Ok {
            assert forall|i: int, root: Seq<char>| #[trigger]
                has_role(entries, i, RoleView::Loose(root)) implies entries[i].body is Some by {
                assert(has_name(roots, root));
                lemma_slot_of(roots, root);
                let x = crate::names::slot(roots, root);
                assert(roots[x].0 == root);
            }
            if fantome_mounts(entries) is Err {
                let e = fantome_mounts(entries)->Err_0;
                let i = choose|i: int|
                    i < n && #[trigger] has_role(entries, i, RoleView::Raw) && entries[i].body
                        is None && e == (OverlayError::Unreadable { position: i as usize })
                        && forall|j: int|
                        j < i && #[trigger] has_role(entries, j, RoleView::Raw) ==> entries[j].body
                            is Some;
                assert(refuses(entries[i], i, e));
            }
        } else {
            let e = with_loose(packed, entries, roots, total)->Err_0;
            let (x, i) = choose|x: int, i: int|
                0 <= x < total && #[trigger] has_role(entries, i, RoleView::Loose(roots[x].0))
                    && entries[i].body is None && e == (OverlayError::Unreadable {
                    position: i as usize,
                });
            assert(has_role(entries, i, RoleView::Loose(roots[x].0)));
            assert(refuses(entries[i], i, e));
        }
    } else {
        let e = packed_mounts(entries, n)->Err_0;
        let (i, f) = choose|i: int, f: Seq<char>|
            i < n && #[trigger] is_packed(entries, i, f) && refuses(entries[i], i, e);
        assert(is_packed(entries, i, f));
        assert(refuses(entries[i], i, e));
    }
}

/// The name of the loose file `rest` of the archive `root`.
pub open spec fn loose_name(root: Seq<char>, rest: Seq<char>) -> Seq<char> {
    "WAD/"@ + root + seq!['/'] + rest
}

/// The name of the loose file `rest` of no particular archive.
pub open spec fn raw_name(rest: Seq<char>) -> Seq<char> {
    "RAW/"@ + rest
}

/// What the name of a file in a mod says: `WAD/x.wad.client` is the archive file
/// `x.wad.client`, `WAD/x.wad.client/y` is the loose file `y` of that archive, and
/// `RAW/y` is the loose file `y`. No other name has a role.
pub proof fn law_roles(root: Seq<char>, rest: Seq<char>)
    requires
        forall|i: int| 0 <= i < root.len() ==> root[i] != '/',
        has_suffix(root, ".wad.client"@),
        rest.len() > 0,
    ensures
        role_of("WAD/"@ + root, false) == RoleView::Packed(root),
        role_of(loose_name(root, rest), false) == RoleView::Loose(root),
        loose_name(root, rest).skip(loose_skip(root)) == rest,
        role_of(raw_name(rest), false) == RoleView::Raw,
        raw_name(rest).skip("RAW/"@.len() as int) == rest,
{
    reveal_strlit("WAD/");
    reveal_strlit("RAW/");
    reveal_strlit(".wad.client");
    let a = "WAD/"@ + root;
    assert(a.take(4) =~= "WAD/"@);
    assert(a.skip(4) =~= root);
    lemma_first_of(root, '/', 0);
    let b = loose_name(root, rest);
    let tail = root + seq!['/'] + rest;
    assert(b.take(4) =~= "WAD/"@);
    assert(b.skip(4) =~= tail);
    lemma_first_of(tail, '/', 0);
    assert(tail[root.len() as int] == '/');
    let at = first_of(tail, '/', 0);
    if at < root.len() {
        assert(tail[at] == root[at]);
    }
    assert(at == root.len());
    assert(tail.take(at) =~= root);
    assert(b.skip(loose_skip(root)) =~= rest);
    let c = raw_name(rest);
    assert(c[0] == 'R');
    assert(c.take(4) =~= "RAW/"@);
    assert(c.skip(4) =~= rest);
    if has_prefix(c, "WAD/"@) {
        assert(c.take(4)[0] == 'W');
    }
}

/// A role comes from the name: the name is made of the parts that the role says.
pub proof fn law_roles_only(name: Seq<char>, is_dir: bool)
    ensures
        role_of(name, is_dir) is Packed ==> {
            let root = role_of(name, is_dir)->Packed_0;
            &&& !is_dir
            &&& name == "WAD/"@ + root
            &&& has_suffix(root, ".wad.client"@)
            &&& forall|i: int| 0 <= i < root.len() ==> root[i] != '/'
        },
        role_of(name, is_dir) is Loose ==> {
            let root = role_of(name, is_dir)->Loose_0;
            &&& !is_dir
            &&& has_suffix(root, ".wad.client"@)
            &&& forall|i: int| 0 <= i < root.len() ==> root[i] != '/'
            &&& exists|rest: Seq<char>| rest.len() > 0 && name == #[trigger] loose_name(root, rest)
        },
        role_of(name, is_dir) is Raw ==> !is_dir && exists|rest: Seq<char>|
            rest.len() > 0 && name == #[trigger] raw_name(rest),
{
    reveal_strlit("WAD/");
    reveal_strlit("RAW/");
    assert("WAD/"@.len() == 4 && "RAW/"@.len() == 4);
    if has_prefix(name, "WAD/"@) {
        let rest = name.skip(4);
        lemma_first_of(rest, '/', 0);
        let at = first_of(rest, '/', 0);
        assert(name =~= "WAD/"@ + rest);
        if at < rest.len() {
            let root = rest.take(at);
            let tail = rest.skip(at + 1);
            assert(rest =~= root + seq!['/'] + tail);
            assert(name =~= loose_name(root, tail));
            assert forall|i: int| 0 <= i < root.len() implies root[i] != '/' by {
                assert(root[i] == rest[i]);
            }
            assert(role_of(name, is_dir) is Ignored || role_of(name, is_dir) == RoleView::Loose(
                root,
            ));
            if role_of(name, is_dir) is Loose {
                assert(tail.len() > 0);
            }
        } else {
            assert(role_of(name, is_dir) is Ignored || role_of(name, is_dir) == RoleView::Packed(
                rest,
            ));
            assert forall|i: int| 0 <= i < rest.len() implies rest[i] != '/' by {}
        }
    } else if has_prefix(name, "RAW/"@) {
        let rest = name.skip(4);
        assert(name =~= raw_name(rest));
        assert(role_of(name, is_dir) is Ignored || role_of(name, is_dir) is Raw);
        if role_of(name, is_dir) is Raw {
            assert(rest.len() > 0);
        }
    }
}

/// The name of file `i` in an archive: the hash of its path with forward slashes.
pub open spec fn packed_name(files: Seq<PackedFile>, i: int) -> u64 {
    path_hash(encode_utf8(forward_slashes(files[i].path@)))
}

/// Whether file `i` is the last of the first `n` that has the name.
pub open spec fn is_last_named(files: Seq<PackedFile>, n: int, i: int, name: u64) -> bool {
    &&& 0 <= i < n
    &&& packed_name(files, i) == name
    &&& forall|j: int| i < j < n ==> #[trigger] packed_name(files, j) != name
}

/// A packed directory has a name for each of its files and no other, and under it the
/// bytes of the last file of that name, uncompressed.
pub proof fn law_packed_directory(files: Seq<PackedFile>, n: int, name: u64)
    requires
        0 <= n <= files.len(),
    ensures
        packed_upto(files, n).contains_key(name) <==> exists|i: int|
            0 <= i < n && #[trigger] packed_name(files, i) == name,
        forall|i: int| #[trigger]
            is_last_named(files, n, i, name) ==> packed_upto(files, n)[name] == raw_entry(
                files[i].bytes@,
                0,
            ),
    decreases n,
{
    if n > 0 {
        law_packed_directory(files, n - 1, name);
        let before = packed_upto(files, n - 1);
        let now = packed_upto(files, n);
        assert(now == before.insert(packed_name(files, n - 1), raw_entry(files[n - 1].bytes@, 0)));
        if packed_name(files, n - 1) == name {
            assert(0 <= n - 1 < n);
        } else {
            if before.contains_key(name) {
                let i = choose|i: int| 0 <= i < n - 1 && #[trigger] packed_name(files, i) == name;
                assert(0 <= i < n && packed_name(files, i) == name);
            }
        }
        assert forall|i: int| #[trigger] is_last_named(files, n, i, name) implies now[name]
            == raw_entry(files[i].bytes@, 0) by {
            if i < n - 1 {
                assert(packed_name(files, n - 1) != name);
                assert(is_last_named(files, n - 1, i, name));
            }
        }
    }
}

/// The size of all payloads together is that of the first names and that of the
/// others; the size of one is the length of its payload.
pub proof fn law_payload_total(entries: Map<u64, Entry>, a: Seq<u64>, b: Seq<u64>, name: u64)
    ensures
        payload_total(entries, a + b) == payload_total(entries, a) + payload_total(entries, b),
        payload_total(entries, seq![name]) == entries[name].bytes.len(),
        payload_total(entries, Seq::empty()) == 0,
    decreases b.len(),
{
    reveal_with_fuel(payload_total, 2);
    assert(seq![name].drop_last() =~= Seq::<u64>::empty());
    assert(seq![name].last() == name);
    if b.len() == 0 {
        assert(a + b =~= a);
    } else {
        law_payload_total(entries, a, b.drop_last(), name);
        assert((a + b).drop_last() =~= a + b.drop_last());
        assert((a + b).last() == b.last());
    }
}

/// Whether `places` are the positions of the mounts that stay, in order.
pub open spec fn stay_at(removed: Seq<bool>, places: Seq<int>) -> bool {
    &&& forall|k: int|
        0 <= k < places.len() ==> 0 <= #[trigger] places[k] < removed.len() && !removed[places[k]]
    &&& forall|k: int, l: int|
        0 <= k < l < places.len() ==> #[trigger] places[k] < #[trigger] places[l]
    &&& forall|i: int|
        0 <= i < removed.len() && !#[trigger] removed[i] ==> places.contains(i)
}

/// Where some mounts are removed, all the others stay, unchanged and in order.
pub proof fn law_removed(mounts: Named<MountView>, removed: Seq<bool>) -> (places: Seq<int>)
    requires
        removed.len() == mounts.len(),
    ensures
        stay_at(removed, places),
        without(mounts, removed).len() == places.len(),
        forall|k: int|
            0 <= k < places.len() ==> (#[trigger] without(mounts, removed)[k]) == mounts[places[k]],
    decreases mounts.len(),
{
    if mounts.len() == 0 {
        Seq::empty()
    } else {
        let n = mounts.len() - 1;
        let shorter = removed.drop_last();
        let before = law_removed(mounts.drop_last(), shorter);
        let places = if removed.last() {
            before
        } else {
            before.push(n)
        };
        assert forall|k: int| 0 <= k < places.len() implies 0 <= #[trigger] places[k]
            < removed.len() && !removed[places[k]] by {
            if k < before.len() {
                assert(0 <= before[k] < shorter.len() && !shorter[before[k]]);
            }
        }
        assert forall|k: int, l: int| 0 <= k < l < places.len() implies #[trigger] places[k]
            < #[trigger] places[l] by {
            assert(0 <= before[k] < shorter.len());
            if l < before.len() {
                assert(before[k] < before[l]);
            }
        }
        assert forall|i: int|
            0 <= i < removed.len() && !#[trigger] removed[i] implies places.contains(i) by {
            if i < n {
                assert(!shorter[i]);
                assert(before.contains(i));
                let k = choose|k: int| 0 <= k < before.len() && before[k] == i;
                assert(places[k] == i);
            } else {
                assert(places[before.len() as int] == i);
            }
        }
        assert forall|k: int| 0 <= k < places.len() implies (#[trigger] without(mounts, removed)[k])
            == mounts[places[k]] by {
            if k < before.len() {
                assert(without(mounts.drop_last(), shorter)[k] == mounts.drop_last()[before[k]]);
                assert(0 <= before[k] < shorter.len());
            }
        }
        places
    }
}

} // verus!
