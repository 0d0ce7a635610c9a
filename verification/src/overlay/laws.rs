//! What holds of overlays as a whole.

use super::hash::{
    before_dot, hex_digit_value, hex_value, is_hash_name, is_hex_digit, lemma_before_dot,
    lower_byte, lower_bytes, path_hash, without_leading_dots,
};
use super::pipeline::{stripped, without_blocked};
use super::wad::archive::{common_names, digest_input, layout_upto, loc_with, Content};
use super::wad::entry::{checksum_of, decompressed, optimal_form, Entry};
use super::wad::index::{
    base_mount, best_overlap, merge_into, merge_into_others, merged, overlap_count, with_mod_mount,
};
use super::wad::mounted::{
    conflict_count, mount_name, path_mount_name, reconciled, reconciles, MountView,
};
use crate::names::{in_order, law_put, lookup, Named};
use crate::bytes::le64_bytes;
use crate::codecs::{xxh3_of, xxh64_of};
use crate::text::{has_suffix, lower};
use vstd::prelude::*;

verus! {

/// Files whose names differ only in the case of their letters are mounted under
/// one name.
pub proof fn law_mount_name_case(a: Seq<char>, b: Seq<char>)
    requires
        lower(a) == lower(b),
    ensures
        mount_name(a) == mount_name(b),
{
}

proof fn lemma_lower_leading(s: Seq<u8>)
    ensures
        without_leading_dots(lower_bytes(s)) == lower_bytes(without_leading_dots(s)),
    decreases s.len(),
{
    if s.len() > 0 && (s[0] == 0x2E || s[0] == 0x2F) {
        assert(lower_bytes(s).skip(1) =~= lower_bytes(s.skip(1)));
        lemma_lower_leading(s.skip(1));
    }
}

proof fn lemma_lower_before_dot(s: Seq<u8>)
    ensures
        before_dot(lower_bytes(s)) == lower_bytes(before_dot(s)),
    decreases s.len(),
{
    if s.len() == 0 || s[0] == 0x2E {
        assert(before_dot(lower_bytes(s)) =~= lower_bytes(before_dot(s)));
    } else {
        assert(lower_bytes(s).skip(1) =~= lower_bytes(s.skip(1)));
        lemma_lower_before_dot(s.skip(1));
        assert(before_dot(lower_bytes(s)) =~= lower_bytes(before_dot(s)));
    }
}

proof fn lemma_lower_hex(s: Seq<u8>)
    requires
        forall|i: int| 0 <= i < s.len() ==> is_hex_digit(#[trigger] s[i]),
    ensures
        hex_value(lower_bytes(s)) == hex_value(s),
    decreases s.len(),
{
    if s.len() > 0 {
        assert(lower_bytes(s).drop_last() =~= lower_bytes(s.drop_last()));
        lemma_lower_hex(s.drop_last());
        assert(is_hex_digit(s[s.len() - 1]));
        assert(hex_digit_value(lower_byte(s.last())) == hex_digit_value(s.last()));
    }
}

/// The name of an entry does not depend on the case of the letters in its path.
pub proof fn law_path_hash_case(s: Seq<u8>)
    ensures
        path_hash(lower_bytes(s)) == path_hash(s),
{
    let rest = without_leading_dots(s);
    let low = lower_bytes(rest);
    lemma_lower_leading(s);
    lemma_lower_before_dot(rest);
    assert(lower_bytes(low) =~= low);
    let name = before_dot(rest);
    if is_hash_name(rest) {
        lemma_lower_hex(name);
        assert forall|i: int| 0 <= i < 16 implies is_hex_digit(
            #[trigger] before_dot(low)[i],
        ) by {
            assert(is_hex_digit(name[i]));
        }
    } else if is_hash_name(low) {
        assert forall|i: int| 0 <= i < 16 implies is_hex_digit(#[trigger] name[i]) by {
            assert(is_hex_digit(before_dot(low)[i]));
        }
    }
}

/// The name of an entry does not depend on dots and slashes before its path.
pub proof fn law_path_hash_start(s: Seq<u8>, c: u8)
    requires
        c == 0x2E || c == 0x2F,
    ensures
        path_hash(seq![c] + s) == path_hash(s),
{
    assert((seq![c] + s).skip(1) =~= s);
}

/// What is left of a mod holds nothing that is blocked, and no empty mounts.
pub proof fn law_stripped(mounts: Named<MountView>, blocked: Set<u64>, n: int, i: int)
    requires
        0 <= n <= mounts.len(),
        0 <= i < stripped(mounts, blocked, n).len(),
    ensures
        ({
            let entries = stripped(mounts, blocked, n)[i].1.archive.entries;
            &&& forall|name: u64| #[trigger] entries.contains_key(name) ==> !blocked.contains(name)
            &&& !entries.dom().is_empty()
        }),
    decreases n,
{
    let now = stripped(mounts, blocked, n);
    let before = stripped(mounts, blocked, n - 1);
    if n > 0 {
        if i < before.len() {
            law_stripped(mounts, blocked, n - 1, i);
            assert(now[i] == before[i]);
        } else {
            assert(now[i] == (mounts[n - 1].0, without_blocked(mounts[n - 1].1, blocked)));
        }
    }
}

/// What is not blocked stays in the mod.
pub proof fn law_stripped_keeps(
    mounts: Named<MountView>,
    blocked: Set<u64>,
    n: int,
    k: int,
    name: u64,
) -> (i: int)
    requires
        0 <= k < n <= mounts.len(),
        mounts[k].1.archive.entries.contains_key(name),
        !blocked.contains(name),
    ensures
        0 <= i < stripped(mounts, blocked, n).len(),
        stripped(mounts, blocked, n)[i].0 == mounts[k].0,
        stripped(mounts, blocked, n)[i].1.archive.entries.contains_key(name),
        stripped(mounts, blocked, n)[i].1.archive.entries[name]
            == mounts[k].1.archive.entries[name],
    decreases n,
{
    let now = stripped(mounts, blocked, n);
    let before = stripped(mounts, blocked, n - 1);
    if k < n - 1 {
        let i = law_stripped_keeps(mounts, blocked, n - 1, k, name);
        assert(now[i] == before[i]);
        i
    } else {
        let m = without_blocked(mounts[k].1, blocked);
        assert(m.archive.entries.dom().contains(name));
        assert(now == before.push((mounts[k].0, m)));
        before.len() as int
    }
}

/// The mount that a mod is matched with by its entries shares some with it, none
/// shares more, and none before it as many. There is none where nothing is
/// shared.
pub proof fn law_best_overlap(mounts: Named<MountView>, archive: Content, n: int)
    requires
        0 <= n <= mounts.len(),
    ensures
        match best_overlap(mounts, archive, n) {
            Some(i) => {
                &&& 0 <= i < n
                &&& overlap_count(mounts[i].1.archive, archive) > 0
                &&& forall|j: int|
                    0 <= j < n ==> overlap_count((#[trigger] mounts[j]).1.archive, archive)
                        <= overlap_count(mounts[i].1.archive, archive)
                &&& forall|j: int|
                    0 <= j < i ==> overlap_count((#[trigger] mounts[j]).1.archive, archive)
                        < overlap_count(mounts[i].1.archive, archive)
            },
            None => forall|j: int|
                0 <= j < n ==> overlap_count((#[trigger] mounts[j]).1.archive, archive) == 0,
        },
    decreases n,
{
    if n > 0 {
        law_best_overlap(mounts, archive, n - 1);
    }
}

/// Where conflicts are ignored there is none, and the other mod's entry is
/// taken.
pub proof fn law_ignored_conflicts(
    ours: Map<u64, Entry>,
    theirs: Map<u64, Entry>,
    names: Seq<u64>,
    name: u64,
)
    ensures
        conflict_count(ours, theirs, true, names) == 0,
        ours.contains_key(name) && theirs.contains_key(name) ==> reconciled(
            ours,
            theirs,
            true,
        )[name] == theirs[name],
    decreases names.len(),
{
    if names.len() > 0 {
        law_ignored_conflicts(ours, theirs, names.drop_last(), name);
    }
}

/// Reconciling a second time changes nothing.
pub proof fn law_reconciled_twice(ours: Map<u64, Entry>, theirs: Map<u64, Entry>, ignore: bool)
    ensures
        reconciled(reconciled(ours, theirs, ignore), theirs, ignore) == reconciled(
            ours,
            theirs,
            ignore,
        ),
        reconciled(ours, theirs, ignore).dom() == ours.dom(),
{
    let once = reconciled(ours, theirs, ignore);
    assert(once.dom() =~= ours.dom());
    assert(reconciled(once, theirs, ignore) =~= once);
}

/// A mount that a mod was merged into has all entries of the mod, and keeps its
/// own that the mod does not have.
pub proof fn law_merged(m: MountView, entries: Map<u64, Entry>, name: u64)
    ensures
        entries.contains_key(name) ==> merged(m, entries).archive.entries.contains_key(name)
            && merged(m, entries).archive.entries[name] == entries[name],
        !entries.contains_key(name) ==> (merged(m, entries).archive.entries.contains_key(name)
            <==> m.archive.entries.contains_key(name)),
        !entries.contains_key(name) && m.archive.entries.contains_key(name) ==> merged(
            m,
            entries,
        ).archive.entries[name] == m.archive.entries[name],
        merged(m, entries).relpath == m.relpath,
{
}

pub proof fn lemma_merge_into(
    overlay: Named<MountView>,
    name: Seq<char>,
    base: MountView,
    entries: Map<u64, Entry>,
    other: Seq<char>,
)
    requires
        in_order(overlay),
    ensures
        in_order(merge_into(overlay, name, base, entries)),
        lookup(merge_into(overlay, name, base, entries), name) == Some(
            merged(
                match lookup(overlay, name) {
                    Some(m) => m,
                    None => base,
                },
                entries,
            ),
        ),
        other != name ==> lookup(merge_into(overlay, name, base, entries), other) == lookup(
            overlay,
            other,
        ),
{
    let start = match lookup(overlay, name) {
        Some(m) => m,
        None => base,
    };
    law_put(overlay, name, merged(start, entries), other);
}

proof fn lemma_merge_into_others(
    overlay: Named<MountView>,
    game: Named<MountView>,
    base_name: Seq<char>,
    archive: Content,
    n: int,
    name: Seq<char>,
)
    requires
        in_order(overlay),
        0 <= n <= game.len(),
        name == base_name || forall|j: int| 0 <= j < n ==> (#[trigger] game[j]).0 != name,
    ensures
        in_order(merge_into_others(overlay, game, base_name, archive, n)),
        lookup(merge_into_others(overlay, game, base_name, archive, n), name) == lookup(
            overlay,
            name,
        ),
    decreases n,
{
    if n > 0 {
        lemma_merge_into_others(overlay, game, base_name, archive, n - 1, name);
        let before = merge_into_others(overlay, game, base_name, archive, n - 1);
        let mount = game[n - 1].1;
        let common = common_names(mount.archive.entries, archive.entries);
        lemma_merge_into(before, game[n - 1].0, mount, archive.entries.restrict(common), name);
    }
}

/// After a mount of a mod was added, the overlay has a mount in the place of its
/// base, with all entries of the mod. Where the overlay had none there, the
/// base's own entries are kept but for those of the mod.
pub proof fn law_overlay_has_mod(
    overlay: Named<MountView>,
    game: Named<MountView>,
    mod_name: Seq<char>,
    archive: Content,
    name: u64,
)
    requires
        in_order(overlay),
        with_mod_mount(overlay, game, mod_name, archive) is Some,
    ensures
        ({
            let base = base_mount(game, mod_name, archive)->0;
            let base_name = path_mount_name(base.relpath);
            let after = with_mod_mount(overlay, game, mod_name, archive)->0;
            let m = lookup(after, base_name);
            &&& in_order(after)
            &&& m is Some
            &&& archive.entries.contains_key(name) ==> m->0.archive.entries.contains_key(name)
                && m->0.archive.entries[name] == archive.entries[name]
            &&& lookup(overlay, base_name) is None && base.archive.entries.contains_key(name)
                && !archive.entries.contains_key(name) ==> m->0.archive.entries.contains_key(name)
                && m->0.archive.entries[name] == base.archive.entries[name]
        }),
{
    let base = base_mount(game, mod_name, archive)->0;
    let base_name = path_mount_name(base.relpath);
    let first = merge_into(overlay, base_name, base, archive.entries);
    lemma_merge_into(overlay, base_name, base, archive.entries, base_name);
    lemma_merge_into_others(first, game, base_name, archive, game.len() as int, base_name);
}

/// Entries that other game archives share with a mod are replaced there too:
/// after a mount of a mod was added, the overlay has a mount in the place of each
/// such archive, with the mod's entries.
pub proof fn law_overlay_covers_shared(
    overlay: Named<MountView>,
    game: Named<MountView>,
    mod_name: Seq<char>,
    archive: Content,
    k: int,
    name: u64,
)
    requires
        in_order(overlay),
        in_order(game),
        with_mod_mount(overlay, game, mod_name, archive) is Some,
        0 <= k < game.len(),
        game[k].0 != path_mount_name(base_mount(game, mod_name, archive)->0.relpath),
        game[k].1.archive.entries.contains_key(name),
        archive.entries.contains_key(name),
    ensures
        ({
            let m = lookup(
                with_mod_mount(overlay, game, mod_name, archive)->0,
                game[k].0,
            );
            &&& m is Some
            &&& m->0.archive.entries.contains_key(name)
            &&& m->0.archive.entries[name] == archive.entries[name]
        }),
{
    let base = base_mount(game, mod_name, archive)->0;
    let base_name = path_mount_name(base.relpath);
    let first = merge_into(overlay, base_name, base, archive.entries);
    lemma_merge_into(overlay, base_name, base, archive.entries, base_name);
    lemma_shared(first, game, base_name, archive, game.len() as int, k, name);
}

proof fn lemma_shared(
    overlay: Named<MountView>,
    game: Named<MountView>,
    base_name: Seq<char>,
    archive: Content,
    n: int,
    k: int,
    name: u64,
)
    requires
        in_order(overlay),
        in_order(game),
        0 <= k < n <= game.len(),
        game[k].0 != base_name,
        game[k].1.archive.entries.contains_key(name),
        archive.entries.contains_key(name),
    ensures
        in_order(merge_into_others(overlay, game, base_name, archive, n)),
        ({
            let m = lookup(merge_into_others(overlay, game, base_name, archive, n), game[k].0);
            &&& m is Some
            &&& m->0.archive.entries.contains_key(name)
            &&& m->0.archive.entries[name] == archive.entries[name]
        }),
    decreases n,
{
    let before = merge_into_others(overlay, game, base_name, archive, n - 1);
    let mount = game[n - 1].1;
    let common = common_names(mount.archive.entries, archive.entries);
    let part = archive.entries.restrict(common);
    if k < n - 1 {
        lemma_shared(overlay, game, base_name, archive, n - 1, k, name);
        crate::names::lemma_name_less_irreflexive(game[k].0);
        assert(game[k].0 != game[n - 1].0);
        lemma_merge_into(before, game[n - 1].0, mount, part, game[k].0);
    } else {
        assert forall|j: int| 0 <= j < n - 1 implies (#[trigger] game[j]).0 != game[k].0 by {
            crate::names::lemma_name_less_irreflexive(game[k].0);
            assert(crate::names::name_less(game[j].0, game[k].0));
        }
        lemma_merge_into_others(overlay, game, base_name, archive, n - 1, game[k].0);
        lemma_merge_into(before, game[k].0, mount, part, game[k].0);
        assert(common.contains(name));
        assert(part.contains_key(name));
    }
}

proof fn lemma_layout_locs(
    entries: Map<u64, Entry>,
    names: Seq<u64>,
    start: int,
    n: int,
    i: int,
    m: Seq<bool>,
)
    requires
        0 <= i < n,
        layout_upto(entries, names, start, n, m) is Ok,
    ensures
        ({
            let l = layout_upto(entries, names, start, n, m)->Ok_0;
            let o = optimal_form(entries[names[i]], m);
            &&& l.locs.len() == n
            &&& o is Ok
            &&& loc_with(l.locs, checksum_of(o->Ok_0)) == Some(l.locs[i])
        }),
    decreases n,
{
    let l = layout_upto(entries, names, start, n, m)->Ok_0;
    let before = layout_upto(entries, names, start, n - 1, m)->Ok_0;
    if n > 1 {
        lemma_layout_locs(entries, names, start, n - 1, 0, m);
    }
    assert(l.locs.drop_last() =~= before.locs);
    if i < n - 1 {
        lemma_layout_locs(entries, names, start, n - 1, i, m);
        assert(l.locs[i] == before.locs[i]);
    } else {
        assert(l.locs[i] == l.locs.last());
    }
}

/// Entries with the same payload are stored once: they are found at one place of
/// the file.
pub proof fn law_payloads_shared(
    entries: Map<u64, Entry>,
    names: Seq<u64>,
    start: int,
    n: int,
    i: int,
    j: int,
    m: Seq<bool>,
)
    requires
        0 <= i < n,
        0 <= j < n,
        layout_upto(entries, names, start, n, m) is Ok,
        optimal_form(entries[names[i]], m) is Ok,
        optimal_form(entries[names[j]], m) is Ok,
        checksum_of(optimal_form(entries[names[i]], m)->Ok_0) == checksum_of(
            optimal_form(entries[names[j]], m)->Ok_0,
        ),
    ensures
        layout_upto(entries, names, start, n, m)->Ok_0.locs[i] == layout_upto(
            entries,
            names,
            start,
            n,
            m,
        )->Ok_0.locs[j],
{
    lemma_layout_locs(entries, names, start, n, i, m);
    lemma_layout_locs(entries, names, start, n, j, m);
}

/// A file named by sixteen hex digits, with or without an ending, is the entry with
/// that number; the digits stand for it most significant first.
pub proof fn law_hash_names(digits: Seq<u8>, ending: Seq<u8>)
    requires
        digits.len() == 16,
        forall|i: int| 0 <= i < 16 ==> is_hex_digit(#[trigger] digits[i]),
    ensures
        path_hash(digits) == hex_value(digits) as u64,
        path_hash(digits + seq![0x2Eu8] + ending) == hex_value(digits) as u64,
        hex_value(digits) == 16 * hex_value(digits.drop_last()) + hex_digit_value(digits.last()),
{
    let named = digits + seq![0x2Eu8] + ending;
    assert forall|i: int| 0 <= i < 16 implies #[trigger] digits[i] != 0x2E && digits[i]
        != 0x2F by {
        assert(is_hex_digit(digits[i]));
    }
    assert(digits[0] != 0x2E && digits[0] != 0x2F);
    assert(named[0] == digits[0]);
    assert forall|j: int| 0 <= j < 16 implies named[j] != 0x2E by {
        assert(named[j] == digits[j]);
    }
    assert(named[16] == 0x2E);
    lemma_before_dot(digits, 16);
    lemma_before_dot(named, 16);
    assert(digits.take(16) =~= digits);
    assert(named.take(16) =~= digits);
}

/// Any other path is the entry with the hash of the path in small letters.
pub proof fn law_path_hashed(s: Seq<u8>)
    requires
        s.len() > 0,
        s[0] != 0x2E && s[0] != 0x2F,
        s.len() < 16 || exists|i: int| 0 <= i < 16 && !is_hex_digit(#[trigger] s[i]),
    ensures
        path_hash(s) == xxh64_of(lower_bytes(s), 0),
{
    if is_hash_name(s) {
        lemma_before_dot_prefix(s);
        assert forall|i: int| 0 <= i < 16 implies is_hex_digit(#[trigger] s[i]) by {
            assert(before_dot(s)[i] == s[i]);
        }
    }
}

proof fn lemma_before_dot_prefix(s: Seq<u8>)
    ensures
        before_dot(s).len() <= s.len(),
        before_dot(s) == s.take(before_dot(s).len() as int),
    decreases s.len(),
{
    if s.len() > 0 && s[0] != 0x2E {
        lemma_before_dot_prefix(s.skip(1));
        assert(before_dot(s) =~= s.take(before_dot(s).len() as int));
    } else {
        assert(s.take(0) =~= Seq::empty());
    }
}

/// An archive is mounted under its file name in small letters without its ending,
/// `.wad.client` or `.wad`; a name with neither is kept whole.
pub proof fn law_mount_name(name: Seq<char>)
    ensures
        mount_name(name + ".wad.client"@) == lower(name),
        !has_suffix(lower(name) + ".wad"@, ".wad.client"@) ==> mount_name(name + ".wad"@) == lower(
            name,
        ),
        !has_suffix(lower(name), ".wad.client"@) && !has_suffix(lower(name), ".wad"@)
            ==> mount_name(name) == lower(name),
{
    reveal_strlit(".wad.client");
    reveal_strlit(".wad");
    let a = lower(name + ".wad.client"@);
    assert(lower(".wad.client"@) =~= ".wad.client"@);
    assert(a =~= lower(name) + ".wad.client"@);
    assert(a.skip(name.len() as int) =~= ".wad.client"@);
    assert(a.take(name.len() as int) =~= lower(name));
    let b = lower(name + ".wad"@);
    assert(lower(".wad"@) =~= ".wad"@);
    assert(b =~= lower(name) + ".wad"@);
    assert(b.skip(name.len() as int) =~= ".wad"@);
    assert(b.take(name.len() as int) =~= lower(name));
}

/// Where conflicts are not ignored, entries stand for each other just where their
/// payloads have one checksum, or both can be unpacked to content with one
/// checksum. The same payload always does.
pub proof fn law_reconciles(a: Entry, b: Entry)
    ensures
        reconciles(a, b, true),
        reconciles(a, a, false),
        a.known_checksum == 0 && b.known_checksum == 0 && a.bytes == b.bytes ==> reconciles(
            a,
            b,
            false,
        ),
        checksum_of(a) != checksum_of(b) && (decompressed(a) is Err || decompressed(b) is Err)
            ==> !reconciles(a, b, false),
        checksum_of(a) != checksum_of(b) && decompressed(a) is Ok && decompressed(b) is Ok ==> (
        reconciles(a, b, false) <==> checksum_of(decompressed(a)->Ok_0) == checksum_of(
            decompressed(b)->Ok_0,
        )),
{
}

/// A checksum that is known counts; where none is, it is that of the payload as
/// stored.
pub proof fn law_checksum(e: Entry)
    ensures
        e.known_checksum != 0 ==> checksum_of(e) == e.known_checksum,
        e.known_checksum == 0 ==> checksum_of(e) == xxh3_of(e.bytes),
{
}

/// What the checksum of an archive is taken over: for each entry, in order, eight
/// bytes of its name and eight of its checksum.
pub proof fn law_digest_input(entries: Map<u64, Entry>, names: Seq<u64>, i: int)
    requires
        0 <= i < names.len(),
    ensures
        digest_input(entries, names).len() == 16 * names.len(),
        digest_input(entries, names).subrange(16 * i, 16 * i + 8) == le64_bytes(names[i] as int),
        digest_input(entries, names).subrange(16 * i + 8, 16 * i + 16) == le64_bytes(
            checksum_of(entries[names[i]]) as int,
        ),
    decreases names.len(),
{
    lemma_digest_len(entries, names);
    lemma_digest_len(entries, names.drop_last());
    broadcast use crate::bytes::lemma_le64_bytes_len;

    let before = digest_input(entries, names.drop_last());
    let now = digest_input(entries, names);
    let n = before.len() as int;
    let a = le64_bytes(names.last() as int);
    let b = le64_bytes(checksum_of(entries[names.last()]) as int);
    assert(now == before + a + b);
    if i < names.len() - 1 {
        law_digest_input(entries, names.drop_last(), i);
        assert(names.drop_last()[i] == names[i]);
        assert(now.subrange(16 * i, 16 * i + 8) =~= before.subrange(16 * i, 16 * i + 8));
        assert(now.subrange(16 * i + 8, 16 * i + 16) =~= before.subrange(16 * i + 8, 16 * i + 16));
    } else {
        assert(now.subrange(n, n + 8) =~= a);
        assert(now.subrange(n + 8, n + 16) =~= b);
    }
}

proof fn lemma_digest_len(entries: Map<u64, Entry>, names: Seq<u64>)
    ensures
        digest_input(entries, names).len() == 16 * names.len(),
    decreases names.len(),
{
    broadcast use crate::bytes::lemma_le64_bytes_len;

    if names.len() > 0 {
        lemma_digest_len(entries, names.drop_last());
    }
}

} // verus!
