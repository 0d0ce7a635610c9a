//! What becomes of mods that change the same entries.

use super::pipeline::{mod_queue, queue_reconciled, queue_with, stripped, without_blocked};
use super::wad::archive::{ascending, common_names, Content};
use super::wad::entry::Entry;
use super::wad::index::{reconcile_all, reconcile_with, reconcile_within};
use super::wad::mounted::{conflict_count, conflicts, reconciles, MountView};
use super::wad::round_trip::lemma_ascending_exists;
use crate::names::Named;
use vstd::prelude::*;

verus! {

/// Whether mount `i` has an entry of the name.
pub open spec fn has_at(mounts: Named<MountView>, i: int, name: u64) -> bool {
    0 <= i < mounts.len() && mounts[i].1.archive.entries.contains_key(name)
}

/// The entry of the name in mount `i`.
pub open spec fn entry_of(mounts: Named<MountView>, i: int, name: u64) -> Entry {
    mounts[i].1.archive.entries[name]
}

/// Whether mount `i` is the last of the first `n` that has an entry of the name.
pub open spec fn last_at(mounts: Named<MountView>, n: int, i: int, name: u64) -> bool {
    &&& has_at(mounts, i, name)
    &&& i < n
    &&& forall|j: int| has_at(mounts, j, name) && j < n ==> j <= i
}

/// Whether mount `j` of mod `k` has an entry of the name.
pub open spec fn holds(mods: Seq<Named<MountView>>, k: int, j: int, name: u64) -> bool {
    0 <= k < mods.len() && has_at(mods[k], j, name)
}

/// Whether mount `j` of mod `k` is the last of the first `n` mods that has an
/// entry of the name.
pub open spec fn last_holder(
    mods: Seq<Named<MountView>>,
    n: int,
    k: int,
    j: int,
    name: u64,
) -> bool {
    &&& holds(mods, k, j, name)
    &&& k < n
    &&& forall|x: int, y: int| #[trigger]
        holds(mods, x, y, name) && x < n ==> x < k || (x == k && y <= j)
}

/// Whether every mount holds finitely many entries.
pub open spec fn finite_mounts(mounts: Named<MountView>) -> bool {
    forall|i: int|
        0 <= i < mounts.len() ==> (#[trigger] mounts[i]).1.archive.entries.dom().finite()
}

/// Whether two mounts are the same but for which entries their names stand for.
pub open spec fn same_shape(a: MountView, b: MountView) -> bool {
    &&& a.relpath == b.relpath
    &&& a.archive.signature == b.archive.signature
    &&& a.archive.entries.dom() == b.archive.entries.dom()
}

proof fn lemma_count_zero(
    ours: Map<u64, Entry>,
    theirs: Map<u64, Entry>,
    ignore: bool,
    names: Seq<u64>,
)
    ensures
        conflict_count(ours, theirs, ignore, names) == 0 <==> forall|i: int|
            0 <= i < names.len() ==> reconciles(
                ours[#[trigger] names[i]],
                theirs[names[i]],
                ignore,
            ),
    decreases names.len(),
{
    if names.len() > 0 {
        let first = names.drop_last();
        lemma_count_zero(ours, theirs, ignore, first);
        if conflict_count(ours, theirs, ignore, names) == 0 {
            assert forall|i: int| 0 <= i < names.len() implies reconciles(
                ours[#[trigger] names[i]],
                theirs[names[i]],
                ignore,
            ) by {
                if i < first.len() {
                    assert(first[i] == names[i]);
                }
            }
        }
        if forall|i: int|
            0 <= i < names.len() ==> reconciles(
                ours[#[trigger] names[i]],
                theirs[names[i]],
                ignore,
            ) {
            assert forall|i: int| 0 <= i < first.len() implies reconciles(
                ours[#[trigger] first[i]],
                theirs[first[i]],
                ignore,
            ) by {
                assert(first[i] == names[i]);
            }
            assert(names[names.len() - 1] == names.last());
        }
    }
}

/// Two archives are free of conflicts exactly where every name that both have
/// stands for entries that reconcile.
pub proof fn law_no_conflicts(a: Content, b: Content, ignore: bool)
    requires
        a.entries.dom().finite(),
    ensures
        conflicts(a, b, ignore) == 0 <==> forall|name: u64| #[trigger]
            a.entries.contains_key(name) && b.entries.contains_key(name) ==> reconciles(
                a.entries[name],
                b.entries[name],
                ignore,
            ),
{
    let common = common_names(a.entries, b.entries);
    let names = ascending(common);
    assert(common.finite());
    lemma_ascending_exists(common);
    lemma_count_zero(a.entries, b.entries, ignore, names);
    if conflicts(a, b, ignore) == 0 {
        assert forall|name: u64| #[trigger]
            a.entries.contains_key(name) && b.entries.contains_key(name) implies reconciles(
            a.entries[name],
            b.entries[name],
            ignore,
        ) by {
            assert(common.contains(name));
            let i = choose|i: int| 0 <= i < names.len() && names[i] == name;
            assert(reconciles(a.entries[names[i]], b.entries[names[i]], ignore));
        }
    }
    if forall|name: u64| #[trigger]
        a.entries.contains_key(name) && b.entries.contains_key(name) ==> reconciles(
            a.entries[name],
            b.entries[name],
            ignore,
        ) {
        assert forall|i: int| 0 <= i < names.len() implies reconciles(
            a.entries[#[trigger] names[i]],
            b.entries[names[i]],
            ignore,
        ) by {
            assert(common.contains(names[i]));
            assert(a.entries.contains_key(names[i]));
        }
    }
}

/// A mount that was reconciled with others, none of which conflicted, has the
/// entries of the last of them that has any of the name. Each entry reconciled
/// with what stood there before.
proof fn lemma_reconcile_with(m: MountView, others: Named<MountView>, ignore: bool, n: int)
    requires
        0 <= n <= others.len(),
        m.archive.entries.dom().finite(),
        reconcile_with(m, others, ignore, n).1 is None,
    ensures
        ({
            let x = reconcile_with(m, others, ignore, n).0;
            &&& same_shape(x, m)
            &&& forall|name: u64, i: int|
                m.archive.entries.contains_key(name) && #[trigger] last_at(others, n, i, name)
                    ==> x.archive.entries[name] == entry_of(others, i, name)
            &&& forall|name: u64| #[trigger]
                m.archive.entries.contains_key(name) && (forall|i: int|
                    i < n ==> !#[trigger] has_at(others, i, name)) ==> x.archive.entries[name]
                    == m.archive.entries[name]
            &&& forall|name: u64, i: int|
                m.archive.entries.contains_key(name) && i < n && #[trigger] has_at(others, i, name)
                    ==> reconciles(
                    reconcile_with(m, others, ignore, i).0.archive.entries[name],
                    entry_of(others, i, name),
                    ignore,
                ) && reconcile_with(m, others, ignore, i).1 is None
        }),
    decreases n,
{
    let x = reconcile_with(m, others, ignore, n).0;
    if n > 0 {
        let y = reconcile_with(m, others, ignore, n - 1).0;
        lemma_reconcile_with(m, others, ignore, n - 1);
        let other = others[n - 1].1;
        law_no_conflicts(y.archive, other.archive, ignore);
        assert(x.archive.entries.dom() =~= m.archive.entries.dom());
        assert forall|name: u64| #[trigger] m.archive.entries.contains_key(name) implies (
        x.archive.entries[name] == if has_at(others, n - 1, name) {
            entry_of(others, n - 1, name)
        } else {
            y.archive.entries[name]
        }) by {
            assert(y.archive.entries.contains_key(name));
        }
        assert forall|name: u64, i: int|
            m.archive.entries.contains_key(name) && #[trigger] last_at(
                others,
                n,
                i,
                name,
            ) implies x.archive.entries[name] == entry_of(others, i, name) by {
            if i < n - 1 {
                assert(!has_at(others, n - 1, name));
                assert(last_at(others, n - 1, i, name));
            }
        }
        assert forall|name: u64| #[trigger]
            m.archive.entries.contains_key(name) && (forall|i: int|
                i < n ==> !#[trigger] has_at(others, i, name)) implies x.archive.entries[name]
            == m.archive.entries[name] by {
            assert(!has_at(others, n - 1, name));
        }
        assert forall|name: u64, i: int|
            m.archive.entries.contains_key(name) && i < n && #[trigger] has_at(
                others,
                i,
                name,
            ) implies reconciles(
            reconcile_with(m, others, ignore, i).0.archive.entries[name],
            entry_of(others, i, name),
            ignore,
        ) && reconcile_with(m, others, ignore, i).1 is None by {
            if i == n - 1 {
                assert(y.archive.entries.contains_key(name));
            }
        }
    }
}

/// Whether the entries of `m` and of the mounts reconcile wherever they share a
/// name, in whichever order.
spec fn agree(m: MountView, others: Named<MountView>, ignore: bool) -> bool {
    forall|name: u64, i: int|
        m.archive.entries.contains_key(name) && #[trigger] has_at(others, i, name) ==> {
            &&& reconciles(m.archive.entries[name], entry_of(others, i, name), ignore)
            &&& forall|j: int| #[trigger]
                has_at(others, j, name) ==> reconciles(
                    entry_of(others, j, name),
                    entry_of(others, i, name),
                    ignore,
                )
        }
}

proof fn lemma_agree_reconciles(m: MountView, others: Named<MountView>, ignore: bool, n: int)
    requires
        0 <= n <= others.len(),
        m.archive.entries.dom().finite(),
        agree(m, others, ignore),
    ensures
        reconcile_with(m, others, ignore, n).1 is None,
    decreases n,
{
    if n > 0 {
        lemma_agree_reconciles(m, others, ignore, n - 1);
        lemma_reconcile_with(m, others, ignore, n - 1);
        let y = reconcile_with(m, others, ignore, n - 1).0;
        let other = others[n - 1].1;
        assert forall|name: u64| #[trigger]
            y.archive.entries.contains_key(name) && other.archive.entries.contains_key(
                name,
            ) implies reconciles(
            y.archive.entries[name],
            other.archive.entries[name],
            ignore,
        ) by {
            assert(m.archive.entries.contains_key(name));
            assert(has_at(others, n - 1, name));
            if exists|i: int| i < n - 1 && has_at(others, i, name) {
                let i = choose|i: int| i < n - 1 && has_at(others, i, name);
                let l = lemma_last_at(others, n - 1, i, name);
                assert(y.archive.entries[name] == entry_of(others, l, name));
                assert(has_at(others, l, name));
            } else {
                assert(forall|i: int| i < n - 1 ==> !#[trigger] has_at(others, i, name));
            }
        }
        law_no_conflicts(y.archive, other.archive, ignore);
    }
}

/// Where some mount has a name, one is the last that has it.
pub proof fn lemma_last_at(mounts: Named<MountView>, n: int, i: int, name: u64) -> (l: int)
    requires
        has_at(mounts, i, name),
        i < n,
    ensures
        last_at(mounts, n, l, name),
        i <= l,
    decreases n - i,
{
    if exists|j: int| i < j < n && has_at(mounts, j, name) {
        let j = choose|j: int| i < j < n && has_at(mounts, j, name);
        lemma_last_at(mounts, n, j, name)
    } else {
        assert forall|j: int| has_at(mounts, j, name) && j < n implies j <= i by {}
        i
    }
}

/// Whether mounts stand in the same order under the same names, with the same
/// names in each.
pub open spec fn same_shapes(a: Named<MountView>, b: Named<MountView>) -> bool {
    &&& a.len() == b.len()
    &&& forall|i: int|
        0 <= i < a.len() ==> (#[trigger] a[i]).0 == b[i].0 && same_shape(a[i].1, b[i].1)
}

/// The first `n` mounts have the entries of the last mount that has any of the
/// name, and the others their own.
spec fn levelled(now: Named<MountView>, start: Named<MountView>, n: int) -> bool {
    &&& same_shapes(now, start)
    &&& forall|i: int, name: u64, l: int|
        #![trigger has_at(now, i, name), last_at(start, start.len() as int, l, name)]
        i < n && has_at(now, i, name) && last_at(start, start.len() as int, l, name) ==> entry_of(
            now,
            i,
            name,
        ) == entry_of(start, l, name)
    &&& forall|i: int| n <= i < now.len() ==> #[trigger] now[i] == start[i]
}

/// What a mount is told of the others in turn.
proof fn lemma_level_step(start: Named<MountView>, now: Named<MountView>, ignore: bool, p: int)
    requires
        0 <= p < start.len(),
        finite_mounts(start),
        levelled(now, start, p),
        reconcile_with(
            now[p].1,
            now.remove(p),
            ignore,
            now.len() - 1,
        ).1 is None,
    ensures
        levelled(
            now.update(
                p,
                (now[p].0, reconcile_with(now[p].1, now.remove(p), ignore, now.len() - 1).0),
            ),
            start,
            p + 1,
        ),
{
    let others = now.remove(p);
    let n = others.len() as int;
    assert(now[p] == start[p]);
    lemma_reconcile_with(now[p].1, others, ignore, n);
    let x = reconcile_with(now[p].1, others, ignore, n).0;
    let after = now.update(p, (now[p].0, x));
    let total = start.len() as int;
    assert forall|i: int| 0 <= i < after.len() implies (#[trigger] after[i]).0 == start[i].0
        && same_shape(after[i].1, start[i].1) by {
        assert(now[i].0 == start[i].0 && same_shape(now[i].1, start[i].1));
    }
    assert forall|i: int, name: u64, l: int|
        #![trigger has_at(after, i, name), last_at(start, total, l, name)]
        i < p + 1 && has_at(after, i, name) && last_at(start, total, l, name) implies entry_of(
        after,
        i,
        name,
    ) == entry_of(start, l, name) by {
        if i < p {
            assert(after[i] == now[i]);
            assert(has_at(now, i, name));
        } else {
            assert(now[p].1.archive.entries.contains_key(name));
            assert(has_at(start, p, name));
            assert(p <= l);
            if l > p {
                assert(others[l - 1] == now[l] && now[l] == start[l]);
                assert(has_at(others, l - 1, name));
                assert forall|j: int| has_at(others, j, name) && j < n implies j <= l - 1 by {
                    if j > l - 1 {
                        assert(others[j] == now[j + 1] && now[j + 1] == start[j + 1]);
                        assert(has_at(start, j + 1, name));
                    }
                }
                assert(last_at(others, n, l - 1, name));
            } else if exists|j: int| j < n && has_at(others, j, name) {
                let j = choose|j: int| j < n && has_at(others, j, name);
                let q = lemma_last_at(others, n, j, name);
                if q >= p {
                    assert(others[q] == now[q + 1] && now[q + 1] == start[q + 1]);
                    assert(has_at(start, q + 1, name));
                }
                assert(others[q] == now[q]);
                assert(has_at(now, q, name));
                assert(entry_of(now, q, name) == entry_of(start, l, name));
            } else {
                assert(forall|j: int| j < n ==> !#[trigger] has_at(others, j, name));
            }
        }
    }
}

/// A mod that was reconciled within itself, without conflicts.
proof fn lemma_within(left: Named<MountView>, ignore: bool, n: int)
    requires
        0 <= n <= left.len(),
        finite_mounts(left),
        reconcile_within(left, ignore, n).1 is None,
    ensures
        levelled(reconcile_within(left, ignore, n).0, left, n),
    decreases n,
{
    if n > 0 {
        lemma_within(left, ignore, n - 1);
        let before = reconcile_within(left, ignore, n - 1).0;
        lemma_level_step(left, before, ignore, n - 1);
    }
}

/// A mod reconciles within itself where its entries do in any order.
proof fn lemma_agree_within(left: Named<MountView>, ignore: bool, n: int)
    requires
        0 <= n <= left.len(),
        finite_mounts(left),
        forall|name: u64, i: int, j: int|
            #![trigger has_at(left, i, name), has_at(left, j, name)]
            has_at(left, i, name) && has_at(left, j, name) ==> reconciles(
                entry_of(left, i, name),
                entry_of(left, j, name),
                ignore,
            ),
    ensures
        reconcile_within(left, ignore, n).1 is None,
    decreases n,
{
    if n > 0 {
        lemma_agree_within(left, ignore, n - 1);
        lemma_within(left, ignore, n - 1);
        let now = reconcile_within(left, ignore, n - 1).0;
        let p = n - 1;
        let others = now.remove(p);
        assert(now[p] == left[p]);
        let total = left.len() as int;
        assert forall|name: u64, i: int| #[trigger] has_at(now, i, name) implies exists|l: int|
            has_at(left, l, name) && entry_of(now, i, name) == entry_of(left, l, name) by {
            assert(same_shape(now[i].1, left[i].1));
            assert(has_at(left, i, name));
            if i < p {
                let l = lemma_last_at(left, total, i, name);
                assert(has_at(left, l, name));
            }
        }
        assert(agree(now[p].1, others, ignore)) by {
            assert forall|name: u64, i: int|
                now[p].1.archive.entries.contains_key(name) && #[trigger] has_at(
                    others,
                    i,
                    name,
                ) implies {
                &&& reconciles(now[p].1.archive.entries[name], entry_of(others, i, name), ignore)
                &&& forall|j: int| #[trigger]
                    has_at(others, j, name) ==> reconciles(
                        entry_of(others, j, name),
                        entry_of(others, i, name),
                        ignore,
                    )
            } by {
                assert(has_at(left, p, name));
                let a = if i < p { i } else { i + 1 };
                assert(others[i] == now[a]);
                assert(has_at(now, a, name));
                let l = choose|l: int|
                    has_at(left, l, name) && entry_of(now, a, name) == entry_of(left, l, name);
                assert forall|j: int| #[trigger] has_at(others, j, name) implies reconciles(
                    entry_of(others, j, name),
                    entry_of(others, i, name),
                    ignore,
                ) by {
                    let b = if j < p { j } else { j + 1 };
                    assert(others[j] == now[b]);
                    assert(has_at(now, b, name));
                    let r = choose|r: int|
                        has_at(left, r, name) && entry_of(now, b, name) == entry_of(left, r, name);
                    assert(has_at(left, r, name));
                }
            }
        }
        lemma_agree_reconciles(now[p].1, others, ignore, others.len() as int);
    }
}

/// Mounts that were reconciled with others, without conflicts: each has the
/// entries of the last of the others that has any of the name.
proof fn lemma_all(mounts: Named<MountView>, others: Named<MountView>, ignore: bool, n: int)
    requires
        0 <= n <= mounts.len(),
        finite_mounts(mounts),
        reconcile_all(mounts, others, ignore, n).1 is None,
    ensures
        ({
            let x = reconcile_all(mounts, others, ignore, n).0;
            &&& same_shapes(x, mounts)
            &&& forall|i: int| n <= i < mounts.len() ==> #[trigger] x[i] == mounts[i]
            &&& forall|i: int, name: u64, l: int|
                #![trigger has_at(x, i, name), last_at(others, others.len() as int, l, name)]
                i < n && has_at(x, i, name) && last_at(others, others.len() as int, l, name)
                    ==> entry_of(x, i, name) == entry_of(others, l, name)
            &&& forall|i: int, name: u64| #[trigger]
                has_at(x, i, name) && (forall|l: int| !#[trigger] has_at(others, l, name))
                    ==> entry_of(x, i, name) == entry_of(mounts, i, name)
            &&& forall|i: int, name: u64, l: int|
                #![trigger has_at(mounts, i, name), has_at(others, l, name)]
                i < n && has_at(mounts, i, name) && has_at(others, l, name) && (forall|f: int|
                    f < l ==> !#[trigger] has_at(others, f, name)) ==> reconciles(
                    entry_of(mounts, i, name),
                    entry_of(others, l, name),
                    ignore,
                )
        }),
    decreases n,
{
    if n > 0 {
        lemma_all(mounts, others, ignore, n - 1);
        let before = reconcile_all(mounts, others, ignore, n - 1).0;
        let p = n - 1;
        let total = others.len() as int;
        assert(before[p] == mounts[p]);
        let m = mounts[p].1;
        lemma_reconcile_with(m, others, ignore, total);
        let y = reconcile_with(m, others, ignore, total).0;
        let x = reconcile_all(mounts, others, ignore, n).0;
        assert(x == before.update(p, (before[p].0, y)));
        assert forall|i: int| 0 <= i < x.len() implies (#[trigger] x[i]).0 == mounts[i].0
            && same_shape(x[i].1, mounts[i].1) by {
            assert(before[i].0 == mounts[i].0 && same_shape(before[i].1, mounts[i].1));
        }
        assert forall|i: int, name: u64, l: int|
            #![trigger has_at(x, i, name), last_at(others, total, l, name)]
            i < n && has_at(x, i, name) && last_at(others, total, l, name) implies entry_of(
            x,
            i,
            name,
        ) == entry_of(others, l, name) by {
            if i < p {
                assert(has_at(before, i, name));
            } else {
                assert(m.archive.entries.contains_key(name));
            }
        }
        assert forall|i: int, name: u64| #[trigger]
            has_at(x, i, name) && (forall|l: int| !#[trigger] has_at(others, l, name)) implies
            entry_of(x, i, name) == entry_of(mounts, i, name) by {
            if i == p {
                assert(m.archive.entries.contains_key(name));
            } else {
                assert(has_at(before, i, name));
            }
        }
        assert forall|i: int, name: u64, l: int|
            #![trigger has_at(mounts, i, name), has_at(others, l, name)]
            i < n && has_at(mounts, i, name) && has_at(others, l, name) && (forall|f: int|
                f < l ==> !#[trigger] has_at(others, f, name)) implies reconciles(
            entry_of(mounts, i, name),
            entry_of(others, l, name),
            ignore,
        ) by {
            if i == p {
                assert(m.archive.entries.contains_key(name));
                assert(reconcile_with(m, others, ignore, l).1 is None);
                lemma_reconcile_with(m, others, ignore, l);
            }
        }
    }
}

proof fn lemma_agree_all(mounts: Named<MountView>, others: Named<MountView>, ignore: bool, n: int)
    requires
        0 <= n <= mounts.len(),
        finite_mounts(mounts),
        forall|i: int| 0 <= i < mounts.len() ==> agree((#[trigger] mounts[i]).1, others, ignore),
    ensures
        reconcile_all(mounts, others, ignore, n).1 is None,
    decreases n,
{
    if n > 0 {
        lemma_agree_all(mounts, others, ignore, n - 1);
        lemma_all(mounts, others, ignore, n - 1);
        let before = reconcile_all(mounts, others, ignore, n - 1).0;
        assert(before[n - 1] == mounts[n - 1]);
        lemma_agree_reconciles(mounts[n - 1].1, others, ignore, others.len() as int);
    }
}

/// Where the mounts of which something is left stood: in the same order, and all
/// of them.
proof fn lemma_places(mounts: Named<MountView>, blocked: Set<u64>, n: int) -> (p: Seq<int>)
    requires
        0 <= n <= mounts.len(),
    ensures
        p.len() == stripped(mounts, blocked, n).len(),
        forall|i: int|
            0 <= i < p.len() ==> 0 <= #[trigger] p[i] < n && stripped(mounts, blocked, n)[i] == (
                mounts[p[i]].0,
                without_blocked(mounts[p[i]].1, blocked),
            ) && !without_blocked(mounts[p[i]].1, blocked).archive.entries.dom().is_empty(),
        forall|i: int, j: int| 0 <= i < j < p.len() ==> p[i] < p[j],
        forall|k: int|
            0 <= k < n && !without_blocked(
                (#[trigger] mounts[k]).1,
                blocked,
            ).archive.entries.dom().is_empty() ==> p.contains(k),
    decreases n,
{
    if n <= 0 {
        Seq::empty()
    } else {
        let before = lemma_places(mounts, blocked, n - 1);
        let m = without_blocked(mounts[n - 1].1, blocked);
        if m.archive.entries.dom().is_empty() {
            before
        } else {
            let p = before.push(n - 1);
            assert forall|i: int| 0 <= i < p.len() implies 0 <= #[trigger] p[i] < n && stripped(
                mounts,
                blocked,
                n,
            )[i] == (mounts[p[i]].0, without_blocked(mounts[p[i]].1, blocked))
                && !without_blocked(mounts[p[i]].1, blocked).archive.entries.dom().is_empty() by {
                if i < before.len() {
                    assert(p[i] == before[i]);
                }
            }
            assert forall|k: int|
                0 <= k < n && !without_blocked(
                    (#[trigger] mounts[k]).1,
                    blocked,
                ).archive.entries.dom().is_empty() implies p.contains(k) by {
                if k < n - 1 {
                    let i = choose|i: int| 0 <= i < before.len() && before[i] == k;
                    assert(p[i] == k);
                } else {
                    assert(p[before.len() as int] == k);
                }
            }
            p
        }
    }
}

/// Whether a mount is another without its blocked entries, but for which entries
/// the names stand for: the same place, signature and names.
pub open spec fn is_rest_of(
    a: (Seq<char>, MountView),
    b: (Seq<char>, MountView),
    blocked: Set<u64>,
) -> bool {
    &&& a.0 == b.0
    &&& a.1.relpath == b.1.relpath
    &&& a.1.archive.signature == b.1.archive.signature
    &&& forall|name: u64| #[trigger]
        a.1.archive.entries.contains_key(name) <==> !blocked.contains(name)
            && b.1.archive.entries.contains_key(name)
}

/// Whether some mount has an entry of the name.
pub open spec fn has_any(mounts: Named<MountView>, name: u64) -> bool {
    exists|i: int| #[trigger] has_at(mounts, i, name)
}

/// Whether mount `i` of the queued mod `q` is mount `j` of mod `k` without its
/// blocked entries.
pub open spec fn came_from(
    queue: Seq<Named<MountView>>,
    q: int,
    i: int,
    mods: Seq<Named<MountView>>,
    k: int,
    j: int,
    blocked: Set<u64>,
) -> bool {
    &&& 0 <= q < queue.len()
    &&& 0 <= i < queue[q].len()
    &&& 0 <= k < mods.len()
    &&& 0 <= j < mods[k].len()
    &&& is_rest_of(queue[q][i], mods[k][j], blocked)
}

/// Whether mount `j` of mod `k` has entries that are not blocked.
pub open spec fn has_unblocked(
    mods: Seq<Named<MountView>>,
    k: int,
    j: int,
    blocked: Set<u64>,
) -> bool {
    exists|name: u64| #[trigger] holds(mods, k, j, name) && !blocked.contains(name)
}

/// Whether every mod holds finitely many entries.
pub open spec fn finite_mods(mods: Seq<Named<MountView>>) -> bool {
    forall|k: int| 0 <= k < mods.len() ==> finite_mounts(#[trigger] mods[k])
}

/// Whether mount `i` of the queued mod `q` is one of the first `n` mods without
/// its blocked entries.
pub open spec fn has_origin(
    queue: Seq<Named<MountView>>,
    q: int,
    i: int,
    mods: Seq<Named<MountView>>,
    blocked: Set<u64>,
    n: int,
) -> bool {
    exists|k: int, j: int|
        k < n && has_unblocked(mods, k, j, blocked) && #[trigger] came_from(
            queue,
            q,
            i,
            mods,
            k,
            j,
            blocked,
        )
}

/// What the queue of the first `n` mods is.
pub open spec fn queue_is(
    queue: Seq<Named<MountView>>,
    mods: Seq<Named<MountView>>,
    blocked: Set<u64>,
    n: int,
) -> bool {
    &&& finite_mods(queue)
    &&& forall|k: int, j: int|
        k < n && #[trigger] has_unblocked(mods, k, j, blocked) ==> exists|q: int, i: int| #[trigger]
            came_from(queue, q, i, mods, k, j, blocked)
    &&& forall|q: int, i: int|
        0 <= q < queue.len() && 0 <= i < queue[q].len() ==> #[trigger] has_origin(
            queue,
            q,
            i,
            mods,
            blocked,
            n,
        )
    &&& forall|q: int, i: int, name: u64, k: int, j: int|
        #![trigger holds(queue, q, i, name), last_holder(mods, n, k, j, name)]
        holds(queue, q, i, name) && last_holder(mods, n, k, j, name) ==> entry_of(queue[q], i, name)
            == entry_of(mods[k], j, name)
}

proof fn lemma_queue_reconciled(
    queue: Seq<Named<MountView>>,
    newer: Named<MountView>,
    ignore: bool,
    k: int,
)
    requires
        0 <= k <= queue.len(),
        queue_reconciled(queue, newer, ignore, k) is Ok,
    ensures
        ({
            let x = queue_reconciled(queue, newer, ignore, k)->Ok_0;
            &&& x.len() == queue.len()
            &&& forall|q: int| k <= q < queue.len() ==> #[trigger] x[q] == queue[q]
            &&& forall|q: int|
                0 <= q < k ==> reconcile_all(queue[q], newer, ignore, queue[q].len() as int) == (
                    #[trigger] x[q],
                    None::<nat>,
                )
        }),
    decreases k,
{
    if k > 0 {
        lemma_queue_reconciled(queue, newer, ignore, k - 1);
    }
}

proof fn lemma_queue_all(
    queue: Seq<Named<MountView>>,
    newer: Named<MountView>,
    ignore: bool,
    q: int,
)
    requires
        0 <= q < queue.len(),
        finite_mods(queue),
        queue_reconciled(queue, newer, ignore, queue.len() as int) is Ok,
    ensures
        ({
            let mounts = queue[q];
            let others = newer;
            let x = queue_reconciled(queue, newer, ignore, queue.len() as int)->Ok_0[q];
            &&& same_shapes(x, mounts)
            &&& forall|i: int, name: u64, l: int|
                #![trigger has_at(x, i, name), last_at(others, others.len() as int, l, name)]
                has_at(x, i, name) && last_at(others, others.len() as int, l, name) ==> entry_of(
                    x,
                    i,
                    name,
                ) == entry_of(others, l, name)
            &&& forall|i: int, name: u64| #[trigger]
                has_at(x, i, name) && (forall|l: int| !#[trigger] has_at(others, l, name))
                    ==> entry_of(x, i, name) == entry_of(mounts, i, name)
            &&& forall|i: int, name: u64, l: int|
                #![trigger has_at(mounts, i, name), has_at(others, l, name)]
                has_at(mounts, i, name) && has_at(others, l, name) && (forall|f: int|
                    f < l ==> !#[trigger] has_at(others, f, name)) ==> reconciles(
                    entry_of(mounts, i, name),
                    entry_of(others, l, name),
                    ignore,
                )
        }),
{
    lemma_queue_reconciled(queue, newer, ignore, queue.len() as int);
    let x = queue_reconciled(queue, newer, ignore, queue.len() as int)->Ok_0;
    assert(finite_mounts(queue[q]));
    assert(reconcile_all(queue[q], newer, ignore, queue[q].len() as int) == (x[q], None::<nat>));
    lemma_all(queue[q], newer, ignore, queue[q].len() as int);
}

/// What a mod is in the queue: without its blocked entries, and with the entries
/// of its last mount that has any of the name.
proof fn lemma_newer(
    mods: Seq<Named<MountView>>,
    n: int,
    blocked: Set<u64>,
    ignore: bool,
) -> (p: Seq<int>)
    requires
        0 <= n < mods.len(),
        finite_mods(mods),
        ({
            let left = stripped(mods[n], blocked, mods[n].len() as int);
            reconcile_within(left, ignore, left.len() as int).1 is None
        }),
    ensures
        ({
            let left = stripped(mods[n], blocked, mods[n].len() as int);
            let newer = reconcile_within(left, ignore, left.len() as int).0;
            &&& p.len() == newer.len()
            &&& finite_mounts(newer)
            &&& forall|i: int| 0 <= i < p.len() ==> 0 <= #[trigger] p[i] < mods[n].len()
            &&& forall|i: int|
                #![trigger p[i]]
                0 <= i < p.len() ==> has_unblocked(mods, n, p[i], blocked) && is_rest_of(
                    newer[i],
                    mods[n][p[i]],
                    blocked,
                )
            &&& forall|j: int| #[trigger] has_unblocked(mods, n, j, blocked) ==> p.contains(j)
            &&& forall|i: int, name: u64, j: int|
                #![trigger has_at(newer, i, name), last_at(mods[n], mods[n].len() as int, j, name)]
                has_at(newer, i, name) && last_at(mods[n], mods[n].len() as int, j, name)
                    ==> entry_of(newer, i, name) == entry_of(mods[n], j, name)
            &&& forall|name: u64| #[trigger]
                has_any(newer, name) <==> !blocked.contains(name) && has_any(mods[n], name)
        }),
{
    let all = mods[n];
    let total = all.len() as int;
    let left = stripped(all, blocked, total);
    let newer = reconcile_within(left, ignore, left.len() as int).0;
    let p = lemma_places(all, blocked, total);
    assert(finite_mounts(all));
    assert forall|i: int| 0 <= i < left.len() implies (
    #[trigger] left[i]).1.archive.entries.dom().finite() by {
        assert(p[i] < total);
        assert(all[p[i]].1.archive.entries.dom().finite());
        assert(left[i].1.archive.entries.dom().subset_of(all[p[i]].1.archive.entries.dom()));
        vstd::set_lib::lemma_len_subset(
            left[i].1.archive.entries.dom(),
            all[p[i]].1.archive.entries.dom(),
        );
    }
    lemma_within(left, ignore, left.len() as int);
    assert forall|i: int| 0 <= i < newer.len() implies (
    #[trigger] newer[i]).1.archive.entries.dom().finite() by {
        assert(newer[i].0 == left[i].0 && same_shape(newer[i].1, left[i].1));
        assert(left[i].1.archive.entries.dom().finite());
    }
    assert forall|i: int, name: u64| #[trigger] has_at(left, i, name) implies 0 <= p[i] < total
        && has_at(all, p[i], name) && !blocked.contains(name) by {
        assert(left[i].1 == without_blocked(all[p[i]].1, blocked));
    }
    assert forall|j: int, name: u64| #[trigger]
        has_at(all, j, name) && !blocked.contains(name) implies p.contains(j) by {
        assert(without_blocked(all[j].1, blocked).archive.entries.dom().contains(name));
    }
    assert forall|j: int| #[trigger] has_unblocked(mods, n, j, blocked) implies p.contains(j) by {
        let name = choose|name: u64| #[trigger]
            holds(mods, n, j, name) && !blocked.contains(name);
        assert(has_at(all, j, name));
    }
    assert forall|i: int|
        #![trigger p[i]]
        0 <= i < p.len() implies has_unblocked(mods, n, p[i], blocked) && is_rest_of(
        newer[i],
        mods[n][p[i]],
        blocked,
    ) by {
        let m = without_blocked(all[p[i]].1, blocked);
        let name = choose|name: u64| m.archive.entries.dom().contains(name);
        assert(m.archive.entries.dom().contains(name)) by {
            if forall|x: u64| !m.archive.entries.dom().contains(x) {
                assert(m.archive.entries.dom() =~= Set::empty());
            }
        }
        assert(holds(mods, n, p[i], name) && !blocked.contains(name));
        assert(newer[i].0 == left[i].0 && same_shape(newer[i].1, left[i].1));
        assert(left[i] == (all[p[i]].0, m));
        assert forall|x: u64| #[trigger] newer[i].1.archive.entries.contains_key(x) <==> (
        !blocked.contains(x) && all[p[i]].1.archive.entries.contains_key(x)) by {
            assert(newer[i].1.archive.entries.dom().contains(x)
                == left[i].1.archive.entries.dom().contains(x));
        }
    }
    assert forall|i: int, name: u64, j: int|
        #![trigger has_at(newer, i, name), last_at(all, total, j, name)]
        has_at(newer, i, name) && last_at(all, total, j, name) implies entry_of(newer, i, name)
        == entry_of(all, j, name) by {
        assert(same_shape(newer[i].1, left[i].1));
        assert(has_at(left, i, name));
        assert(p.contains(j));
        let l = choose|l: int| 0 <= l < p.len() && p[l] == j;
        assert(left[l] == (all[p[l]].0, without_blocked(all[p[l]].1, blocked)));
        assert(has_at(left, l, name));
        assert forall|x: int| has_at(left, x, name) && x < left.len() implies x <= l by {
            assert(has_at(all, p[x], name));
            assert(p[x] <= j);
            if x > l {
                assert(p[l] < p[x]);
            }
        }
        assert(last_at(left, left.len() as int, l, name));
    }
    assert forall|name: u64| #[trigger] has_any(newer, name) <==> !blocked.contains(name)
        && has_any(all, name) by {
        if has_any(newer, name) {
            let i = choose|i: int| #[trigger] has_at(newer, i, name);
            assert(same_shape(newer[i].1, left[i].1));
            assert(has_at(left, i, name));
            assert(has_at(all, p[i], name));
        }
        if !blocked.contains(name) && has_any(all, name) {
            let j = choose|j: int| #[trigger] has_at(all, j, name);
            let l = choose|l: int| 0 <= l < p.len() && p[l] == j;
            assert(left[l] == (all[p[l]].0, without_blocked(all[p[l]].1, blocked)));
            assert(has_at(left, l, name));
            assert(same_shape(newer[l].1, left[l].1));
            assert(has_at(newer, l, name));
        }
    }
    p
}

/// A mod of which nothing is left changes nothing.
proof fn lemma_queue_same(
    queue: Seq<Named<MountView>>,
    mods: Seq<Named<MountView>>,
    blocked: Set<u64>,
    ignore: bool,
    n: int,
)
    requires
        0 <= n < mods.len(),
        finite_mods(mods),
        queue_is(queue, mods, blocked, n),
        stripped(mods[n], blocked, mods[n].len() as int).len() == 0,
    ensures
        queue_is(queue, mods, blocked, n + 1),
        forall|j: int, name: u64| #[trigger] has_at(mods[n], j, name) ==> blocked.contains(name),
{
    let all = mods[n];
    let total = all.len() as int;
    let p = lemma_places(all, blocked, total);
    assert forall|j: int, name: u64| #[trigger] has_at(all, j, name) implies blocked.contains(
        name,
    ) by {
        if !blocked.contains(name) {
            assert(without_blocked(all[j].1, blocked).archive.entries.dom().contains(name));
            assert(p.contains(j));
        }
    }
    assert forall|k: int, j: int| k < n + 1 && #[trigger] has_unblocked(
        mods,
        k,
        j,
        blocked,
    ) implies k < n by {
        if k == n {
            let name = choose|name: u64| #[trigger]
                holds(mods, k, j, name) && !blocked.contains(name);
            assert(has_at(all, j, name));
        }
    }
    assert forall|q: int, i: int|
        0 <= q < queue.len() && 0 <= i < queue[q].len() implies #[trigger] has_origin(
        queue,
        q,
        i,
        mods,
        blocked,
        n + 1,
    ) by {
        assert(has_origin(queue, q, i, mods, blocked, n));
        let (k, j) = choose|k: int, j: int|
            k < n && has_unblocked(mods, k, j, blocked) && #[trigger] came_from(
                queue,
                q,
                i,
                mods,
                k,
                j,
                blocked,
            );
        assert(came_from(queue, q, i, mods, k, j, blocked));
    }
    assert forall|q: int, i: int, name: u64, k: int, j: int|
        #![trigger holds(queue, q, i, name), last_holder(mods, n + 1, k, j, name)]
        holds(queue, q, i, name) && last_holder(mods, n + 1, k, j, name) implies entry_of(
        queue[q],
        i,
        name,
    ) == entry_of(mods[k], j, name) by {
        lemma_queue_unblocked(queue, mods, blocked, n, q, i, name);
        assert(k < n) by {
            if k == n {
                assert(has_at(all, j, name));
            }
        }
        assert(last_holder(mods, n, k, j, name));
    }
    assert(queue_is(queue, mods, blocked, n + 1));
}

/// With one more mod, the queue has the entries of the last mod that has any of
/// the name.
proof fn lemma_queue_values(
    queue: Seq<Named<MountView>>,
    mods: Seq<Named<MountView>>,
    blocked: Set<u64>,
    ignore: bool,
    n: int,
)
    requires
        0 <= n < mods.len(),
        finite_mods(mods),
        queue_is(queue, mods, blocked, n),
        ({
            let left = stripped(mods[n], blocked, mods[n].len() as int);
            let newer = reconcile_within(left, ignore, left.len() as int).0;
            &&& reconcile_within(left, ignore, left.len() as int).1 is None
            &&& queue_reconciled(queue, newer, ignore, queue.len() as int) is Ok
        }),
    ensures
        ({
            let left = stripped(mods[n], blocked, mods[n].len() as int);
            let newer = reconcile_within(left, ignore, left.len() as int).0;
            let after = queue_reconciled(queue, newer, ignore, queue.len() as int)->Ok_0.push(
                newer,
            );
            forall|q: int, i: int, name: u64, k: int, j: int|
                #![trigger holds(after, q, i, name), last_holder(mods, n + 1, k, j, name)]
                holds(after, q, i, name) && last_holder(mods, n + 1, k, j, name) ==> entry_of(
                    after[q],
                    i,
                    name,
                ) == entry_of(mods[k], j, name)
        }),
{
    let all = mods[n];
    let total = all.len() as int;
    let left = stripped(all, blocked, total);
    let p = lemma_newer(mods, n, blocked, ignore);
    let newer = reconcile_within(left, ignore, left.len() as int).0;
    lemma_queue_reconciled(queue, newer, ignore, queue.len() as int);
    let x = queue_reconciled(queue, newer, ignore, queue.len() as int)->Ok_0;
    let after = x.push(newer);
    assert forall|q: int, i: int, name: u64, k: int, j: int|
        #![trigger holds(after, q, i, name), last_holder(mods, n + 1, k, j, name)]
        holds(after, q, i, name) && last_holder(mods, n + 1, k, j, name) implies entry_of(
        after[q],
        i,
        name,
    ) == entry_of(mods[k], j, name) by {
        if q == queue.len() {
            assert(after[q] == newer);
            assert(has_at(newer, i, name));
            assert(has_any(newer, name));
            let y = choose|y: int| has_at(all, y, name);
            assert(holds(mods, n, y, name));
            assert(k == n);
            lemma_last_in_mod(mods, n, j, name);
        } else {
            assert(after[q] == x[q]);
            lemma_queue_all(queue, newer, ignore, q);
            assert(same_shape(x[q][i].1, queue[q][i].1));
            assert(has_at(queue[q], i, name));
            assert(holds(queue, q, i, name));
            lemma_queue_unblocked(queue, mods, blocked, n, q, i, name);
            if has_any(all, name) {
                let y = choose|y: int| has_at(all, y, name);
                assert(holds(mods, n, y, name));
                assert(k == n);
                lemma_last_in_mod(mods, n, j, name);
                assert(has_any(newer, name));
                let f = choose|f: int| has_at(newer, f, name);
                let l = lemma_last_at(newer, newer.len() as int, f, name);
                assert(has_at(newer, l, name));
                assert(has_at(x[q], i, name));
            } else {
                assert(!has_any(newer, name));
                assert(k < n) by {
                    if k == n {
                        assert(has_at(all, j, name));
                    }
                }
                assert(last_holder(mods, n, k, j, name));
                assert(has_at(x[q], i, name));
            }
        }
    }
}

/// One more mod does not conflict with the last one before it that has a name.
proof fn lemma_queue_conflicts(
    queue: Seq<Named<MountView>>,
    mods: Seq<Named<MountView>>,
    blocked: Set<u64>,
    ignore: bool,
    n: int,
)
    requires
        0 <= n < mods.len(),
        finite_mods(mods),
        queue_is(queue, mods, blocked, n),
        ({
            let left = stripped(mods[n], blocked, mods[n].len() as int);
            let newer = reconcile_within(left, ignore, left.len() as int).0;
            &&& reconcile_within(left, ignore, left.len() as int).1 is None
            &&& queue_reconciled(queue, newer, ignore, queue.len() as int) is Ok
        }),
    ensures
        forall|k: int, j: int, y: int, name: u64|
            #![trigger last_holder(mods, n, k, j, name),
                last_at(mods[n], mods[n].len() as int, y, name)]
            !blocked.contains(name) && last_holder(mods, n, k, j, name) && last_at(
                mods[n],
                mods[n].len() as int,
                y,
                name,
            ) ==> reconciles(entry_of(mods[k], j, name), entry_of(mods[n], y, name), ignore),
{
    let all = mods[n];
    let total = all.len() as int;
    let left = stripped(all, blocked, total);
    let p = lemma_newer(mods, n, blocked, ignore);
    let newer = reconcile_within(left, ignore, left.len() as int).0;
    lemma_queue_reconciled(queue, newer, ignore, queue.len() as int);
    let x = queue_reconciled(queue, newer, ignore, queue.len() as int)->Ok_0;
    assert forall|k: int, j: int, y: int, name: u64|
        #![trigger last_holder(mods, n, k, j, name), last_at(all, total, y, name)]
        !blocked.contains(name) && last_holder(mods, n, k, j, name) && last_at(
            all,
            total,
            y,
            name,
        ) implies reconciles(entry_of(mods[k], j, name), entry_of(all, y, name), ignore) by {
        assert(has_unblocked(mods, k, j, blocked));
        let (q, i) = choose|q: int, i: int| #[trigger]
            came_from(queue, q, i, mods, k, j, blocked);
        assert(queue[q][i].1.archive.entries.contains_key(name));
        assert(holds(queue, q, i, name));
        assert(has_any(all, name));
        assert(has_any(newer, name));
        let f0 = choose|f: int| has_at(newer, f, name);
        let f = lemma_first_at(newer, f0, name);
        lemma_queue_all(queue, newer, ignore, q);
        assert(has_at(queue[q], i, name) && has_at(newer, f, name));
    }
}

/// One more mod in the queue.
proof fn lemma_queue_step(
    queue: Seq<Named<MountView>>,
    mods: Seq<Named<MountView>>,
    blocked: Set<u64>,
    ignore: bool,
    n: int,
)
    requires
        0 <= n < mods.len(),
        finite_mods(mods),
        queue_is(queue, mods, blocked, n),
        queue_with(queue, mods[n], blocked, ignore) is Ok,
    ensures
        queue_is(queue_with(queue, mods[n], blocked, ignore)->Ok_0, mods, blocked, n + 1),
        forall|k: int, j: int, y: int, name: u64|
            #![trigger last_holder(mods, n, k, j, name),
                last_at(mods[n], mods[n].len() as int, y, name)]
            !blocked.contains(name) && last_holder(mods, n, k, j, name) && last_at(
                mods[n],
                mods[n].len() as int,
                y,
                name,
            ) ==> reconciles(entry_of(mods[k], j, name), entry_of(mods[n], y, name), ignore),
{
    let all = mods[n];
    let total = all.len() as int;
    let left = stripped(all, blocked, total);
    if left.len() == 0 {
        lemma_queue_same(queue, mods, blocked, ignore, n);
    } else {
        let p = lemma_newer(mods, n, blocked, ignore);
        let newer = reconcile_within(left, ignore, left.len() as int).0;
        lemma_queue_reconciled(queue, newer, ignore, queue.len() as int);
        let x = queue_reconciled(queue, newer, ignore, queue.len() as int)->Ok_0;
        assert forall|q: int| 0 <= q < queue.len() implies same_shapes(
            #[trigger] x[q],
            queue[q],
        ) by {
            assert(finite_mounts(queue[q]));
            lemma_queue_all(queue, newer, ignore, q);
        }
        lemma_queue_origins(queue, x, newer, mods, blocked, n, p);
        lemma_queue_values(queue, mods, blocked, ignore, n);
        lemma_queue_conflicts(queue, mods, blocked, ignore, n);
        assert(queue_is(x.push(newer), mods, blocked, n + 1));
    }
}

proof fn lemma_first_at(mounts: Named<MountView>, i: int, name: u64) -> (f: int)
    requires
        has_at(mounts, i, name),
    ensures
        has_at(mounts, f, name),
        forall|j: int| j < f ==> !#[trigger] has_at(mounts, j, name),
    decreases i,
{
    if exists|j: int| j < i && has_at(mounts, j, name) {
        let j = choose|j: int| j < i && has_at(mounts, j, name);
        lemma_first_at(mounts, j, name)
    } else {
        i
    }
}

/// Where the last mod has a name, its last mount with the name is the last of
/// all.
proof fn lemma_last_in_mod(mods: Seq<Named<MountView>>, n: int, j: int, name: u64)
    requires
        0 <= n < mods.len(),
        last_holder(mods, n + 1, n, j, name),
    ensures
        last_at(mods[n], mods[n].len() as int, j, name),
{
    assert forall|y: int| has_at(mods[n], y, name) && y < mods[n].len() implies y <= j by {
        assert(holds(mods, n, y, name));
    }
}

/// Nothing in the queue is blocked, and all of it is in some mod.
proof fn lemma_queue_unblocked(
    queue: Seq<Named<MountView>>,
    mods: Seq<Named<MountView>>,
    blocked: Set<u64>,
    n: int,
    q: int,
    i: int,
    name: u64,
)
    requires
        queue_is(queue, mods, blocked, n),
        holds(queue, q, i, name),
    ensures
        !blocked.contains(name),
        exists|k: int, j: int| k < n && #[trigger] holds(mods, k, j, name),
{
    assert(has_origin(queue, q, i, mods, blocked, n));
    let (k, j) = choose|k: int, j: int|
        k < n && has_unblocked(mods, k, j, blocked) && #[trigger] came_from(
            queue,
            q,
            i,
            mods,
            k,
            j,
            blocked,
        );
    assert(queue[q][i].1.archive.entries.contains_key(name));
    assert(holds(mods, k, j, name));
}

/// Where the mounts of the queue come from, with one more mod.
proof fn lemma_queue_origins(
    queue: Seq<Named<MountView>>,
    x: Seq<Named<MountView>>,
    newer: Named<MountView>,
    mods: Seq<Named<MountView>>,
    blocked: Set<u64>,
    n: int,
    p: Seq<int>,
)
    requires
        0 <= n < mods.len(),
        queue_is(queue, mods, blocked, n),
        x.len() == queue.len(),
        forall|q: int| 0 <= q < x.len() ==> same_shapes(#[trigger] x[q], queue[q]),
        finite_mounts(newer),
        p.len() == newer.len(),
        forall|i: int| 0 <= i < p.len() ==> 0 <= #[trigger] p[i] < mods[n].len(),
        forall|i: int|
            #![trigger p[i]]
            0 <= i < p.len() ==> has_unblocked(mods, n, p[i], blocked) && is_rest_of(
                newer[i],
                mods[n][p[i]],
                blocked,
            ),
        forall|j: int| #[trigger] has_unblocked(mods, n, j, blocked) ==> p.contains(j),
    ensures
        finite_mods(x.push(newer)),
        forall|k: int, j: int|
            k < n + 1 && #[trigger] has_unblocked(mods, k, j, blocked) ==> exists|q: int, i: int|
                #[trigger]
                came_from(x.push(newer), q, i, mods, k, j, blocked),
        forall|q: int, i: int|
            0 <= q < x.push(newer).len() && 0 <= i < x.push(newer)[q].len()
                ==> #[trigger] has_origin(x.push(newer), q, i, mods, blocked, n + 1),
{
    let after = x.push(newer);
    assert forall|q: int, i: int, k: int, j: int| #[trigger]
        came_from(queue, q, i, mods, k, j, blocked) implies came_from(
        after,
        q,
        i,
        mods,
        k,
        j,
        blocked,
    ) by {
        assert(after[q] == x[q]);
        assert(same_shapes(x[q], queue[q]));
        assert(x[q][i].0 == queue[q][i].0 && same_shape(x[q][i].1, queue[q][i].1));
        assert forall|name: u64| #[trigger] after[q][i].1.archive.entries.contains_key(name) <==> (
        !blocked.contains(name) && mods[k][j].1.archive.entries.contains_key(name)) by {
            assert(x[q][i].1.archive.entries.dom().contains(name)
                == queue[q][i].1.archive.entries.dom().contains(name));
            assert(queue[q][i].1.archive.entries.contains_key(name) <==> !blocked.contains(name)
                && mods[k][j].1.archive.entries.contains_key(name));
        }
    }
    assert forall|k: int, j: int| k < n + 1 && #[trigger] has_unblocked(
        mods,
        k,
        j,
        blocked,
    ) implies exists|q: int, i: int| #[trigger]
        came_from(after, q, i, mods, k, j, blocked) by {
        if k < n {
            let (q, i) = choose|q: int, i: int| #[trigger]
                came_from(queue, q, i, mods, k, j, blocked);
            assert(came_from(after, q, i, mods, k, j, blocked));
        } else {
            let name = choose|name: u64| #[trigger]
                holds(mods, k, j, name) && !blocked.contains(name);
            assert(k == n);
            let i = choose|i: int| 0 <= i < p.len() && p[i] == j;
            assert(p[i] == j);
            assert(came_from(after, x.len() as int, i, mods, n, p[i], blocked));
        }
    }
    assert forall|q: int, i: int|
        0 <= q < after.len() && 0 <= i < after[q].len() implies #[trigger] has_origin(
        after,
        q,
        i,
        mods,
        blocked,
        n + 1,
    ) by {
        if q < x.len() {
            assert(after[q] == x[q]);
            assert(same_shapes(x[q], queue[q]));
            assert(x[q][i].0 == queue[q][i].0 && same_shape(x[q][i].1, queue[q][i].1));
            assert(has_origin(queue, q, i, mods, blocked, n));
            let (k, j) = choose|k: int, j: int|
                k < n && has_unblocked(mods, k, j, blocked) && #[trigger] came_from(
                    queue,
                    q,
                    i,
                    mods,
                    k,
                    j,
                    blocked,
                );
            assert(came_from(after, q, i, mods, k, j, blocked));
        } else {
            assert(after[q] == newer);
            assert(has_unblocked(mods, n, p[i], blocked));
            assert(came_from(after, q, i, mods, n, p[i], blocked));
        }
    }
    assert forall|q: int| 0 <= q < after.len() implies finite_mounts(#[trigger] after[q]) by {
        if q < x.len() {
            assert(same_shapes(x[q], queue[q]));
            assert(finite_mounts(queue[q]));
            assert forall|i: int| 0 <= i < x[q].len() implies (
            #[trigger] x[q][i]).1.archive.entries.dom().finite() by {
                assert(same_shape(x[q][i].1, queue[q][i].1));
                assert(queue[q][i].1.archive.entries.dom().finite());
            }
        }
    }
}

/// Where some mod has a name, one mount is the last that has it.
pub proof fn lemma_last_holder(
    mods: Seq<Named<MountView>>,
    n: int,
    k: int,
    j: int,
    name: u64,
) -> (r: (int, int))
    requires
        holds(mods, k, j, name),
        k < n,
    ensures
        last_holder(mods, n, r.0, r.1, name),
    decreases n - k, mods[k].len() - j,
{
    if exists|x: int, y: int| #[trigger]
        holds(mods, x, y, name) && x < n && (x > k || (x == k && y > j)) {
        let (x, y) = choose|x: int, y: int| #[trigger]
            holds(mods, x, y, name) && x < n && (x > k || (x == k && y > j));
        lemma_last_holder(mods, n, x, y, name)
    } else {
        (k, j)
    }
}

/// The queue of mods that do not conflict has every mount of every mod, without
/// the blocked entries and without mounts of which nothing is left, and nothing
/// else. Every name in it stands for the entry of the last mod that has it.
pub proof fn law_queue(mods: Seq<Named<MountView>>, blocked: Set<u64>, ignore: bool, n: int)
    requires
        0 <= n <= mods.len(),
        finite_mods(mods),
        mod_queue(mods, blocked, ignore, n) is Ok,
    ensures
        queue_is(mod_queue(mods, blocked, ignore, n)->Ok_0, mods, blocked, n),
    decreases n,
{
    if n > 0 {
        law_queue(mods, blocked, ignore, n - 1);
        let queue = mod_queue(mods, blocked, ignore, n - 1)->Ok_0;
        lemma_queue_step(queue, mods, blocked, ignore, n - 1);
    }
}

/// Mods that are all queued do not conflict: where a mod has a name that a mod
/// before it has, its entry reconciles with that of the last such mod.
pub proof fn law_queued_mods_reconcile(
    mods: Seq<Named<MountView>>,
    blocked: Set<u64>,
    ignore: bool,
    n: int,
    x: int,
    y: int,
    k: int,
    j: int,
    name: u64,
)
    requires
        0 <= x < n <= mods.len(),
        finite_mods(mods),
        mod_queue(mods, blocked, ignore, n) is Ok,
        !blocked.contains(name),
        last_at(mods[x], mods[x].len() as int, y, name),
        last_holder(mods, x, k, j, name),
    ensures
        reconciles(entry_of(mods[k], j, name), entry_of(mods[x], y, name), ignore),
    decreases n,
{
    if x < n - 1 {
        law_queued_mods_reconcile(mods, blocked, ignore, n - 1, x, y, k, j, name);
    } else {
        law_queue(mods, blocked, ignore, x);
        let queue = mod_queue(mods, blocked, ignore, x)->Ok_0;
        lemma_queue_step(queue, mods, blocked, ignore, x);
    }
}

/// Whether the entries of the first `n` mods reconcile wherever they share a name
/// that is not blocked, in whichever order.
pub open spec fn mods_agree(
    mods: Seq<Named<MountView>>,
    blocked: Set<u64>,
    ignore: bool,
    n: int,
) -> bool {
    forall|name: u64, k: int, j: int, x: int, y: int|
        #![trigger holds(mods, k, j, name), holds(mods, x, y, name)]
        !blocked.contains(name) && holds(mods, k, j, name) && holds(mods, x, y, name) && k < n && x
            < n ==> reconciles(entry_of(mods[k], j, name), entry_of(mods[x], y, name), ignore)
}

proof fn lemma_agree_queue(
    queue: Seq<Named<MountView>>,
    newer: Named<MountView>,
    ignore: bool,
    k: int,
)
    requires
        0 <= k <= queue.len(),
        finite_mods(queue),
        forall|q: int, i: int|
            0 <= q < queue.len() && 0 <= i < queue[q].len() ==> agree(
                (#[trigger] queue[q][i]).1,
                newer,
                ignore,
            ),
    ensures
        queue_reconciled(queue, newer, ignore, k) is Ok,
    decreases k,
{
    if k > 0 {
        lemma_agree_queue(queue, newer, ignore, k - 1);
        lemma_queue_reconciled(queue, newer, ignore, k - 1);
        let x = queue_reconciled(queue, newer, ignore, k - 1)->Ok_0;
        assert(x[k - 1] == queue[k - 1]);
        assert(finite_mounts(queue[k - 1]));
        assert forall|i: int| 0 <= i < queue[k - 1].len() implies agree(
            (#[trigger] queue[k - 1][i]).1,
            newer,
            ignore,
        ) by {}
        lemma_agree_all(queue[k - 1], newer, ignore, queue[k - 1].len() as int);
    }
}

proof fn lemma_agree_step(
    queue: Seq<Named<MountView>>,
    mods: Seq<Named<MountView>>,
    blocked: Set<u64>,
    ignore: bool,
    n: int,
)
    requires
        0 <= n < mods.len(),
        finite_mods(mods),
        queue_is(queue, mods, blocked, n),
        mods_agree(mods, blocked, ignore, n + 1),
    ensures
        queue_with(queue, mods[n], blocked, ignore) is Ok,
{
    let all = mods[n];
    let total = all.len() as int;
    let left = stripped(all, blocked, total);
    if left.len() > 0 {
        let places = lemma_places(all, blocked, total);
        assert(finite_mounts(all));
        assert forall|i: int, name: u64| #[trigger] has_at(left, i, name) implies 0 <= places[i]
            < total && holds(mods, n, places[i], name) && !blocked.contains(name) && entry_of(
            left,
            i,
            name,
        ) == entry_of(all, places[i], name) by {
            assert(left[i].1 == without_blocked(all[places[i]].1, blocked));
        }
        assert forall|i: int| 0 <= i < left.len() implies (
        #[trigger] left[i]).1.archive.entries.dom().finite() by {
            assert(places[i] < total);
            assert(all[places[i]].1.archive.entries.dom().finite());
            assert(left[i].1.archive.entries.dom().subset_of(
                all[places[i]].1.archive.entries.dom(),
            ));
            vstd::set_lib::lemma_len_subset(
                left[i].1.archive.entries.dom(),
                all[places[i]].1.archive.entries.dom(),
            );
        }
        assert forall|name: u64, i: int, j: int|
            #![trigger has_at(left, i, name), has_at(left, j, name)]
            has_at(left, i, name) && has_at(left, j, name) implies reconciles(
            entry_of(left, i, name),
            entry_of(left, j, name),
            ignore,
        ) by {
            assert(holds(mods, n, places[i], name) && holds(mods, n, places[j], name));
        }
        lemma_agree_within(left, ignore, left.len() as int);
        let p = lemma_newer(mods, n, blocked, ignore);
        let newer = reconcile_within(left, ignore, left.len() as int).0;
        assert forall|i: int, name: u64| #[trigger] has_at(newer, i, name) implies !blocked.contains(
            name,
        ) && exists|y: int| #[trigger]
            holds(mods, n, y, name) && entry_of(newer, i, name) == entry_of(all, y, name) by {
            assert(has_any(newer, name));
            let f = choose|f: int| has_at(all, f, name);
            let y = lemma_last_at(all, total, f, name);
            assert(holds(mods, n, y, name));
        }
        assert forall|q: int, i: int|
            0 <= q < queue.len() && 0 <= i < queue[q].len() implies agree(
            (#[trigger] queue[q][i]).1,
            newer,
            ignore,
        ) by {
            let m = queue[q][i].1;
            assert forall|name: u64, a: int|
                m.archive.entries.contains_key(name) && #[trigger] has_at(newer, a, name) implies {
                &&& reconciles(m.archive.entries[name], entry_of(newer, a, name), ignore)
                &&& forall|b: int| #[trigger]
                    has_at(newer, b, name) ==> reconciles(
                        entry_of(newer, b, name),
                        entry_of(newer, a, name),
                        ignore,
                    )
            } by {
                assert(holds(queue, q, i, name));
                lemma_queue_unblocked(queue, mods, blocked, n, q, i, name);
                let (k0, j0) = choose|k: int, j: int| k < n && #[trigger] holds(mods, k, j, name);
                let (k, j) = lemma_last_holder(mods, n, k0, j0, name);
                assert(entry_of(queue[q], i, name) == entry_of(mods[k], j, name));
                let y = choose|y: int| #[trigger]
                    holds(mods, n, y, name) && entry_of(newer, a, name) == entry_of(all, y, name);
                assert(holds(mods, k, j, name) && holds(mods, n, y, name));
                assert forall|b: int| #[trigger] has_at(newer, b, name) implies reconciles(
                    entry_of(newer, b, name),
                    entry_of(newer, a, name),
                    ignore,
                ) by {
                    let z = choose|z: int| #[trigger]
                        holds(mods, n, z, name) && entry_of(newer, b, name) == entry_of(
                            all,
                            z,
                            name,
                        );
                    assert(holds(mods, n, z, name) && holds(mods, n, y, name));
                }
            }
        }
        lemma_agree_queue(queue, newer, ignore, queue.len() as int);
    }
}

/// Mods whose entries reconcile wherever they share a name are all queued: there
/// is no conflict. That holds of all mods where conflicts are ignored.
pub proof fn law_agreeing_mods_queue(
    mods: Seq<Named<MountView>>,
    blocked: Set<u64>,
    ignore: bool,
    n: int,
)
    requires
        0 <= n <= mods.len(),
        finite_mods(mods),
        ignore || mods_agree(mods, blocked, ignore, n),
    ensures
        mod_queue(mods, blocked, ignore, n) is Ok,
    decreases n,
{
    if n > 0 {
        law_agreeing_mods_queue(mods, blocked, ignore, n - 1);
        law_queue(mods, blocked, ignore, n - 1);
        let queue = mod_queue(mods, blocked, ignore, n - 1)->Ok_0;
        lemma_agree_step(queue, mods, blocked, ignore, n - 1);
    }
}

/// The names of entries of two archives that do not reconcile.
pub open spec fn conflicting(a: Content, b: Content, ignore: bool) -> Set<u64> {
    Set::new(
        |name: u64|
            a.entries.contains_key(name) && b.entries.contains_key(name) && !reconciles(
                a.entries[name],
                b.entries[name],
                ignore,
            ),
    )
}

/// The number of conflicts of two archives is that of the names that do not reconcile.
pub proof fn law_conflicts_counted(a: Content, b: Content, ignore: bool)
    requires
        a.entries.dom().finite(),
    ensures
        conflicting(a, b, ignore).finite(),
        conflicts(a, b, ignore) == conflicting(a, b, ignore).len(),
{
    let common = common_names(a.entries, b.entries);
    assert(common.subset_of(a.entries.dom()));
    vstd::set_lib::lemma_len_subset(common, a.entries.dom());
    lemma_ascending_exists(common);
    let names = ascending(common);
    lemma_conflicts_among(a.entries, b.entries, ignore, names);
    let among = conflicting_among(a.entries, b.entries, ignore, names);
    assert forall|name: u64| among.contains(name) == conflicting(a, b, ignore).contains(name) by {
        if conflicting(a, b, ignore).contains(name) {
            assert(common.contains(name));
            assert(names.contains(name));
        }
        if among.contains(name) {
            let i = choose|i: int| 0 <= i < names.len() && names[i] == name;
            assert(common.contains(names[i]));
        }
    }
    assert(among =~= conflicting(a, b, ignore));
}

spec fn conflicting_among(
    ours: Map<u64, Entry>,
    theirs: Map<u64, Entry>,
    ignore: bool,
    names: Seq<u64>,
) -> Set<u64> {
    Set::new(
        |name: u64| names.contains(name) && !reconciles(ours[name], theirs[name], ignore),
    )
}

proof fn lemma_conflicts_among(
    ours: Map<u64, Entry>,
    theirs: Map<u64, Entry>,
    ignore: bool,
    names: Seq<u64>,
)
    requires
        forall|i: int, j: int| 0 <= i < j < names.len() ==> names[i] < names[j],
    ensures
        conflicting_among(ours, theirs, ignore, names).finite(),
        conflict_count(ours, theirs, ignore, names) == conflicting_among(
            ours,
            theirs,
            ignore,
            names,
        ).len(),
    decreases names.len(),
{
    let all = conflicting_among(ours, theirs, ignore, names);
    if names.len() == 0 {
        assert(all =~= Set::empty());
    } else {
        let first = names.drop_last();
        let last = names.last();
        lemma_conflicts_among(ours, theirs, ignore, first);
        let before = conflicting_among(ours, theirs, ignore, first);
        assert forall|name: u64| names.contains(name) == (first.contains(name) || name == last) by {
            if names.contains(name) {
                let i = choose|i: int| 0 <= i < names.len() && names[i] == name;
                if i < first.len() {
                    assert(first[i] == name);
                }
            }
            if first.contains(name) {
                let i = choose|i: int| 0 <= i < first.len() && first[i] == name;
                assert(names[i] == name);
            }
            assert(names[names.len() - 1] == last);
        }
        assert(!first.contains(last)) by {
            if first.contains(last) {
                let i = choose|i: int| 0 <= i < first.len() && first[i] == last;
                assert(names[i] < names[names.len() - 1]);
            }
        }
        if reconciles(ours[last], theirs[last], ignore) {
            assert(all =~= before);
        } else {
            assert(all =~= before.insert(last));
        }
    }
}

} // verus!
