//! Putting things in the order of their names.

use crate::names::{
    is_name_less, lemma_name_less_irreflexive, lemma_name_less_total, lemma_name_less_transitive,
    name_less,
};
use crate::text::same_text;
use vstd::prelude::*;

verus! {

/// What things are ordered by: a first name, and a second where the first ones
/// are equal.
pub type KeyView = (Seq<char>, Seq<char>);

pub struct Key {
    pub first: String,
    pub second: String,
}

impl View for Key {
    type V = KeyView;

    open spec fn view(&self) -> KeyView {
        (self.first@, self.second@)
    }
}

/// Keys as values.
pub open spec fn key_views(keys: Seq<Key>) -> Seq<KeyView> {
    keys.map_values(|k: Key| k@)
}

/// Whether one key comes before another.
pub open spec fn key_less(a: KeyView, b: KeyView) -> bool {
    name_less(a.0, b.0) || (a.0 == b.0 && name_less(a.1, b.1))
}

/// Where a thing with the key comes behind things in order: in front of the
/// first that comes after it.
pub open spec fn place(keys: Seq<KeyView>, order: Seq<int>, key: KeyView, i: int) -> int
    decreases order.len() - i,
{
    if i >= order.len() || key_less(key, keys[order[i]]) {
        i
    } else {
        place(keys, order, key, i + 1)
    }
}

/// The first `n` things in the order of their keys, by their positions. Things
/// with the same key stay in the order in which they are.
pub open spec fn order_of(keys: Seq<KeyView>, n: int) -> Seq<int>
    decreases n,
{
    if n <= 0 {
        Seq::empty()
    } else {
        let before = order_of(keys, n - 1);
        before.insert(place(keys, before, keys[n - 1], 0), n - 1)
    }
}

fn is_key_less(a: &Key, b: &Key) -> (r: bool)
    ensures
        r == key_less(a@, b@),
{
    is_name_less(a.first.as_str(), b.first.as_str()) || (same_text(
        a.first.as_str(),
        b.first.as_str(),
    ) && is_name_less(a.second.as_str(), b.second.as_str()))
}

/// Positions as numbers.
pub open spec fn positions(v: Seq<usize>) -> Seq<int> {
    v.map_values(|i: usize| i as int)
}

/// The positions of things in the order of their keys.
pub fn sort_order(keys: &Vec<Key>) -> (r: Vec<usize>)
    ensures
        positions(r@) == order_of(key_views(keys@), keys@.len() as int),
        r@.len() == keys@.len(),
        forall|i: int| 0 <= i < r@.len() ==> #[trigger] r@[i] < keys@.len(),
{
    let ghost views = key_views(keys@);
    let mut order: Vec<usize> = Vec::new();
    let mut n: usize = 0;
    assert(positions(order@) =~= Seq::<int>::empty());
    while n < keys.len()
        invariant
            n <= keys@.len(),
            views == key_views(keys@),
            order@.len() == n,
            positions(order@) == order_of(views, n as int),
            forall|i: int| 0 <= i < order@.len() ==> #[trigger] order@[i] < n,
        decreases keys@.len() - n,
    {
        let ghost before = order@;
        let mut i: usize = 0;
        while i < order.len() && !is_key_less(&keys[n], &keys[order[i]])
            invariant
                n < keys@.len(),
                i <= order@.len(),
                views == key_views(keys@),
                forall|k: int| 0 <= k < order@.len() ==> #[trigger] order@[k] < n,
                place(views, positions(order@), views[n as int], 0) == place(
                    views,
                    positions(order@),
                    views[n as int],
                    i as int,
                ),
            decreases order@.len() - i,
        {
            assert(positions(order@)[i as int] == order@[i as int]);
            i = i + 1;
        }
        proof {
            if i < order@.len() {
                assert(positions(order@)[i as int] == order@[i as int]);
            }
        }
        order.insert(i, n);
        assert(positions(order@) =~= positions(before).insert(i as int, n as int));
        n = n + 1;
    }
    order
}

proof fn lemma_key_less(a: KeyView, b: KeyView, c: KeyView)
    ensures
        !key_less(a, a),
        key_less(a, b) && key_less(b, c) ==> key_less(a, c),
        !key_less(a, b) && !key_less(b, a) ==> a == b,
{
    lemma_name_less_irreflexive(a.0);
    lemma_name_less_irreflexive(a.1);
    if name_less(a.0, b.0) && name_less(b.0, c.0) {
        lemma_name_less_transitive(a.0, b.0, c.0);
    }
    if name_less(a.1, b.1) && name_less(b.1, c.1) {
        lemma_name_less_transitive(a.1, b.1, c.1);
    }
    if a.0 != b.0 {
        lemma_name_less_total(a.0, b.0);
    }
    if a.1 != b.1 {
        lemma_name_less_total(a.1, b.1);
    }
}

proof fn lemma_place(keys: Seq<KeyView>, order: Seq<int>, key: KeyView, i: int)
    requires
        0 <= i <= order.len(),
        forall|k: int| 0 <= k < i ==> !key_less(key, keys[#[trigger] order[k]]),
    ensures
        i <= place(keys, order, key, i) <= order.len(),
        forall|k: int|
            0 <= k < place(keys, order, key, i) ==> !key_less(key, keys[#[trigger] order[k]]),
        place(keys, order, key, i) < order.len() ==> key_less(
            key,
            keys[order[place(keys, order, key, i)]],
        ),
    decreases order.len() - i,
{
    if i < order.len() && !key_less(key, keys[order[i]]) {
        lemma_place(keys, order, key, i + 1);
    }
}

/// Whether `order` lists the positions below `n`, each once, in the order of
/// their keys; things with the same key in the order in which they are.
pub open spec fn is_sorted_listing(keys: Seq<KeyView>, order: Seq<int>, n: int) -> bool {
    &&& order.len() == n
    &&& forall|i: int| 0 <= i < order.len() ==> 0 <= #[trigger] order[i] < n
    &&& forall|k: int| 0 <= k < n ==> #[trigger] order.contains(k)
    &&& forall|i: int, j: int|
        0 <= i < j < order.len() ==> #[trigger] order[i] != #[trigger] order[j] && !key_less(
            keys[order[j]],
            keys[order[i]],
        ) && (keys[order[i]] == keys[order[j]] ==> order[i] < order[j])
}

/// Things in the order of their keys are all there, each once, none in front of
/// one that comes before it, and things with the same key keep their order.
pub proof fn law_order(keys: Seq<KeyView>, n: int)
    requires
        0 <= n <= keys.len(),
    ensures
        is_sorted_listing(keys, order_of(keys, n), n),
    decreases n,
{
    if n > 0 {
        law_order(keys, n - 1);
        let before = order_of(keys, n - 1);
        let key = keys[n - 1];
        let at = place(keys, before, key, 0);
        let after = order_of(keys, n);
        lemma_place(keys, before, key, 0);
        assert(after =~= before.insert(at, n - 1));
        assert forall|k: int| 0 <= k < n implies #[trigger] after.contains(k) by {
            if k == n - 1 {
                assert(after[at] == k);
            } else {
                assert(before.contains(k));
                let i = choose|i: int| 0 <= i < before.len() && before[i] == k;
                if i < at {
                    assert(after[i] == k);
                } else {
                    assert(after[i + 1] == k);
                }
            }
        }
        assert forall|i: int, j: int| 0 <= i < j < after.len() implies #[trigger] after[i]
            != #[trigger] after[j] && !key_less(keys[after[j]], keys[after[i]]) && (keys[after[i]]
            == keys[after[j]] ==> after[i] < after[j]) by {
            if i == at {
                let q = j - 1;
                assert(after[j] == before[q]);
                assert(key_less(key, keys[before[at]]));
                lemma_key_less(key, key, key);
                if q > at {
                    let a = keys[before[at]];
                    let b = keys[before[q]];
                    assert(!key_less(b, a));
                    lemma_key_less(a, b, a);
                    lemma_key_less(key, a, b);
                    lemma_key_less(key, b, key);
                    lemma_key_less(b, key, a);
                } else {
                    lemma_key_less(key, keys[before[at]], key);
                }
            } else if j == at {
                assert(after[i] == before[i]);
                assert(!key_less(key, keys[before[i]]));
            } else {
                let p = if i < at { i } else { i - 1 };
                let q = if j < at { j } else { j - 1 };
                assert(after[i] == before[p] && after[j] == before[q]);
            }
        }
    }
}

} // verus!
