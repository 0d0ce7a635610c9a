//! Maps keyed by names, kept in the order of the names.

use crate::text::{chars_of, same_text, text};
use vstd::prelude::*;

verus! {

/// Whether `a` comes before `b`: at the first character that differs it has the
/// lower one, or it is a proper start of `b`.
pub open spec fn name_less(a: Seq<char>, b: Seq<char>) -> bool
    decreases a.len(),
{
    if b.len() == 0 {
        false
    } else if a.len() == 0 {
        true
    } else if a[0] == b[0] {
        name_less(a.skip(1), b.skip(1))
    } else {
        a[0] < b[0]
    }
}

/// Names compare by their first difference.
proof fn lemma_name_less_at(a: Seq<char>, b: Seq<char>, i: int)
    requires
        0 <= i <= a.len(),
        i <= b.len(),
        forall|j: int| 0 <= j < i ==> a[j] == b[j],
    ensures
        i < a.len() && i < b.len() && a[i] != b[i] ==> (name_less(a, b) <==> a[i] < b[i]),
        i == a.len() ==> (name_less(a, b) <==> i < b.len()),
        i == b.len() ==> !name_less(a, b),
    decreases i,
{
    if i > 0 {
        lemma_name_less_at(a.skip(1), b.skip(1), i - 1);
    }
}

pub fn is_name_less(a: &str, b: &str) -> (r: bool)
    ensures
        r == name_less(a@, b@),
{
    let ac = chars_of(a);
    let bc = chars_of(b);
    let mut i: usize = 0;
    while i < ac.len() && i < bc.len() && ac[i] == bc[i]
        invariant
            i <= ac@.len(),
            i <= bc@.len(),
            ac@ == a@,
            bc@ == b@,
            forall|j: int| 0 <= j < i ==> a@[j] == b@[j],
        decreases ac@.len() - i,
    {
        i = i + 1;
    }
    proof {
        lemma_name_less_at(a@, b@, i as int);
    }
    if i >= bc.len() {
        false
    } else if i >= ac.len() {
        true
    } else {
        ac[i] < bc[i]
    }
}

/// No name comes before itself.
pub proof fn lemma_name_less_irreflexive(a: Seq<char>)
    ensures
        !name_less(a, a),
    decreases a.len(),
{
    if a.len() > 0 {
        lemma_name_less_irreflexive(a.skip(1));
    }
}

/// What comes before something that comes before a third comes before the
/// third.
pub proof fn lemma_name_less_transitive(a: Seq<char>, b: Seq<char>, c: Seq<char>)
    requires
        name_less(a, b),
        name_less(b, c),
    ensures
        name_less(a, c),
    decreases a.len(),
{
    if a.len() > 0 && a[0] == b[0] && b[0] == c[0] {
        lemma_name_less_transitive(a.skip(1), b.skip(1), c.skip(1));
    }
}

/// Of two names that differ one comes before the other.
pub proof fn lemma_name_less_total(a: Seq<char>, b: Seq<char>)
    requires
        a != b,
    ensures
        name_less(a, b) || name_less(b, a),
    decreases a.len(),
{
    if a.len() > 0 && b.len() > 0 && a[0] == b[0] {
        assert(a.skip(1) != b.skip(1)) by {
            if a.skip(1) == b.skip(1) {
                assert(a =~= seq![a[0]] + a.skip(1));
                assert(b =~= seq![b[0]] + b.skip(1));
            }
        }
        lemma_name_less_total(a.skip(1), b.skip(1));
    } else if a.len() == 0 && b.len() == 0 {
        assert(a =~= b);
    }
}

/// Names and what they stand for, in order.
pub type Named<V> = Seq<(Seq<char>, V)>;

/// Where `name` stands, or would stand, among named things.
pub open spec fn slot<V>(s: Named<V>, name: Seq<char>) -> int
    decreases s.len(),
{
    if s.len() == 0 || !name_less(s[0].0, name) {
        0
    } else {
        1 + slot(s.skip(1), name)
    }
}

/// Whether `name` stands for something.
pub open spec fn has_name<V>(s: Named<V>, name: Seq<char>) -> bool {
    slot(s, name) < s.len() && s[slot(s, name)].0 == name
}

/// What `name` stands for.
pub open spec fn lookup<V>(s: Named<V>, name: Seq<char>) -> Option<V> {
    if has_name(s, name) {
        Some(s[slot(s, name)].1)
    } else {
        None
    }
}

/// The same with `name` standing for `v`.
pub open spec fn put<V>(s: Named<V>, name: Seq<char>, v: V) -> Named<V> {
    if has_name(s, name) {
        s.update(slot(s, name), (name, v))
    } else {
        s.insert(slot(s, name), (name, v))
    }
}

/// The same with `name` standing for nothing.
pub open spec fn take_out<V>(s: Named<V>, name: Seq<char>) -> Named<V> {
    if has_name(s, name) {
        s.remove(slot(s, name))
    } else {
        s
    }
}

/// Whether the names stand in order, each once.
pub open spec fn in_order<V>(s: Named<V>) -> bool {
    forall|i: int, j: int|
        #![trigger s[i], s[j]]
        0 <= i < j < s.len() ==> name_less(s[i].0, s[j].0)
}

proof fn lemma_slot_bounds<V>(s: Named<V>, name: Seq<char>)
    ensures
        0 <= slot(s, name) <= s.len(),
        forall|j: int| 0 <= j < slot(s, name) ==> name_less(#[trigger] s[j].0, name),
        slot(s, name) < s.len() ==> !name_less(s[slot(s, name)].0, name),
    decreases s.len(),
{
    if s.len() > 0 && name_less(s[0].0, name) {
        lemma_slot_bounds(s.skip(1), name);
        assert forall|j: int| 0 <= j < slot(s, name) implies name_less(#[trigger] s[j].0, name) by {
            if j > 0 {
                assert(s.skip(1)[j - 1] == s[j]);
            }
        }
    }
}

proof fn lemma_slot_is<V>(s: Named<V>, name: Seq<char>, i: int)
    requires
        0 <= i <= s.len(),
        forall|j: int| 0 <= j < i ==> name_less(#[trigger] s[j].0, name),
        i < s.len() ==> !name_less(s[i].0, name),
    ensures
        slot(s, name) == i,
{
    lemma_slot_bounds(s, name);
    if slot(s, name) < i {
        assert(name_less(s[slot(s, name)].0, name));
    }
}

/// Where a name stands that stands for something.
pub proof fn lemma_slot_of<V>(s: Named<V>, name: Seq<char>)
    requires
        has_name(s, name),
    ensures
        0 <= slot(s, name) < s.len(),
        s[slot(s, name)].0 == name,
{
    lemma_slot_bounds(s, name);
}

/// In order, a name stands for something exactly where it occurs.
pub proof fn lemma_has_name<V>(s: Named<V>, name: Seq<char>, i: int)
    requires
        in_order(s),
        0 <= i < s.len(),
        s[i].0 == name,
    ensures
        has_name(s, name),
        slot(s, name) == i,
        lookup(s, name) == Some(s[i].1),
{
    lemma_name_less_irreflexive(name);
    lemma_slot_is(s, name, i);
}

/// Where a name has its slot depends on the names alone.
pub proof fn lemma_slot_by_names<V, W>(a: Named<V>, b: Named<W>, name: Seq<char>)
    requires
        a.len() == b.len(),
        forall|i: int| 0 <= i < a.len() ==> (#[trigger] a[i]).0 == b[i].0,
    ensures
        0 <= slot(a, name) <= a.len(),
        slot(a, name) == slot(b, name),
        has_name(a, name) == has_name(b, name),
    decreases a.len(),
{
    if a.len() > 0 {
        assert(a[0].0 == b[0].0);
        let x = a.skip(1);
        let y = b.skip(1);
        assert forall|i: int| 0 <= i < x.len() implies (#[trigger] x[i]).0 == y[i].0 by {
            assert(x[i] == a[i + 1]);
            assert(y[i] == b[i + 1]);
        }
        lemma_slot_by_names(x, y, name);
    }
    lemma_slot_bounds(a, name);
    lemma_slot_bounds(b, name);
    let at = slot(a, name);
    if at < a.len() && slot(a, name) == slot(b, name) {
        assert(a[at].0 == b[at].0);
    }
}

/// What stands in a list after a name was put there is what was put, or stood
/// there before.
pub proof fn lemma_put_members<V>(s: Named<V>, name: Seq<char>, v: V, i: int)
    requires
        0 <= i < put(s, name, v).len(),
    ensures
        put(s, name, v)[i] == (name, v) || exists|j: int|
            0 <= j < s.len() && #[trigger] s[j] == put(s, name, v)[i],
{
    lemma_slot_bounds(s, name);
    let at = slot(s, name);
    let after = put(s, name, v);
    if i != at {
        let j = if has_name(s, name) || i < at {
            i
        } else {
            i - 1
        };
        assert(s[j] == after[i]);
    }
}

/// Putting a name in keeps the order, gives the name its new meaning and
/// changes nothing else.
pub proof fn law_put<V>(s: Named<V>, name: Seq<char>, v: V, other: Seq<char>)
    requires
        in_order(s),
    ensures
        in_order(put(s, name, v)),
        lookup(put(s, name, v), name) == Some(v),
        other != name ==> lookup(put(s, name, v), other) == lookup(s, other),
{
    let at = slot(s, name);
    let after = put(s, name, v);
    lemma_slot_bounds(s, name);
    if has_name(s, name) {
        assert(in_order(after));
    } else {
        assert forall|i: int, j: int|
            #![trigger after[i], after[j]]
            0 <= i < j < after.len() implies name_less(after[i].0, after[j].0) by {
            if i < at && j == at {
                assert(after[i] == s[i]);
            } else if i == at && j > at {
                assert(after[j] == s[j - 1]);
                if s[at].0 != name {
                    lemma_name_less_total(s[at].0, name);
                }
                if j - 1 > at {
                    lemma_name_less_transitive(name, s[at].0, s[j - 1].0);
                }
            } else {
                let p = if i < at { i } else { i - 1 };
                let q = if j < at { j } else { j - 1 };
                assert(after[i] == s[p] && after[j] == s[q]);
            }
        }
    }
    lemma_has_name(after, name, at);
    if other != name {
        if has_name(s, other) {
            let k = slot(s, other);
            lemma_slot_bounds(s, other);
            if has_name(s, name) || k < at {
                assert(after[k] == s[k]);
                lemma_has_name(after, other, k);
            } else {
                assert(after[k + 1] == s[k]);
                lemma_has_name(after, other, k + 1);
            }
        } else if has_name(after, other) {
            let k = slot(after, other);
            lemma_slot_bounds(after, other);
            if has_name(s, name) || k < at {
                assert(after[k] == s[k]);
                lemma_has_name(s, other, k);
            } else {
                assert(k != at);
                assert(after[k] == s[k - 1]);
                lemma_has_name(s, other, k - 1);
            }
        }
    }
}

/// Taking a name out keeps the order, leaves the name without meaning and
/// changes nothing else.
pub proof fn law_take_out<V>(s: Named<V>, name: Seq<char>, other: Seq<char>)
    requires
        in_order(s),
    ensures
        in_order(take_out(s, name)),
        lookup(take_out(s, name), name) is None,
        other != name ==> lookup(take_out(s, name), other) == lookup(s, other),
{
    let at = slot(s, name);
    let after = take_out(s, name);
    lemma_slot_bounds(s, name);
    if has_name(s, name) {
        assert forall|i: int, j: int|
            #![trigger after[i], after[j]]
            0 <= i < j < after.len() implies name_less(after[i].0, after[j].0) by {
            let p = if i < at { i } else { i + 1 };
            let q = if j < at { j } else { j + 1 };
            assert(after[i] == s[p] && after[j] == s[q]);
        }
        if has_name(after, name) {
            let k = slot(after, name);
            lemma_slot_bounds(after, name);
            let p = if k < at { k } else { k + 1 };
            assert(after[k] == s[p]);
            lemma_has_name(s, name, p);
        }
        if other != name {
            if has_name(s, other) {
                let k = slot(s, other);
                lemma_slot_bounds(s, other);
                let p = if k < at { k } else { k - 1 };
                assert(after[p] == s[k]);
                lemma_has_name(after, other, p);
            } else if has_name(after, other) {
                let k = slot(after, other);
                lemma_slot_bounds(after, other);
                let p = if k < at { k } else { k + 1 };
                assert(after[k] == s[p]);
                lemma_has_name(s, other, p);
            }
        }
    }
}

/// Putting a name back in after it was taken out is the same as putting it in.
pub proof fn lemma_take_put<V>(s: Named<V>, name: Seq<char>, v: V)
    requires
        in_order(s),
    ensures
        put(take_out(s, name), name, v) == put(s, name, v),
{
    if has_name(s, name) {
        let at = slot(s, name);
        let gone = take_out(s, name);
        lemma_slot_bounds(s, name);
        law_take_out(s, name, name);
        assert(!has_name(gone, name));
        assert forall|j: int| 0 <= j < at implies name_less(#[trigger] gone[j].0, name) by {
            assert(gone[j] == s[j]);
        }
        if at < gone.len() {
            assert(gone[at] == s[at + 1]);
            assert(name_less(s[at].0, s[at + 1].0));
            if name_less(gone[at].0, name) {
                lemma_name_less_transitive(name, gone[at].0, name);
                lemma_name_less_irreflexive(name);
            }
        }
        lemma_slot_is(gone, name, at);
        assert(gone.insert(at, (name, v)) =~= s.update(at, (name, v)));
    }
}

/// Named things as they are held, as values.
spec fn item_views<T: View>(items: Seq<(String, T)>) -> Named<T::V> {
    Seq::new(items.len(), |i: int| (items[i].0@, items[i].1@))
}

/// Whether the names of what is held stand in order.
spec fn items_in_order<T>(items: Seq<(String, T)>) -> bool {
    forall|i: int, j: int|
        #![trigger items[i], items[j]]
        0 <= i < j < items.len() ==> name_less(items[i].0@, items[j].0@)
}

/// What is held is in order exactly where its values are.
proof fn lemma_item_order<T: View>(items: Seq<(String, T)>)
    ensures
        items_in_order(items) == in_order(item_views(items)),
{
    let s = item_views(items);
    if items_in_order(items) {
        assert forall|i: int, j: int|
            #![trigger s[i], s[j]]
            0 <= i < j < s.len() implies name_less(s[i].0, s[j].0) by {
            assert(name_less(items[i].0@, items[j].0@));
        }
    }
    if in_order(s) {
        assert forall|i: int, j: int|
            #![trigger items[i], items[j]]
            0 <= i < j < items.len() implies name_less(items[i].0@, items[j].0@) by {
            assert(name_less(s[i].0, s[j].0));
        }
    }
}

/// A map keyed by names, which stand in order.
pub struct NameMap<T> {
    items: Vec<(String, T)>,
}

impl<T> NameMap<T> {
    /// The names stand in order, each once.
    #[verifier::type_invariant]
    pub closed spec fn wf(&self) -> bool {
        items_in_order(self.items@)
    }
}

impl<T: View> View for NameMap<T> {
    type V = Named<T::V>;

    closed spec fn view(&self) -> Named<T::V> {
        item_views(self.items@)
    }
}

impl<T: View> NameMap<T> {
    pub proof fn lemma_in_order(&self)
        requires
            self.wf(),
        ensures
            in_order(self@),
    {
        lemma_item_order(self.items@);
    }

    pub fn new() -> (r: Self)
        ensures
            r@ == Seq::<(Seq<char>, T::V)>::empty(),
    {
        let r = NameMap { items: Vec::new() };
        assert(r@ =~= Seq::<(Seq<char>, T::V)>::empty());
        r
    }

    pub fn len(&self) -> (r: usize)
        ensures
            r == self@.len(),
            in_order(self@),
    {
        proof {
            use_type_invariant(self);
            self.lemma_in_order();
        }
        self.items.len()
    }

    /// The name at position `i`.
    pub fn key(&self, i: usize) -> (r: &String)
        requires
            i < self@.len(),
        ensures
            r@ == self@[i as int].0,
    {
        &self.items[i].0
    }

    /// The value at position `i`.
    pub fn value(&self, i: usize) -> (r: &T)
        requires
            i < self@.len(),
        ensures
            r@ == self@[i as int].1,
    {
        &self.items[i].1
    }

    fn slot_of(&self, name: &str) -> (r: usize)
        ensures
            r == slot(self@, name@),
            r <= self@.len(),
    {
        let mut i: usize = 0;
        while i < self.items.len() && is_name_less(self.items[i].0.as_str(), name)
            invariant
                i <= self.items@.len(),
                forall|j: int| 0 <= j < i ==> name_less(#[trigger] self@[j].0, name@),
            decreases self.items@.len() - i,
        {
            i = i + 1;
        }
        proof {
            lemma_slot_is(self@, name@, i as int);
        }
        i
    }

    /// What `name` stands for.
    pub fn get(&self, name: &str) -> (r: Option<&T>)
        ensures
            match r {
                Some(v) => lookup(self@, name@) == Some(v@),
                None => lookup(self@, name@) is None,
            },
    {
        let i: usize = self.slot_of(name);
        if i < self.items.len() && same_text(self.items[i].0.as_str(), name) {
            Some(&self.items[i].1)
        } else {
            None
        }
    }

    pub fn contains(&self, name: &str) -> (r: bool)
        ensures
            r == has_name(self@, name@),
    {
        let i: usize = self.slot_of(name);
        i < self.items.len() && same_text(self.items[i].0.as_str(), name)
    }

    /// Lets `name` stand for `value`.
    pub fn insert(&mut self, name: String, value: T)
        ensures
            final(self)@ == put(old(self)@, name@, value@),
            in_order(final(self)@),
    {
        let ghost before = self@;
        proof {
            use_type_invariant(&*self);
            self.lemma_in_order();
            law_put(before, name@, value@, name@);
        }
        let i: usize = self.slot_of(name.as_str());
        let known = i < self.items.len() && same_text(self.items[i].0.as_str(), name.as_str());
        let mut items: Vec<(String, T)> = Vec::new();
        std::mem::swap(&mut items, &mut self.items);
        if known {
            items[i] = (name, value);
        } else {
            items.insert(i, (name, value));
        }
        assert(item_views(items@) =~= put(before, name@, value@));
        proof {
            lemma_item_order(items@);
        }
        self.items = items;
    }

    /// Takes `name` out, and what it stood for.
    pub fn remove(&mut self, name: &str) -> (r: Option<T>)
        ensures
            final(self)@ == take_out(old(self)@, name@),
            in_order(final(self)@),
            match r {
                Some(v) => lookup(old(self)@, name@) == Some(v@),
                None => lookup(old(self)@, name@) is None,
            },
    {
        let ghost before = self@;
        proof {
            use_type_invariant(&*self);
            self.lemma_in_order();
            law_take_out(before, name@, name@);
        }
        let i: usize = self.slot_of(name);
        if i < self.items.len() && same_text(self.items[i].0.as_str(), name) {
            let mut items: Vec<(String, T)> = Vec::new();
            std::mem::swap(&mut items, &mut self.items);
            let item = items.remove(i);
            assert(item_views(items@) =~= take_out(before, name@));
            proof {
                lemma_item_order(items@);
            }
            self.items = items;
            Some(item.1)
        } else {
            None
        }
    }

    /// Puts another value at position `i`.
    pub fn set_value(&mut self, i: usize, value: T)
        requires
            i < old(self)@.len(),
        ensures
            final(self)@ == old(self)@.update(i as int, (old(self)@[i as int].0, value@)),
            in_order(final(self)@),
    {
        let ghost before = self@;
        proof {
            use_type_invariant(&*self);
            self.lemma_in_order();
        }
        let name = text(self.items[i].0.as_str());
        let ghost after = before.update(i as int, (name@, value@));
        let mut items: Vec<(String, T)> = Vec::new();
        std::mem::swap(&mut items, &mut self.items);
        items[i] = (name, value);
        assert(item_views(items@) =~= after);
        proof {
            assert forall|j: int, k: int|
                #![trigger after[j], after[k]]
                0 <= j < k < after.len() implies name_less(after[j].0, after[k].0) by {
                assert(name_less(before[j].0, before[k].0));
            }
            lemma_item_order(items@);
        }
        self.items = items;
    }

    /// Takes out the item at position `i`.
    pub fn remove_at(&mut self, i: usize)
        requires
            i < old(self)@.len(),
        ensures
            final(self)@ == old(self)@.remove(i as int),
            in_order(final(self)@),
    {
        let ghost before = self@;
        let ghost after = before.remove(i as int);
        proof {
            use_type_invariant(&*self);
            self.lemma_in_order();
        }
        let mut items: Vec<(String, T)> = Vec::new();
        std::mem::swap(&mut items, &mut self.items);
        let _ = items.remove(i);
        assert(item_views(items@) =~= after);
        proof {
            assert forall|j: int, k: int|
                #![trigger after[j], after[k]]
                0 <= j < k < after.len() implies name_less(after[j].0, after[k].0) by {
                let p = if j < i { j } else { j + 1 };
                let q = if k < i { k } else { k + 1 };
                assert(name_less(before[p].0, before[q].0));
            }
            lemma_item_order(items@);
        }
        self.items = items;
    }

    /// Adds an item behind all others. Its name must come after theirs.
    pub fn push(&mut self, name: String, value: T)
        requires
            in_order(old(self)@.push((name@, value@))),
        ensures
            final(self)@ == old(self)@.push((name@, value@)),
            in_order(final(self)@),
    {
        let ghost after = self@.push((name@, value@));
        let mut items: Vec<(String, T)> = Vec::new();
        std::mem::swap(&mut items, &mut self.items);
        items.push((name, value));
        assert(item_views(items@) =~= after);
        proof {
            lemma_item_order(items@);
        }
        self.items = items;
    }
}

/// Names are in the order of their first different characters; where one goes on
/// from the other, the shorter comes first.
pub proof fn law_name_order(start: Seq<char>, a: char, x: Seq<char>, b: char, y: Seq<char>)
    requires
        a != b,
    ensures
        name_less(start + seq![a] + x, start + seq![b] + y) <==> a < b,
        name_less(start, start + seq![a] + x),
        !name_less(start + seq![a] + x, start),
{
    let n = start.len() as int;
    let s = start + seq![a] + x;
    let t = start + seq![b] + y;
    assert(s[n] == a && t[n] == b);
    lemma_name_less_at(s, t, n);
    lemma_name_less_at(start, s, n);
    lemma_name_less_at(s, start, n);
}

} // verus!
