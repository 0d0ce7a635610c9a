//! The marks that entries share with their clones.

use vstd::prelude::*;

verus! {

/// Which entries are known to be stored the best way. Every entry has a number,
/// its clones have the same one, and the mark belongs to the number: marking an
/// entry marks all its clones, also those made before. Entries that are used
/// together are made with the same marks.
pub struct Marks {
    flags: Vec<bool>,
}

impl View for Marks {
    type V = Seq<bool>;

    closed spec fn view(&self) -> Seq<bool> {
        self.flags@
    }
}

/// Whether number `id` is marked.
pub open spec fn marked(m: Seq<bool>, id: nat) -> bool {
    id < m.len() && m[id as int]
}

/// `m` with number `id` marked.
pub open spec fn with_mark(m: Seq<bool>, id: nat) -> Seq<bool> {
    if id < m.len() {
        m.update(id as int, true)
    } else {
        Seq::new(id + 1, |i: int| i == id || marked(m, i as nat))
    }
}

/// Marking a number marks that number and no other.
pub broadcast proof fn lemma_with_mark(m: Seq<bool>, id: nat, other: nat)
    ensures
        #[trigger] marked(with_mark(m, id), other) == (other == id || marked(m, other)),
{
}

/// `m` with `n` more numbers given out, none of them marked.
pub open spec fn with_new(m: Seq<bool>, n: nat) -> Seq<bool> {
    m + Seq::new(n, |i: int| false)
}

/// Giving out numbers marks none.
pub broadcast proof fn lemma_with_new(m: Seq<bool>, n: nat, id: nat)
    ensures
        #[trigger] marked(with_new(m, n), id) == marked(m, id),
{
}

/// Whether every number that was given out in `before` is marked in `after` as
/// it was.
pub open spec fn kept(before: Seq<bool>, after: Seq<bool>) -> bool {
    &&& before.len() <= after.len()
    &&& forall|id: nat| id < before.len() ==> #[trigger] marked(after, id) == marked(before, id)
}

/// `m` with every number among `ids` marked.
pub open spec fn with_marks(m: Seq<bool>, ids: Seq<nat>) -> Seq<bool>
    decreases ids.len(),
{
    if ids.len() == 0 {
        m
    } else {
        with_mark(with_marks(m, ids.drop_last()), ids.last())
    }
}

/// Marking several numbers marks those and no other.
pub proof fn lemma_with_marks(m: Seq<bool>, ids: Seq<nat>, id: nat)
    ensures
        marked(with_marks(m, ids), id) == (ids.contains(id) || marked(m, id)),
        with_marks(m, ids).len() >= m.len(),
    decreases ids.len(),
{
    if ids.len() > 0 {
        let rest = ids.drop_last();
        lemma_with_marks(m, rest, id);
        lemma_with_mark(with_marks(m, rest), ids.last(), id);
        if ids.contains(id) && id != ids.last() {
            let i = choose|i: int| 0 <= i < ids.len() && ids[i] == id;
            assert(rest[i] == id);
        }
        if rest.contains(id) {
            let i = choose|i: int| 0 <= i < rest.len() && rest[i] == id;
            assert(ids[i] == id);
        }
        assert(ids[ids.len() - 1] == ids.last());
    }
}

/// Numbers as mathematical ones.
pub open spec fn numbers(ids: Seq<usize>) -> Seq<nat> {
    ids.map_values(|id: usize| id as nat)
}

impl Marks {
    /// Marks in which no number is given out and none is marked.
    pub fn new() -> (r: Self)
        ensures
            r@ == Seq::<bool>::empty(),
    {
        Marks { flags: Vec::new() }
    }

    /// A number that was not given out before. It is not marked.
    pub(crate) fn next(&mut self) -> (id: usize)
        ensures
            id == old(self)@.len(),
            final(self)@ == old(self)@.push(false),
    {
        let id: usize = self.flags.len();
        self.flags.push(false);
        id
    }

    pub(crate) fn mark(&mut self, id: usize)
        ensures
            final(self)@ == with_mark(old(self)@, id as nat),
    {
        let ghost before = self.flags@;
        while self.flags.len() <= id
            invariant
                before.len() <= self.flags@.len(),
                before.len() <= id ==> self.flags@.len() <= id + 1,
                id < before.len() ==> self.flags@ == before,
                forall|i: int|
                    0 <= i < self.flags@.len() ==> #[trigger] self.flags@[i] == marked(
                        before,
                        i as nat,
                    ),
            decreases id + 1 - self.flags@.len(),
        {
            self.flags.push(false);
        }
        self.flags[id] = true;
        assert(self.flags@ =~= with_mark(before, id as nat));
    }

    pub(crate) fn mark_all(&mut self, ids: &Vec<usize>)
        ensures
            final(self)@ == with_marks(old(self)@, numbers(ids@)),
    {
        let ghost all = numbers(ids@);
        let ghost before = self@;
        let mut i: usize = 0;
        while i < ids.len()
            invariant
                i <= ids@.len(),
                all == numbers(ids@),
                self@ == with_marks(before, all.take(i as int)),
            decreases ids@.len() - i,
        {
            self.mark(ids[i]);
            i = i + 1;
            assert(all.take(i as int).drop_last() =~= all.take(i - 1));
        }
        assert(all.take(i as int) =~= all);
    }

    pub(crate) fn has(&self, id: usize) -> (r: bool)
        ensures
            r == marked(self@, id as nat),
    {
        id < self.flags.len() && self.flags[id]
    }
}

} // verus!
