//! Which skins are enabled.

use crate::codecs::{json_list_of, json_strings, json_strings_of, parse_json_strings};
use crate::names::{
    has_name, in_order, law_put, law_take_out, lemma_has_name, lookup, name_less, put, take_out,
    NameMap, Named,
};
use crate::text::{is_white, same_text, text, texts, trim, trim_end, trim_start, trimmed};
use vstd::prelude::*;

verus! {

/// The saved state could not be parsed.
#[derive(Debug, Clone, Copy, PartialEq, Eq, Structural)]
pub struct BadState;

/// The ids of the enabled skins. They are saved as a JSON list.
pub struct SkinState {
    enabled: NameMap<()>,
}

/// The names in a list.
pub open spec fn names_in<V>(s: Named<V>) -> Set<Seq<char>> {
    Set::new(|id: Seq<char>| has_name(s, id))
}

/// The set of enabled skins that the content of a state file stands for.
pub open spec fn saved_set(content: Option<Seq<char>>) -> Option<Set<Seq<char>>> {
    match content {
        None => Some(Set::empty()),
        Some(json) => if trimmed(json).len() == 0 {
            Some(Set::empty())
        } else {
            match json_strings_of(json) {
                Some(list) => Some(list.to_set()),
                None => None,
            }
        },
    }
}

/// Whether `ids` lists the ids of a set, each once and in order.
pub open spec fn is_listing(ids: Seq<Seq<char>>, s: Set<Seq<char>>) -> bool {
    &&& ids.to_set() == s
    &&& forall|i: int, j: int|
        0 <= i < j < ids.len() ==> name_less(#[trigger] ids[i], #[trigger] ids[j])
}

/// The set after a skin was given another id.
pub open spec fn renamed(s: Set<Seq<char>>, old_id: Seq<char>, new_id: Seq<char>) -> Set<
    Seq<char>,
> {
    if s.contains(old_id) {
        s.remove(old_id).insert(new_id)
    } else {
        s
    }
}

proof fn lemma_put_names(s: Named<()>, id: Seq<char>)
    requires
        in_order(s),
    ensures
        in_order(put(s, id, ())),
        names_in(put(s, id, ())) == names_in(s).insert(id),
{
    let after = put(s, id, ());
    law_put(s, id, (), id);
    assert forall|other: Seq<char>| has_name(after, other) == (has_name(s, other) || other
        == id) by {
        law_put(s, id, (), other);
        assert(lookup(after, id) is Some);
        assert(has_name(after, other) == (lookup(after, other) is Some));
        assert(has_name(s, other) == (lookup(s, other) is Some));
    }
    assert(names_in(after) =~= names_in(s).insert(id));
}

proof fn lemma_take_names(s: Named<()>, id: Seq<char>)
    requires
        in_order(s),
    ensures
        in_order(take_out(s, id)),
        names_in(take_out(s, id)) == names_in(s).remove(id),
{
    let after = take_out(s, id);
    law_take_out(s, id, id);
    assert forall|other: Seq<char>| has_name(after, other) == (has_name(s, other) && other
        != id) by {
        law_take_out(s, id, other);
        assert(has_name(after, other) == (lookup(after, other) is Some));
        assert(has_name(s, other) == (lookup(s, other) is Some));
    }
    assert(names_in(after) =~= names_in(s).remove(id));
}

impl View for SkinState {
    type V = Set<Seq<char>>;

    closed spec fn view(&self) -> Set<Seq<char>> {
        names_in(self.enabled@)
    }
}

impl SkinState {
    /// The ids in their order.
    pub closed spec fn ids(&self) -> Seq<Seq<char>> {
        Seq::new(self.enabled@.len(), |i: int| self.enabled@[i].0)
    }

    pub fn new() -> (r: Self)
        ensures
            r@ == Set::<Seq<char>>::empty(),
    {
        let r = SkinState { enabled: NameMap::new() };
        assert(r@ =~= Set::<Seq<char>>::empty());
        r
    }

    /// The state that the content of a state file stands for. A missing or
    /// blank file stands for no enabled skins.
    pub fn load(content: Option<&str>) -> (r: Result<Self, BadState>)
        ensures
            match r {
                Ok(s) => saved_set(
                    match content {
                        Some(c) => Some(c@),
                        None => None,
                    },
                ) == Some(s@),
                Err(_) => content is Some && saved_set(Some(content->0@)) is None,
            },
    {
        let json = match content {
            Some(c) => c,
            None => {
                return Ok(SkinState::new());
            },
        };
        if trim(json).len() == 0 {
            return Ok(SkinState::new());
        }
        let list = match parse_json_strings(json) {
            Some(l) => l,
            None => {
                return Err(BadState);
            },
        };
        Ok(SkinState::from_list(&list))
    }

    /// The state in which the listed skins are enabled.
    pub fn from_list(list: &Vec<String>) -> (r: Self)
        ensures
            r@ == texts(list@).to_set(),
    {
        let mut state = SkinState::new();
        let mut i: usize = 0;
        let ghost all = texts(list@);
        assert(all.take(0).to_set() =~= Set::<Seq<char>>::empty());
        while i < list.len()
            invariant
                i <= list@.len(),
                all == texts(list@),
                state@ == all.take(i as int).to_set(),
            decreases list@.len() - i,
        {
            let id = text(list[i].as_str());
            proof {
                let before = all.take(i as int);
                let after = all.take(i + 1);
                assert(after =~= before.push(id@));
                assert forall|x: Seq<char>| after.contains(x) == (before.contains(x) || x
                    == id@) by {
                    if before.contains(x) {
                        let k = choose|k: int| 0 <= k < before.len() && before[k] == x;
                        assert(after[k] == x);
                    }
                    if x == id@ {
                        assert(after[i as int] == x);
                    }
                    if after.contains(x) && x != id@ {
                        let k = choose|k: int| 0 <= k < after.len() && after[k] == x;
                        assert(before[k] == x);
                    }
                }
                assert(after.to_set() =~= before.to_set().insert(id@));
            }
            state.set(id, true);
            i = i + 1;
        }
        assert(all.take(i as int) =~= all);
        state
    }

    /// The enabled skins, in order.
    pub fn to_list(&self) -> (r: Vec<String>)
        ensures
            texts(r@) == self.ids(),
            is_listing(self.ids(), self@),
    {
        proof {
            use_type_invariant(&self.enabled);
            self.enabled.lemma_in_order();
            self.lemma_ids();
        }
        let mut list: Vec<String> = Vec::new();
        let mut i: usize = 0;
        assert(texts(list@) =~= self.ids().take(0));
        while i < self.enabled.len()
            invariant
                i <= self.enabled@.len(),
                texts(list@) == self.ids().take(i as int),
            decreases self.enabled@.len() - i,
        {
            let ghost before = list@;
            let id = text(self.enabled.key(i).as_str());
            list.push(id);
            i = i + 1;
            assert(texts(list@) =~= texts(before).push(id@));
            assert(self.ids().take(i as int) =~= self.ids().take(i - 1).push(id@));
        }
        assert(self.ids().take(i as int) =~= self.ids());
        list
    }

    /// The content of a state file. It stands for this state.
    pub fn save(&self) -> (r: Option<String>)
        ensures
            match r {
                Some(json) => json_list_of(self.ids()) == Some(json@) && saved_set(Some(json@))
                    == Some(self@),
                None => json_list_of(self.ids()) is None,
            },
    {
        let list = self.to_list();
        let r = json_strings(&list);
        proof {
            if r is Some {
                lemma_not_blank(r->0@);
            }
        }
        r
    }

    proof fn lemma_ids(&self)
        requires
            in_order(self.enabled@),
        ensures
            is_listing(self.ids(), self@),
    {
        let s = self.enabled@;
        assert forall|i: int, j: int| 0 <= i < j < self.ids().len() implies name_less(
            #[trigger] self.ids()[i],
            #[trigger] self.ids()[j],
        ) by {
            assert(name_less(s[i].0, s[j].0));
        }
        assert forall|id: Seq<char>| self.ids().contains(id) == has_name(s, id) by {
            if self.ids().contains(id) {
                let i = choose|i: int| 0 <= i < self.ids().len() && self.ids()[i] == id;
                lemma_has_name(s, id, i);
            }
            if has_name(s, id) {
                crate::names::lemma_slot_of(s, id);
                assert(self.ids()[crate::names::slot(s, id)] == id);
            }
        }
        assert(self.ids().to_set() =~= self@);
    }

    pub fn is_enabled(&self, id: &str) -> (r: bool)
        ensures
            r == self@.contains(id@),
    {
        self.enabled.contains(id)
    }

    pub fn set(&mut self, id: String, enabled: bool)
        ensures
            final(self)@ == (if enabled {
                old(self)@.insert(id@)
            } else {
                old(self)@.remove(id@)
            }),
    {
        proof {
            use_type_invariant(&self.enabled);
            self.enabled.lemma_in_order();
            lemma_put_names(self.enabled@, id@);
            lemma_take_names(self.enabled@, id@);
        }
        if enabled {
            self.enabled.insert(id, ());
        } else {
            let _ = self.enabled.remove(id.as_str());
        }
    }

    /// Lets a skin keep its state under another id.
    pub fn rename_id(&mut self, old_id: &str, new_id: &str)
        ensures
            final(self)@ == renamed(old(self)@, old_id@, new_id@),
    {
        let ghost before = self.enabled@;
        if same_text(old_id, new_id) {
            assert(renamed(self@, old_id@, new_id@) =~= self@);
            return;
        }
        proof {
            use_type_invariant(&self.enabled);
            self.enabled.lemma_in_order();
            lemma_take_names(before, old_id@);
            lemma_put_names(take_out(before, old_id@), new_id@);
        }
        if self.enabled.remove(old_id).is_some() {
            self.enabled.insert(text(new_id), ());
        } else {
            assert(take_out(before, old_id@) == before);
        }
    }
}

/// Text that starts with a bracket is not blank.
proof fn lemma_not_blank(s: Seq<char>)
    requires
        s.len() > 0,
        s[0] == '[',
    ensures
        trimmed(s).len() > 0,
{
    assert(trim_start(s) == s);
    lemma_trim_end_keeps(s);
}

proof fn lemma_trim_end_keeps(s: Seq<char>)
    requires
        s.len() > 0,
        !is_white(s[0]),
    ensures
        trim_end(s).len() > 0,
    decreases s.len(),
{
    if is_white(s.last()) {
        lemma_trim_end_keeps(s.drop_last());
    }
}

/// A skin that was renamed is enabled under its new id exactly where it was
/// enabled before or the new id was, and no longer under its old one; other
/// skins are not touched.
pub proof fn law_rename(
    s: Set<Seq<char>>,
    old_id: Seq<char>,
    new_id: Seq<char>,
    other: Seq<char>,
)
    requires
        old_id != new_id,
    ensures
        renamed(s, old_id, new_id).contains(new_id) == (s.contains(old_id) || s.contains(new_id)),
        !renamed(s, old_id, new_id).contains(old_id),
        other != old_id && other != new_id ==> renamed(s, old_id, new_id).contains(other)
            == s.contains(other),
{
}

/// What is enabled and disabled again is as if it had never been enabled.
pub proof fn law_enable_disable(s: Set<Seq<char>>, id: Seq<char>)
    ensures
        s.insert(id).contains(id),
        s.insert(id).remove(id) == s.remove(id),
{
    assert(s.insert(id).remove(id) =~= s.remove(id));
}

} // verus!
