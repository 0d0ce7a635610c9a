//! Champion ids by name, from the public list of champions.

use crate::json::{field, text_field, Field, Json};
use crate::names::{self, put, NameMap, Named};
use crate::text::{chars_of, concat, i64_text, lower_char, parse_i64, push_text, to_lower_char};
use vstd::prelude::*;

verus! {

/// Whether `c` is an ASCII letter or digit.
pub open spec fn is_alphanumeric(c: char) -> bool {
    'a' <= c <= 'z' || 'A' <= c <= 'Z' || '0' <= c <= '9'
}

pub fn is_alphanumeric_char(c: char) -> (r: bool)
    ensures
        r == is_alphanumeric(c),
{
    (c >= 'a' && c <= 'z') || (c >= 'A' && c <= 'Z') || (c >= '0' && c <= '9')
}

/// The ASCII letters and digits of `s`, in small letters.
pub open spec fn sanitized(s: Seq<char>) -> Seq<char>
    decreases s.len(),
{
    if s.len() == 0 {
        Seq::empty()
    } else if is_alphanumeric(s.last()) {
        sanitized(s.drop_last()).push(lower_char(s.last()))
    } else {
        sanitized(s.drop_last())
    }
}

/// Leaves only ASCII letters and digits, in small letters.
pub fn sanitize(s: &str) -> (r: String)
    ensures
        r@ == sanitized(s@),
{
    let chars = chars_of(s);
    let mut out = String::new();
    let mut i: usize = 0;
    assert(s@.take(0) =~= Seq::empty());
    while i < chars.len()
        invariant
            i <= chars@.len(),
            chars@ == s@,
            out@ == sanitized(s@.take(i as int)),
        decreases chars@.len() - i,
    {
        if is_alphanumeric_char(chars[i]) {
            out.push(to_lower_char(chars[i]));
        }
        i = i + 1;
        assert(s@.take(i as int).drop_last() =~= s@.take(i - 1));
    }
    assert(s@.take(i as int) =~= s@);
    out
}

/// What is sanitised consists of small ASCII letters and digits.
pub proof fn law_sanitized_charset(s: Seq<char>)
    ensures
        forall|i: int|
            0 <= i < sanitized(s).len() ==> 'a' <= #[trigger] sanitized(s)[i] <= 'z' || '0'
                <= sanitized(s)[i] <= '9',
    decreases s.len(),
{
    if s.len() > 0 {
        let before = sanitized(s.drop_last());
        law_sanitized_charset(s.drop_last());
        if is_alphanumeric(s.last()) {
            assert forall|i: int| 0 <= i < sanitized(s).len() implies 'a' <= #[trigger] sanitized(
                s,
            )[i] <= 'z' || '0' <= sanitized(s)[i] <= '9' by {
                if i < before.len() {
                    assert(sanitized(s)[i] == before[i]);
                }
            }
        }
    }
}

/// Sanitising twice is the same as once.
pub proof fn law_sanitized_twice(s: Seq<char>)
    ensures
        sanitized(sanitized(s)) == sanitized(s),
    decreases s.len(),
{
    if s.len() > 0 {
        law_sanitized_twice(s.drop_last());
        if is_alphanumeric(s.last()) {
            let before = sanitized(s.drop_last());
            assert(sanitized(s).drop_last() =~= before);
        }
    }
}

/// Names that differ only in case, spaces and punctuation are the same once
/// sanitised: both halves of a name count on their own.
pub proof fn law_sanitized_parts(a: Seq<char>, b: Seq<char>)
    ensures
        sanitized(a + b) == sanitized(a) + sanitized(b),
    decreases b.len(),
{
    if b.len() == 0 {
        assert(a + b =~= a);
        assert(sanitized(a) + sanitized(b) =~= sanitized(a));
    } else {
        law_sanitized_parts(a, b.drop_last());
        assert((a + b).drop_last() =~= a + b.drop_last());
        assert((a + b).last() == b.last());
        if is_alphanumeric(b.last()) {
            assert(sanitized(a + b) =~= sanitized(a) + sanitized(b));
        }
    }
}

/// The ids of the champions among the first `n` fields, by sanitised id and by
/// sanitised name. Champions without a numeric key are left out.
pub open spec fn champion_ids(champions: Seq<Field>, n: int) -> Named<i64>
    decreases n,
{
    if n <= 0 {
        Seq::empty()
    } else {
        let before = champion_ids(champions, n - 1);
        let f = champions[n - 1];
        match text_field(f.value, "key"@) {
            None => before,
            Some(digits) => match i64_text(digits) {
                None => before,
                Some(key) => {
                    let with_id = put(before, sanitized(f.name@), key as i64);
                    match text_field(f.value, "name"@) {
                        Some(name) => put(with_id, sanitized(name), key as i64),
                        None => with_id,
                    }
                },
            },
        }
    }
}

/// The champions of a list, where it has any.
pub open spec fn champion_fields(response: Json) -> Option<Seq<Field>> {
    match field(response, "data"@) {
        Some(Json::Object(f)) => Some(f@),
        _ => None,
    }
}

/// Champion ids by sanitised name, from the public list; `None` where it holds
/// no champions.
pub fn champion_map(response: &Json) -> (r: Option<NameMap<i64>>)
    ensures
        match (r, champion_fields(*response)) {
            (Some(m), Some(f)) => m@ == champion_ids(f, f.len() as int),
            (None, None) => true,
            _ => false,
        },
{
    let data = match response.get("data") {
        Some(d) => d,
        None => {
            return None;
        },
    };
    let fields = match data.as_object() {
        Some(f) => f,
        None => {
            return None;
        },
    };
    let mut map: NameMap<i64> = NameMap::new();
    let mut i: usize = 0;
    while i < fields.len()
        invariant
            i <= fields@.len(),
            map@ == champion_ids(fields@, i as int),
        decreases fields@.len() - i,
    {
        let f = &fields[i];
        if let Some(digits) = f.value.text_field("key") {
            if let Some(key) = parse_i64(digits) {
                map.insert(sanitize(f.name.as_str()), key);
                if let Some(name) = f.value.text_field("name") {
                    map.insert(sanitize(name), key);
                }
            }
        }
        i = i + 1;
    }
    Some(map)
}

/// The id of a champion, whatever the case and punctuation of its name.
pub fn lookup(map: &NameMap<i64>, alias: &str) -> (r: Option<i64>)
    ensures
        r == names::lookup(map@, sanitized(alias@)),
{
    let key = sanitize(alias);
    match map.get(key.as_str()) {
        Some(id) => Some(*id),
        None => None,
    }
}

/// The address of the list of champions of a version.
pub fn champions_url(version: &str) -> (r: String)
    ensures
        r@ == "https://ddragon.leagueoflegends.com/cdn/"@ + version@
            + "/data/en_US/champion.json"@,
{
    let mut out = concat("https://ddragon.leagueoflegends.com/cdn/", version);
    push_text(&mut out, "/data/en_US/champion.json");
    out
}

/// A single letter or digit stays, in small letters; any other character is left
/// out.
pub proof fn law_sanitized_char(c: char)
    ensures
        sanitized(seq![c]) == if 'A' <= c <= 'Z' {
            seq![(c as u32 + 32) as char]
        } else if 'a' <= c <= 'z' || '0' <= c <= '9' {
            seq![c]
        } else {
            Seq::empty()
        },
{
    reveal_with_fuel(sanitized, 2);
    assert(seq![c].drop_last() =~= Seq::<char>::empty());
    assert(sanitized(seq![c]) =~= if 'A' <= c <= 'Z' {
        seq![(c as u32 + 32) as char]
    } else if 'a' <= c <= 'z' || '0' <= c <= '9' {
        seq![c]
    } else {
        Seq::empty()
    });
}

/// Whether champion `i` of the public list goes by `name`, by its id or by the
/// name that is shown, whatever their case and punctuation, and has a number.
pub open spec fn goes_by(champions: Seq<Field>, i: int, name: Seq<char>) -> bool {
    &&& 0 <= i < champions.len()
    &&& text_field(champions[i].value, "key"@) is Some
    &&& i64_text(text_field(champions[i].value, "key"@)->0) is Some
    &&& sanitized(champions[i].name@) == name || (text_field(champions[i].value, "name"@)
        matches Some(shown) && sanitized(shown) == name)
}

/// A name is known just where a champion goes by it, and stands for the number of
/// the last such champion.
pub proof fn law_champion_ids(champions: Seq<Field>, n: int, name: Seq<char>)
    requires
        0 <= n <= champions.len(),
    ensures
        names::in_order(champion_ids(champions, n)),
        names::lookup(champion_ids(champions, n), name) is Some <==> exists|i: int|
            i < n && #[trigger] goes_by(champions, i, name),
        forall|i: int|
            i < n && #[trigger] goes_by(champions, i, name) && (forall|j: int|
                i < j < n ==> !#[trigger] goes_by(champions, j, name)) ==> names::lookup(
                champion_ids(champions, n),
                name,
            ) == Some(i64_text(text_field(champions[i].value, "key"@)->0)->0 as i64),
    decreases n,
{
    if n > 0 {
        law_champion_ids(champions, n - 1, name);
        let before = champion_ids(champions, n - 1);
        let f = champions[n - 1];
        if text_field(f.value, "key"@) is Some && i64_text(text_field(f.value, "key"@)->0) is Some {
            let key = i64_text(text_field(f.value, "key"@)->0)->0 as i64;
            let with_id = put(before, sanitized(f.name@), key);
            names::law_put(before, sanitized(f.name@), key, name);
            if let Some(shown) = text_field(f.value, "name"@) {
                names::law_put(with_id, sanitized(shown), key, name);
            }
            if goes_by(champions, n - 1, name) {
                assert(names::lookup(champion_ids(champions, n), name) == Some(key));
            }
        } else {
            assert(!goes_by(champions, n - 1, name));
        }
    } else {
        let none: Named<i64> = Seq::empty();
        if names::has_name(none, name) {
            names::lemma_slot_of(none, name);
        }
    }
}

} // verus!
