//! Nudging the League client to refresh what can be picked.

use crate::text::text;
use vstd::prelude::*;

verus! {

/// The resources that are asked to refresh, in order.
pub open spec fn refresh_paths() -> Seq<Seq<char>> {
    seq![
        "/lol-champ-select/v1/session/simple-inventory"@,
        "/lol-champ-select/v1/retrieve-latest-game-dto"@,
        "/lol-lobby-team-builder/champ-select/v1/simple-inventory"@,
        "/lol-lobby-team-builder/champ-select/v1/retrieve-latest-game-dto"@,
    ]
}

pub fn refresh_endpoints() -> (r: Vec<String>)
    ensures
        r@.map_values(|s: String| s@) == refresh_paths(),
{
    let out: Vec<String> = vec![
        text("/lol-champ-select/v1/session/simple-inventory"),
        text("/lol-champ-select/v1/retrieve-latest-game-dto"),
        text("/lol-lobby-team-builder/champ-select/v1/simple-inventory"),
        text("/lol-lobby-team-builder/champ-select/v1/retrieve-latest-game-dto"),
    ];
    assert(out@.map_values(|s: String| s@) =~= refresh_paths());
    out
}

/// Whether an answer says that a request was accepted.
pub open spec fn is_success(status: Option<u16>) -> bool {
    status matches Some(s) && 200 <= s <= 299
}

/// Whether any of the requests was accepted. Requests that failed have no
/// status.
pub fn any_accepted(statuses: &Vec<Option<u16>>) -> (r: bool)
    ensures
        r == exists|i: int| 0 <= i < statuses@.len() && is_success(#[trigger] statuses@[i]),
{
    let mut i: usize = 0;
    while i < statuses.len()
        invariant
            i <= statuses@.len(),
            forall|j: int| 0 <= j < i ==> !is_success(#[trigger] statuses@[j]),
        decreases statuses@.len() - i,
    {
        if let Some(s) = statuses[i] {
            if s >= 200 && s <= 299 {
                assert(is_success(statuses@[i as int]));
                return true;
            }
        }
        i = i + 1;
    }
    false
}

} // verus!
