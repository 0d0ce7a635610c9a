//! What the League client reports: the phase of the game, and which champion
//! the player has picked.

use crate::json::{field, int_field, int_of, list_of, text_field, text_of, Json};
use crate::text::{
    concat, contains, copy_option, has_part, option_text, push_text, same_text, text, texts,
};
use std::collections::HashMap;
use vstd::prelude::*;

verus! {

/// Champion names by id.
pub open spec fn alias_view(m: Map<i64, String>) -> Map<i64, Seq<char>> {
    m.map_values(|s: String| s@)
}

/// The names of the champions among the first `n` entries. Entries without id
/// or name, or whose id is not positive, are left out; of two with one id the
/// later counts.
pub open spec fn aliases_of(entries: Seq<Json>, n: int) -> Map<i64, Seq<char>>
    decreases n,
{
    if n <= 0 {
        Map::empty()
    } else {
        let before = aliases_of(entries, n - 1);
        match (int_field(entries[n - 1], "id"@), text_field(entries[n - 1], "alias"@)) {
            (Some(id), Some(alias)) => if id > 0 {
                before.insert(id, alias)
            } else {
                before
            },
            _ => before,
        }
    }
}

/// Champion names by id, from the client's list of champions.
pub fn alias_map(entries: &Vec<Json>) -> (r: HashMap<i64, String>)
    ensures
        alias_view(r@) == aliases_of(entries@, entries@.len() as int),
{
    let mut map: HashMap<i64, String> = HashMap::new();
    let mut i: usize = 0;
    assert(alias_view(map@) =~= aliases_of(entries@, 0));
    while i < entries.len()
        invariant
            i <= entries@.len(),
            alias_view(map@) == aliases_of(entries@, i as int),
        decreases entries@.len() - i,
    {
        let entry = &entries[i];
        if let (Some(id), Some(alias)) = (entry.int_field("id"), entry.text_field("alias")) {
            if id > 0 {
                let ghost before = map@;
                let name = text(alias);
                let ghost n = name@;
                map.insert(id, name);
                assert(alias_view(map@) =~= alias_view(before).insert(id, n));
            }
        }
        i = i + 1;
    }
    map
}

/// The first of the players, from `i` on, in the given cell.
pub open spec fn player_in_cell(players: Seq<Json>, cell: i64, i: int) -> Option<Json>
    decreases players.len() - i,
{
    if i >= players.len() {
        None
    } else if int_field(players[i], "cellId"@) == Some(cell) {
        Some(players[i])
    } else {
        player_in_cell(players, cell, i + 1)
    }
}

/// The id of the champion that the local player has picked, if any.
pub open spec fn picked_champion(data: Json) -> Option<i64> {
    match (int_field(data, "localPlayerCellId"@), field(data, "myTeam"@)) {
        (Some(cell), Some(team)) => match list_of(team) {
            Some(players) => match player_in_cell(players, cell, 0) {
                Some(me) => match int_field(me, "championId"@) {
                    Some(id) => if id == 0 {
                        None
                    } else {
                        Some(id)
                    },
                    None => None,
                },
                None => None,
            },
            None => None,
        },
        _ => None,
    }
}

/// The name of the champion that the local player has picked, if it is known.
pub open spec fn picked_alias(data: Json, aliases: Map<i64, Seq<char>>) -> Option<Seq<char>> {
    match picked_champion(data) {
        Some(id) => if aliases.contains_key(id) {
            Some(aliases[id])
        } else {
            None
        },
        None => None,
    }
}

pub fn extract_local_champion(data: &Json, alias_map: &HashMap<i64, String>) -> (r: Option<String>)
    ensures
        option_text(r) == picked_alias(*data, alias_view(alias_map@)),
{
    let cell: i64 = match data.int_field("localPlayerCellId") {
        Some(c) => c,
        None => {
            return None;
        },
    };
    let team = match data.get("myTeam") {
        Some(t) => t,
        None => {
            return None;
        },
    };
    let players = match team.as_array() {
        Some(p) => p,
        None => {
            return None;
        },
    };
    let mut i: usize = 0;
    while i < players.len() && players[i].int_field("cellId") != Some(cell)
        invariant
            i <= players@.len(),
            player_in_cell(players@, cell, 0) == player_in_cell(players@, cell, i as int),
        decreases players@.len() - i,
    {
        i = i + 1;
    }
    if i >= players.len() {
        return None;
    }
    let id: i64 = match players[i].int_field("championId") {
        Some(id) => id,
        None => {
            return None;
        },
    };
    if id == 0 {
        return None;
    }
    match alias_map.get(&id) {
        Some(alias) => Some(text(alias.as_str())),
        None => None,
    }
}

/// The message that subscribes to reports on a resource.
pub open spec fn subscription_text(topic: Seq<char>) -> Seq<char> {
    "[5,\"OnJsonApiEvent_"@ + topic + "\"]"@
}

fn subscription(topic: &str) -> (r: String)
    ensures
        r@ == subscription_text(topic@),
{
    let mut out = concat("[5,\"OnJsonApiEvent_", topic);
    push_text(&mut out, "\"]");
    out
}

/// The messages that subscribe to the phase of the game and to the session in
/// which champions are picked.
pub fn subscriptions() -> (r: Vec<String>)
    ensures
        texts(r@) == seq![
            subscription_text("lol-gameflow_v1_gameflow-phase"@),
            subscription_text("lol-champ-select_v1_session"@),
        ],
{
    let out: Vec<String> = vec![
        subscription("lol-gameflow_v1_gameflow-phase"),
        subscription("lol-champ-select_v1_session"),
    ];
    assert(texts(out@) =~= seq![
        subscription_text("lol-gameflow_v1_gameflow-phase"@),
        subscription_text("lol-champ-select_v1_session"@),
    ]);
    out
}

/// What a report of the client is about.
pub enum TopicView {
    /// The phase that the game is in.
    Phase(Seq<char>),
    /// The session in which champions are picked.
    Session(Json),
    /// Something else.
    Other,
}

/// What a message of the event socket reports: `[8, topic, payload]`, with the
/// news under `data` of the payload.
pub open spec fn topic_of(message: Json) -> TopicView {
    match list_of(message) {
        Some(arr) => if arr.len() != 3 || int_of(arr[0]) != Some(8i64) {
            TopicView::Other
        } else {
            let topic = match text_of(arr[1]) {
                Some(s) => s,
                None => ""@,
            };
            let data = match field(arr[2], "data"@) {
                Some(d) => d,
                None => Json::Null,
            };
            if has_part(topic, "lol-gameflow_v1_gameflow-phase"@) {
                match text_of(data) {
                    Some(phase) => TopicView::Phase(phase),
                    None => TopicView::Other,
                }
            } else if has_part(topic, "lol-champ-select_v1_session"@) {
                TopicView::Session(data)
            } else {
                TopicView::Other
            }
        },
        None => TopicView::Other,
    }
}

/// What was last reported on.
pub struct ListenerView {
    pub last_phase: Option<Seq<char>>,
    pub last_alias: Option<Seq<char>>,
}

/// What to tell the user interface.
pub enum NewsView {
    Nothing,
    PhaseChanged(Seq<char>),
    ChampionSelected(Option<Seq<char>>),
}

/// What a message is worth telling, and what was then last reported on: only
/// changes are told.
pub open spec fn heard(
    s: ListenerView,
    message: Json,
    aliases: Map<i64, Seq<char>>,
) -> (ListenerView, NewsView) {
    match topic_of(message) {
        TopicView::Phase(phase) => if s.last_phase == Some(phase) {
            (s, NewsView::Nothing)
        } else {
            (ListenerView { last_phase: Some(phase), ..s }, NewsView::PhaseChanged(phase))
        },
        TopicView::Session(data) => {
            let alias = picked_alias(data, aliases);
            if s.last_alias == alias {
                (s, NewsView::Nothing)
            } else {
                (ListenerView { last_alias: alias, ..s }, NewsView::ChampionSelected(alias))
            }
        },
        TopicView::Other => (s, NewsView::Nothing),
    }
}

pub enum News {
    Nothing,
    PhaseChanged(String),
    ChampionSelected(Option<String>),
}

impl View for News {
    type V = NewsView;

    open spec fn view(&self) -> NewsView {
        match self {
            News::Nothing => NewsView::Nothing,
            News::PhaseChanged(s) => NewsView::PhaseChanged(s@),
            News::ChampionSelected(o) => NewsView::ChampionSelected(option_text(*o)),
        }
    }
}

/// Turns messages of the event socket into news.
pub struct Listener {
    last_phase: Option<String>,
    last_alias: Option<String>,
}

impl View for Listener {
    type V = ListenerView;

    closed spec fn view(&self) -> ListenerView {
        ListenerView {
            last_phase: option_text(self.last_phase),
            last_alias: option_text(self.last_alias),
        }
    }
}

fn same_option(a: &Option<String>, b: &Option<String>) -> (r: bool)
    ensures
        r == (option_text(*a) == option_text(*b)),
{
    match (a, b) {
        (Some(x), Some(y)) => same_text(x.as_str(), y.as_str()),
        (None, None) => true,
        _ => false,
    }
}

impl Listener {
    pub fn new() -> (r: Self)
        ensures
            r@ == (ListenerView { last_phase: None, last_alias: None }),
    {
        Listener { last_phase: None, last_alias: None }
    }

    /// Takes a message, and gives what is worth telling.
    pub fn hear(&mut self, message: &Json, alias_map: &HashMap<i64, String>) -> (r: News)
        ensures
            (final(self)@, r@) == heard(old(self)@, *message, alias_view(alias_map@)),
    {
        let arr = match message.as_array() {
            Some(a) => a,
            None => {
                return News::Nothing;
            },
        };
        if arr.len() != 3 || arr[0].as_i64() != Some(8) {
            return News::Nothing;
        }
        let topic: &str = match arr[1].as_str() {
            Some(s) => s,
            None => "",
        };
        let null = Json::Null;
        let data: &Json = match arr[2].get("data") {
            Some(d) => d,
            None => &null,
        };
        if contains(topic, "lol-gameflow_v1_gameflow-phase") {
            if let Some(phase) = data.as_str() {
                let now = Some(text(phase));
                if same_option(&self.last_phase, &now) {
                    return News::Nothing;
                }
                self.last_phase = now;
                return News::PhaseChanged(text(phase));
            }
            News::Nothing
        } else if contains(topic, "lol-champ-select_v1_session") {
            let alias = extract_local_champion(data, alias_map);
            if same_option(&self.last_alias, &alias) {
                return News::Nothing;
            }
            let told = copy_option(&alias);
            self.last_alias = alias;
            News::ChampionSelected(told)
        } else {
            News::Nothing
        }
    }
}

/// The same message again is no news.
pub proof fn law_no_repeated_news(
    s: ListenerView,
    message: Json,
    aliases: Map<i64, Seq<char>>,
)
    ensures
        heard(heard(s, message, aliases).0, message, aliases).1 is Nothing,
{
}

/// Whether a message is a report, `[8, topic, payload]`, of which `topic` is the
/// topic and `data` stands under `data` of the payload.
pub open spec fn is_report(message: Json, topic: Seq<char>, data: Json) -> bool {
    exists|arr: Seq<Json>|
        list_of(message) == Some(arr) && #[trigger] arr.len() == 3 && int_of(arr[0]) == Some(8i64)
            && text_of(arr[1]) == Some(topic) && field(arr[2], "data"@) == Some(data)
}

/// Whatever was heard before, a report of a phase leaves that phase as the one
/// last told, and is told just where another was. Nothing is said of champions.
pub proof fn law_phases_are_told(
    s: ListenerView,
    message: Json,
    aliases: Map<i64, Seq<char>>,
    topic: Seq<char>,
    data: Json,
    phase: Seq<char>,
)
    requires
        is_report(message, topic, data),
        has_part(topic, "lol-gameflow_v1_gameflow-phase"@),
        text_of(data) == Some(phase),
    ensures
        heard(s, message, aliases).0.last_phase == Some(phase),
        heard(s, message, aliases).0.last_alias == s.last_alias,
        s.last_phase != Some(phase) ==> heard(s, message, aliases).1 == NewsView::PhaseChanged(
            phase,
        ),
        s.last_phase == Some(phase) ==> heard(s, message, aliases).1 is Nothing,
{
}

/// Whatever was heard before, a report of the session leaves the local player's
/// champion as the one last told, and is told just where another was, or none.
/// Nothing is said of phases.
pub proof fn law_champions_are_told(
    s: ListenerView,
    message: Json,
    aliases: Map<i64, Seq<char>>,
    topic: Seq<char>,
    data: Json,
)
    requires
        is_report(message, topic, data),
        has_part(topic, "lol-champ-select_v1_session"@),
        !has_part(topic, "lol-gameflow_v1_gameflow-phase"@),
    ensures
        heard(s, message, aliases).0.last_alias == picked_alias(data, aliases),
        heard(s, message, aliases).0.last_phase == s.last_phase,
        s.last_alias != picked_alias(data, aliases) ==> heard(s, message, aliases).1
            == NewsView::ChampionSelected(picked_alias(data, aliases)),
        s.last_alias == picked_alias(data, aliases) ==> heard(s, message, aliases).1 is Nothing,
{
}

/// News come from reports alone: without a change of the phase or of the champion
/// last told there is none.
pub proof fn law_news_are_changes(s: ListenerView, message: Json, aliases: Map<i64, Seq<char>>)
    ensures
        match heard(s, message, aliases).1 {
            NewsView::Nothing => heard(s, message, aliases).0 == s,
            NewsView::PhaseChanged(phase) => {
                &&& s.last_phase != Some(phase)
                &&& heard(s, message, aliases).0 == (ListenerView { last_phase: Some(phase), ..s })
            },
            NewsView::ChampionSelected(alias) => {
                &&& s.last_alias != alias
                &&& heard(s, message, aliases).0 == (ListenerView { last_alias: alias, ..s })
            },
        },
{
}

/// What is no report of a phase or of the session is not heard.
pub proof fn law_only_reports_are_heard(
    s: ListenerView,
    message: Json,
    aliases: Map<i64, Seq<char>>,
)
    requires
        !(heard(s, message, aliases).1 is Nothing),
    ensures
        list_of(message) is Some,
        ({
            let arr = list_of(message)->0;
            &&& arr.len() == 3
            &&& int_of(arr[0]) == Some(8i64)
            &&& text_of(arr[1]) matches Some(topic) ==> has_part(
                topic,
                "lol-gameflow_v1_gameflow-phase"@,
            ) || has_part(topic, "lol-champ-select_v1_session"@)
        }),
{
}

/// The local player's champion is that of the first player in the local cell, by
/// the name that the client gives for its id. There is none where that player has
/// picked none, or its id has no name.
pub proof fn law_local_champion(
    data: Json,
    aliases: Map<i64, Seq<char>>,
    cell: i64,
    players: Seq<Json>,
    i: int,
)
    requires
        int_field(data, "localPlayerCellId"@) == Some(cell),
        field(data, "myTeam"@) is Some,
        list_of(field(data, "myTeam"@)->0) == Some(players),
        0 <= i < players.len(),
        int_field(players[i], "cellId"@) == Some(cell),
        forall|j: int| 0 <= j < i ==> int_field(#[trigger] players[j], "cellId"@) != Some(cell),
    ensures
        picked_alias(data, aliases) == match int_field(players[i], "championId"@) {
            Some(id) => if id != 0 && aliases.contains_key(id) {
                Some(aliases[id])
            } else {
                None
            },
            None => None,
        },
{
    lemma_player_in_cell(players, cell, 0, i);
}

proof fn lemma_player_in_cell(players: Seq<Json>, cell: i64, from: int, i: int)
    requires
        0 <= from <= i < players.len(),
        int_field(players[i], "cellId"@) == Some(cell),
        forall|j: int| from <= j < i ==> int_field(#[trigger] players[j], "cellId"@) != Some(cell),
    ensures
        player_in_cell(players, cell, from) == Some(players[i]),
    decreases i - from,
{
    if from < i {
        lemma_player_in_cell(players, cell, from + 1, i);
    }
}

/// Without a player in the local cell there is no local champion.
pub proof fn law_no_local_champion(
    data: Json,
    aliases: Map<i64, Seq<char>>,
    cell: i64,
    players: Seq<Json>,
)
    requires
        int_field(data, "localPlayerCellId"@) == Some(cell),
        field(data, "myTeam"@) is Some,
        list_of(field(data, "myTeam"@)->0) == Some(players),
        forall|j: int|
            0 <= j < players.len() ==> int_field(#[trigger] players[j], "cellId"@) != Some(cell),
    ensures
        picked_alias(data, aliases) is None,
{
    lemma_no_player(players, cell, 0);
}

proof fn lemma_no_player(players: Seq<Json>, cell: i64, from: int)
    requires
        0 <= from <= players.len(),
        forall|j: int|
            0 <= j < players.len() ==> int_field(#[trigger] players[j], "cellId"@) != Some(cell),
    ensures
        player_in_cell(players, cell, from) is None,
    decreases players.len() - from,
{
    if from < players.len() {
        assert(int_field(players[from], "cellId"@) != Some(cell));
        lemma_no_player(players, cell, from + 1);
    }
}

/// Whether entry `i` of the client's list of champions names the champion `id`.
pub open spec fn names_champion(entries: Seq<Json>, i: int, id: i64) -> bool {
    &&& 0 <= i < entries.len()
    &&& id > 0
    &&& int_field(entries[i], "id"@) == Some(id)
    &&& text_field(entries[i], "alias"@) is Some
}

/// A champion has a name just where an entry of the list gives one, and it is
/// that of the last such entry.
pub proof fn law_aliases(entries: Seq<Json>, n: int, id: i64)
    requires
        0 <= n <= entries.len(),
    ensures
        aliases_of(entries, n).contains_key(id) <==> exists|i: int|
            i < n && #[trigger] names_champion(entries, i, id),
        forall|i: int|
            i < n && #[trigger] names_champion(entries, i, id) && (forall|j: int|
                i < j < n ==> !#[trigger] names_champion(entries, j, id)) ==> aliases_of(
                entries,
                n,
            )[id] == text_field(entries[i], "alias"@)->0,
    decreases n,
{
    if n > 0 {
        law_aliases(entries, n - 1, id);
        let before = aliases_of(entries, n - 1);
        let now = aliases_of(entries, n);
        if names_champion(entries, n - 1, id) {
            assert(now.contains_key(id));
        } else {
            assert(now.contains_key(id) == before.contains_key(id));
            assert(before.contains_key(id) ==> now[id] == before[id]);
        }
    }
}

} // verus!
