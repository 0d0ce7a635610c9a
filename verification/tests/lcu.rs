use std::collections::HashMap;

use talon::bridge::{decode_hover, Hover};
use talon::data_dragon::{champion_map, champions_url, lookup, sanitize};
use talon::json::{Field, Json};
use talon::lcu::discovery::{basic_header, discover, socket_url, url, LockfileError};
use talon::lcu::events::{alias_map, extract_local_champion, subscriptions, Listener, News};
use talon::lcu::poller::{poll_step, PollState};
use talon::lcu::process::{find_install_directory, Process};
use talon::lcu::refresh::{any_accepted, refresh_endpoints};
use talon::paths::FilePath;

fn text(s: &str) -> Json {
    Json::Text(s.to_string())
}

fn object(fields: Vec<(&str, Json)>) -> Json {
    let mut out = Vec::new();
    for (name, value) in fields {
        out.push(Field { name: name.to_string(), value });
    }
    Json::Object(out)
}

fn lockfile_error(content: &str) -> Option<LockfileError> {
    match discover(content) {
        Ok(_) => None,
        Err(e) => Some(e),
    }
}

#[test]
fn lockfile_gives_port_and_header() {
    let info = match discover("LeagueClient:1234:56789:secret:https\n") {
        Ok(info) => info,
        Err(_) => panic!("a well-formed lockfile was refused"),
    };
    assert_eq!(info.port, 56789);
    // "riot:secret" in base64.
    assert_eq!(info.auth_header, "Basic cmlvdDpzZWNyZXQ=");
    assert_eq!(url(info.port, "/lol-x"), "https://127.0.0.1:56789/lol-x");
    assert_eq!(socket_url(info.port), "wss://127.0.0.1:56789/");
    assert_eq!(basic_header("eA=="), "Basic eA==");
}

#[test]
fn bad_lockfiles_are_refused() {
    assert_eq!(lockfile_error("a:b:c:d"), Some(LockfileError::TooFewFields { count: 4 }));
    assert_eq!(lockfile_error(""), Some(LockfileError::TooFewFields { count: 1 }));
    assert_eq!(lockfile_error("a:1:port:p:https"), Some(LockfileError::BadPort));
    assert_eq!(lockfile_error("a:1:65536:p:https"), Some(LockfileError::BadPort));
    assert_eq!(lockfile_error("a:1:65535:p:https"), None);
}

#[test]
fn poller_retries_the_lockfile_twenty_times() {
    let mut state = poll_step(PollState::Locate, true).next;
    let mut reads = 0;
    while let PollState::ReadLockfile { .. } = state {
        let step = poll_step(state, false);
        reads += 1;
        state = step.next;
        assert!(reads <= 20);
    }
    assert_eq!(reads, 20);
    assert_eq!(state, PollState::Locate);
}

#[test]
fn poller_waits_between_rounds() {
    let none = poll_step(PollState::Locate, false);
    assert_eq!(none.next, PollState::Locate);
    assert_eq!(none.wait_ms, 2000);
    let first = poll_step(PollState::ReadLockfile { failed: 0 }, false);
    assert_eq!(first.next, PollState::ReadLockfile { failed: 1 });
    assert_eq!(first.wait_ms, 500);
    assert_eq!(poll_step(PollState::ReadLockfile { failed: 3 }, true).next, PollState::MakeClient);
    assert_eq!(poll_step(PollState::MakeClient, true).next, PollState::Listen);
    let dropped = poll_step(PollState::Listen, false);
    assert_eq!(dropped.next, PollState::Locate);
    assert_eq!(dropped.wait_ms, 2000);
}

#[test]
fn client_process_is_found_by_name() {
    let riot = FilePath::new().join_text("C:\\Riot");
    let list = vec![
        Process { name: None, exe_dir: None },
        Process { name: Some("explorer.exe".to_string()), exe_dir: Some(FilePath::new().join("x")) },
        Process { name: Some("LeagueClient.exe".to_string()), exe_dir: None },
        Process { name: Some("LeagueClient.exe".to_string()), exe_dir: Some(riot) },
    ];
    match find_install_directory(&list) {
        Some(p) => assert_eq!(p.to_text(), FilePath::new().join_text("C:\\Riot").to_text()),
        None => panic!("the client process was not found"),
    }
    assert!(find_install_directory(&Vec::new()).is_none());
}

#[test]
fn refresh_needs_one_accepted_answer() {
    let endpoints = refresh_endpoints();
    assert_eq!(endpoints.len(), 4);
    assert_eq!(endpoints[0], "/lol-champ-select/v1/session/simple-inventory");
    assert_eq!(endpoints[3], "/lol-lobby-team-builder/champ-select/v1/retrieve-latest-game-dto");
    assert!(any_accepted(&vec![None, Some(204), Some(500)]));
    assert!(!any_accepted(&vec![None, Some(404)]));
    assert!(!any_accepted(&Vec::new()));
}

fn session(cell: i64, champion: i64) -> Json {
    object(vec![
        ("localPlayerCellId", Json::Int(cell)),
        (
            "myTeam",
            Json::List(vec![
                object(vec![("cellId", Json::Int(0)), ("championId", Json::Int(22))]),
                object(vec![("cellId", Json::Int(3)), ("championId", Json::Int(champion))]),
            ]),
        ),
    ])
}

fn event(topic: &str, data: Json) -> Json {
    Json::List(vec![Json::Int(8), text(topic), object(vec![("data", data)])])
}

fn aliases() -> HashMap<i64, String> {
    alias_map(&vec![
        object(vec![("id", Json::Int(-1)), ("alias", text("None"))]),
        object(vec![("id", Json::Int(120)), ("alias", text("Hecarim"))]),
        object(vec![("id", Json::Int(22))]),
    ])
}

#[test]
fn alias_map_holds_real_champions() {
    let map = aliases();
    assert_eq!(map.len(), 1);
    assert_eq!(map.get(&120), Some(&"Hecarim".to_string()));
}

#[test]
fn local_champion_comes_from_the_own_cell() {
    let map = aliases();
    assert_eq!(extract_local_champion(&session(3, 120), &map), Some("Hecarim".to_string()));
    assert_eq!(extract_local_champion(&session(3, 0), &map), None);
    assert_eq!(extract_local_champion(&session(0, 120), &map), None);
    assert_eq!(extract_local_champion(&session(7, 120), &map), None);
    assert_eq!(extract_local_champion(&Json::Null, &map), None);
}

#[test]
fn listener_reports_each_change_once() {
    let map = aliases();
    let mut listener = Listener::new();
    let phase = event("OnJsonApiEvent_lol-gameflow_v1_gameflow-phase", text("Lobby"));
    assert!(matches!(listener.hear(&phase, &map), News::PhaseChanged(p) if p == "Lobby"));
    assert!(matches!(listener.hear(&phase, &map), News::Nothing));
    let topic = "OnJsonApiEvent_lol-champ-select_v1_session";
    let picked = event(topic, session(3, 120));
    assert!(matches!(listener.hear(&picked, &map), News::ChampionSelected(Some(a)) if a == "Hecarim"));
    assert!(matches!(listener.hear(&picked, &map), News::Nothing));
    let left = event(topic, Json::Null);
    assert!(matches!(listener.hear(&left, &map), News::ChampionSelected(None)));
    assert!(matches!(listener.hear(&left, &map), News::Nothing));
}

#[test]
fn listener_ignores_other_messages() {
    let map = aliases();
    let mut listener = Listener::new();
    let short = Json::List(vec![Json::Int(8), text("lol-gameflow_v1_gameflow-phase")]);
    assert!(matches!(listener.hear(&short, &map), News::Nothing));
    let other_kind = Json::List(vec![
        Json::Int(5),
        text("lol-gameflow_v1_gameflow-phase"),
        object(vec![("data", text("Lobby"))]),
    ]);
    assert!(matches!(listener.hear(&other_kind, &map), News::Nothing));
    assert!(matches!(listener.hear(&event("elsewhere", text("Lobby")), &map), News::Nothing));
}

#[test]
fn two_topics_are_subscribed() {
    assert_eq!(
        subscriptions(),
        vec![
            "[5,\"OnJsonApiEvent_lol-gameflow_v1_gameflow-phase\"]".to_string(),
            "[5,\"OnJsonApiEvent_lol-champ-select_v1_session\"]".to_string(),
        ]
    );
}

#[test]
fn hover_messages_are_decoded() {
    let hover = |id: Json| object(vec![("type", text("skin-hovered")), ("skinId", id)]);
    assert_eq!(decode_hover(&hover(Json::Int(9000001))), Hover::Skin { id: 9000001 });
    assert_eq!(decode_hover(&hover(Json::Null)), Hover::Cleared);
    assert_eq!(decode_hover(&hover(text("1"))), Hover::Unrelated);
    assert_eq!(decode_hover(&hover(Json::Unsigned(u64::MAX))), Hover::Unrelated);
    assert_eq!(decode_hover(&object(vec![("type", text("skin-hovered"))])), Hover::Unrelated);
    assert_eq!(decode_hover(&object(vec![("type", text("ping")), ("skinId", Json::Null)])), Hover::Unrelated);
    assert_eq!(decode_hover(&Json::Null), Hover::Unrelated);
}

#[test]
fn champion_names_are_sanitized() {
    assert_eq!(sanitize("Miss Fortune"), "missfortune");
    assert_eq!(sanitize("Kai'Sa"), "kaisa");
    assert_eq!(sanitize("Nunu & Willump"), "nunuwillump");
    assert_eq!(sanitize(sanitize("Kai'Sa").as_str()), "kaisa");
    assert_eq!(sanitize("é漢"), "");
}

#[test]
fn champions_are_found_under_both_names() {
    let response = object(vec![(
        "data",
        object(vec![
            ("MonkeyKing", object(vec![("key", text("62")), ("name", text("Wukong"))])),
            ("Broken", object(vec![("key", text("x")), ("name", text("Broken"))])),
            ("Nameless", object(vec![("key", text("7"))])),
        ]),
    )]);
    let map = match champion_map(&response) {
        Some(map) => map,
        None => panic!("the champion list was refused"),
    };
    assert_eq!(lookup(&map, "monkey-king"), Some(62));
    assert_eq!(lookup(&map, "WUKONG"), Some(62));
    assert_eq!(lookup(&map, "Nameless"), Some(7));
    assert_eq!(lookup(&map, "Broken"), None);
    assert!(champion_map(&object(vec![("data", Json::Null)])).is_none());
    assert_eq!(
        champions_url("15.1.1"),
        "https://ddragon.leagueoflegends.com/cdn/15.1.1/data/en_US/champion.json"
    );
}
