use talon::json::{Field, Json};
use talon::names::NameMap;
use talon::overlay::runtime::{resolve_custom_skin_id, ResolveError};
use talon::overlay::wad::fantome::ZipEntry;
use talon::paths::FilePath;
use talon::skins::fantome::{find_champion_from_wad_entries, read, read_info_json, FantomeMetadata, InfoJson};
use talon::skins::import::{
    has_fantome_suffix, import_bytes_name, import_name, normalize_import_filename, pick_dest,
    soft_rename_preview, ImageMove, ImportError, Migration,
};
use talon::skins::index::{check_ids_fit, make_custom_id, regenerate, title_case, AssetVersions};
use talon::skins::index_json::index_to_json;
use talon::skins::library::{scan, shown_champion, skin_stem, FoundSkin, SkinEntry};
use talon::skins::state::SkinState;

fn entry(name: &str, body: &[u8]) -> ZipEntry {
    ZipEntry { name: name.to_string(), is_dir: false, body: Some(body.to_vec()) }
}

#[test]
fn state_round_trip() {
    let mut state = SkinState::new();
    state.set("vi-fancy".to_string(), true);
    state.set("ahri".to_string(), true);
    state.set("zed".to_string(), true);
    state.set("zed".to_string(), false);
    let saved = match state.save() {
        Some(s) => s,
        None => panic!("the state was not saved"),
    };
    assert_eq!(saved, "[\n  \"ahri\",\n  \"vi-fancy\"\n]");
    let read_back = match SkinState::load(Some(saved.as_str())) {
        Ok(s) => s,
        Err(_) => panic!("the saved state was refused"),
    };
    assert_eq!(read_back.to_list(), vec!["ahri".to_string(), "vi-fancy".to_string()]);
    assert!(read_back.is_enabled("ahri"));
    assert!(!read_back.is_enabled("zed"));
}

#[test]
fn blank_and_missing_states_are_empty() {
    for content in [None, Some(""), Some(" \n\t")] {
        match SkinState::load(content) {
            Ok(s) => assert!(s.to_list().is_empty()),
            Err(_) => panic!("an empty state was refused"),
        }
    }
    assert!(SkinState::load(Some("{}")).is_err());
    assert!(SkinState::load(Some("[1]")).is_err());
}

#[test]
fn renaming_moves_an_enabled_id() {
    let mut state = SkinState::from_list(&vec!["a".to_string()]);
    state.rename_id("a", "b");
    assert!(!state.is_enabled("a"));
    assert!(state.is_enabled("b"));
    state.rename_id("x", "y");
    assert!(!state.is_enabled("y"));
    state.rename_id("b", "b");
    assert!(state.is_enabled("b"));
}

#[test]
fn import_names_are_normalized() {
    assert_eq!(normalize_import_filename("My Skin (v2)!.fantome"), "my-skin-v2.fantome");
    assert_eq!(normalize_import_filename("--A__B--.fantome"), "a-b.fantome");
    assert_eq!(normalize_import_filename("漢字.fantome"), "skin.fantome");
    assert_eq!(normalize_import_filename("a.b.fantome"), "a-b.fantome");
    assert_eq!(normalize_import_filename(""), "skin.fantome");
    assert_eq!(normalize_import_filename("C:x.fantome"), "x.fantome");
    assert_eq!(normalize_import_filename("C:\\mods\\x.fantome"), "x.fantome");
    let kept = normalize_import_filename("K/DA Ahri.fantome");
    assert_eq!(kept, "da-ahri.fantome");
    assert_eq!(normalize_import_filename(kept.as_str()), kept);
}

#[test]
fn imports_need_a_fantome_file() {
    let dir = FilePath::new().join("downloads");
    assert_eq!(import_name(&dir.join("Vi.fantome"), true), Ok("vi.fantome".to_string()));
    assert_eq!(import_name(&dir.join("Vi.fantome"), false), Err(ImportError::NotAFile));
    assert_eq!(import_name(&dir.join("Vi.FANTOME"), true), Err(ImportError::NotFantome));
    assert_eq!(import_name(&dir.join("Vi.zip"), true), Err(ImportError::NotFantome));
    assert_eq!(import_bytes_name("Vi.FANTOME"), Ok("vi.fantome".to_string()));
    assert_eq!(import_bytes_name("Vi.zip"), Err(ImportError::NotFantome));
    assert!(has_fantome_suffix("x.Fantome"));
    assert!(!has_fantome_suffix("fantome"));
}

#[test]
fn destinations_are_numbered() {
    let dir = FilePath::new().join("skins");
    let free = pick_dest(&dir, "vi.fantome", |_: &FilePath| false);
    assert_eq!(free.map(|p| p.file_name()), Some(Some("vi.fantome".to_string())));
    let second = pick_dest(&dir, "vi.fantome", |p: &FilePath| {
        p.file_name() == Some("vi.fantome".to_string())
            || p.file_name() == Some("vi (1).fantome".to_string())
    });
    assert_eq!(second.map(|p| p.file_name()), Some(Some("vi (2).fantome".to_string())));
}

#[test]
fn migration_renames_what_is_not_normalized() {
    let dir = FilePath::new().join("skins");
    let mut migration = Migration::start(SkinState::from_list(&vec!["My Skin".to_string()]));
    assert!(migration.plan(&dir.join("my-skin.fantome")).is_none());
    assert!(migration.plan(&dir.join("My Skin.zip")).is_none());
    match migration.plan(&dir.join("My Skin.fantome")) {
        Some(rename) => {
            assert_eq!(rename.old_id, "My Skin");
            assert_eq!(rename.name, "my-skin.fantome");
        }
        None => panic!("a name with spaces is to be normalized"),
    }
    assert!(!migration.changed);
    migration.done("My Skin", "my-skin");
    assert!(migration.changed);
    assert!(migration.state.is_enabled("my-skin"));
    assert!(!migration.state.is_enabled("My Skin"));
}

#[test]
fn previews_follow_their_skin() {
    assert_eq!(soft_rename_preview("a", "b", false, true), ImageMove::Leave);
    assert_eq!(soft_rename_preview("a", "a", true, true), ImageMove::Leave);
    assert_eq!(soft_rename_preview("a", "b", true, false), ImageMove::Move { replace: false });
    assert_eq!(soft_rename_preview("a", "b", true, true), ImageMove::Move { replace: true });
}

#[test]
fn champion_is_named_by_the_archives() {
    let none = vec![entry("META/info.json", b"{}"), entry("WAD/.wad.client", b"")];
    assert_eq!(find_champion_from_wad_entries(&none), None);
    let packed = vec![entry("WAD/Hecarim.wad.client", b"")];
    assert_eq!(find_champion_from_wad_entries(&packed), Some("Hecarim".to_string()));
    let loose = vec![entry("x", b""), entry("WAD/Vi.wad.client/assets/a.dds", b"")];
    assert_eq!(find_champion_from_wad_entries(&loose), Some("Vi".to_string()));
}

fn info(name: &str, heroes: Vec<&str>, champions: Vec<&str>) -> InfoJson {
    InfoJson {
        name: Some(name.to_string()),
        author: Some(String::new()),
        version: Some("1.0".to_string()),
        description: None,
        heroes: heroes.into_iter().map(|s| s.to_string()).collect(),
        champions: champions.into_iter().map(|s| s.to_string()).collect(),
    }
}

#[test]
fn metadata_prefers_what_the_mod_says() {
    let entries = vec![entry("WAD/Vi.wad.client", b"")];
    let said = read(Some(&info("Nice", vec!["Jinx"], vec!["Zed"])), &entries);
    assert_eq!(said.name, Some("Nice".to_string()));
    assert_eq!(said.champion, Some("Jinx".to_string()));
    assert_eq!(said.author, None);
    assert_eq!(said.version, Some("1.0".to_string()));
    assert_eq!(said.description, None);
    assert_eq!(read(Some(&info("", vec![], vec!["Zed"])), &entries).champion, Some("Zed".to_string()));
    assert_eq!(read(Some(&info("", vec![""], vec!["Zed"])), &entries).champion, Some("Vi".to_string()));
    let silent = read(None, &entries);
    assert_eq!(silent.name, None);
    assert_eq!(silent.champion, Some("Vi".to_string()));
}

#[test]
fn info_text_is_read_from_its_entry() {
    let entries = vec![entry("x", b"y"), entry("META/info.json", "{\"Name\":\"é\"}".as_bytes())];
    assert_eq!(read_info_json(&entries), Some("{\"Name\":\"é\"}".to_string()));
    assert_eq!(read_info_json(&vec![entry("META/info.json", &[0xFF])]), None);
    assert_eq!(read_info_json(&Vec::new()), None);
}

fn found(stem: &str, name: &str, champion: Option<&str>) -> FoundSkin {
    FoundSkin {
        stem: stem.to_string(),
        meta: Some(FantomeMetadata {
            name: Some(name.to_string()),
            champion: champion.map(|s| s.to_string()),
            author: None,
            version: None,
            description: None,
        }),
        preview: Some(format!("{stem}.png")),
        background_preview: None,
        tile_preview: None,
        champion_icon: None,
    }
}

#[test]
fn library_is_sorted_by_champion_and_name() {
    let state = SkinState::from_list(&vec!["b".to_string()]);
    let broken = FoundSkin {
        stem: "broken".to_string(),
        meta: None,
        preview: None,
        background_preview: None,
        tile_preview: None,
        champion_icon: None,
    };
    assert_eq!(shown_champion(&broken.meta), "Unknown");
    let list = vec![
        found("d", "Zeta", Some("vi")),
        broken,
        found("c", "alpha", Some("Vi")),
        found("b", "Beta", Some("Ahri")),
    ];
    let skins = scan(&list, &state);
    let ids: Vec<&str> = skins.iter().map(|s| s.id.as_str()).collect();
    assert_eq!(ids, vec!["b", "broken", "c", "d"]);
    assert!(skins[0].enabled);
    assert!(!skins[2].enabled);
    assert_eq!(skins[1].name, "broken");
    assert_eq!(skins[1].champion, "Unknown");
    assert_eq!(skins[0].preview, Some("b.png".to_string()));
}

#[test]
fn skins_are_fantome_files() {
    let dir = FilePath::new().join("skins");
    assert_eq!(skin_stem(&dir.join("a.fantome")), Some("a".to_string()));
    assert_eq!(skin_stem(&dir.join("a.Fantome")), None);
    assert_eq!(skin_stem(&dir.join("fantome")), None);
}

fn skin(id: &str, name: &str, champion: &str) -> SkinEntry {
    SkinEntry {
        id: id.to_string(),
        name: name.to_string(),
        champion: champion.to_string(),
        author: None,
        version: None,
        description: None,
        preview: Some("p".to_string()),
        background_preview: None,
        tile_preview: None,
        champion_icon: None,
        enabled: true,
    }
}

fn champions() -> NameMap<i64> {
    let mut map = NameMap::new();
    map.insert("monkeyking".to_string(), 62);
    map.insert("ahri".to_string(), 103);
    map
}

fn versions(n: usize) -> Vec<AssetVersions> {
    let mut out = Vec::new();
    for i in 0..n {
        out.push(AssetVersions { splash: i as u64 + 1, background: 0, tile: 0 });
    }
    out
}

#[test]
fn custom_ids_stand_above_nine_million() {
    assert_eq!(make_custom_id(103, 2), 9_010_302);
    assert!(check_ids_fit(&champions(), 100));
    let mut huge = NameMap::new();
    huge.insert("x".to_string(), i64::MAX);
    assert!(!check_ids_fit(&huge, 0));
}

#[test]
fn words_get_a_capital() {
    assert_eq!(title_case("k/DA  all out"), "K/DA  All Out");
    assert_eq!(title_case("ßtar é"), "SStar É");
    assert_eq!(title_case(""), "");
}

#[test]
fn index_holds_enabled_skins_of_known_champions() {
    let skins = vec![
        skin("z-ahri", "second fox", "Ahri"),
        skin("a-ahri", "first fox", "ahri"),
        skin("off", "off", "Ahri"),
        skin("nobody", "nobody", "Nobody"),
        skin("monkey", "staff", "Monkey King"),
    ];
    let state = SkinState::from_list(&vec![
        "z-ahri".to_string(),
        "a-ahri".to_string(),
        "nobody".to_string(),
        "monkey".to_string(),
    ]);
    let map = champions();
    assert!(check_ids_fit(&map, skins.len()));
    let index = regenerate(&skins, &versions(skins.len()), &state, &map);
    assert_eq!(index.len(), 2);
    assert!(index.contains("62"));
    let ahri = match index.get("103") {
        Some(c) => c,
        None => panic!("the champion has skins"),
    };
    assert_eq!(ahri.entries.len(), 2);
    assert_eq!(ahri.entries[0].id, 9_010_300);
    assert_eq!(ahri.entries[0].name, "First Fox");
    assert_eq!(ahri.entries[0].file_stem, "a-ahri");
    assert_eq!(ahri.entries[0].splash_version, 2);
    assert!(ahri.entries[0].has_splash_asset);
    assert!(!ahri.entries[0].has_tile_asset);
    assert_eq!(ahri.entries[1].id, 9_010_301);
    assert_eq!(ahri.entries[1].champion_id, 103);
}

fn resolve(json: &Json, id: i64, there: bool) -> Result<String, ResolveError> {
    let dir = FilePath::new().join("skins");
    match resolve_custom_skin_id(json, &dir, id, |_: &FilePath| there) {
        Ok(path) => match path.file_name() {
            Some(name) => Ok(name),
            None => panic!("a skin path ends in a file name"),
        },
        Err(e) => Err(e),
    }
}

#[test]
fn index_ids_resolve_to_their_files() {
    let skins = vec![skin("a-ahri", "fox", "Ahri"), skin("b-ahri", "fox", "Ahri")];
    let state = SkinState::from_list(&vec!["a-ahri".to_string(), "b-ahri".to_string()]);
    let index = regenerate(&skins, &versions(2), &state, &champions());
    let json = index_to_json(&index);
    assert_eq!(resolve(&json, 9_010_300, true), Ok("a-ahri.fantome".to_string()));
    assert_eq!(resolve(&json, 9_010_301, true), Ok("b-ahri.fantome".to_string()));
    assert_eq!(resolve(&json, 9_010_301, false), Err(ResolveError::NoFile));
    assert_eq!(resolve(&json, 9_010_302, true), Err(ResolveError::NoSkin));
    assert_eq!(resolve(&json, 9_000_100, true), Err(ResolveError::NoChampion { champion_id: 1 }));
    assert_eq!(resolve(&json, 103_001, true), Err(ResolveError::NotCustom));
    assert_eq!(resolve(&Json::Null, 9_010_300, true), Err(ResolveError::BadIndex));
    let stemless = Json::Object(vec![Field {
        name: "103".to_string(),
        value: Json::List(vec![Json::Object(vec![Field {
            name: "id".to_string(),
            value: Json::Int(9_010_300),
        }])]),
    }]);
    assert_eq!(resolve(&stemless, 9_010_300, true), Err(ResolveError::NoFileStem));
}

#[test]
fn rooted_stems_leave_the_library() {
    let rooted = Json::Object(vec![Field {
        name: "103".to_string(),
        value: Json::List(vec![Json::Object(vec![
            Field { name: "id".to_string(), value: Json::Int(9_010_300) },
            Field { name: "fileStem".to_string(), value: Json::Text("/mods/fox".to_string()) },
        ])]),
    }]);
    let dir = FilePath::new().join_text("C:/Talon/skins");
    let path = resolve_custom_skin_id(&rooted, &dir, 9_010_300, |_: &FilePath| true);
    assert_eq!(path.map(|p| p.to_text()), Ok("C:/mods/fox.fantome".to_string()));
}
