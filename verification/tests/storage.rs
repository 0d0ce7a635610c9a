use talon::names::NameMap;
use talon::paths::{extension, file_stem, FilePath};
use talon::sorting::{sort_order, Key};
use talon::storage::{
    app_config_path, cslol_dll_dir_path, cslol_dll_path, custom_asset_dest,
    normalize_league_install_dir, path_to_user_string, ps_single_quoted, resolve_paths, skin_file,
    skin_images, talon_data_dir, CustomAssetKind,
};

fn path(parts: &[&str]) -> FilePath {
    let mut p = FilePath::new();
    for part in parts {
        p = p.join(part);
    }
    p
}

#[test]
fn data_stands_beside_the_app_directory() {
    let app = path(&["Roaming", "com.talon.app"]);
    let data = match talon_data_dir(&app) {
        Some(d) => d,
        None => panic!("the app directory has a parent"),
    };
    assert_eq!(data.to_text(), path(&["Roaming", "Talon"]).to_text());
    assert!(talon_data_dir(&FilePath::new()).is_none());
    assert_eq!(app_config_path(&data).to_text(), data.join("settings").join("config.json").to_text());
    assert_eq!(cslol_dll_dir_path(&data).to_text(), data.join("cslol-tools").to_text());
    assert_eq!(cslol_dll_path(&data).file_name(), Some("cslol-dll.dll".to_string()));
}

#[test]
fn library_paths_are_laid_out() {
    let data = path(&["Talon"]);
    let p = resolve_paths(&data);
    assert_eq!(p.skins_dir.to_text(), path(&["Talon", "library", "skins"]).to_text());
    assert_eq!(p.state_path.to_text(), path(&["Talon", "library", "state.json"]).to_text());
    assert_eq!(p.skins_index_path.to_text(), path(&["Talon", "library", "skins_index.json"]).to_text());
    assert_eq!(p.overlay_dir.to_text(), path(&["Talon", "runtime", "overlay"]).to_text());
    assert_eq!(p.previews_dir.to_text(), path(&["Talon", "cache", "previews", "splash"]).to_text());
    assert_eq!(p.tile_previews_dir.to_text(), path(&["Talon", "cache", "previews", "tile"]).to_text());
    assert_eq!(p.champion_icons_dir.to_text(), path(&["Talon", "cache", "champion-icons"]).to_text());
    assert_eq!(
        custom_asset_dest(&p, CustomAssetKind::Tile, "vi").to_text(),
        path(&["Talon", "user-assets", "tiles", "vi.png"]).to_text()
    );
    assert_eq!(
        custom_asset_dest(&p, CustomAssetKind::Background, "vi").to_text(),
        path(&["Talon", "user-assets", "backgrounds", "vi.png"]).to_text()
    );
    assert_eq!(skin_file(&p, "vi").to_text(), p.skins_dir.join("vi.fantome").to_text());
    assert_eq!(skin_file(&p, "a/b").to_text(), p.skins_dir.join("a").join("b.fantome").to_text());
    assert_eq!(skin_images(&p, "a\\b")[0].to_text(), p.previews_dir.join("a").join("b.png").to_text());
    let images = skin_images(&p, "vi");
    assert_eq!(images.len(), 5);
    assert_eq!(images[0].to_text(), p.previews_dir.join("vi.png").to_text());
    assert_eq!(images[4].to_text(), p.custom_tile_previews_dir.join("vi.png").to_text());
}

#[test]
fn install_is_found_from_the_game_folder_too() {
    let root = path(&["Riot", "League"]);
    let data = root.join("Game").join("DATA").join("FINAL").to_text();
    let is_dir = |p: &FilePath| p.to_text() == data;
    let found = |p: &FilePath| match normalize_league_install_dir(p, is_dir) {
        Ok(p) => Some(p.to_text()),
        Err(_) => None,
    };
    assert_eq!(found(&root), Some(root.to_text()));
    assert_eq!(found(&root.join("Game")), Some(root.to_text()));
    assert_eq!(found(&root.join("Other")), None);
}

#[test]
fn long_path_prefixes_are_not_shown() {
    assert_eq!(path_to_user_string("\\\\?\\C:\\x"), "C:\\x");
    assert_eq!(path_to_user_string("\\\\?\\UNC\\server\\x"), "\\\\server\\x");
    assert_eq!(path_to_user_string("C:\\x"), "C:\\x");
    assert_eq!(ps_single_quoted("it's"), "'it''s'");
}

#[test]
fn names_split_at_the_last_dot() {
    assert_eq!(extension("a.b.c"), Some("c".to_string()));
    assert_eq!(extension(".hidden"), None);
    assert_eq!(extension("plain"), None);
    assert_eq!(file_stem("a.b.c"), "a.b");
    assert_eq!(file_stem(".hidden"), ".hidden");
    let p = path(&["x", "y.wad.client"]);
    assert_eq!(p.file_stem(), Some("y.wad".to_string()));
    assert_eq!(p.with_extension("SubChunkTOC").file_name(), Some("y.wad.SubChunkTOC".to_string()));
    assert_eq!(p.parent().map(|q| q.to_text()), Some(path(&["x"]).to_text()));
    assert_eq!(p.strip_prefix(&path(&["x"])).map(|q| q.to_text()), Some("y.wad.client".to_string()));
    assert!(p.strip_prefix(&path(&["z"])).is_none());
}

#[test]
fn path_text_is_taken_apart() {
    let p = FilePath::new().join_text("a/b\\c/./d");
    assert_eq!(p.to_text(), path(&["a", "b", "c", "d"]).to_text());
    assert_eq!(FilePath::new().join_text("").to_text(), "");
    assert_eq!(FilePath::new().join_text("./a").to_text(), "./a");
    assert_eq!(path(&["x"]).join_text("./a").to_text(), "x/a");
}

#[test]
fn roots_and_drives_replace_a_directory() {
    let dir = FilePath::new().join_text("C:\\Riot\\League");
    assert_eq!(dir.to_text(), "C:/Riot/League");
    assert_eq!(dir.join_text("a\\b").to_text(), "C:/Riot/League/a/b");
    assert_eq!(dir.join_text("\\a").to_text(), "C:/a");
    assert_eq!(dir.join_text("D:\\a").to_text(), "D:/a");
    assert_eq!(dir.join_text("D:a").to_text(), "D:a");
    assert_eq!(dir.join_text("//server/share/a").to_text(), "//server/share/a");
    assert_eq!(dir.join_text("a:b").to_text(), "a:b");
    assert_eq!(dir.join_text("x/D:a").to_text(), "C:/Riot/League/x/D:a");
    assert_eq!(path(&["x"]).join_text("/a").to_text(), "/a");
}

#[test]
fn name_maps_keep_their_order() {
    let mut map = NameMap::new();
    map.insert("b".to_string(), 2i64);
    map.insert("a".to_string(), 1i64);
    map.insert("b".to_string(), 3i64);
    assert_eq!(map.len(), 2);
    assert_eq!(map.key(0), "a");
    assert_eq!(map.get("b"), Some(&3));
    assert_eq!(map.remove("a"), Some(1));
    assert_eq!(map.remove("a"), None);
    assert!(!map.contains("a"));
}

#[test]
fn equal_keys_keep_their_order() {
    let key = |a: &str, b: &str| Key { first: a.to_string(), second: b.to_string() };
    let keys = vec![key("b", "x"), key("a", "z"), key("a", "y"), key("a", "z")];
    assert_eq!(sort_order(&keys), vec![2, 1, 3, 0]);
    assert!(sort_order(&Vec::new()).is_empty());
}
