use std::io::{Cursor, Write};

use talon::overlay::fast::{removes_overlay_file, FastAction, FastBuild};
use talon::overlay::game_paths::{
    is_base_map_wad_filename, is_map_shipping_wad, walk_step, Found, FoundKind, GamePathIndex,
    WalkStep,
};
use talon::overlay::hash::{xxh64_from_path, xxh64_lower};
use talon::overlay::map_cache::{
    cache_is_stale, compute_header_checksum, patch_wad_in_place, prefix_len, retries_restore,
    FileHash, MapPatchState, SavedMapPatch,
};
use talon::overlay::pipeline::{
    build_overlay, build_overlay_from_index, load_mods, subchunk_toc_name, BuildOverlayOptions,
    ModFile,
};
use talon::overlay::runtime::{
    build_events, clear_events, clear_step, discover_game_path, is_cached_map_wad, overlay_stem,
    validate_map_cache_startup, ClearStep, GameError, GamePathsCache, HoverEffect, HoverQueue,
    HoverRequest,
};
use talon::overlay::wad::archive::Archive;
use talon::overlay::wad::entry::EntryData;
use talon::overlay::wad::fantome::{classify, Role, ZipEntry};
use talon::overlay::wad::index::{GameFile, Index};
use talon::overlay::wad::marks::Marks;
use talon::overlay::wad::mounted::{Mounted, OverlayError};
use talon::overlay::wad::toc::{Toc, WadError};
use talon::paths::FilePath;
use talon::skins::injection::{
    candidate_skin_bin_paths, detect_injects_on, mounts_have, normalize_champion_key,
    FileFingerprint, PreviousIndexEntry, PreviousInjectsOnIndex,
};
use talon::zips::read_zip;

fn ok<T>(r: Result<T, OverlayError>) -> T {
    match r {
        Ok(t) => t,
        Err(e) => panic!("unexpected error {e:?}"),
    }
}

fn archive(marks: &mut Marks, entries: &[(u64, &[u8])]) -> Archive {
    let mut a = Archive::default();
    for (name, bytes) in entries {
        a.insert(*name, EntryData::from_raw(bytes.to_vec(), 0, marks));
    }
    a
}

fn wad(entries: &[(u64, &[u8])]) -> Vec<u8> {
    let mut marks = Marks::new();
    match archive(&mut marks, entries).to_bytes(&mut marks) {
        Ok(b) => b,
        Err(_) => panic!("the archive can be written"),
    }
}

fn content(archive: &Archive, name: u64) -> Vec<u8> {
    let mut marks = Marks::new();
    let entry = match archive.entries.get(&name) {
        Some(e) => e,
        None => panic!("the archive has no such entry"),
    };
    match entry.into_decompressed(&mut marks) {
        Ok(e) => e.bytes().to_vec(),
        Err(_) => panic!("the entry can be unpacked"),
    }
}

fn zip_of(files: &[(&str, &[u8])]) -> Vec<u8> {
    let mut writer = zip::ZipWriter::new(Cursor::new(Vec::new()));
    let options = zip::write::SimpleFileOptions::default();
    for (name, body) in files {
        assert!(writer.start_file(*name, options).is_ok());
        assert!(writer.write_all(body).is_ok());
    }
    match writer.finish() {
        Ok(c) => c.into_inner(),
        Err(_) => panic!("the zip file can be written"),
    }
}

fn game_root() -> FilePath {
    FilePath::new().join("game")
}

fn game_file(rel: &[&str]) -> FilePath {
    let mut p = game_root();
    for part in rel {
        p = p.join(part);
    }
    p
}

fn champion_path() -> FilePath {
    game_file(&["DATA", "FINAL", "Champions", "Vi.wad.client"])
}

fn map_path() -> FilePath {
    game_file(&["DATA", "FINAL", "Maps", "Shipping", "Map11.wad.client"])
}

fn game_files() -> Vec<GameFile> {
    vec![
        GameFile { path: champion_path(), bytes: wad(&[(1, b"vi one"), (2, b"vi two")]) },
        GameFile { path: map_path(), bytes: wad(&[(2, b"vi two"), (7, b"map seven")]) },
    ]
}

fn found(path: FilePath) -> Found {
    Found { path, kind: FoundKind::File }
}

fn game_paths() -> GamePathIndex {
    match GamePathIndex::build(&game_root(), Some(&vec![found(champion_path()), found(map_path())])) {
        Some(i) => i,
        None => panic!("the game folder is there"),
    }
}

fn mod_index(entries: &[(u64, &[u8])], marks: &mut Marks) -> Index {
    let bytes = wad(entries);
    ok(Index::from_fantome("mod".to_string(), zip_of(&[("WAD/Vi.wad.client", &bytes)]), marks))
}

#[test]
fn zip_entries_are_listed() {
    let bytes = zip_of(&[("META/info.json", b"{}"), ("WAD/a/b.txt", b"body body body body")]);
    let file = match read_zip(bytes) {
        Some(f) => f,
        None => panic!("the bytes are a zip file"),
    };
    assert_eq!(file.closed, None);
    assert_eq!(file.entries.len(), 2);
    assert_eq!(file.entries[1].name, "WAD/a/b.txt");
    assert!(!file.entries[1].is_dir);
    assert_eq!(file.entries[1].body, Some(b"body body body body".to_vec()));
    assert!(read_zip(b"no zip".to_vec()).is_none());
}

#[test]
fn damaged_zip_entries_are_not_read() {
    let mut marks = Marks::new();
    let mut bytes = zip_of(&[("WAD/Vi.wad.client/a.bin", b"payload that is long enough")]);
    // The content stands behind the 30 bytes of the local header and the name.
    let at = 30 + "WAD/Vi.wad.client/a.bin".len() + 4;
    bytes[at] ^= 0xFF;
    let file = match read_zip(bytes.clone()) {
        Some(f) => f,
        None => panic!("the listing is intact"),
    };
    assert_eq!(file.entries.len(), 1);
    assert_eq!(file.entries[0].body, None);
    assert_eq!(
        Index::from_fantome("m".to_string(), bytes, &mut marks).err(),
        Some(OverlayError::Unreadable { position: 0 })
    );
    assert_eq!(
        Index::from_fantome("m".to_string(), Vec::new(), &mut marks).err(),
        Some(OverlayError::NotAZip)
    );
}

#[test]
fn zip_entries_have_a_role() {
    assert!(matches!(classify("WAD/Vi.wad.client", false), Role::Packed(n) if n == "Vi.wad.client"));
    assert!(matches!(classify("WAD/Vi.wad.client/a/b", false), Role::Loose(n) if n == "Vi.wad.client"));
    assert!(matches!(classify("RAW/x", false), Role::Raw));
    assert!(matches!(classify("RAW/", false), Role::Ignored));
    assert!(matches!(classify("WAD/x", true), Role::Ignored));
    assert!(matches!(classify("WAD/x/", false), Role::Ignored));
    assert!(matches!(classify("WAD/readme.txt", false), Role::Ignored));
    assert!(matches!(classify("WAD/notes/readme.txt", false), Role::Ignored));
    assert!(matches!(classify("WAD/Vi.wad.client/", false), Role::Ignored));
    assert!(matches!(classify("META/info.json", false), Role::Ignored));
}

#[test]
fn mods_are_indexed() {
    let mut marks = Marks::new();
    let packed = wad(&[(1, b"new one")]);
    let bytes = zip_of(&[
        ("META/info.json", b"{}"),
        ("WAD/Vi.wad.client", &packed),
        ("WAD/Jinx.wad.client/data/a.bin", b"loose"),
        ("WAD/readme.txt", b"no archive"),
        ("WAD/notes/readme.txt", b"no archive either"),
        ("RAW/assets/x.dds", b"raw"),
    ]);
    let index = ok(Index::from_fantome("mod".to_string(), bytes, &mut marks));
    assert_eq!(index.name, "mod");
    assert_eq!(index.mounts.len(), 3);
    let vi = index.find_by_mount_name("vi").map(|m| content(&m.archive, 1));
    assert_eq!(vi, Some(b"new one".to_vec()));
    let jinx = index.find_by_mount_name("jinx").map(|m| content(&m.archive, xxh64_lower("data/a.bin")));
    assert_eq!(jinx, Some(b"loose".to_vec()));
    let raw = index.find_by_mount_name("_raw").map(|m| content(&m.archive, xxh64_from_path("assets/x.dds")));
    assert_eq!(raw, Some(b"raw".to_vec()));
}

#[test]
fn bad_archives_in_mods_are_refused() {
    let mut marks = Marks::new();
    let bytes = zip_of(&[("WAD/Vi.wad.client", b"no")]);
    assert_eq!(
        Index::from_fantome("m".to_string(), bytes, &mut marks).err(),
        Some(OverlayError::Wad(WadError::TooSmall))
    );
    let unread = vec![ZipEntry { name: "RAW/x".to_string(), is_dir: false, body: None }];
    assert_eq!(
        Index::from_entries("m".to_string(), &unread, &mut marks).err(),
        Some(OverlayError::Unreadable { position: 0 })
    );
}

#[test]
fn mounts_are_named_after_files() {
    let mut marks = Marks::new();
    assert_eq!(Mounted::make_name("Map11.wad.client"), "map11");
    assert_eq!(Mounted::make_name("Vi.WAD"), "vi");
    assert_eq!(Mounted::make_name("plain"), "plain");
    assert_eq!(Mounted::make_name("Foo.client"), "foo.client");
    assert_eq!(Mounted::make_name("Foo.wad.wad.client"), "foo.wad");
    let m = ok(Mounted::from_game_file(&champion_path(), &game_root(), &wad(&[(1, b"x")]), &mut marks));
    assert_eq!(m.name(), "vi");
    assert_eq!(m.relpath.to_text(), FilePath::new().join("DATA").join("FINAL").join("Champions").join("Vi.wad.client").to_text());
}

#[test]
fn game_and_mod_files_are_checked() {
    let mut marks = Marks::new();
    let good = wad(&[(1, b"x")]);
    let elsewhere = FilePath::new().join("other").join("Vi.wad.client");
    assert_eq!(
        Mounted::from_game_file(&elsewhere, &game_root(), &good, &mut marks).err(),
        Some(OverlayError::NotUnderRoot)
    );
    let mut old = good.clone();
    old[3] = 1;
    assert_eq!(
        Mounted::from_game_file(&champion_path(), &game_root(), &old, &mut marks).err(),
        Some(OverlayError::UnknownVersion { major: 3, minor: 1 })
    );
    assert_eq!(
        Mounted::from_game_file(&champion_path(), &game_root(), b"??", &mut marks).err(),
        Some(OverlayError::Wad(WadError::TooSmall))
    );
    assert_eq!(
        Mounted::from_mod_file(&game_file(&["x.zip"]), &game_root(), &good, &mut marks).err(),
        Some(OverlayError::NotWadClient)
    );
    assert!(Mounted::from_mod_file(&game_file(&["x.wad.client"]), &game_root(), &old, &mut marks).is_ok());
}

#[test]
fn mounts_drop_what_the_game_has_not() {
    let mut marks = Marks::new();
    let base = ok(Mounted::from_game_file(&champion_path(), &game_root(), &wad(&[(1, b"one"), (2, b"two")]), &mut marks));
    let mut changed = Mounted {
        relpath: FilePath::new().join("Vi.wad.client"),
        archive: archive(&mut marks, &[(1, b"one"), (2, b"TWO"), (3, b"three")]),
    };
    assert_eq!(changed.remove_unknown(&base), 1);
    assert!(!changed.archive.has(3));
    let plain = Mounted {
        relpath: FilePath::new().join("Vi.wad.client"),
        archive: archive(&mut marks, &[(1, b"one"), (2, b"two")]),
    };
    assert_eq!(changed.remove_unmodified(&plain), 1);
    assert!(!changed.archive.has(1));
    assert_eq!(content(&changed.archive, 2), b"TWO");
}

#[test]
fn conflicts_are_counted_or_settled() {
    let mut marks = Marks::new();
    let mut mount = |entries: &[(u64, &[u8])]| Mounted {
        relpath: FilePath::new().join("Vi.wad.client"),
        archive: archive(&mut marks, entries),
    };
    let newer = mount(&[(1, b"new"), (2, b"same")]);
    let mut older = mount(&[(1, b"old"), (2, b"same"), (3, b"own")]);
    assert_eq!(older.resolve_conflicts(&newer, false), Err(OverlayError::Conflicts { count: 1 }));
    assert_eq!(older.resolve_conflicts(&newer, true), Ok(()));
    assert_eq!(content(&older.archive, 1), b"new");
    assert_eq!(content(&older.archive, 3), b"own");
    assert_eq!(older.resolve_conflicts(&newer, false), Ok(()));
}

#[test]
fn only_entries_of_the_game_are_marked() {
    let mut marks = Marks::new();
    let mods = vec![mod_index(&[(2, b"MOD two two two two two")], &mut marks)];
    let opts = BuildOverlayOptions { no_tft: true, ignore_conflict: false };
    let overlay = ok(build_overlay(&game_root(), &game_files(), mods, &opts, &mut marks));
    let vi = match overlay.find_by_mount_name("vi") {
        Some(m) => m,
        None => panic!("the mod's archive is in the overlay"),
    };
    assert!(vi.archive.entries[&1].is_optimal(&marks));
    assert!(!vi.archive.entries[&2].is_optimal(&marks));
}

#[test]
fn drives_are_compared_without_case() {
    let file = FilePath::new().join_text("c:/Game/DATA/FINAL/Vi.wad.client");
    let root = FilePath::new().join_text("C:\\Game");
    assert_eq!(file.strip_prefix(&root).map(|p| p.to_text()), Some("DATA/FINAL/Vi.wad.client".to_string()));
    let other = FilePath::new().join_text("D:\\Game");
    assert!(file.strip_prefix(&other).is_none());
    let lower = FilePath::new().join_text("C:\\game");
    assert!(file.strip_prefix(&lower).is_none());
    let share = FilePath::new().join_text("//server/share/Game/a");
    let base = FilePath::new().join_text("\\\\server\\share\\Game");
    assert_eq!(share.strip_prefix(&base).map(|p| p.to_text()), Some("a".to_string()));
    let mut state = MapPatchState::new();
    let before = wad(&[(7, b"seven")]);
    state.remember(&file, SavedMapPatch::of_file(&before[..304], 100));
    let same = FilePath::new().join_text("C:/Game/DATA/FINAL/Vi.wad.client");
    assert_eq!(state.get(&same).map(|s| s.original_size), Some(100));
    assert_eq!(state.pending(&root).len(), 1);
    assert!(state.forget(&same));
}

#[test]
fn bases_are_found_by_name_or_overlap() {
    let mut marks = Marks::new();
    let game = Index::from_game_folder(&game_root(), &game_files(), &mut marks);
    assert_eq!(game.mounts.len(), 2);
    let by_overlap = game.find_by_overlap(&archive(&mut marks, &[(7, b"x")])).map(|m| m.name());
    assert_eq!(by_overlap, Some("map11".to_string()));
    assert!(game.find_by_overlap(&archive(&mut marks, &[(99, b"x")])).is_none());
    let named = game.find_by_mount_name_or_overlap("vi", &archive(&mut marks, &[(7, b"x")])).map(|m| m.name());
    assert_eq!(named, Some("vi".to_string()));
    let mut fewer = game;
    fewer.remove_filter(|k: &str, _: &Mounted| k == "vi");
    assert!(fewer.find_by_mount_name("vi").is_none());
    assert!(fewer.is_stale("Vi.wad.client"));
    assert!(!fewer.is_stale("Map11.wad.client"));
    assert!(!fewer.is_stale("notes.txt"));
    let names = vec!["Map11.wad.client".to_string(), "Vi.wad.client".to_string(), "x.txt".to_string()];
    assert_eq!(fewer.cleanup_in_directory(&names), vec![1]);
}

#[test]
fn broken_game_files_are_left_out() {
    let mut marks = Marks::new();
    let mut files = game_files();
    files.push(GameFile { path: game_file(&["DATA", "FINAL", "Bad.wad.client"]), bytes: vec![1, 2, 3] });
    assert_eq!(Index::from_game_folder(&game_root(), &files, &mut marks).mounts.len(), 2);
    let mut index = Index::from_game_folder(&game_root(), &Vec::new(), &mut marks);
    assert_eq!(
        index.add_game_file(&champion_path(), &game_root(), b"??", &mut marks),
        Err(OverlayError::Wad(WadError::TooSmall))
    );
    assert_eq!(index.add_game_file(&champion_path(), &game_root(), &wad(&[(1, b"x")]), &mut marks), Ok(()));
    assert_eq!(index.mounts.len(), 1);
}

#[test]
fn overlay_has_the_mod_over_the_game() {
    let mut marks = Marks::new();
    let mods = vec![mod_index(&[(2, b"MOD two")], &mut marks)];
    let opts = BuildOverlayOptions { no_tft: true, ignore_conflict: false };
    let overlay = ok(build_overlay(&game_root(), &game_files(), mods, &opts, &mut marks));
    let vi = match overlay.find_by_mount_name("vi") {
        Some(m) => m,
        None => panic!("the mod's archive is in the overlay"),
    };
    assert_eq!(content(&vi.archive, 2), b"MOD two");
    assert_eq!(content(&vi.archive, 1), b"vi one");
    // The map shares an entry with the mod.
    let map = match overlay.find_by_mount_name("map11") {
        Some(m) => m,
        None => panic!("archives that share entries are in the overlay"),
    };
    assert_eq!(content(&map.archive, 2), b"MOD two");
    assert_eq!(content(&map.archive, 7), b"map seven");
}

#[test]
fn overlays_fail_with_a_reason() {
    let mut marks = Marks::new();
    let opts = BuildOverlayOptions { no_tft: false, ignore_conflict: false };
    assert_eq!(
        build_overlay(&game_root(), &Vec::new(), Vec::new(), &opts, &mut marks).err(),
        Some(OverlayError::NoGameFiles)
    );
    let game = Index::from_game_folder(&game_root(), &game_files(), &mut marks);
    let stray = ok(Index::from_fantome("s".to_string(), zip_of(&[("WAD/Zed.wad.client/a.bin", b"x")]), &mut marks));
    assert_eq!(
        build_overlay_from_index(&game, vec![stray], false).err(),
        Some(OverlayError::NoBase { mount: 0 })
    );
    let both = vec![mod_index(&[(1, b"a")], &mut marks), mod_index(&[(1, b"b")], &mut marks)];
    assert_eq!(
        build_overlay_from_index(&game, both, false).err(),
        Some(OverlayError::Conflicts { count: 1 })
    );
    let both = vec![mod_index(&[(1, b"a")], &mut marks), mod_index(&[(1, b"b")], &mut marks)];
    let overlay = ok(build_overlay_from_index(&game, both, true));
    assert_eq!(overlay.find_by_mount_name("vi").map(|m| content(&m.archive, 1)), Some(b"b".to_vec()));
}

#[test]
fn tft_maps_can_be_left_out() {
    let mut marks = Marks::new();
    let tft = game_file(&["DATA", "FINAL", "Maps", "Shipping", "Map22.wad.client"]);
    let files = vec![GameFile { path: tft, bytes: wad(&[(5, b"tft")]) }];
    let zip = zip_of(&[("WAD/Map22.wad.client", &wad(&[(5, b"x")]))]);
    let list = vec![ModFile { name: "m".to_string(), bytes: zip }];
    let with = BuildOverlayOptions { no_tft: false, ignore_conflict: false };
    let mods = load_mods(&list, &mut marks);
    assert!(build_overlay(&game_root(), &files, mods, &with, &mut marks).is_ok());
    let without = BuildOverlayOptions { no_tft: true, ignore_conflict: false };
    let mods = load_mods(&list, &mut marks);
    assert_eq!(
        build_overlay(&game_root(), &files, mods, &without, &mut marks).err(),
        Some(OverlayError::NoBase { mount: 0 })
    );
}

#[test]
fn unreadable_mods_are_skipped() {
    let mut marks = Marks::new();
    let good = zip_of(&[("WAD/Vi.wad.client", &wad(&[(1, b"x")]))]);
    let list = vec![
        ModFile { name: "bad".to_string(), bytes: vec![1, 2, 3] },
        ModFile { name: "good".to_string(), bytes: good },
    ];
    let loaded = load_mods(&list, &mut marks);
    assert_eq!(loaded.len(), 1);
    assert_eq!(loaded[0].name, "good");
}

#[test]
fn subchunk_tables_are_blocked() {
    let mut marks = Marks::new();
    let rel = FilePath::new().join("DATA").join("FINAL").join("Champions").join("Vi.wad.client");
    let name = subchunk_toc_name(&rel);
    assert_eq!(name, xxh64_lower("data/final/champions/vi.wad.subchunktoc"));
    let only = mod_index(&[(name, b"table")], &mut marks);
    assert_eq!(
        FastBuild::start(&game_paths(), only, false).err(),
        Some(OverlayError::EmptyMod)
    );
}

#[test]
fn fast_build_reads_what_it_needs() {
    let mut marks = Marks::new();
    let paths = game_paths();
    let bytes = zip_of(&[("WAD/Vi.wad.client", &wad(&[(2, b"MOD")]))]);
    let mut build = ok(FastBuild::open(&paths, "m".to_string(), bytes, true, &mut marks));
    match build.next() {
        FastAction::ReadBase(p) => assert_eq!(p.to_text(), champion_path().to_text()),
        _ => panic!("the champion's archive comes first"),
    }
    let written = ok(build.base_read(&game_files()[0].bytes, &mut marks));
    assert_eq!(content(&written.archive, 2), b"MOD");
    match build.next() {
        FastAction::ReadMap(p) => assert_eq!(p.to_text(), map_path().to_text()),
        _ => panic!("the map comes next"),
    }
    let map = &game_files()[1].bytes;
    let prefix = &map[..prefix_len(&map[..272]) as usize];
    let patch = match ok(build.map_read(prefix, map.len() as u64, &mut marks)) {
        Some(p) => p,
        None => panic!("the map has an entry of the mod"),
    };
    assert_eq!(patch.patched, 1);
    assert!(matches!(build.next(), FastAction::Finish));
    let names = ok(build.finish());
    assert_eq!(names, vec!["vi".to_string(), "map11".to_string()]);
    assert!(!removes_overlay_file("Vi.wad.client", &names, &paths));
    assert!(removes_overlay_file("Jinx.wad.client", &names, &paths));
    assert!(!removes_overlay_file("Map11.wad.client", &Vec::new(), &paths));
    assert!(!removes_overlay_file("notes.txt", &names, &paths));
}

#[test]
fn fast_build_needs_a_named_base() {
    let mut marks = Marks::new();
    let bytes = zip_of(&[("WAD/Zed.wad.client/a.bin", b"x")]);
    let paths = match GamePathIndex::build(&game_root(), Some(&vec![found(champion_path())])) {
        Some(i) => i,
        None => panic!("the game folder is there"),
    };
    let build = ok(FastBuild::open(&paths, "m".to_string(), bytes, true, &mut marks));
    assert!(matches!(build.next(), FastAction::Finish));
    assert_eq!(build.finish(), Err(OverlayError::NothingWritten));
    assert_eq!(
        FastBuild::open(&paths, "m".to_string(), Vec::new(), true, &mut marks).err(),
        Some(OverlayError::NotAZip)
    );
}

#[test]
fn patched_maps_read_back_and_restore() {
    let mut marks = Marks::new();
    let before = wad(&[(2, b"two"), (7, b"seven")]);
    let prefix = &before[..prefix_len(&before[..272]) as usize];
    let index = mod_index(&[(2, b"patched two"), (9, b"not in the map")], &mut marks);
    let patch = match patch_wad_in_place(prefix, before.len() as u64, &index.mounts, &mut marks) {
        Ok(Some(p)) => p,
        _ => panic!("the map has an entry of the mod"),
    };
    assert_eq!(patch.patched, 1);
    let mut file = before.clone();
    file[..272].copy_from_slice(&patch.header);
    file[272..272 + patch.toc.len()].copy_from_slice(&patch.toc);
    file.extend_from_slice(&patch.appended);
    let back = match Archive::read_from_bytes(&file, &mut marks) {
        Ok(a) => a,
        Err(_) => panic!("the patched map is well-formed"),
    };
    assert_eq!(content(&back, 2), b"patched two");
    assert_eq!(content(&back, 7), b"seven");
    assert!(!back.has(9));
    let toc = match Toc::read(&file) {
        Ok(t) => t,
        Err(_) => panic!("the patched map is well-formed"),
    };
    assert_eq!(&file[260..268], &compute_header_checksum(&toc.entries));
    let saved = SavedMapPatch::of_file(prefix, before.len() as u64);
    file[..272].copy_from_slice(&saved.original_header);
    file[272..272 + saved.original_toc.len()].copy_from_slice(&saved.original_toc);
    file.truncate(saved.original_size as usize);
    assert_eq!(file, before);
}

#[test]
fn restoring_undoes_all_patches() {
    let mut marks = Marks::new();
    let before = wad(&[(2, b"two"), (7, b"seven")]);
    let path = FilePath::new().join("overlay").join("Map11.wad.client");
    let elsewhere = FilePath::new().join("other").join("Map12.wad.client");
    let mut state = MapPatchState::new();
    state.remember(&elsewhere, SavedMapPatch::of_file(&before[..272], 272));
    let mut file = before.clone();
    for body in [&b"first"[..], &b"second, longer"[..], &b"third"[..]] {
        let prefix = file[..prefix_len(&file[..272]) as usize].to_vec();
        state.remember(&path, SavedMapPatch::of_file(&prefix, file.len() as u64));
        let index = mod_index(&[(2, body)], &mut marks);
        let patch = match patch_wad_in_place(&prefix, file.len() as u64, &index.mounts, &mut marks) {
            Ok(Some(p)) => p,
            _ => panic!("the map has an entry of the mod"),
        };
        file[..272].copy_from_slice(&patch.header);
        file[272..272 + patch.toc.len()].copy_from_slice(&patch.toc);
        file.extend_from_slice(&patch.appended);
    }
    let dir = FilePath::new().join("overlay");
    let pending = state.pending(&dir);
    assert_eq!(pending.len(), 1);
    let saved = match state.get(&pending[0]) {
        Some(s) => s,
        None => panic!("the map was patched"),
    };
    file[..272].copy_from_slice(&saved.original_header);
    file[272..272 + saved.original_toc.len()].copy_from_slice(&saved.original_toc);
    file.truncate(saved.original_size as usize);
    assert_eq!(file, before);
    assert_eq!(state.settle(&pending, &vec![true]), (1, None));
    assert!(state.get(&path).is_none());
    assert!(state.get(&elsewhere).is_some());
    let again = state.pending(&dir);
    assert!(again.is_empty());
    assert_eq!(state.settle(&again, &Vec::new()), (0, None));
}

#[test]
fn ignored_conflicts_do_not_need_unpacking() {
    let mut marks = Marks::new();
    let mut ours = Mounted::default();
    ours.archive.insert(1, EntryData::from_gzip(vec![1], 5, 0, &mut marks));
    let mut theirs = Mounted::default();
    theirs.archive.insert(1, EntryData::from_gzip(vec![2], 5, 0, &mut marks));
    let mut strict = ours.clone();
    assert_eq!(
        strict.resolve_conflicts(&theirs, false),
        Err(OverlayError::Conflicts { count: 1 })
    );
    assert_eq!(ours.resolve_conflicts(&theirs, true), Ok(()));
    assert_eq!(ours.archive.entries.get(&1).map(|e| e.bytes().to_vec()), Some(vec![2]));
}

#[test]
fn maps_without_the_mod_are_left_alone() {
    let mut marks = Marks::new();
    let before = wad(&[(7, b"seven")]);
    let prefix = &before[..prefix_len(&before[..272]) as usize];
    let index = mod_index(&[(2, b"two")], &mut marks);
    assert!(matches!(patch_wad_in_place(prefix, before.len() as u64, &index.mounts, &mut marks), Ok(None)));
    assert!(matches!(patch_wad_in_place(b"??", 2, &index.mounts, &mut marks), Err(WadError::TooSmall)));
}

#[test]
fn first_state_of_a_map_is_remembered() {
    let overlay = FilePath::new().join("overlay");
    let map = overlay.join("Map11.wad.client");
    let before = wad(&[(7, b"seven")]);
    let mut state = MapPatchState::new();
    assert!(state.get(&map).is_none());
    state.remember(&map, SavedMapPatch::of_file(&before[..304], 100));
    state.remember(&map, SavedMapPatch::of_file(&before[..304], 200));
    assert_eq!(state.get(&map).map(|s| s.original_size), Some(100));
    assert_eq!(state.pending(&FilePath::new().join("elsewhere")).len(), 0);
    let pending = state.pending(&overlay);
    assert_eq!(pending.len(), 1);
    assert_eq!(state.settle(&pending, &vec![false]), (0, Some(0)));
    assert!(state.get(&map).is_some());
    assert_eq!(state.settle(&pending, &vec![true]), (1, None));
    assert!(!state.forget(&map));
}

#[test]
fn restoring_is_tried_twenty_times() {
    assert!(retries_restore(0));
    assert!(retries_restore(18));
    assert!(!retries_restore(19));
}

#[test]
fn file_hashes_do_not_depend_on_pieces() {
    let mut a = FileHash::new();
    a.update(b"hello ");
    a.update(b"world");
    let mut b = FileHash::new();
    b.update(b"hello world");
    assert_eq!(a.finish(), b.finish());
    assert_eq!(a.finish(), xxhash_rust::xxh3::xxh3_64(b"hello world"));
    assert!(cache_is_stale(1, None));
    assert!(cache_is_stale(1, Some(2)));
    assert!(!cache_is_stale(1, Some(1)));
}

#[test]
fn game_folders_are_walked() {
    assert_eq!(walk_step("Champions", FoundKind::Directory { reparse_point: false }), WalkStep::Descend);
    assert_eq!(walk_step("Champions", FoundKind::Directory { reparse_point: true }), WalkStep::Skip);
    assert_eq!(walk_step("Vi.wad.client", FoundKind::File), WalkStep::Mount);
    assert_eq!(walk_step("Vi.wad", FoundKind::File), WalkStep::Skip);
    assert_eq!(walk_step("Vi.wad.client", FoundKind::Symlink), WalkStep::Skip);
    let paths = game_paths();
    assert_eq!(paths.len(), 2);
    assert!(!paths.is_empty());
    assert_eq!(paths.find("vi").map(|p| p.to_text()), Some(champion_path().to_text()));
    assert!(paths.find("zed").is_none());
    let rel = paths.iter_rel();
    assert_eq!(rel[0].name, "map11");
    assert_eq!(rel[1].path.file_name(), Some("Vi.wad.client".to_string()));
    assert_eq!(paths.iter_map_shipping_wads().len(), 1);
    assert!(paths.is_map_shipping_wad(&map_path()));
    assert!(!paths.is_map_shipping_wad(&champion_path()));
    assert!(GamePathIndex::build(&game_root(), None).is_none());
}

#[test]
fn base_maps_have_numbers() {
    assert!(is_base_map_wad_filename("Map11.wad.client"));
    assert!(is_base_map_wad_filename("Map.wad.client"));
    assert!(!is_base_map_wad_filename("Map11LEVELS.wad.client"));
    assert!(!is_base_map_wad_filename("map11.wad.client"));
    let rel = |last: &str| {
        FilePath::new().join("data").join("FINAL").join("maps").join("Shipping").join(last)
    };
    assert!(is_map_shipping_wad(&rel("Map12.wad.client")));
    assert!(!is_map_shipping_wad(&rel("Common.wad.client")));
    assert!(!is_map_shipping_wad(&rel("x").join("Map12.wad.client")));
}

#[test]
fn latest_hover_wins() {
    let mut queue = HoverQueue::new();
    assert_eq!(queue.handle_hover(None), HoverEffect::Ignored);
    assert_eq!(queue.handle_hover(Some(103_001)), HoverEffect::Ignored);
    assert_eq!(queue.take(), None);
    assert_eq!(queue.handle_hover(Some(9_000_000)), HoverEffect::Queued);
    assert_eq!(queue.handle_hover(Some(9_010_301)), HoverEffect::Replaced);
    assert_eq!(queue.handle_hover(None), HoverEffect::Ignored);
    assert_eq!(queue.take(), Some(HoverRequest::Skin(9_010_301)));
    assert_eq!(queue.take(), None);
}

#[test]
fn builds_are_announced() {
    let names = |events: Vec<talon::overlay::runtime::OverlayEvent>| {
        events.iter().map(|e| e.name()).collect::<Vec<String>>()
    };
    assert_eq!(names(build_events(9_000_001, Ok("vi"), Ok(()))), vec!["overlay:built"]);
    assert_eq!(
        names(build_events(9_000_001, Ok("vi"), Err("no dll"))),
        vec!["overlay:patcher-failed", "overlay:built"]
    );
    assert_eq!(names(build_events(9_000_001, Err("bad"), Ok(()))), vec!["overlay:failed"]);
    match &build_events(9_000_001, Err("bad"), Ok(()))[0] {
        talon::overlay::runtime::OverlayEvent::Failed(m) => assert_eq!(m, "9000001: bad"),
        _ => panic!("a failed build is announced as such"),
    }
    assert_eq!(names(clear_events(true)), vec!["overlay:cleared"]);
    assert!(clear_events(false).is_empty());
}

#[test]
fn game_folder_is_found() {
    let saved = FilePath::new().join("saved");
    let detected = FilePath::new().join("detected");
    let there = |_: &FilePath| true;
    let gone = |_: &FilePath| false;
    match discover_game_path(Some(&saved), Some(&detected), there) {
        Ok(p) => assert_eq!(p.to_text(), FilePath::new().join("saved").join("Game").to_text()),
        Err(_) => panic!("the saved folder is used"),
    }
    assert!(discover_game_path(None, Some(&detected), there).is_ok());
    assert!(matches!(discover_game_path(None, None, there), Err(GameError::NoInstall)));
    assert!(matches!(discover_game_path(Some(&saved), None, gone), Err(GameError::BadLayout)));
    let mut cache = GamePathsCache::new();
    assert!(cache.get().is_none());
    assert!(cache.fill(game_paths()));
    assert!(cache.get().is_some());
    let empty = match GamePathIndex::build(&game_root(), Some(&Vec::new())) {
        Some(i) => i,
        None => panic!("the game folder is there"),
    };
    assert!(!GamePathsCache::new().fill(empty));
}

#[test]
fn map_copies_stay_in_the_overlay() {
    let overlay = FilePath::new().join("overlay");
    let copies = validate_map_cache_startup(&game_paths(), &overlay);
    assert_eq!(copies.len(), 1);
    assert_eq!(copies[0].from.to_text(), map_path().to_text());
    assert!(is_cached_map_wad(&copies[0].to, &overlay));
    assert_eq!(clear_step(&copies[0].to, &overlay, false), ClearStep::Keep);
    assert_eq!(clear_step(&overlay.join("x.wad.client"), &overlay, false), ClearStep::Remove);
    assert_eq!(clear_step(&overlay.join("DATA"), &overlay, true), ClearStep::Descend);
    assert_eq!(overlay_stem(&FilePath::new().join("skins").join("vi.fantome")), "vi");
}

#[test]
fn champion_keys_are_plain() {
    assert_eq!(normalize_champion_key(" Miss Fortune.wad.client "), "missfortune");
    assert_eq!(normalize_champion_key("!!"), "");
    assert_eq!(
        candidate_skin_bin_paths("vi", 3),
        (
            "data/characters/vi/skins/skin3.bin".to_string(),
            "assets/characters/vi/skins/skin3.bin".to_string()
        )
    );
}

fn previous(stem: &str, slots: Vec<u32>, len: Option<u64>) -> PreviousIndexEntry {
    PreviousIndexEntry {
        file_stem: stem.to_string(),
        injects_on: slots,
        source_file_len: len,
        source_file_mtime_ns: len.map(|_| 5),
        source_champion: len.map(|_| "Vi".to_string()),
    }
}

#[test]
fn patched_slots_are_detected() {
    let mut marks = Marks::new();
    let name = xxh64_from_path("data/characters/vi/skins/skin7.bin");
    let other = xxh64_from_path("assets/characters/jinx/skins/skin2.bin");
    let index = mod_index(&[(name, b"bin"), (other, b"bin")], &mut marks);
    assert!(mounts_have(&index, name));
    assert!(!mounts_have(&index, 3));
    assert_eq!(detect_injects_on(&index, "Vi"), vec![7]);
    assert_eq!(detect_injects_on(&index, "Jinx"), vec![2, 7]);
    assert_eq!(detect_injects_on(&mod_index(&[(3, b"x")], &mut marks), "Vi"), vec![0]);
}

#[test]
fn earlier_slots_are_used_for_unchanged_files() {
    let index = PreviousInjectsOnIndex::load(&vec![
        previous("known", vec![4], Some(10)),
        previous("plain", vec![6], None),
        previous("none", Vec::new(), None),
        previous("", vec![1], None),
    ]);
    let file = FileFingerprint { len: 10, mtime_ns: 5 };
    assert_eq!(index.previous("known", file, "Vi"), Some(vec![4]));
    assert_eq!(index.previous("known", file, "Jinx"), None);
    assert_eq!(index.previous("known", FileFingerprint { len: 11, mtime_ns: 5 }, "Vi"), None);
    assert_eq!(index.previous("plain", file, "Anyone"), Some(vec![6]));
    assert_eq!(index.previous("none", file, "Vi"), None);
    let name = xxh64_from_path("data/characters/vi/skins/skin7.bin");
    let bytes = zip_of(&[("WAD/Vi.wad.client", &wad(&[(name, b"bin")]))]);
    assert_eq!(index.get_or_detect("known", file, "Vi", bytes.clone()), Ok(vec![4]));
    assert_eq!(index.get_or_detect("new", file, "Vi", bytes), Ok(vec![7]));
    assert_eq!(index.get_or_detect("new", file, "Vi", Vec::new()), Err(OverlayError::NotAZip));
}
