use talon::overlay::wad::fantome::ZipEntry;
use talon::paths::FilePath;
use talon::skins::picture::{
    background_shape, crop_corner, decode_image, edge_distance, fits_tile, picture_of_decoded,
    png_bytes, portrait_left, BackgroundShape, Decoded, Picture, PngError,
};
use talon::skins::preview::{
    cache_is_fresh, cached_background_preview_path, cached_champion_icon_path, cached_preview_path,
    cached_tile_preview_path, ddragon_loading_url, ddragon_tile_url, find_splash_via_bin,
    find_tile_via_bin, icon_file, image_file, is_texture_magic, is_texture_path,
    lookup_texture_by_path, sanitize_champion_name,
};
use talon::skins::warm::{
    choose_splash, collect_textures_from_reader, collect_textures_from_unpacked_zip,
    find_splash_by_known_paths, find_textures, find_tile_in_unpacked_zip, pick_best_splash,
    read_meta_image, read_packed_wad, splash_pixels, splash_size, texture_size, warm_needs,
    warm_plan, Material, Source, SplashScore, Textures, WarmError, MAX_DEVIATION_BITS,
};
use talon::wad::bin::{collect_strings, read_value, Reader};
use talon::wad::reader::{CompressionType, ReaderError, WadEntry, WadReader};

struct Payload {
    name: u64,
    kind: u8,
    stored: Vec<u8>,
    size: usize,
}

fn raw(path: &str, bytes: &[u8]) -> Payload {
    Payload {
        name: xxhash_rust::xxh64::xxh64(path.as_bytes(), 0),
        kind: 0,
        stored: bytes.to_vec(),
        size: bytes.len(),
    }
}

fn packed(path: &str, bytes: &[u8]) -> Payload {
    let stored = match zstd::bulk::compress(bytes, 3) {
        Ok(v) => v,
        Err(_) => panic!("zstd compresses any bytes"),
    };
    Payload { name: xxhash_rust::xxh64::xxh64(path.as_bytes(), 0), kind: 3, stored, size: bytes.len() }
}

fn wad(mut payloads: Vec<Payload>) -> Vec<u8> {
    payloads.sort_by_key(|p| p.name);
    let mut out = vec![0u8; 272];
    out[..4].copy_from_slice(&[0x52, 0x57, 3, 1]);
    out[268..272].copy_from_slice(&(payloads.len() as u32).to_le_bytes());
    let mut offset = 272 + 32 * payloads.len();
    for p in &payloads {
        let mut record = [0u8; 32];
        record[..8].copy_from_slice(&p.name.to_le_bytes());
        record[8..12].copy_from_slice(&(offset as u32).to_le_bytes());
        record[12..16].copy_from_slice(&(p.stored.len() as u32).to_le_bytes());
        record[16..20].copy_from_slice(&(p.size as u32).to_le_bytes());
        record[20] = p.kind;
        out.extend_from_slice(&record);
        offset += p.stored.len();
    }
    for p in &payloads {
        out.extend_from_slice(&p.stored);
    }
    out
}

fn open(bytes: &[u8]) -> WadReader<'_> {
    match WadReader::new(bytes) {
        Ok(r) => r,
        Err(_) => panic!("the archive is well-formed"),
    }
}

fn open_error(bytes: &[u8]) -> Option<ReaderError> {
    WadReader::new(bytes).err()
}

/// A property file with one record whose fields are these strings.
fn prop(strings: &[&str]) -> Vec<u8> {
    let mut out = b"PROP".to_vec();
    out.extend_from_slice(&2u32.to_le_bytes());
    out.extend_from_slice(&1u32.to_le_bytes());
    out.extend_from_slice(&3u16.to_le_bytes());
    out.extend_from_slice(b"lnk");
    out.extend_from_slice(&1u32.to_le_bytes());
    out.extend_from_slice(&7u32.to_le_bytes());
    out.extend_from_slice(&0u32.to_le_bytes());
    out.extend_from_slice(&9u32.to_le_bytes());
    out.extend_from_slice(&(strings.len() as u16).to_le_bytes());
    for s in strings {
        out.extend_from_slice(&5u32.to_le_bytes());
        out.push(0x10);
        out.extend_from_slice(&(s.len() as u16).to_le_bytes());
        out.extend_from_slice(s.as_bytes());
    }
    out
}

fn tex(width: u16, height: u16) -> Vec<u8> {
    let mut out = b"TEX\0".to_vec();
    out.extend_from_slice(&width.to_le_bytes());
    out.extend_from_slice(&height.to_le_bytes());
    out.extend_from_slice(&[1, 20, 0, 0]);
    out.extend_from_slice(&vec![0u8; width as usize * height as usize * 4]);
    out
}

fn dds(width: u32, height: u32) -> Vec<u8> {
    let mut out = vec![0u8; 128];
    out[..4].copy_from_slice(b"DDS ");
    out[4..8].copy_from_slice(&124u32.to_le_bytes());
    out[8..12].copy_from_slice(&0x1007u32.to_le_bytes());
    out[12..16].copy_from_slice(&height.to_le_bytes());
    out[16..20].copy_from_slice(&width.to_le_bytes());
    out[76..80].copy_from_slice(&32u32.to_le_bytes());
    out[80..84].copy_from_slice(&4u32.to_le_bytes());
    out[84..88].copy_from_slice(b"DXT1");
    out[108..112].copy_from_slice(&0x1000u32.to_le_bytes());
    out.extend_from_slice(&vec![0u8; (width as usize / 4) * (height as usize / 4) * 8]);
    out
}

fn entry(name: &str, body: &[u8]) -> ZipEntry {
    ZipEntry { name: name.to_string(), is_dir: false, body: Some(body.to_vec()) }
}

fn unreadable(name: &str) -> ZipEntry {
    ZipEntry { name: name.to_string(), is_dir: false, body: None }
}

#[test]
fn archive_entries_are_read() {
    let bytes = wad(vec![raw("a", b"plain"), packed("b", b"packed packed packed")]);
    let reader = open(&bytes);
    assert_eq!(reader.entries().len(), 2);
    let hash = xxhash_rust::xxh64::xxh64(b"b", 0);
    let found = match reader.find_by_hash(hash) {
        Some(e) => e,
        None => panic!("the entry is there"),
    };
    assert_eq!(found.compression, CompressionType::Zstd);
    assert_eq!(reader.extract(found), Ok(b"packed packed packed".to_vec()));
    assert!(reader.find_by_hash(1).is_none());
}

#[test]
fn malformed_archives_are_refused() {
    let good = wad(vec![raw("a", b"x")]);
    assert_eq!(open_error(&good[..271]), Some(ReaderError::TooSmall));
    let mut magic = good.clone();
    magic[0] = 0;
    assert_eq!(open_error(&magic), Some(ReaderError::BadMagic));
    let mut version = good.clone();
    version[2] = 2;
    assert_eq!(open_error(&version), Some(ReaderError::UnsupportedVersion { major: 2 }));
    assert_eq!(open_error(&good[..280]), Some(ReaderError::TocOutOfBounds));
}

#[test]
fn unsupported_payloads_are_refused() {
    let bytes = wad(vec![raw("a", b"xyz")]);
    let reader = open(&bytes);
    let base = reader.entries()[0];
    let with = |compression: CompressionType| reader.extract(&WadEntry { compression, ..base });
    assert_eq!(with(CompressionType::Raw), Ok(b"xyz".to_vec()));
    assert_eq!(with(CompressionType::Zstd), Err(ReaderError::ZstdFailed));
    assert_eq!(with(CompressionType::Gzip), Err(ReaderError::GzipUnsupported));
    assert_eq!(with(CompressionType::ZstdChunked), Err(ReaderError::ZstdChunkedUnsupported));
    assert_eq!(with(CompressionType::Satellite), Err(ReaderError::SatelliteUnsupported));
    assert_eq!(with(CompressionType::Unknown(9)), Err(ReaderError::UnknownCompression { code: 9 }));
    assert_eq!(reader.extract(&WadEntry { offset: u32::MAX, ..base }), Err(ReaderError::PayloadOutOfBounds));
    assert_eq!(CompressionType::from(3), CompressionType::Zstd);
    assert_eq!(CompressionType::from(7), CompressionType::Unknown(7));
}

#[test]
fn property_strings_are_collected() {
    assert_eq!(collect_strings(&prop(&["one", "two"])), vec!["one".to_string(), "two".to_string()]);
    assert!(collect_strings(b"PTCH").is_empty());
    assert!(collect_strings(b"PRO").is_empty());
    let mut cut = prop(&["one", "two"]);
    cut.pop();
    assert!(collect_strings(&cut).is_empty());
}

#[test]
fn property_files_that_break_off_have_no_strings() {
    let mut out = b"PROP".to_vec();
    out.extend_from_slice(&[1, 0, 0, 0, 1, 0, 0, 0]);
    out.extend_from_slice(&[0; 12]);
    out.extend_from_slice(&[2, 0, 0, 0, 0, 0, 0x10, 1, 0, b'a']);
    assert!(collect_strings(&out).is_empty());
    out[24] = 1;
    assert_eq!(collect_strings(&out), vec!["a".to_string()]);
}

#[test]
fn values_that_are_nested_too_deep_are_not_read() {
    let nested = |options: usize| {
        let mut out = b"PROP".to_vec();
        out.extend_from_slice(&[1, 0, 0, 0, 1, 0, 0, 0]);
        out.extend_from_slice(&[0; 12]);
        out.extend_from_slice(&[1, 0, 0, 0, 0, 0, 0x85]);
        for _ in 1..options {
            out.extend_from_slice(&[0x85, 1]);
        }
        out.extend_from_slice(&[0x10, 1, 1, 0, b'a']);
        out
    };
    assert_eq!(collect_strings(&nested(32)), vec!["a".to_string()]);
    assert!(collect_strings(&nested(33)).is_empty());
}

#[test]
fn nested_property_values_are_walked() {
    let mut out = b"PROP".to_vec();
    out.extend_from_slice(&1u32.to_le_bytes());
    out.extend_from_slice(&1u32.to_le_bytes());
    out.extend_from_slice(&7u32.to_le_bytes());
    out.extend_from_slice(&[0u8; 8]);
    out.extend_from_slice(&3u16.to_le_bytes());
    // A list of two strings.
    out.extend_from_slice(&[0, 0, 0, 0, 0x80, 0x10, 0, 0, 0, 0, 2, 0, 0, 0]);
    out.extend_from_slice(&[1, 0, b'a', 1, 0, b'b']);
    // An option that holds an embedded record with one string.
    out.extend_from_slice(&[0, 0, 0, 0, 0x85, 0x83, 1]);
    out.extend_from_slice(&[1, 0, 0, 0, 0, 0, 0, 0, 1, 0]);
    out.extend_from_slice(&[0, 0, 0, 0, 0x10, 1, 0, b'c']);
    // A map from a number to a string.
    out.extend_from_slice(&[0, 0, 0, 0, 0x86, 0x07, 0x10, 0, 0, 0, 0, 1, 0, 0, 0]);
    out.extend_from_slice(&[9, 0, 0, 0, 1, 0, b'd']);
    assert_eq!(
        collect_strings(&out),
        vec!["a".to_string(), "b".to_string(), "c".to_string(), "d".to_string()]
    );
}

#[test]
fn textures_are_known_by_magic_and_path() {
    assert!(is_texture_magic(b"DDS x"));
    assert!(is_texture_magic(b"TEX\0"));
    assert!(!is_texture_magic(b"TEX"));
    assert!(!is_texture_magic(b"PNG "));
    assert!(is_texture_path("a/b.tex"));
    assert!(is_texture_path("a/b.dds"));
    assert!(!is_texture_path("a/b.TEX"));
}

#[test]
fn splash_is_found_through_properties() {
    let splash = tex(4, 4);
    let bytes = wad(vec![
        packed("bin", &prop(&[
            "ASSETS/Absent_LoadScreen.tex",
            "assets/loadscreen/particle.tex",
            "ASSETS/Vi_LoadScreen.tex",
        ])),
        raw("assets/vi_loadscreen.tex", &splash),
        raw("assets/loadscreen/particle.tex", &tex(8, 8)),
    ]);
    let reader = open(&bytes);
    assert_eq!(find_splash_via_bin(&reader), Some(splash.clone()));
    assert_eq!(lookup_texture_by_path(&reader, "assets/vi_loadscreen.tex"), Some(splash));
    assert_eq!(lookup_texture_by_path(&reader, "bin"), None);
    assert_eq!(find_tile_via_bin(&reader), None);
}

#[test]
fn square_tiles_come_first() {
    let square = tex(1, 1);
    let circle = tex(2, 2);
    let bytes = wad(vec![
        raw("bin", &prop(&["a/HUD/vi_circle.dds", "a/hud/vi_square.tex"])),
        raw("a/hud/vi_circle.dds", &circle),
        packed("a/hud/vi_square.tex", &square),
    ]);
    assert_eq!(find_tile_via_bin(&open(&bytes)), Some(square));
}

#[test]
fn splash_is_found_at_known_paths() {
    let splash = dds(8, 8);
    let bytes = wad(vec![raw("assets/characters/missfortune/skins/skin0/missfortuneloadscreen_0.dds", &splash)]);
    let reader = open(&bytes);
    assert_eq!(find_splash_by_known_paths(&reader, "Miss Fortune"), Some(splash.clone()));
    assert_eq!(find_splash_by_known_paths(&reader, "Vi"), None);
    assert_eq!(find_splash_by_known_paths(&reader, "!"), None);
    assert_eq!(collect_textures_from_reader(&reader), vec![splash]);
}

#[test]
fn packed_mods_are_searched() {
    let splash = tex(4, 4);
    let bytes = wad(vec![raw("assets/characters/vi/skins/base/viloadscreen_0.tex", &splash)]);
    let mod_entries = vec![entry("META/info.json", b"{}"), entry("WAD/Vi.wad.client", &bytes)];
    match find_textures(&mod_entries, Some("Vi")) {
        Ok(t) => {
            assert_eq!(t.splash, Some(splash.clone()));
            assert!(t.candidates.is_empty());
            assert_eq!(t.tile, None);
        }
        Err(_) => panic!("the mod is well-formed"),
    }
    match find_textures(&mod_entries, None) {
        Ok(t) => {
            assert_eq!(t.splash, None);
            assert_eq!(t.candidates, vec![splash]);
        }
        Err(_) => panic!("the mod is well-formed"),
    }
}

#[test]
fn broken_mods_say_why() {
    let broken = vec![entry("WAD/Vi.wad.client", b"short")];
    assert!(matches!(find_textures(&broken, None), Err(WarmError::Archive(ReaderError::TooSmall))));
    let closed = vec![unreadable("WAD/Vi.wad.client")];
    assert!(matches!(find_textures(&closed, None), Err(WarmError::Unreadable)));
    assert!(matches!(read_packed_wad(&closed), Err(WarmError::Unreadable)));
    assert!(matches!(read_packed_wad(&vec![entry("WAD/a/b.wad.client", b"")]), Ok(None)));
}

#[test]
fn loose_mods_are_searched() {
    let tile = tex(1, 1);
    let other = dds(4, 4);
    let entries = vec![
        entry("WAD/Vi.wad.client/a/hud/x_avatar.tex", b"no texture"),
        entry("WAD/Vi.wad.client/a/hud/x_circle.dds", &tile),
        entry("WAD/Vi.wad.client/a/other.dds", &other),
        entry("RAW/a/hud/x_square.tex", &other),
    ];
    assert_eq!(find_tile_in_unpacked_zip(&entries), Some(tile.clone()));
    assert_eq!(collect_textures_from_unpacked_zip(&entries), vec![tile, other]);
}

#[test]
fn meta_image_is_optional() {
    assert!(matches!(read_meta_image(&Vec::new()), Ok(None)));
    assert!(matches!(read_meta_image(&vec![entry("META/image.png", b"p")]), Ok(Some(b)) if b == b"p"));
    assert!(matches!(read_meta_image(&vec![unreadable("META/image.png")]), Err(WarmError::Unreadable)));
}

#[test]
fn texture_sizes_stand_in_the_header() {
    assert_eq!(texture_size(&tex(300, 200)), Some((300, 200)));
    assert_eq!(splash_size(&tex(0, 200)), None);
    assert_eq!(texture_size(&tex(0, 200)), Some((0, 200)));
    let mut unknown = tex(1, 1);
    unknown[9] = 99;
    assert_eq!(texture_size(&unknown), None);
    assert_eq!(texture_size(&dds(64, 64)), Some((64, 64)));
    assert_eq!(texture_size(b"DDS "), None);
    assert_eq!(texture_size(b"??"), None);
}

fn score(width: u32, height: u32) -> SplashScore {
    let max = width.max(height) as f64;
    let min = width.min(height) as f64;
    let deviation = (max / min - 16.0 / 9.0).abs();
    SplashScore { deviation: deviation.to_bits(), pixels: splash_pixels(width, height) }
}

#[test]
fn best_splash_is_nearest_to_sixteen_by_nine() {
    assert_eq!(MAX_DEVIATION_BITS, 0.15f64.to_bits());
    assert_eq!(splash_pixels(1280, 720), 921_600);
    let scores = vec![score(1024, 1024), score(1280, 720), score(2560, 1440), score(1300, 720)];
    assert_eq!(pick_best_splash(&scores), Some(2));
    assert_eq!(pick_best_splash(&vec![score(1024, 1024), score(160, 90)]), None);
    assert_eq!(pick_best_splash(&vec![score(560, 308)]), Some(0));
    assert_eq!(pick_best_splash(&Vec::new()), None);
}

#[test]
fn caches_are_fresh_when_not_older() {
    assert!(cache_is_fresh(Some(5), Some(5)));
    assert!(!cache_is_fresh(Some(6), Some(5)));
    assert!(!cache_is_fresh(None, None));
    assert!(cache_is_fresh(None, Some(0)));
    assert!(!cache_is_fresh(None, Some(-1)));
    let dir = FilePath::new().join("previews");
    let name = |p: Option<FilePath>| p.and_then(|p| p.file_name());
    assert_eq!(name(cached_preview_path(Some(1), Some(2), &dir, "vi")), Some("vi.png".to_string()));
    assert_eq!(name(cached_tile_preview_path(Some(1), Some(2), &dir, "vi")), Some("vi.png".to_string()));
    assert_eq!(name(cached_background_preview_path(Some(3), Some(2), &dir, "vi")), None);
    assert_eq!(name(Some(image_file(&dir, "a.b"))), Some("a.b.png".to_string()));
}

#[test]
fn champion_images_have_addresses() {
    assert_eq!(sanitize_champion_name("Miss Fortune"), Some("MissFortune".to_string()));
    assert_eq!(sanitize_champion_name("..."), None);
    assert_eq!(
        ddragon_loading_url("Vi"),
        "https://ddragon.leagueoflegends.com/cdn/img/champion/loading/Vi_0.jpg"
    );
    assert_eq!(
        ddragon_tile_url("Vi"),
        "https://ddragon.leagueoflegends.com/cdn/img/champion/tiles/Vi_0.jpg"
    );
    let dir = FilePath::new().join("icons");
    assert_eq!(icon_file(&dir, "Kai'Sa").and_then(|p| p.file_name()), Some("KaiSa.png".to_string()));
    assert!(cached_champion_icon_path(&dir, "Vi", |_: &FilePath| false).is_none());
    assert!(cached_champion_icon_path(&dir, "Vi", |_: &FilePath| true).is_some());
    assert!(cached_champion_icon_path(&dir, "", |_: &FilePath| true).is_none());
}

#[test]
fn images_are_made_from_the_best_source() {
    let needs = warm_needs(Some(5), Some(6), None, None, Some(false));
    assert!(!needs.preview);
    assert!(needs.background && needs.tile && needs.icon);
    assert!(needs.any());
    assert!(needs.decodes_splash(true));
    assert!(!warm_needs(Some(5), Some(6), Some(6), Some(6), None).any());
    let nothing = Material { splash: false, tile: false, meta_image: false };
    let plan = warm_plan(needs, nothing, Some("Vi"));
    assert!(matches!(plan.preview, Source::Nothing));
    assert!(matches!(plan.background, Source::Download(u) if u == ddragon_loading_url("Vi")));
    assert!(matches!(plan.tile, Source::Download(u) if u == ddragon_tile_url("Vi")));
    assert!(matches!(plan.icon, Source::Download(_)));
    let all = Material { splash: true, tile: true, meta_image: true };
    let plan = warm_plan(needs, all, None);
    assert!(matches!(plan.background, Source::Splash));
    assert!(matches!(plan.tile, Source::Tile));
    let meta = Material { splash: false, tile: false, meta_image: true };
    assert!(matches!(warm_plan(needs, meta, Some("Vi")).tile, Source::MetaImage));
}

#[test]
fn values_are_read_to_their_end() {
    let bytes = [2, 0, b'h', b'i', 9, 9];
    let mut out = vec!["kept".to_string()];
    let mut reader = Reader { data: &bytes, pos: 0 };
    assert!(read_value(&mut reader, 0x10, &mut out, 0));
    assert_eq!(reader.pos, 4);
    assert_eq!(out, vec!["kept".to_string(), "hi".to_string()]);
    // Nested too deep, it is not read at all.
    let mut deep = Reader { data: &bytes, pos: 0 };
    assert!(!read_value(&mut deep, 0x10, &mut out, 1000));
    assert_eq!(deep.pos, 0);
    assert_eq!(out.len(), 2);
    let mut cut = Reader { data: &bytes[..3], pos: 0 };
    assert!(!read_value(&mut cut, 0x10, &mut out, 0));
}

#[test]
fn named_splash_goes_before_scored_ones() {
    let candidates = vec![b"square".to_vec(), b"odd".to_vec(), b"wide".to_vec(), b"small".to_vec()];
    let scores = vec![Some(score(1024, 1024)), None, Some(score(1280, 720)), Some(score(160, 90))];
    let found = Textures { splash: None, candidates: candidates.clone(), tile: None };
    assert_eq!(choose_splash(&found, &scores), Some(&b"wide".to_vec()));
    let named = Textures { splash: Some(b"named".to_vec()), candidates, tile: None };
    assert_eq!(choose_splash(&named, &scores), Some(&b"named".to_vec()));
    assert_eq!(choose_splash(&found, &vec![None, None, None, Some(score(160, 90))]), None);
}

fn checkered() -> Picture {
    Picture { width: 2, height: 1, pixels: vec![1, 2, 3, 255, 4, 5, 6, 255] }
}

#[test]
fn pictures_survive_png() {
    let png = match png_bytes(&checkered()) {
        Ok(b) => b,
        Err(_) => panic!("the picture is well-formed"),
    };
    assert_eq!(&png[1..4], b"PNG");
    match decode_image(&png) {
        Decoded::Picture(p) => {
            assert_eq!((p.width, p.height), (2, 1));
            assert_eq!(p.pixels, checkered().pixels);
        }
        _ => panic!("the bytes are a picture"),
    }
}

fn picture(bytes: &[u8]) -> Option<(u32, u32, Vec<u8>)> {
    match decode_image(bytes) {
        Decoded::Picture(p) => Some((p.width, p.height, p.pixels)),
        Decoded::Unreadable => None,
    }
}

#[test]
fn plain_textures_are_unpacked() {
    let mut plain = tex(2, 1);
    plain[12..20].copy_from_slice(&[1, 2, 3, 4, 5, 6, 7, 8]);
    assert_eq!(picture(&plain), Some((2, 1, vec![3, 2, 1, 4, 7, 6, 5, 8])));
    plain.pop();
    assert_eq!(texture_size(&plain), Some((2, 1)));
    assert_eq!(picture(&plain), None);
}

#[test]
fn largest_level_of_a_texture_counts() {
    // The levels stand from the smallest on: one pixel, then two.
    let mut levels = tex(2, 1);
    levels[11] = 1;
    assert_eq!(picture(&levels), None);
    levels.extend_from_slice(&[9, 9, 9, 9]);
    levels[12..16].copy_from_slice(&[1, 1, 1, 1]);
    levels[16..20].copy_from_slice(&[2, 2, 2, 2]);
    assert_eq!(picture(&levels), Some((2, 1, vec![2, 2, 2, 2, 9, 9, 9, 9])));
    let mut none = tex(0, 0);
    none.extend_from_slice(&[0; 64]);
    assert_eq!(picture(&none).map(|(w, h, _)| (w, h)), Some((1, 1)));
    none[11] = 1;
    assert_eq!(texture_size(&none), Some((0, 0)));
    assert_eq!(picture(&none), None);
}

#[test]
fn block_textures_are_unpacked() {
    let mut blocks = tex(5, 4);
    blocks.truncate(12);
    blocks[9] = 10;
    // A red block and a green one.
    blocks.extend_from_slice(&[0x00, 0xF8, 0x00, 0xF8, 0, 0, 0, 0]);
    assert_eq!(picture(&blocks), None);
    blocks.extend_from_slice(&[0xE0, 0x07, 0xE0, 0x07, 0, 0, 0, 0]);
    match picture(&blocks) {
        Some((5, 4, pixels)) => {
            assert_eq!(pixels.len(), 80);
            assert_eq!(&pixels[..4], &[255, 0, 0, 255]);
            assert_eq!(&pixels[16..20], &[0, 255, 0, 255]);
        }
        _ => panic!("the texture is whole"),
    }
}

#[test]
fn dds_textures_are_unpacked() {
    let mut whole = dds(8, 4);
    whole[128..132].copy_from_slice(&[0x00, 0xF8, 0x00, 0xF8]);
    match picture(&whole) {
        Some((8, 4, pixels)) => {
            assert_eq!(pixels.len(), 128);
            assert_eq!(&pixels[..4], &[255, 0, 0, 255]);
        }
        _ => panic!("the texture is whole"),
    }
    let mut levels = whole.clone();
    levels[10] = 2;
    assert_eq!(picture(&levels), None);
    levels[28] = 1;
    assert!(picture(&levels).is_some());
    whole.pop();
    assert_eq!(picture(&whole), None);
    let mut tall = dds(0, 0);
    tall[12..16].copy_from_slice(&u32::MAX.to_le_bytes());
    tall[10] = 0x80;
    tall[24] = 2;
    assert_eq!(texture_size(&tall), Some((0, 0)));
    assert_eq!(picture(&tall), None);
}

#[test]
fn malformed_pictures_are_told_apart() {
    let short = Picture { width: 2, height: 1, pixels: vec![0; 7] };
    assert_eq!(png_bytes(&short), Err(PngError::WrongSize));
    let huge = Picture { width: u32::MAX, height: u32::MAX, pixels: Vec::new() };
    assert_eq!(png_bytes(&huge), Err(PngError::WrongSize));
    let empty = Picture { width: 0, height: 0, pixels: Vec::new() };
    assert_eq!(png_bytes(&empty), Err(PngError::NotEncoded));
    assert!(matches!(decode_image(b"no image"), Decoded::Unreadable));
    assert!(matches!(picture_of_decoded(None), Decoded::Unreadable));
    assert!(matches!(
        picture_of_decoded(Some((1, 1, vec![0; 4]))),
        Decoded::Picture(p) if p.width == 1
    ));
}

#[test]
fn backgrounds_are_laid_out() {
    assert_eq!(background_shape(0, 5), BackgroundShape::Nothing);
    assert_eq!(background_shape(308, 560), BackgroundShape::Portrait);
    assert_eq!(background_shape(500, 500), BackgroundShape::Landscape);
    assert_eq!(crop_corner(1281, 1000), (0, 140));
    assert_eq!(crop_corner(1280, 10), (0, 0));
    assert_eq!(portrait_left(396), 442);
    assert_eq!(portrait_left(1285), -2);
    assert_eq!(edge_distance(0, 5), 0);
    assert_eq!(edge_distance(3, 5), 1);
    assert_eq!(edge_distance(2, 5), 2);
    assert!(fits_tile(384, 384));
    assert!(!fits_tile(385, 1));
}
