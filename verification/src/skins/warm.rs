//! Making the images of a skin ahead of time.

use super::fantome::{entry_named, find_entry};
use super::preview::{
    cache_is_fresh, content_of, ddragon_loading_url, ddragon_tile_url, find_first_texture,
    find_splash_via_bin, find_tile_via_bin, first_texture, image_name, is_fresh, is_texture,
    is_texture_magic, loading_url, names_hud_image, option_bytes, rank_tile, read_content,
    sanitize_champion_name, splash_via_bin, tile_rank, tile_url, tile_via_bin,
};
use crate::bytes::{le16, le32};
use crate::codecs::{dds_readable, dds_size, tex_readable, tex_size};
use crate::data_dragon::{sanitize, sanitized};
use crate::overlay::wad::fantome::{zip_views, ZipEntry, ZipView};
use crate::text::{
    chars_of, concat, copy_bytes, ends_with, find_char, find_part, has_prefix, has_suffix, lower,
    part_from, push_text, strip_prefix, texts, to_lower,
};
use crate::textures::{is_dds, starts_as_dds};
use crate::wad::reader::{entries_in, open_error, ReaderError, WadEntry, WadReader};
use vstd::prelude::*;

verus! {

/// A place where the loading screen of the base skin of a champion may lie.
pub open spec fn known_path(champ: Seq<char>, dir: Seq<char>, end: Seq<char>) -> Seq<char> {
    "assets/characters/"@ + champ + "/skins/"@ + dir + champ + end
}

/// The places where the loading screen of the base skin of a champion may lie.
pub open spec fn known_paths(champ: Seq<char>) -> Seq<Seq<char>> {
    seq![
        known_path(champ, "base/"@, "loadscreen_0.tex"@),
        known_path(champ, "base/"@, "loadscreen_0.dds"@),
        known_path(champ, "skin0/"@, "loadscreen_0.tex"@),
        known_path(champ, "skin0/"@, "loadscreen_0.dds"@),
        known_path(champ, "skin0/"@, "_skin0_loadscreen.tex"@),
        known_path(champ, "skin0/"@, "_skin0_loadscreen.dds"@),
    ]
}

fn make_known_path(champ: &str, dir: &str, end: &str) -> (r: String)
    ensures
        r@ == known_path(champ@, dir@, end@),
{
    let mut out = concat("assets/characters/", champ);
    push_text(&mut out, "/skins/");
    push_text(&mut out, dir);
    push_text(&mut out, champ);
    push_text(&mut out, end);
    out
}

/// The loading screen of the base skin of a champion, where it lies in one of
/// its usual places.
pub open spec fn splash_by_known_paths(
    data: Seq<u8>,
    toc: Seq<WadEntry>,
    champion: Seq<char>,
) -> Option<Seq<u8>> {
    if sanitized(champion).len() == 0 {
        None
    } else {
        first_texture(data, toc, known_paths(sanitized(champion)), 0)
    }
}

pub fn find_splash_by_known_paths(reader: &WadReader, champion: &str) -> (r: Option<Vec<u8>>)
    ensures
        option_bytes(r) == splash_by_known_paths(reader.bytes(), reader.toc(), champion@),
{
    let champ = sanitize(champion);
    let c = champ.as_str();
    if c.is_empty() {
        return None;
    }
    let paths: Vec<String> = vec![
        make_known_path(c, "base/", "loadscreen_0.tex"),
        make_known_path(c, "base/", "loadscreen_0.dds"),
        make_known_path(c, "skin0/", "loadscreen_0.tex"),
        make_known_path(c, "skin0/", "loadscreen_0.dds"),
        make_known_path(c, "skin0/", "_skin0_loadscreen.tex"),
        make_known_path(c, "skin0/", "_skin0_loadscreen.dds"),
    ];
    assert(texts(paths@) =~= known_paths(champ@));
    find_first_texture(reader, &paths)
}

/// The textures among the first `n` files of an archive.
pub open spec fn textures_in(data: Seq<u8>, toc: Seq<WadEntry>, n: int) -> Seq<Seq<u8>>
    decreases n,
{
    if n <= 0 {
        Seq::empty()
    } else {
        let before = textures_in(data, toc, n - 1);
        match content_of(data, toc[n - 1]) {
            Some(content) => if is_texture(content) {
                before.push(content)
            } else {
                before
            },
            None => before,
        }
    }
}

/// Lists of bytes as values.
pub open spec fn byte_lists(v: Seq<Vec<u8>>) -> Seq<Seq<u8>> {
    v.map_values(|b: Vec<u8>| b@)
}

fn push_bytes(list: &mut Vec<Vec<u8>>, bytes: Vec<u8>)
    ensures
        byte_lists(final(list)@) == byte_lists(old(list)@).push(bytes@),
{
    let ghost before = list@;
    list.push(bytes);
    assert(byte_lists(list@) =~= byte_lists(before).push(bytes@));
}

pub fn collect_textures_from_reader(reader: &WadReader) -> (r: Vec<Vec<u8>>)
    ensures
        byte_lists(r@) == textures_in(
            reader.bytes(),
            reader.toc(),
            reader.toc().len() as int,
        ),
{
    let entries = reader.entries();
    let mut out: Vec<Vec<u8>> = Vec::new();
    assert(byte_lists(out@) =~= Seq::<Seq<u8>>::empty());
    let mut i: usize = 0;
    while i < entries.len()
        invariant
            i <= entries@.len(),
            entries@ == reader.toc(),
            byte_lists(out@) == textures_in(reader.bytes(), reader.toc(), i as int),
        decreases entries@.len() - i,
    {
        if let Some(content) = read_content(reader, &entries[i]) {
            if is_texture_magic(content.as_slice()) {
                push_bytes(&mut out, content);
            }
        }
        i = i + 1;
    }
    out
}

/// Whether the name of an entry of a mod is that of a loose file of an archive
/// below the directory `top`.
pub open spec fn is_loose_file(name: Seq<char>, top: Seq<char>) -> bool {
    has_prefix(name, top) && part_from(name.skip(top.len() as int), ".wad.client/"@, 0) is Some
}

fn is_loose(name: &str, top: &str) -> (r: bool)
    ensures
        r == is_loose_file(name@, top@),
{
    match strip_prefix(name, top) {
        Some(rest) => find_part(&chars_of(rest.as_str()), ".wad.client/").is_some(),
        None => false,
    }
}

/// The texture that an entry of a mod holds.
pub open spec fn entry_texture(e: ZipView) -> Option<Seq<u8>> {
    match e.body {
        Some(body) => if is_texture(body) {
            Some(body)
        } else {
            None
        },
        None => None,
    }
}

fn texture_of(e: &ZipEntry) -> (r: Option<Vec<u8>>)
    ensures
        option_bytes(r) == entry_texture(e@),
{
    match &e.body {
        Some(body) => {
            if is_texture_magic(body.as_slice()) {
                Some(copy_bytes(body))
            } else {
                None
            }
        },
        None => None,
    }
}

/// The textures among the loose files of a mod, of its first `n` entries.
pub open spec fn loose_textures(entries: Seq<ZipView>, n: int) -> Seq<Seq<u8>>
    decreases n,
{
    if n <= 0 {
        Seq::empty()
    } else {
        let before = loose_textures(entries, n - 1);
        let e = entries[n - 1];
        if is_loose_file(e.name, "WAD/"@) && entry_texture(e) is Some {
            before.push(entry_texture(e)->0)
        } else {
            before
        }
    }
}

pub fn collect_textures_from_unpacked_zip(entries: &Vec<ZipEntry>) -> (r: Vec<Vec<u8>>)
    ensures
        byte_lists(r@) == loose_textures(zip_views(entries@), entries@.len() as int),
{
    let ghost views = zip_views(entries@);
    let mut out: Vec<Vec<u8>> = Vec::new();
    assert(byte_lists(out@) =~= Seq::<Seq<u8>>::empty());
    let mut i: usize = 0;
    while i < entries.len()
        invariant
            i <= entries@.len(),
            views == zip_views(entries@),
            byte_lists(out@) == loose_textures(views, i as int),
        decreases entries@.len() - i,
    {
        assert(views[i as int] == entries@[i as int]@);
        if is_loose(entries[i].name.as_str(), "WAD/") {
            if let Some(bytes) = texture_of(&entries[i]) {
                push_bytes(&mut out, bytes);
            }
        }
        i = i + 1;
    }
    out
}

/// The rank of a loose file of a mod as a tile, by its name in letters of any
/// case; `None` where it is no image of the game's display.
pub open spec fn loose_rank(name: Seq<char>) -> Option<int> {
    let path = lower(name);
    if is_loose_file(path, "wad/"@) && names_hud_image(path) {
        Some(tile_rank(path))
    } else {
        None
    }
}

/// The first texture of the given rank among the loose files, from `i` on.
pub open spec fn ranked_tile(entries: Seq<ZipView>, rank: int, i: int) -> Option<Seq<u8>>
    decreases entries.len() - i,
{
    if i >= entries.len() {
        None
    } else if loose_rank(entries[i].name) == Some(rank) && entry_texture(entries[i]) is Some {
        entry_texture(entries[i])
    } else {
        ranked_tile(entries, rank, i + 1)
    }
}

/// The texture of the best rank, `rank` or worse, among the loose files; of
/// those of the same rank the first.
pub open spec fn loose_tile(entries: Seq<ZipView>, rank: int) -> Option<Seq<u8>>
    decreases 4 - rank,
{
    if rank > 3 {
        None
    } else if ranked_tile(entries, rank, 0) is Some {
        ranked_tile(entries, rank, 0)
    } else {
        loose_tile(entries, rank + 1)
    }
}

fn rank_loose(name: &str) -> (r: Option<u8>)
    ensures
        match r {
            Some(rank) => loose_rank(name@) == Some(rank as int),
            None => loose_rank(name@) is None,
        },
{
    let path = to_lower(name);
    if is_loose(path.as_str(), "wad/") {
        rank_tile(path.as_str())
    } else {
        None
    }
}

/// The loose file of a mod that suits best as a tile.
pub fn find_tile_in_unpacked_zip(entries: &Vec<ZipEntry>) -> (r: Option<Vec<u8>>)
    ensures
        option_bytes(r) == loose_tile(zip_views(entries@), 0),
{
    let ghost views = zip_views(entries@);
    let mut rank: u8 = 0;
    while rank <= 3
        invariant
            rank <= 4,
            views == zip_views(entries@),
            loose_tile(views, 0) == loose_tile(views, rank as int),
        decreases 4 - rank,
    {
        let mut i: usize = 0;
        while i < entries.len()
            invariant
                i <= entries@.len(),
                rank <= 3,
                views == zip_views(entries@),
                loose_tile(views, 0) == loose_tile(views, rank as int),
                ranked_tile(views, rank as int, 0) == ranked_tile(views, rank as int, i as int),
            decreases entries@.len() - i,
        {
            assert(views[i as int] == entries@[i as int]@);
            let own = rank_loose(entries[i].name.as_str());
            if own == Some(rank) {
                if let Some(bytes) = texture_of(&entries[i]) {
                    return Some(bytes);
                }
            }
            i = i + 1;
        }
        rank = rank + 1;
    }
    None
}

/// Whether an entry of a mod is an archive file: `WAD/x.wad.client`.
pub open spec fn is_packed_wad(name: Seq<char>) -> bool {
    let rest = name.skip("WAD/"@.len() as int);
    has_prefix(name, "WAD/"@) && has_suffix(rest, ".wad.client"@) && !rest.contains('/')
}

/// The first archive file of a mod, from `i` on.
pub open spec fn packed_at(entries: Seq<ZipView>, i: int) -> Option<int>
    decreases entries.len() - i,
{
    if i >= entries.len() {
        None
    } else if is_packed_wad(entries[i].name) {
        Some(i)
    } else {
        packed_at(entries, i + 1)
    }
}

fn is_packed(name: &str) -> (r: bool)
    ensures
        r == is_packed_wad(name@),
{
    let rest = match strip_prefix(name, "WAD/") {
        Some(s) => s,
        None => {
            return false;
        },
    };
    if !ends_with(rest.as_str(), ".wad.client") {
        return false;
    }
    let chars = chars_of(rest.as_str());
    let at: usize = find_char(&chars, '/');
    if at < chars.len() {
        assert(rest@[at as int] == '/');
        false
    } else {
        true
    }
}

/// Why no images could be made.
#[derive(Debug, Clone, Copy, PartialEq, Eq, Structural)]
pub enum WarmError {
    /// The archive file of the mod, or its picture, cannot be read from the mod.
    Unreadable,
    /// The archive file of the mod is malformed.
    Archive(ReaderError),
}

/// The archive file of a mod, where it has one.
pub fn read_packed_wad(entries: &Vec<ZipEntry>) -> (r: Result<Option<&Vec<u8>>, WarmError>)
    ensures
        match packed_at(zip_views(entries@), 0) {
            None => r == Ok::<Option<&Vec<u8>>, WarmError>(None),
            Some(i) => match zip_views(entries@)[i].body {
                Some(body) => r is Ok && r->Ok_0 is Some && r->Ok_0->0@ == body,
                None => r == Err::<Option<&Vec<u8>>, WarmError>(WarmError::Unreadable),
            },
        },
{
    let ghost views = zip_views(entries@);
    let mut i: usize = 0;
    while i < entries.len()
        invariant
            i <= entries@.len(),
            views == zip_views(entries@),
            packed_at(views, 0) == packed_at(views, i as int),
        decreases entries@.len() - i,
    {
        assert(views[i as int] == entries@[i as int]@);
        if is_packed(entries[i].name.as_str()) {
            return match &entries[i].body {
                Some(body) => Ok(Some(body)),
                None => Err(WarmError::Unreadable),
            };
        }
        i = i + 1;
    }
    Ok(None)
}

/// The picture that a mod brings for itself, `META/image.png`, where it has one.
pub fn read_meta_image(entries: &Vec<ZipEntry>) -> (r: Result<Option<&Vec<u8>>, WarmError>)
    ensures
        match entry_named(zip_views(entries@), "META/image.png"@, 0) {
            None => r == Ok::<Option<&Vec<u8>>, WarmError>(None),
            Some(i) => match zip_views(entries@)[i].body {
                Some(body) => r is Ok && r->Ok_0 is Some && r->Ok_0->0@ == body,
                None => r == Err::<Option<&Vec<u8>>, WarmError>(WarmError::Unreadable),
            },
        },
{
    match find_entry(entries, "META/image.png") {
        Some(i) => {
            assert(zip_views(entries@)[i as int] == entries@[i as int]@);
            match &entries[i].body {
                Some(body) => Ok(Some(body)),
                None => Err(WarmError::Unreadable),
            }
        },
        None => Ok(None),
    }
}

/// What was found in a mod: its loading screen, or textures among which to look
/// for one, and its tile.
pub struct TexturesView {
    pub splash: Option<Seq<u8>>,
    pub candidates: Seq<Seq<u8>>,
    pub tile: Option<Seq<u8>>,
}

pub struct Textures {
    pub splash: Option<Vec<u8>>,
    pub candidates: Vec<Vec<u8>>,
    pub tile: Option<Vec<u8>>,
}

impl View for Textures {
    type V = TexturesView;

    open spec fn view(&self) -> TexturesView {
        TexturesView {
            splash: option_bytes(self.splash),
            candidates: byte_lists(self.candidates@),
            tile: option_bytes(self.tile),
        }
    }
}

/// The loading screen of an archive that is found by name.
pub open spec fn named_by_any(
    data: Seq<u8>,
    toc: Seq<WadEntry>,
    champion: Option<Seq<char>>,
) -> Option<Seq<u8>> {
    if splash_via_bin(data, toc, 0) is Some {
        splash_via_bin(data, toc, 0)
    } else {
        match champion {
            Some(name) => splash_by_known_paths(data, toc, name),
            None => None,
        }
    }
}

/// What is found in an archive.
pub open spec fn packed_found(data: Seq<u8>, champion: Option<Seq<char>>) -> TexturesView {
    let toc = entries_in(data);
    let splash = named_by_any(data, toc, champion);
    TexturesView {
        splash,
        candidates: if splash is Some {
            Seq::empty()
        } else {
            textures_in(data, toc, toc.len() as int)
        },
        tile: tile_via_bin(data, toc, 0),
    }
}

/// What is found in a mod: in its archive file, where it has one, otherwise
/// among its loose files.
pub open spec fn textures_found(entries: Seq<ZipView>, champion: Option<Seq<char>>) -> Result<
    TexturesView,
    WarmError,
> {
    match packed_at(entries, 0) {
        Some(i) => match entries[i].body {
            None => Err(WarmError::Unreadable),
            Some(body) => match open_error(body) {
                Some(e) => Err(WarmError::Archive(e)),
                None => Ok(packed_found(body, champion)),
            },
        },
        None => Ok(
            TexturesView {
                splash: None,
                candidates: loose_textures(entries, entries.len() as int),
                tile: loose_tile(entries, 0),
            },
        ),
    }
}

/// Looks for the loading screen and the tile of a mod.
pub fn find_textures(entries: &Vec<ZipEntry>, champion: Option<&str>) -> (r: Result<
    Textures,
    WarmError,
>)
    ensures
        match (
            r,
            textures_found(
                zip_views(entries@),
                match champion {
                    Some(c) => Some(c@),
                    None => None,
                },
            ),
        ) {
            (Ok(t), Ok(want)) => t@ == want,
            (Err(e), Err(want)) => e == want,
            _ => false,
        },
{
    let packed = match read_packed_wad(entries) {
        Ok(p) => p,
        Err(e) => {
            return Err(e);
        },
    };
    let no_candidates: Vec<Vec<u8>> = Vec::new();
    assert(byte_lists(no_candidates@) =~= Seq::<Seq<u8>>::empty());
    match packed {
        Some(bytes) => {
            let reader = match WadReader::new(bytes.as_slice()) {
                Ok(r) => r,
                Err(e) => {
                    return Err(WarmError::Archive(e));
                },
            };
            let mut splash = find_splash_via_bin(&reader);
            if splash.is_none() {
                if let Some(name) = champion {
                    splash = find_splash_by_known_paths(&reader, name);
                }
            }
            let candidates = if splash.is_none() {
                collect_textures_from_reader(&reader)
            } else {
                no_candidates
            };
            let tile = find_tile_via_bin(&reader);
            Ok(Textures { splash, candidates, tile })
        },
        None => {
            let tile = find_tile_in_unpacked_zip(entries);
            let candidates = collect_textures_from_unpacked_zip(entries);
            Ok(Textures { splash: None, candidates, tile })
        },
    }
}

/// The width and height of a texture, by its header.
pub open spec fn size_of_texture(bytes: Seq<u8>) -> Option<(int, int)> {
    if is_dds(bytes) {
        if dds_readable(bytes) {
            Some((le32(bytes, 16), le32(bytes, 16)))
        } else {
            None
        }
    } else if tex_readable(bytes) {
        Some((le16(bytes, 4), le16(bytes, 6)))
    } else {
        None
    }
}

/// The width and height of a texture, by its header.
pub fn texture_size(bytes: &[u8]) -> (r: Option<(u32, u32)>)
    ensures
        match r {
            Some((w, h)) => size_of_texture(bytes@) == Some((w as int, h as int)),
            None => size_of_texture(bytes@) is None,
        },
{
    if starts_as_dds(bytes) {
        dds_size(bytes)
    } else {
        tex_size(bytes)
    }
}

/// The width and height of a texture that has any pixels.
pub fn splash_size(bytes: &[u8]) -> (r: Option<(u32, u32)>)
    ensures
        match r {
            Some((w, h)) => size_of_texture(bytes@) == Some((w as int, h as int)) && w > 0 && h > 0,
            None => match size_of_texture(bytes@) {
                Some((w, h)) => w == 0 || h == 0,
                None => true,
            },
        },
{
    match texture_size(bytes) {
        Some((w, h)) => {
            if w == 0 || h == 0 {
                None
            } else {
                Some((w, h))
            }
        },
        None => None,
    }
}

/// How well a texture suits as a loading screen: how far its proportions are
/// from 16:9, as the bits of a floating-point number that is not negative, which
/// are in the order of the numbers, and how many pixels it has.
#[derive(Debug, Clone, Copy, PartialEq, Eq, Structural)]
pub struct SplashScore {
    pub deviation: u64,
    pub pixels: u64,
}

/// The bits of the greatest deviation that is accepted, 0.15.
pub const MAX_DEVIATION_BITS: u64 = 0x3FC3_3333_3333_3333;

/// The fewest pixels that are accepted.
pub const MIN_SPLASH_PIXELS: u64 = 50_000;

/// The number of pixels of a texture.
pub fn splash_pixels(width: u32, height: u32) -> (r: u64)
    ensures
        r == width * height,
{
    assert(0 <= width * height <= 0xFFFF_FFFF * 0xFFFF_FFFF) by (nonlinear_arith)
        requires
            0 <= width <= 0xFFFF_FFFF,
            0 <= height <= 0xFFFF_FFFF,
    ;
    width as u64 * height as u64
}

/// Whether a texture may be taken for a loading screen.
pub open spec fn is_acceptable(s: SplashScore) -> bool {
    s.deviation <= MAX_DEVIATION_BITS && s.pixels >= MIN_SPLASH_PIXELS
}

/// Whether one texture suits better than another.
pub open spec fn suits_better(a: SplashScore, b: SplashScore) -> bool {
    a.deviation < b.deviation || (a.deviation == b.deviation && a.pixels > b.pixels)
}

/// Whether the texture at `i` is the one to take: it is acceptable, no
/// acceptable one suits better, and no earlier one as well.
pub open spec fn is_best_splash(scores: Seq<SplashScore>, i: int) -> bool {
    &&& 0 <= i < scores.len()
    &&& is_acceptable(scores[i])
    &&& forall|j: int|
        0 <= j < scores.len() && is_acceptable(#[trigger] scores[j]) ==> !suits_better(
            scores[j],
            scores[i],
        ) && (j < i ==> suits_better(scores[i], scores[j]))
}

/// The texture that suits best as a loading screen, if any does.
pub fn pick_best_splash(scores: &Vec<SplashScore>) -> (r: Option<usize>)
    ensures
        match r {
            Some(i) => is_best_splash(scores@, i as int),
            None => forall|j: int|
                0 <= j < scores@.len() ==> !is_acceptable(#[trigger] scores@[j]),
        },
{
    let mut best: Option<usize> = None;
    let mut i: usize = 0;
    while i < scores.len()
        invariant
            i <= scores@.len(),
            match best {
                Some(b) => b < i && is_best_splash(scores@.take(i as int), b as int),
                None => forall|j: int| 0 <= j < i ==> !is_acceptable(#[trigger] scores@[j]),
            },
        decreases scores@.len() - i,
    {
        let s: SplashScore = scores[i];
        let ghost now = scores@.take(i + 1);
        let ghost was = scores@.take(i as int);
        assert(forall|j: int| 0 <= j < i ==> #[trigger] now[j] == was[j] && was[j] == scores@[j]);
        assert(now[i as int] == s);
        if s.deviation <= MAX_DEVIATION_BITS && s.pixels >= MIN_SPLASH_PIXELS {
            match best {
                Some(b) => {
                    let c: SplashScore = scores[b];
                    assert(was[b as int] == c);
                    if s.deviation < c.deviation || (s.deviation == c.deviation && s.pixels
                        > c.pixels) {
                        best = Some(i);
                        assert forall|j: int|
                            0 <= j < now.len() && is_acceptable(
                                #[trigger] now[j],
                            ) implies !suits_better(now[j], now[i as int]) && (j < i
                            ==> suits_better(now[i as int], now[j])) by {
                            if j < i {
                                assert(is_acceptable(was[j]));
                                assert(!suits_better(was[j], was[b as int]));
                            }
                        }
                    } else {
                        assert forall|j: int|
                            0 <= j < now.len() && is_acceptable(
                                #[trigger] now[j],
                            ) implies !suits_better(now[j], now[b as int]) && (j < b
                            ==> suits_better(now[b as int], now[j])) by {
                            if j < i {
                                assert(is_acceptable(was[j]));
                            }
                        }
                    }
                },
                None => {
                    best = Some(i);
                    assert forall|j: int|
                        0 <= j < now.len() && is_acceptable(
                            #[trigger] now[j],
                        ) implies !suits_better(now[j], now[i as int]) && (j < i
                        ==> suits_better(now[i as int], now[j])) by {
                        if j < i {
                            assert(!is_acceptable(scores@[j]));
                        }
                    }
                },
            }
        } else {
            match best {
                Some(b) => {
                    assert forall|j: int|
                        0 <= j < now.len() && is_acceptable(
                            #[trigger] now[j],
                        ) implies !suits_better(now[j], now[b as int]) && (j < b ==> suits_better(
                        now[b as int],
                        now[j],
                    )) by {
                        if j < i {
                            assert(is_acceptable(was[j]));
                        }
                    }
                },
                None => {},
            }
        }
        i = i + 1;
    }
    assert(scores@.take(i as int) =~= scores@);
    best
}

/// There is at most one texture to take.
pub proof fn law_best_splash_unique(scores: Seq<SplashScore>, i: int, j: int)
    requires
        is_best_splash(scores, i),
        is_best_splash(scores, j),
    ensures
        i == j,
{
    assert(is_acceptable(scores[i]) && is_acceptable(scores[j]));
}

/// Whether the texture at `i` is the one to take, where textures that could not
/// be looked at have no score: those are left out.
pub open spec fn is_best_scored(scores: Seq<Option<SplashScore>>, i: int) -> bool {
    &&& 0 <= i < scores.len()
    &&& scores[i] is Some
    &&& is_acceptable(scores[i]->0)
    &&& forall|j: int|
        0 <= j < scores.len() && #[trigger] scores[j] is Some && is_acceptable(scores[j]->0)
            ==> !suits_better(scores[j]->0, scores[i]->0) && (j < i ==> suits_better(
            scores[i]->0,
            scores[j]->0,
        ))
}

/// There is at most one texture to take among those with a score.
pub proof fn law_best_scored_unique(scores: Seq<Option<SplashScore>>, i: int, j: int)
    requires
        is_best_scored(scores, i),
        is_best_scored(scores, j),
    ensures
        i == j,
{
    assert(scores[i] is Some && scores[j] is Some);
}

/// The loading screen of a mod: the one that was found by name, else the texture
/// that suits best among those with a score, if any does. `scores` are those of
/// the textures to look among.
pub fn choose_splash<'a>(t: &'a Textures, scores: &Vec<Option<SplashScore>>) -> (r: Option<
    &'a Vec<u8>,
>)
    requires
        scores@.len() == t.candidates@.len(),
    ensures
        match (t.splash, r) {
            (Some(named), Some(bytes)) => bytes@ == named@,
            (Some(_), None) => false,
            (None, Some(bytes)) => exists|i: int| #[trigger]
                is_best_scored(scores@, i) && bytes@ == t.candidates@[i]@,
            (None, None) => forall|j: int|
                0 <= j < scores@.len() ==> !(#[trigger] scores@[j] is Some && is_acceptable(
                    scores@[j]->0,
                )),
        },
{
    if let Some(named) = &t.splash {
        return Some(named);
    }
    let mut dense: Vec<SplashScore> = Vec::new();
    let mut places: Vec<usize> = Vec::new();
    let mut i: usize = 0;
    while i < scores.len()
        invariant
            i <= scores@.len(),
            dense@.len() == places@.len(),
            forall|k: int|
                0 <= k < places@.len() ==> #[trigger] places@[k] < i && scores@[places@[k] as int]
                    == Some(dense@[k]),
            forall|k: int, l: int| 0 <= k < l < places@.len() ==> places@[k] < places@[l],
            forall|j: int|
                0 <= j < i && #[trigger] scores@[j] is Some ==> exists|k: int|
                    0 <= k < places@.len() && #[trigger] places@[k] == j,
        decreases scores@.len() - i,
    {
        let ghost before = places@;
        if let Some(score) = scores[i] {
            dense.push(score);
            places.push(i);
        }
        i = i + 1;
        assert forall|j: int| 0 <= j < i && #[trigger] scores@[j] is Some implies exists|k: int|
            0 <= k < places@.len() && #[trigger] places@[k] == j by {
            if j < i - 1 {
                let k = choose|k: int| 0 <= k < before.len() && #[trigger] before[k] == j;
                assert(places@[k] == j);
            } else {
                assert(places@[places@.len() - 1] == j);
            }
        }
    }
    match pick_best_splash(&dense) {
        Some(k) => {
            let place: usize = places[k];
            proof {
                assert forall|j: int|
                    0 <= j < scores@.len() && #[trigger] scores@[j] is Some && is_acceptable(
                        scores@[j]->0,
                    ) implies !suits_better(scores@[j]->0, scores@[place as int]->0) && (j < place
                    ==> suits_better(scores@[place as int]->0, scores@[j]->0)) by {
                    let l = choose|l: int| 0 <= l < places@.len() && #[trigger] places@[l] == j;
                    assert(is_acceptable(dense@[l]));
                    if l > k {
                        assert(places@[k as int] < places@[l]);
                    }
                }
                assert(is_best_scored(scores@, place as int));
            }
            Some(&t.candidates[place])
        },
        None => {
            assert forall|j: int| 0 <= j < scores@.len() implies !(#[trigger] scores@[j] is Some
                && is_acceptable(scores@[j]->0)) by {
                if scores@[j] is Some {
                    let l = choose|l: int| 0 <= l < places@.len() && #[trigger] places@[l] == j;
                    assert(!is_acceptable(dense@[l]));
                }
            }
            None
        },
    }
}

/// Which images of a skin are to be made.
#[derive(Debug, Clone, Copy, PartialEq, Eq, Structural)]
pub struct Needs {
    pub preview: bool,
    pub background: bool,
    pub tile: bool,
    pub icon: bool,
}

impl Needs {
    /// Whether any image is to be made.
    pub fn any(&self) -> (r: bool)
        ensures
            r == (self.preview || self.background || self.tile || self.icon),
    {
        self.preview || self.background || self.tile || self.icon
    }

    /// Whether the loading screen is to be decoded: it also serves as the tile
    /// of mods that have none.
    pub fn decodes_splash(&self, has_tile: bool) -> (r: bool)
        ensures
            r == (self.preview || self.background || (self.tile && !has_tile)),
    {
        self.preview || self.background || (self.tile && !has_tile)
    }
}

/// Which images are to be made: those that are missing or older than the mod,
/// and the icon of a champion, if there is a champion, where none is kept.
pub fn warm_needs(
    fantome: Option<i128>,
    preview: Option<i128>,
    background: Option<i128>,
    tile: Option<i128>,
    icon_kept: Option<bool>,
) -> (r: Needs)
    ensures
        r.preview == !is_fresh(fantome, preview),
        r.background == !is_fresh(fantome, background),
        r.tile == !is_fresh(fantome, tile),
        r.icon == (icon_kept == Some(false)),
{
    let icon = match icon_kept {
        Some(kept) => !kept,
        None => false,
    };
    Needs {
        preview: !cache_is_fresh(fantome, preview),
        background: !cache_is_fresh(fantome, background),
        tile: !cache_is_fresh(fantome, tile),
        icon,
    }
}

/// What an image is made from.
pub enum SourceView {
    /// It is not made.
    Nothing,
    /// The loading screen of the mod.
    Splash,
    /// The tile of the mod.
    Tile,
    /// The image that comes with the mod.
    MetaImage,
    /// The image at an address.
    Download(Seq<char>),
}

pub enum Source {
    Nothing,
    Splash,
    Tile,
    MetaImage,
    Download(String),
}

impl View for Source {
    type V = SourceView;

    open spec fn view(&self) -> SourceView {
        match self {
            Source::Nothing => SourceView::Nothing,
            Source::Splash => SourceView::Splash,
            Source::Tile => SourceView::Tile,
            Source::MetaImage => SourceView::MetaImage,
            Source::Download(url) => SourceView::Download(url@),
        }
    }
}

/// What there is to make images from.
#[derive(Debug, Clone, Copy, PartialEq, Eq, Structural)]
pub struct Material {
    /// A loading screen that could be decoded.
    pub splash: bool,
    /// A tile that could be decoded.
    pub tile: bool,
    /// An image that comes with the mod.
    pub meta_image: bool,
}

/// The image of a champion that is downloaded, where its name can be spelled.
pub open spec fn download_of(champion: Option<Seq<char>>, tile: bool) -> SourceView {
    match champion {
        Some(c) => match image_name(c) {
            Some(name) => SourceView::Download(
                if tile {
                    tile_url(name)
                } else {
                    loading_url(name)
                },
            ),
            None => SourceView::Nothing,
        },
        None => SourceView::Nothing,
    }
}

/// What the preview and the background are made from: the loading screen, else
/// the image that comes with the mod, else the portrait of the champion.
pub open spec fn splash_source(m: Material, champion: Option<Seq<char>>) -> SourceView {
    if m.splash {
        SourceView::Splash
    } else if m.meta_image {
        SourceView::MetaImage
    } else {
        download_of(champion, false)
    }
}

/// What the tile is made from: the tile of the mod, else its loading screen,
/// else the image that comes with it, else the square image of the champion.
pub open spec fn tile_source(m: Material, champion: Option<Seq<char>>) -> SourceView {
    if m.tile {
        SourceView::Tile
    } else if m.splash {
        SourceView::Splash
    } else if m.meta_image {
        SourceView::MetaImage
    } else {
        download_of(champion, true)
    }
}

/// What each image of a skin is made from.
pub struct WarmPlan {
    pub preview: Source,
    pub background: Source,
    pub tile: Source,
    pub icon: Source,
}

fn download(champion: Option<&str>, tile: bool) -> (r: Source)
    ensures
        r@ == download_of(
            match champion {
                Some(c) => Some(c@),
                None => None,
            },
            tile,
        ),
{
    match champion {
        Some(c) => match sanitize_champion_name(c) {
            Some(name) => {
                if tile {
                    Source::Download(ddragon_tile_url(name.as_str()))
                } else {
                    Source::Download(ddragon_loading_url(name.as_str()))
                }
            },
            None => Source::Nothing,
        },
        None => Source::Nothing,
    }
}

fn plan_splash(m: Material, champion: Option<&str>) -> (r: Source)
    ensures
        r@ == splash_source(
            m,
            match champion {
                Some(c) => Some(c@),
                None => None,
            },
        ),
{
    if m.splash {
        Source::Splash
    } else if m.meta_image {
        Source::MetaImage
    } else {
        download(champion, false)
    }
}

/// What each image that is needed is made from.
pub fn warm_plan(needs: Needs, m: Material, champion: Option<&str>) -> (r: WarmPlan)
    ensures
        ({
            let c = match champion {
                Some(c) => Some(c@),
                None => None,
            };
            let nothing = SourceView::Nothing;
            &&& r.preview@ == (if needs.preview { splash_source(m, c) } else { nothing })
            &&& r.background@ == (if needs.background { splash_source(m, c) } else { nothing })
            &&& r.tile@ == (if needs.tile { tile_source(m, c) } else { nothing })
            &&& r.icon@ == (if needs.icon { download_of(c, true) } else { nothing })
        }),
{
    let preview = if needs.preview {
        plan_splash(m, champion)
    } else {
        Source::Nothing
    };
    let background = if needs.background {
        plan_splash(m, champion)
    } else {
        Source::Nothing
    };
    let tile = if !needs.tile {
        Source::Nothing
    } else if m.tile {
        Source::Tile
    } else if m.splash {
        Source::Splash
    } else if m.meta_image {
        Source::MetaImage
    } else {
        download(champion, true)
    };
    let icon = if needs.icon {
        download(champion, true)
    } else {
        Source::Nothing
    };
    WarmPlan { preview, background, tile, icon }
}

/// The best splash comes closest to the shape of one; of those that come as close it
/// is the largest, and of those as large the first.
pub proof fn law_best_splash(scores: Seq<SplashScore>, i: int, j: int)
    requires
        is_best_splash(scores, i),
        0 <= j < scores.len(),
        is_acceptable(scores[j]),
    ensures
        scores[i].deviation <= scores[j].deviation,
        scores[i].deviation == scores[j].deviation ==> scores[i].pixels >= scores[j].pixels,
        scores[i].deviation == scores[j].deviation && scores[i].pixels == scores[j].pixels ==> i
            <= j,
{
}

/// Where some splash is acceptable there is a best one.
pub proof fn law_some_best_splash(scores: Seq<SplashScore>, j: int) -> (i: int)
    requires
        0 <= j < scores.len(),
        is_acceptable(scores[j]),
    ensures
        is_best_splash(scores, i),
    decreases scores.len(),
{
    let last = scores.len() - 1;
    let first = scores.drop_last();
    if exists|k: int| 0 <= k < last && is_acceptable(#[trigger] first[k]) {
        let k = choose|k: int| 0 <= k < last && is_acceptable(#[trigger] first[k]);
        let b = law_some_best_splash(first, k);
        let i = if is_acceptable(scores[last]) && suits_better(scores[last], scores[b]) {
            last
        } else {
            b
        };
        assert forall|x: int|
            0 <= x < scores.len() && is_acceptable(#[trigger] scores[x]) implies !suits_better(
            scores[x],
            scores[i],
        ) && (x < i ==> suits_better(scores[i], scores[x])) by {
            if x < last {
                assert(first[x] == scores[x]);
            }
            assert(first[b] == scores[b]);
        }
        i
    } else {
        assert forall|x: int| 0 <= x < last implies !is_acceptable(#[trigger] scores[x]) by {
            assert(first[x] == scores[x]);
        }
        last
    }
}

/// What could not be decoded is passed over: of the others, the best comes closest to
/// the shape of a splash, is the largest of those that come as close, and the first
/// of those as large.
pub proof fn law_best_scored(scores: Seq<Option<SplashScore>>, i: int, j: int)
    requires
        is_best_scored(scores, i),
        0 <= j < scores.len(),
        scores[j] is Some,
        is_acceptable(scores[j]->0),
    ensures
        scores[i] is Some,
        scores[i]->0.deviation <= scores[j]->0.deviation,
        scores[i]->0.deviation == scores[j]->0.deviation ==> scores[i]->0.pixels
            >= scores[j]->0.pixels,
        scores[i] == scores[j] ==> i <= j,
{
}

} // verus!
