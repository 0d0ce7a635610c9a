//! Which images are shown for a skin, and where they come from.

use crate::codecs::{xxh64_hash, xxh64_of};
use crate::data_dragon::{is_alphanumeric, is_alphanumeric_char, sanitized};
use crate::paths::{joined, FilePath, PathView};
use crate::text::{
    chars_between, chars_of, concat, contains, ends_with, has_part, has_suffix, lower, option_text,
    push_text, string_of, texts, to_lower,
};
use crate::wad::bin::{collect_strings, strings_of};
use crate::wad::reader::{extracted, found, CompressionType, WadEntry, WadReader};
use vstd::prelude::*;
use vstd::utf8::encode_utf8;

verus! {

/// Where the image of a skin is kept.
pub open spec fn image_path(dir: PathView, skin_id: Seq<char>) -> PathView {
    joined(dir, skin_id + ".png"@)
}

/// Where the image of a skin is kept.
pub fn image_file(dir: &FilePath, skin_id: &str) -> (r: FilePath)
    ensures
        r@ == image_path(dir@, skin_id@),
{
    dir.join_text(concat(skin_id, ".png").as_str())
}

/// Whether a kept image may be used: it is there, and not older than the mod.
/// Times are nanoseconds since 1970, where they are known.
pub open spec fn is_fresh(fantome: Option<i128>, cached: Option<i128>) -> bool {
    match cached {
        Some(c) => match fantome {
            Some(f) => c >= f,
            None => c >= 0,
        },
        None => false,
    }
}

pub fn cache_is_fresh(fantome: Option<i128>, cached: Option<i128>) -> (r: bool)
    ensures
        r == is_fresh(fantome, cached),
{
    match cached {
        Some(c) => match fantome {
            Some(f) => c >= f,
            None => c >= 0,
        },
        None => false,
    }
}

/// The kept image of a skin, where it may be used.
pub open spec fn kept_image(
    fantome: Option<i128>,
    cached: Option<i128>,
    dir: PathView,
    skin_id: Seq<char>,
) -> Option<PathView> {
    if is_fresh(fantome, cached) {
        Some(image_path(dir, skin_id))
    } else {
        None
    }
}

/// A path that may be missing, as a value.
pub open spec fn option_path(o: Option<FilePath>) -> Option<PathView> {
    match o {
        Some(p) => Some(p@),
        None => None,
    }
}

pub fn cached_preview_path(
    fantome: Option<i128>,
    cached: Option<i128>,
    previews_dir: &FilePath,
    skin_id: &str,
) -> (r: Option<FilePath>)
    ensures
        option_path(r) == kept_image(fantome, cached, previews_dir@, skin_id@),
{
    if cache_is_fresh(fantome, cached) {
        Some(image_file(previews_dir, skin_id))
    } else {
        None
    }
}

pub fn cached_tile_preview_path(
    fantome: Option<i128>,
    cached: Option<i128>,
    tile_previews_dir: &FilePath,
    skin_id: &str,
) -> (r: Option<FilePath>)
    ensures
        option_path(r) == kept_image(fantome, cached, tile_previews_dir@, skin_id@),
{
    if cache_is_fresh(fantome, cached) {
        Some(image_file(tile_previews_dir, skin_id))
    } else {
        None
    }
}

pub fn cached_background_preview_path(
    fantome: Option<i128>,
    cached: Option<i128>,
    background_previews_dir: &FilePath,
    skin_id: &str,
) -> (r: Option<FilePath>)
    ensures
        option_path(r) == kept_image(fantome, cached, background_previews_dir@, skin_id@),
{
    if cache_is_fresh(fantome, cached) {
        Some(image_file(background_previews_dir, skin_id))
    } else {
        None
    }
}

/// The ASCII letters and digits of `s`.
pub open spec fn letters_and_digits(s: Seq<char>) -> Seq<char>
    decreases s.len(),
{
    if s.len() == 0 {
        Seq::empty()
    } else if is_alphanumeric(s.last()) {
        letters_and_digits(s.drop_last()).push(s.last())
    } else {
        letters_and_digits(s.drop_last())
    }
}

/// The name of a champion as the public image server spells it.
pub open spec fn image_name(champion: Seq<char>) -> Option<Seq<char>> {
    if letters_and_digits(champion).len() > 0 {
        Some(letters_and_digits(champion))
    } else {
        None
    }
}

pub fn sanitize_champion_name(champion: &str) -> (r: Option<String>)
    ensures
        option_text(r) == image_name(champion@),
{
    let chars = chars_of(champion);
    let mut out = String::new();
    let mut i: usize = 0;
    assert(champion@.take(0) =~= Seq::empty());
    while i < chars.len()
        invariant
            i <= chars@.len(),
            chars@ == champion@,
            out@ == letters_and_digits(champion@.take(i as int)),
        decreases chars@.len() - i,
    {
        if is_alphanumeric_char(chars[i]) {
            out.push(chars[i]);
        }
        i = i + 1;
        assert(champion@.take(i as int).drop_last() =~= champion@.take(i - 1));
    }
    assert(champion@.take(i as int) =~= champion@);
    if out.as_str().is_empty() {
        None
    } else {
        Some(out)
    }
}

/// The address of the portrait of a champion.
pub open spec fn loading_url(name: Seq<char>) -> Seq<char> {
    "https://ddragon.leagueoflegends.com/cdn/img/champion/loading/"@ + name + "_0.jpg"@
}

/// The address of the square image of a champion.
pub open spec fn tile_url(name: Seq<char>) -> Seq<char> {
    "https://ddragon.leagueoflegends.com/cdn/img/champion/tiles/"@ + name + "_0.jpg"@
}

pub fn ddragon_loading_url(sanitized: &str) -> (r: String)
    ensures
        r@ == loading_url(sanitized@),
{
    let mut out = concat(
        "https://ddragon.leagueoflegends.com/cdn/img/champion/loading/",
        sanitized,
    );
    push_text(&mut out, "_0.jpg");
    out
}

pub fn ddragon_tile_url(sanitized: &str) -> (r: String)
    ensures
        r@ == tile_url(sanitized@),
{
    let mut out = concat("https://ddragon.leagueoflegends.com/cdn/img/champion/tiles/", sanitized);
    push_text(&mut out, "_0.jpg");
    out
}

/// Where the icon of a champion is kept.
pub open spec fn icon_path(icons_dir: PathView, champion: Seq<char>) -> Option<PathView> {
    match image_name(champion) {
        Some(name) => Some(image_path(icons_dir, name)),
        None => None,
    }
}

/// Where the icon of a champion is kept.
pub fn icon_file(icons_dir: &FilePath, champion: &str) -> (r: Option<FilePath>)
    ensures
        option_path(r) == icon_path(icons_dir@, champion@),
{
    match sanitize_champion_name(champion) {
        Some(name) => Some(image_file(icons_dir, name.as_str())),
        None => None,
    }
}

/// The kept icon of a champion, where `present` says that it is there.
pub fn cached_champion_icon_path<F: Fn(&FilePath) -> bool>(
    icons_dir: &FilePath,
    champion: &str,
    present: F,
) -> (r: Option<FilePath>)
    requires
        forall|p: &FilePath| call_requires(present, (p,)),
    ensures
        match icon_path(icons_dir@, champion@) {
            None => r is None,
            Some(path) => exists|p: FilePath, there: bool| #[trigger]
                call_ensures(present, (&p,), there) && p@ == path && there == (r is Some) && (r
                    is Some ==> r->0@ == path),
        },
{
    match icon_file(icons_dir, champion) {
        Some(dest) => {
            let there = present(&dest);
            assert(call_ensures(present, (&dest,), there));
            if there {
                Some(dest)
            } else {
                None
            }
        },
        None => None,
    }
}

/// Whether bytes are those of a texture, by their magic number: `DDS ` or
/// `TEX` and a zero byte.
pub open spec fn is_texture(bytes: Seq<u8>) -> bool {
    &&& bytes.len() >= 4
    &&& {
        ||| bytes.take(4) == seq![0x44u8, 0x44u8, 0x53u8, 0x20u8]
        ||| bytes.take(4) == seq![0x54u8, 0x45u8, 0x58u8, 0u8]
    }
}

fn starts_like(bytes: &[u8], a: u8, b: u8, c: u8, d: u8) -> (r: bool)
    ensures
        r == (bytes@.len() >= 4 && bytes@.take(4) == seq![a, b, c, d]),
{
    if bytes.len() < 4 {
        return false;
    }
    let r = bytes[0] == a && bytes[1] == b && bytes[2] == c && bytes[3] == d;
    proof {
        let head = bytes@.take(4);
        if r {
            assert(head =~= seq![a, b, c, d]);
        } else if head == seq![a, b, c, d] {
            assert(head[0] == a && head[1] == b && head[2] == c && head[3] == d);
        }
    }
    r
}

pub fn is_texture_magic(bytes: &[u8]) -> (r: bool)
    ensures
        r == is_texture(bytes@),
{
    starts_like(bytes, 0x44, 0x44, 0x53, 0x20) || starts_like(bytes, 0x54, 0x45, 0x58, 0)
}

/// Whether a path is that of a texture.
pub open spec fn names_texture(path: Seq<char>) -> bool {
    has_suffix(path, ".tex"@) || has_suffix(path, ".dds"@)
}

pub fn is_texture_path(path: &str) -> (r: bool)
    ensures
        r == names_texture(path@),
{
    ends_with(path, ".tex") || ends_with(path, ".dds")
}

/// What stands behind the last slash among the first `n` characters.
pub open spec fn last_slash(s: Seq<char>, n: int) -> int
    decreases n,
{
    if n <= 0 || s[n - 1] == '/' {
        n
    } else {
        last_slash(s, n - 1)
    }
}

/// The file name of a path with slashes.
pub open spec fn basename_of(s: Seq<char>) -> Seq<char> {
    s.skip(last_slash(s, s.len() as int))
}

fn basename(s: &str) -> (r: String)
    ensures
        r@ == basename_of(s@),
{
    let chars = chars_of(s);
    let mut n: usize = chars.len();
    while n > 0 && chars[n - 1] != '/'
        invariant
            n <= chars@.len(),
            chars@ == s@,
            last_slash(s@, s@.len() as int) == last_slash(s@, n as int),
        decreases n,
    {
        n = n - 1;
    }
    let tail = chars_between(&chars, n, chars.len());
    assert(tail@ =~= s@.skip(n as int));
    string_of(tail.as_slice())
}

/// The texture with a name hash in an archive, whose bytes and table of contents
/// are given.
pub open spec fn texture_named(data: Seq<u8>, toc: Seq<WadEntry>, hash: u64) -> Option<Seq<u8>> {
    match found(toc, hash) {
        Some(e) => match extracted(data, e) {
            Ok(content) => if is_texture(content) {
                Some(content)
            } else {
                None
            },
            Err(_) => None,
        },
        None => None,
    }
}

/// The texture at a path of an archive.
pub open spec fn texture_at(data: Seq<u8>, toc: Seq<WadEntry>, path: Seq<char>) -> Option<
    Seq<u8>,
> {
    texture_named(data, toc, xxh64_of(encode_utf8(path), 0))
}

/// Bytes that may be missing, as a value.
pub open spec fn option_bytes(o: Option<Vec<u8>>) -> Option<Seq<u8>> {
    match o {
        Some(v) => Some(v@),
        None => None,
    }
}

/// The texture at a path of an archive. The path is to be in small letters.
pub fn lookup_texture_by_path(reader: &WadReader, path: &str) -> (r: Option<Vec<u8>>)
    ensures
        option_bytes(r) == texture_at(reader.bytes(), reader.toc(), path@),
{
    lookup_texture_by_hash(reader, xxh64_hash(path.as_bytes(), 0))
}

/// The texture with a name hash in an archive.
pub fn lookup_texture_by_hash(reader: &WadReader, hash: u64) -> (r: Option<Vec<u8>>)
    ensures
        option_bytes(r) == texture_named(reader.bytes(), reader.toc(), hash),
{
    match reader.find_by_hash(hash) {
        Some(e) => match reader.extract(e) {
            Ok(content) => {
                if is_texture_magic(content.as_slice()) {
                    Some(content)
                } else {
                    None
                }
            },
            Err(_) => None,
        },
        None => None,
    }
}

/// Whether a file of an archive is gone through for names and textures.
pub open spec fn is_readable(e: WadEntry) -> bool {
    e.compression is Zstd || e.compression is Raw
}

/// The content of a file that is gone through.
pub open spec fn content_of(data: Seq<u8>, e: WadEntry) -> Option<Seq<u8>> {
    if is_readable(e) {
        match extracted(data, e) {
            Ok(content) => Some(content),
            Err(_) => None,
        }
    } else {
        None
    }
}

pub(crate) fn read_content(reader: &WadReader, e: &WadEntry) -> (r: Option<Vec<u8>>)
    ensures
        option_bytes(r) == content_of(reader.bytes(), *e),
{
    let readable = match e.compression {
        CompressionType::Zstd => true,
        CompressionType::Raw => true,
        _ => false,
    };
    if !readable {
        return None;
    }
    match reader.extract(e) {
        Ok(content) => Some(content),
        Err(_) => None,
    }
}

/// The strings of a file of an archive, where it is a property file.
pub open spec fn strings_in(data: Seq<u8>, e: WadEntry) -> Seq<Seq<char>> {
    match content_of(data, e) {
        Some(content) => strings_of(content),
        None => Seq::empty(),
    }
}

fn read_strings(reader: &WadReader, e: &WadEntry) -> (r: Vec<String>)
    ensures
        texts(r@) == strings_in(reader.bytes(), *e),
{
    match read_content(reader, e) {
        Some(content) => collect_strings(content.as_slice()),
        None => {
            let none: Vec<String> = Vec::new();
            assert(texts(none@) =~= Seq::<Seq<char>>::empty());
            none
        },
    }
}

/// Whether a path in small letters is that of a loading screen. The name of the
/// file counts: effects may have such words elsewhere in their paths.
pub open spec fn names_loadscreen(path: Seq<char>) -> bool {
    has_part(basename_of(path), "loadscreen"@) && names_texture(path)
}

fn is_loadscreen_path(path: &str) -> (r: bool)
    ensures
        r == names_loadscreen(path@),
{
    contains(basename(path).as_str(), "loadscreen") && is_texture_path(path)
}

/// The first loading screen that some strings, from `i` on, name and that is in
/// the archive.
pub open spec fn named_splash(
    data: Seq<u8>,
    toc: Seq<WadEntry>,
    strings: Seq<Seq<char>>,
    i: int,
) -> Option<Seq<u8>>
    decreases strings.len() - i,
{
    if i >= strings.len() {
        None
    } else {
        let path = lower(strings[i]);
        if names_loadscreen(path) && texture_at(data, toc, path) is Some {
            texture_at(data, toc, path)
        } else {
            named_splash(data, toc, strings, i + 1)
        }
    }
}

/// The first loading screen that the property files of an archive, from the
/// file at `i` on, name and that is in the archive.
pub open spec fn splash_via_bin(data: Seq<u8>, toc: Seq<WadEntry>, i: int) -> Option<Seq<u8>>
    decreases toc.len() - i,
{
    if i >= toc.len() {
        None
    } else {
        let here = named_splash(data, toc, strings_in(data, toc[i]), 0);
        if here is Some {
            here
        } else {
            splash_via_bin(data, toc, i + 1)
        }
    }
}

/// The loading screen that the property files of an archive name. Archives of
/// several skins name many that they do not hold.
pub fn find_splash_via_bin(reader: &WadReader) -> (r: Option<Vec<u8>>)
    ensures
        option_bytes(r) == splash_via_bin(reader.bytes(), reader.toc(), 0),
{
    let ghost data = reader.bytes();
    let ghost toc = reader.toc();
    let entries = reader.entries();
    let mut i: usize = 0;
    while i < entries.len()
        invariant
            i <= entries@.len(),
            entries@ == toc,
            toc == reader.toc(),
            data == reader.bytes(),
            splash_via_bin(data, toc, 0) == splash_via_bin(data, toc, i as int),
        decreases entries@.len() - i,
    {
        let strings = read_strings(reader, &entries[i]);
        let ghost all = strings_in(data, toc[i as int]);
        let mut k: usize = 0;
        while k < strings.len()
            invariant
                k <= strings@.len(),
                i < toc.len(),
                texts(strings@) == all,
                all == strings_in(data, toc[i as int]),
                toc == reader.toc(),
                data == reader.bytes(),
                named_splash(data, toc, all, 0) == named_splash(data, toc, all, k as int),
                splash_via_bin(data, toc, 0) == splash_via_bin(data, toc, i as int),
            decreases strings@.len() - k,
        {
            assert(all[k as int] == strings@[k as int]@);
            let path = to_lower(strings[k].as_str());
            if is_loadscreen_path(path.as_str()) {
                if let Some(bytes) = lookup_texture_by_path(reader, path.as_str()) {
                    return Some(bytes);
                }
            }
            k = k + 1;
        }
        i = i + 1;
    }
    None
}

/// How well an image of the game's display suits as a tile, by its path in small
/// letters: square ones best, then round ones, then avatars, then others.
pub open spec fn tile_rank(path: Seq<char>) -> int {
    let name = basename_of(path);
    if has_part(name, "square"@) {
        0
    } else if has_part(name, "circle"@) {
        1
    } else if has_part(name, "avatar"@) {
        2
    } else {
        3
    }
}

/// Whether a path in small letters is that of an image of the game's display.
pub open spec fn names_hud_image(path: Seq<char>) -> bool {
    names_texture(path) && has_part(path, "/hud/"@)
}

pub(crate) fn rank_tile(path: &str) -> (r: Option<u8>)
    ensures
        match r {
            Some(rank) => names_hud_image(path@) && rank == tile_rank(path@),
            None => !names_hud_image(path@),
        },
{
    if !is_texture_path(path) || !contains(path, "/hud/") {
        return None;
    }
    let name = basename(path);
    if contains(name.as_str(), "square") {
        Some(0)
    } else if contains(name.as_str(), "circle") {
        Some(1)
    } else if contains(name.as_str(), "avatar") {
        Some(2)
    } else {
        Some(3)
    }
}

/// The paths of the given rank among the first `n` strings, in small letters.
pub open spec fn ranked_paths(strings: Seq<Seq<char>>, rank: int, n: int) -> Seq<Seq<char>>
    decreases n,
{
    if n <= 0 {
        Seq::empty()
    } else {
        let before = ranked_paths(strings, rank, n - 1);
        let path = lower(strings[n - 1]);
        if names_hud_image(path) && tile_rank(path) == rank {
            before.push(path)
        } else {
            before
        }
    }
}

/// The paths of the given rank that the property files among the first `n`
/// files of an archive name.
pub open spec fn tile_paths(data: Seq<u8>, toc: Seq<WadEntry>, rank: int, n: int) -> Seq<Seq<char>>
    decreases n,
{
    if n <= 0 {
        Seq::empty()
    } else {
        let strings = strings_in(data, toc[n - 1]);
        tile_paths(data, toc, rank, n - 1) + ranked_paths(strings, rank, strings.len() as int)
    }
}

/// The texture at the first of some paths, from `i` on, at which there is one.
pub open spec fn first_texture(
    data: Seq<u8>,
    toc: Seq<WadEntry>,
    paths: Seq<Seq<char>>,
    i: int,
) -> Option<Seq<u8>>
    decreases paths.len() - i,
{
    if i >= paths.len() {
        None
    } else if texture_at(data, toc, paths[i]) is Some {
        texture_at(data, toc, paths[i])
    } else {
        first_texture(data, toc, paths, i + 1)
    }
}

/// The best tile image, of rank `rank` or worse, that the property files of an
/// archive name and that is in it.
pub open spec fn tile_via_bin(data: Seq<u8>, toc: Seq<WadEntry>, rank: int) -> Option<Seq<u8>>
    decreases 4 - rank,
{
    if rank > 3 {
        None
    } else {
        let here = first_texture(data, toc, tile_paths(data, toc, rank, toc.len() as int), 0);
        if here is Some {
            here
        } else {
            tile_via_bin(data, toc, rank + 1)
        }
    }
}

pub(crate) fn find_first_texture(reader: &WadReader, paths: &Vec<String>) -> (r: Option<Vec<u8>>)
    ensures
        option_bytes(r) == first_texture(reader.bytes(), reader.toc(), texts(paths@), 0),
{
    let ghost all = texts(paths@);
    let mut i: usize = 0;
    while i < paths.len()
        invariant
            i <= paths@.len(),
            all == texts(paths@),
            first_texture(reader.bytes(), reader.toc(), all, 0) == first_texture(
                reader.bytes(),
                reader.toc(),
                all,
                i as int,
            ),
        decreases paths@.len() - i,
    {
        assert(all[i as int] == paths@[i as int]@);
        if let Some(bytes) = lookup_texture_by_path(reader, paths[i].as_str()) {
            return Some(bytes);
        }
        i = i + 1;
    }
    None
}

fn push_path(list: &mut Vec<String>, path: String)
    ensures
        texts(final(list)@) == texts(old(list)@).push(path@),
{
    let ghost before = list@;
    list.push(path);
    assert(texts(list@) =~= texts(before).push(path@));
}

/// The image of the game's display that suits best as a tile, of those that the
/// property files of an archive name.
pub fn find_tile_via_bin(reader: &WadReader) -> (r: Option<Vec<u8>>)
    ensures
        option_bytes(r) == tile_via_bin(reader.bytes(), reader.toc(), 0),
{
    let ghost data = reader.bytes();
    let ghost toc = reader.toc();
    let entries = reader.entries();
    let mut squares: Vec<String> = Vec::new();
    let mut circles: Vec<String> = Vec::new();
    let mut avatars: Vec<String> = Vec::new();
    let mut others: Vec<String> = Vec::new();
    assert(texts(squares@) =~= Seq::<Seq<char>>::empty());
    assert(texts(circles@) =~= Seq::<Seq<char>>::empty());
    assert(texts(avatars@) =~= Seq::<Seq<char>>::empty());
    assert(texts(others@) =~= Seq::<Seq<char>>::empty());
    let mut i: usize = 0;
    while i < entries.len()
        invariant
            i <= entries@.len(),
            entries@ == toc,
            toc == reader.toc(),
            data == reader.bytes(),
            texts(squares@) == tile_paths(data, toc, 0, i as int),
            texts(circles@) == tile_paths(data, toc, 1, i as int),
            texts(avatars@) == tile_paths(data, toc, 2, i as int),
            texts(others@) == tile_paths(data, toc, 3, i as int),
        decreases entries@.len() - i,
    {
        let strings = read_strings(reader, &entries[i]);
        let ghost all = strings_in(data, toc[i as int]);
        let mut k: usize = 0;
        let ghost before = |rank: int| tile_paths(data, toc, rank, i as int);
        proof {
            assert(before(0) + ranked_paths(all, 0, 0) =~= before(0));
            assert(before(1) + ranked_paths(all, 1, 0) =~= before(1));
            assert(before(2) + ranked_paths(all, 2, 0) =~= before(2));
            assert(before(3) + ranked_paths(all, 3, 0) =~= before(3));
        }
        while k < strings.len()
            invariant
                k <= strings@.len(),
                texts(strings@) == all,
                texts(squares@) == before(0) + ranked_paths(all, 0, k as int),
                texts(circles@) == before(1) + ranked_paths(all, 1, k as int),
                texts(avatars@) == before(2) + ranked_paths(all, 2, k as int),
                texts(others@) == before(3) + ranked_paths(all, 3, k as int),
            decreases strings@.len() - k,
        {
            assert(all[k as int] == strings@[k as int]@);
            let path = to_lower(strings[k].as_str());
            let ghost p = path@;
            let ghost was = |rank: int| before(rank) + ranked_paths(all, rank, k as int);
            if let Some(rank) = rank_tile(path.as_str()) {
                if rank == 0 {
                    push_path(&mut squares, path);
                } else if rank == 1 {
                    push_path(&mut circles, path);
                } else if rank == 2 {
                    push_path(&mut avatars, path);
                } else {
                    push_path(&mut others, path);
                }
            }
            k = k + 1;
            proof {
                if names_hud_image(p) {
                    let rank = tile_rank(p);
                    assert(before(rank) + ranked_paths(all, rank, k as int) =~= was(rank).push(p));
                }
            }
        }
        i = i + 1;
    }
    if let Some(bytes) = find_first_texture(reader, &squares) {
        return Some(bytes);
    }
    proof {
        reveal_with_fuel(tile_via_bin, 5);
    }
    if let Some(bytes) = find_first_texture(reader, &circles) {
        return Some(bytes);
    }
    if let Some(bytes) = find_first_texture(reader, &avatars) {
        return Some(bytes);
    }
    find_first_texture(reader, &others)
}

} // verus!
