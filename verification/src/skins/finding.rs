//! What is found in a mod to make images of.

use super::preview::{
    basename_of, first_texture, is_texture, last_slash, named_splash, names_hud_image,
    names_loadscreen, ranked_paths, splash_via_bin, strings_in, texture_at, tile_paths, tile_rank,
    tile_via_bin,
};
use super::warm::{
    entry_texture, is_loose_file, is_packed_wad, known_paths, loose_rank, loose_textures,
    loose_tile, packed_at, ranked_tile, splash_by_known_paths, textures_found, textures_in,
    TexturesView,
};
use crate::codecs::xxh64_of;
use crate::data_dragon::sanitized;
use crate::overlay::wad::fantome::ZipView;
use crate::text::{has_part, has_prefix, has_suffix, law_part_from, lower, occurs_at};
use crate::wad::bin::strings_of;
use crate::wad::reader::{
    entries_in, extracted, found, has_hash, law_found, open_error, sorted_by_hash, ReaderError,
    WadEntry,
};
use vstd::prelude::*;
use vstd::utf8::encode_utf8;

verus! {

/// The path, in small letters, that string `k` of file `i` of an archive is.
pub open spec fn said_path(data: Seq<u8>, toc: Seq<WadEntry>, i: int, k: int) -> Seq<char> {
    lower(strings_in(data, toc[i])[k])
}

/// Whether file `i` of an archive has a string `k`.
pub open spec fn says(data: Seq<u8>, toc: Seq<WadEntry>, i: int, k: int) -> bool {
    0 <= i < toc.len() && 0 <= k < strings_in(data, toc[i]).len()
}

/// Whether string `k` of file `i` is the path of a loading screen that is in the
/// archive: a texture with `loadscreen` in its file name.
pub open spec fn says_splash(data: Seq<u8>, toc: Seq<WadEntry>, i: int, k: int) -> bool {
    let path = said_path(data, toc, i, k);
    &&& says(data, toc, i, k)
    &&& has_part(basename_of(path), "loadscreen"@)
    &&& has_suffix(path, ".tex"@) || has_suffix(path, ".dds"@)
    &&& texture_at(data, toc, path) is Some
}

/// Whether string `k` of file `i` comes before string `l` of file `j`.
pub open spec fn is_before(i: int, k: int, j: int, l: int) -> bool {
    i < j || (i == j && k < l)
}

/// The readable files of an archive are gone through for strings; the others have
/// none.
pub proof fn law_strings_in(data: Seq<u8>, e: WadEntry)
    ensures
        (e.compression is Raw || e.compression is Zstd) && extracted(data, e) is Ok ==> strings_in(
            data,
            e,
        ) == strings_of(extracted(data, e)->Ok_0),
        !(e.compression is Raw || e.compression is Zstd) || extracted(data, e) is Err
            ==> strings_in(data, e).len() == 0,
{
}

/// The loading screen that is found by the property files of an archive is the
/// first that any string of any of them names and that the archive holds. There
/// is none just where no string does.
pub proof fn law_splash_via_bin(data: Seq<u8>, toc: Seq<WadEntry>)
    ensures
        match splash_via_bin(data, toc, 0) {
            Some(bytes) => exists|i: int, k: int| #[trigger]
                says_splash(data, toc, i, k) && texture_at(data, toc, said_path(data, toc, i, k))
                    == Some(bytes) && forall|j: int, l: int| #[trigger]
                    says_splash(data, toc, j, l) ==> !is_before(j, l, i, k),
            None => forall|i: int, k: int| !#[trigger] says_splash(data, toc, i, k),
        },
{
    lemma_splash_from(data, toc, 0);
}

proof fn lemma_splash_from(data: Seq<u8>, toc: Seq<WadEntry>, from: int)
    requires
        0 <= from <= toc.len(),
    ensures
        match splash_via_bin(data, toc, from) {
            Some(bytes) => exists|i: int, k: int| #[trigger]
                says_splash(data, toc, i, k) && from <= i && texture_at(
                    data,
                    toc,
                    said_path(data, toc, i, k),
                ) == Some(bytes) && forall|j: int, l: int| #[trigger]
                    says_splash(data, toc, j, l) && from <= j ==> !is_before(j, l, i, k),
            None => forall|i: int, k: int| from <= i ==> !#[trigger] says_splash(data, toc, i, k),
        },
    decreases toc.len() - from,
{
    if from < toc.len() {
        lemma_splash_from(data, toc, from + 1);
        lemma_splash_in(data, toc, from, 0);
        let here = named_splash(data, toc, strings_in(data, toc[from]), 0);
        match here {
            Some(bytes) => {
                let k = choose|k: int| #[trigger]
                    says_splash(data, toc, from, k) && 0 <= k && texture_at(
                        data,
                        toc,
                        said_path(data, toc, from, k),
                    ) == Some(bytes) && forall|l: int| #[trigger]
                        says_splash(data, toc, from, l) && 0 <= l ==> k <= l;
                assert(says_splash(data, toc, from, k));
            },
            None => {
                assert forall|k: int| !#[trigger] says_splash(data, toc, from, k) by {
                    if says_splash(data, toc, from, k) {
                        assert(0 <= k);
                    }
                }
            },
        }
    }
}

proof fn lemma_splash_in(data: Seq<u8>, toc: Seq<WadEntry>, i: int, from: int)
    requires
        0 <= i < toc.len(),
        0 <= from <= strings_in(data, toc[i]).len(),
    ensures
        match named_splash(data, toc, strings_in(data, toc[i]), from) {
            Some(bytes) => exists|k: int| #[trigger]
                says_splash(data, toc, i, k) && from <= k && texture_at(
                    data,
                    toc,
                    said_path(data, toc, i, k),
                ) == Some(bytes) && forall|l: int| #[trigger]
                    says_splash(data, toc, i, l) && from <= l ==> k <= l,
            None => forall|k: int| from <= k ==> !#[trigger] says_splash(data, toc, i, k),
        },
    decreases strings_in(data, toc[i]).len() - from,
{
    if from < strings_in(data, toc[i]).len() {
        lemma_splash_in(data, toc, i, from + 1);
        let path = said_path(data, toc, i, from);
        assert(names_loadscreen(path) && texture_at(data, toc, path) is Some <==> says_splash(
            data,
            toc,
            i,
            from,
        ));
    }
}

/// Whether string `k` of file `i` is the path of an image of the game's display,
/// of the given rank, that is in the archive.
pub open spec fn says_tile(
    data: Seq<u8>,
    toc: Seq<WadEntry>,
    rank: int,
    i: int,
    k: int,
) -> bool {
    let path = said_path(data, toc, i, k);
    &&& says(data, toc, i, k)
    &&& has_part(path, "/hud/"@)
    &&& has_suffix(path, ".tex"@) || has_suffix(path, ".dds"@)
    &&& tile_rank(path) == rank
    &&& texture_at(data, toc, path) is Some
}

/// Square images suit best as tiles, then round ones, then avatars, then others,
/// by the words in their file names.
pub proof fn law_tile_ranks(path: Seq<char>)
    ensures
        0 <= tile_rank(path) <= 3,
        tile_rank(path) == 0 <==> has_part(basename_of(path), "square"@),
        tile_rank(path) <= 1 <==> has_part(basename_of(path), "square"@) || has_part(
            basename_of(path),
            "circle"@,
        ),
        tile_rank(path) <= 2 <==> has_part(basename_of(path), "square"@) || has_part(
            basename_of(path),
            "circle"@,
        ) || has_part(basename_of(path), "avatar"@),
{
}

/// The file name of a path is what stands behind its last slash.
pub proof fn law_basename(dir: Seq<char>, name: Seq<char>)
    requires
        forall|i: int| 0 <= i < name.len() ==> name[i] != '/',
    ensures
        basename_of(name) == name,
        basename_of(dir + seq!['/'] + name) == name,
{
    let path = dir + seq!['/'] + name;
    lemma_last_slash(name, name.len() as int, 0);
    assert(name.skip(0) =~= name);
    assert forall|i: int| dir.len() + 1 <= i < path.len() implies path[i] != '/' by {
        assert(path[i] == name[i - dir.len() - 1]);
    }
    assert(path[dir.len() as int] == '/');
    lemma_last_slash(path, path.len() as int, dir.len() as int + 1);
    assert(path.skip(dir.len() as int + 1) =~= name);
}

proof fn lemma_last_slash(s: Seq<char>, n: int, at: int)
    requires
        0 <= at <= n <= s.len(),
        at == 0 || s[at - 1] == '/',
        forall|i: int| at <= i < n ==> s[i] != '/',
    ensures
        last_slash(s, n) == at,
    decreases n,
{
    if n > at {
        lemma_last_slash(s, n - 1, at);
    }
}

/// The tile that is found by the property files of an archive is of the best rank
/// of all that any string of any of them names and that the archive holds; of
/// those of the same rank it is the first. There is none just where no string
/// names one.
pub proof fn law_tile_via_bin(data: Seq<u8>, toc: Seq<WadEntry>)
    ensures
        match tile_via_bin(data, toc, 0) {
            Some(bytes) => exists|rank: int, i: int, k: int| #[trigger]
                says_tile(data, toc, rank, i, k) && texture_at(
                    data,
                    toc,
                    said_path(data, toc, i, k),
                ) == Some(bytes) && forall|r: int, j: int, l: int| #[trigger]
                    says_tile(data, toc, r, j, l) ==> rank < r || (rank == r && !is_before(
                        j,
                        l,
                        i,
                        k,
                    )),
            None => forall|rank: int, i: int, k: int| !#[trigger] says_tile(data, toc, rank, i, k),
        },
{
    lemma_tile_from(data, toc, 0);
}

proof fn lemma_tile_from(data: Seq<u8>, toc: Seq<WadEntry>, from: int)
    requires
        0 <= from <= 4,
    ensures
        match tile_via_bin(data, toc, from) {
            Some(bytes) => exists|rank: int, i: int, k: int| #[trigger]
                says_tile(data, toc, rank, i, k) && from <= rank && texture_at(
                    data,
                    toc,
                    said_path(data, toc, i, k),
                ) == Some(bytes) && forall|r: int, j: int, l: int| #[trigger]
                    says_tile(data, toc, r, j, l) && from <= r ==> rank < r || (rank == r
                        && !is_before(j, l, i, k)),
            None => forall|rank: int, i: int, k: int|
                from <= rank ==> !#[trigger] says_tile(data, toc, rank, i, k),
        },
    decreases 4 - from,
{
    if from > 3 {
        assert forall|rank: int, i: int, k: int| from <= rank implies !#[trigger] says_tile(
            data,
            toc,
            rank,
            i,
            k,
        ) by {
            law_tile_ranks(said_path(data, toc, i, k));
        }
    } else {
        lemma_tile_from(data, toc, from + 1);
        let n = toc.len() as int;
        lemma_tile_rank(data, toc, from, n);
        let here = first_texture(data, toc, tile_paths(data, toc, from, n), 0);
        match here {
            Some(bytes) => {
                let (i, k) = choose|i: int, k: int| #[trigger]
                    says_tile(data, toc, from, i, k) && i < n && texture_at(
                        data,
                        toc,
                        said_path(data, toc, i, k),
                    ) == Some(bytes) && forall|j: int, l: int| #[trigger]
                        says_tile(data, toc, from, j, l) && j < n ==> !is_before(j, l, i, k);
                assert(says_tile(data, toc, from, i, k));
                assert forall|r: int, j: int, l: int| #[trigger]
                    says_tile(data, toc, r, j, l) && from <= r implies from < r || (from == r
                    && !is_before(j, l, i, k)) by {}
            },
            None => {},
        }
    }
}

proof fn lemma_first_concat(
    data: Seq<u8>,
    toc: Seq<WadEntry>,
    a: Seq<Seq<char>>,
    b: Seq<Seq<char>>,
    from: int,
)
    requires
        0 <= from <= a.len(),
    ensures
        first_texture(data, toc, a + b, from) == if first_texture(data, toc, a, from) is Some {
            first_texture(data, toc, a, from)
        } else {
            first_texture(data, toc, b, 0)
        },
    decreases a.len() - from,
{
    if from < a.len() {
        assert((a + b)[from] == a[from]);
        lemma_first_concat(data, toc, a, b, from + 1);
    } else {
        lemma_first_shift(data, toc, a, b, 0);
    }
}

proof fn lemma_first_shift(
    data: Seq<u8>,
    toc: Seq<WadEntry>,
    a: Seq<Seq<char>>,
    b: Seq<Seq<char>>,
    from: int,
)
    requires
        0 <= from <= b.len(),
    ensures
        first_texture(data, toc, a + b, a.len() + from) == first_texture(data, toc, b, from),
    decreases b.len() - from,
{
    if from < b.len() {
        assert((a + b)[a.len() + from] == b[from]);
        lemma_first_shift(data, toc, a, b, from + 1);
    }
}

proof fn lemma_tile_rank(data: Seq<u8>, toc: Seq<WadEntry>, rank: int, n: int)
    requires
        0 <= n <= toc.len(),
    ensures
        match first_texture(data, toc, tile_paths(data, toc, rank, n), 0) {
            Some(bytes) => exists|i: int, k: int| #[trigger]
                says_tile(data, toc, rank, i, k) && i < n && texture_at(
                    data,
                    toc,
                    said_path(data, toc, i, k),
                ) == Some(bytes) && forall|j: int, l: int| #[trigger]
                    says_tile(data, toc, rank, j, l) && j < n ==> !is_before(j, l, i, k),
            None => forall|i: int, k: int|
                i < n ==> !#[trigger] says_tile(data, toc, rank, i, k),
        },
    decreases n,
{
    if n > 0 {
        lemma_tile_rank(data, toc, rank, n - 1);
        let before = tile_paths(data, toc, rank, n - 1);
        let strings = strings_in(data, toc[n - 1]);
        let part = ranked_paths(strings, rank, strings.len() as int);
        lemma_first_concat(data, toc, before, part, 0);
        lemma_tile_in(data, toc, rank, n - 1, strings.len() as int);
        if first_texture(data, toc, before, 0) is None && first_texture(
            data,
            toc,
            part,
            0,
        ) is Some {
            let bytes = first_texture(data, toc, part, 0)->0;
            let k = choose|k: int| #[trigger]
                says_tile(data, toc, rank, n - 1, k) && k < strings.len() && texture_at(
                    data,
                    toc,
                    said_path(data, toc, n - 1, k),
                ) == Some(bytes) && forall|l: int| #[trigger]
                    says_tile(data, toc, rank, n - 1, l) && l < strings.len() ==> k <= l;
            assert(says_tile(data, toc, rank, n - 1, k));
        }
    }
}

proof fn lemma_tile_in(data: Seq<u8>, toc: Seq<WadEntry>, rank: int, i: int, n: int)
    requires
        0 <= i < toc.len(),
        0 <= n <= strings_in(data, toc[i]).len(),
    ensures
        match first_texture(data, toc, ranked_paths(strings_in(data, toc[i]), rank, n), 0) {
            Some(bytes) => exists|k: int| #[trigger]
                says_tile(data, toc, rank, i, k) && k < n && texture_at(
                    data,
                    toc,
                    said_path(data, toc, i, k),
                ) == Some(bytes) && forall|l: int| #[trigger]
                    says_tile(data, toc, rank, i, l) && l < n ==> k <= l,
            None => forall|k: int| k < n ==> !#[trigger] says_tile(data, toc, rank, i, k),
        },
    decreases n,
{
    if n > 0 {
        lemma_tile_in(data, toc, rank, i, n - 1);
        let strings = strings_in(data, toc[i]);
        let before = ranked_paths(strings, rank, n - 1);
        let path = said_path(data, toc, i, n - 1);
        assert(names_hud_image(path) && tile_rank(path) == rank && texture_at(data, toc, path)
            is Some <==> says_tile(data, toc, rank, i, n - 1));
        if names_hud_image(path) && tile_rank(path) == rank {
            assert(before.push(path) =~= before + seq![path]);
            lemma_first_concat(data, toc, before, seq![path], 0);
            reveal_with_fuel(first_texture, 2);
            assert(seq![path][0] == path);
        }
    }
}

/// The loading screen in the usual places of a champion is the texture at the
/// first of them at which there is one. There is none just where there is no
/// texture at any.
pub proof fn law_known_paths(data: Seq<u8>, toc: Seq<WadEntry>, champion: Seq<char>)
    requires
        sanitized(champion).len() > 0,
    ensures
        ({
            let paths = known_paths(sanitized(champion));
            match splash_by_known_paths(data, toc, champion) {
                Some(bytes) => exists|i: int| #[trigger]
                    is_first_texture(data, toc, paths, 0, i) && texture_at(data, toc, paths[i])
                        == Some(bytes),
                None => forall|i: int|
                    0 <= i < paths.len() ==> texture_at(data, toc, #[trigger] paths[i]) is None,
            }
        }),
{
    lemma_first_texture(data, toc, known_paths(sanitized(champion)), 0);
}

/// Whether the texture at path `i` is the first from `from` on.
pub open spec fn is_first_texture(
    data: Seq<u8>,
    toc: Seq<WadEntry>,
    paths: Seq<Seq<char>>,
    from: int,
    i: int,
) -> bool {
    &&& from <= i < paths.len()
    &&& texture_at(data, toc, paths[i]) is Some
    &&& forall|j: int| from <= j < i ==> texture_at(data, toc, #[trigger] paths[j]) is None
}

proof fn lemma_first_texture(data: Seq<u8>, toc: Seq<WadEntry>, paths: Seq<Seq<char>>, from: int)
    requires
        0 <= from <= paths.len(),
    ensures
        match first_texture(data, toc, paths, from) {
            Some(bytes) => exists|i: int| #[trigger]
                is_first_texture(data, toc, paths, from, i) && texture_at(data, toc, paths[i])
                    == Some(bytes),
            None => forall|i: int|
                from <= i < paths.len() ==> texture_at(data, toc, #[trigger] paths[i]) is None,
        },
    decreases paths.len() - from,
{
    if from < paths.len() {
        lemma_first_texture(data, toc, paths, from + 1);
        if texture_at(data, toc, paths[from]) is Some {
            assert(is_first_texture(data, toc, paths, from, from));
        } else if first_texture(data, toc, paths, from + 1) is Some {
            let bytes = first_texture(data, toc, paths, from + 1)->0;
            let i = choose|i: int| #[trigger]
                is_first_texture(data, toc, paths, from + 1, i) && texture_at(data, toc, paths[i])
                    == Some(bytes);
            assert(is_first_texture(data, toc, paths, from, i));
        }
    }
}

/// Whether file `i` of an archive is a texture that can be read.
pub open spec fn holds_texture(data: Seq<u8>, toc: Seq<WadEntry>, i: int) -> bool {
    &&& 0 <= i < toc.len()
    &&& toc[i].compression is Raw || toc[i].compression is Zstd
    &&& extracted(data, toc[i]) is Ok
    &&& is_texture(extracted(data, toc[i])->Ok_0)
}

/// The textures of an archive are all its files that are textures, in order:
/// texture `x` is the content of file `places[x]`.
pub proof fn law_textures_in(data: Seq<u8>, toc: Seq<WadEntry>, n: int) -> (places: Seq<int>)
    requires
        0 <= n <= toc.len(),
    ensures
        places.len() == textures_in(data, toc, n).len(),
        forall|x: int, y: int| 0 <= x < y < places.len() ==> places[x] < places[y],
        forall|x: int|
            0 <= x < places.len() ==> #[trigger] places[x] < n && holds_texture(
                data,
                toc,
                places[x],
            ) && textures_in(data, toc, n)[x] == extracted(data, toc[places[x]])->Ok_0,
        forall|i: int| #[trigger] holds_texture(data, toc, i) && i < n ==> places.contains(i),
    decreases n,
{
    if n <= 0 {
        Seq::empty()
    } else {
        let before = law_textures_in(data, toc, n - 1);
        if holds_texture(data, toc, n - 1) {
            let places = before.push(n - 1);
            assert forall|x: int| 0 <= x < places.len() implies #[trigger] places[x] < n
                && holds_texture(data, toc, places[x]) && textures_in(data, toc, n)[x]
                == extracted(data, toc[places[x]])->Ok_0 by {
                if x < before.len() {
                    assert(places[x] == before[x]);
                }
            }
            assert forall|i: int| #[trigger] holds_texture(data, toc, i) && i < n implies
                places.contains(i) by {
                if i < n - 1 {
                    let x = choose|x: int| 0 <= x < before.len() && before[x] == i;
                    assert(places[x] == i);
                } else {
                    assert(places[before.len() as int] == i);
                }
            }
            places
        } else {
            before
        }
    }
}

/// Whether entry `i` of a mod is a loose file of an archive that is a texture.
pub open spec fn is_loose_texture(entries: Seq<ZipView>, i: int) -> bool {
    &&& 0 <= i < entries.len()
    &&& is_loose_file(entries[i].name, "WAD/"@)
    &&& entries[i].body is Some
    &&& is_texture(entries[i].body->0)
}

/// The textures among the loose files of a mod are all of them that are textures,
/// in order: texture `x` is the content of entry `places[x]`.
pub proof fn law_loose_textures(entries: Seq<ZipView>, n: int) -> (places: Seq<int>)
    requires
        0 <= n <= entries.len(),
    ensures
        places.len() == loose_textures(entries, n).len(),
        forall|x: int, y: int| 0 <= x < y < places.len() ==> places[x] < places[y],
        forall|x: int|
            0 <= x < places.len() ==> #[trigger] places[x] < n && is_loose_texture(
                entries,
                places[x],
            ) && loose_textures(entries, n)[x] == entries[places[x]].body->0,
        forall|i: int| #[trigger] is_loose_texture(entries, i) && i < n ==> places.contains(i),
    decreases n,
{
    if n <= 0 {
        Seq::empty()
    } else {
        let before = law_loose_textures(entries, n - 1);
        if is_loose_texture(entries, n - 1) {
            let places = before.push(n - 1);
            assert forall|x: int| 0 <= x < places.len() implies #[trigger] places[x] < n
                && is_loose_texture(entries, places[x]) && loose_textures(entries, n)[x]
                == entries[places[x]].body->0 by {
                if x < before.len() {
                    assert(places[x] == before[x]);
                }
            }
            assert forall|i: int| #[trigger] is_loose_texture(entries, i) && i < n implies
                places.contains(i) by {
                if i < n - 1 {
                    let x = choose|x: int| 0 <= x < before.len() && before[x] == i;
                    assert(places[x] == i);
                } else {
                    assert(places[before.len() as int] == i);
                }
            }
            places
        } else {
            before
        }
    }
}

/// Whether entry `i` of a mod is a texture of the given rank as a tile.
pub open spec fn is_loose_tile(entries: Seq<ZipView>, rank: int, i: int) -> bool {
    &&& 0 <= i < entries.len()
    &&& loose_rank(entries[i].name) == Some(rank)
    &&& entries[i].body is Some
    &&& is_texture(entries[i].body->0)
}

/// The tile among the loose files of a mod is of the best rank of all that there
/// are; of those of the same rank it is the first. There is none just where none
/// has a rank.
pub proof fn law_loose_tile(entries: Seq<ZipView>)
    ensures
        match loose_tile(entries, 0) {
            Some(bytes) => exists|rank: int, i: int| #[trigger]
                is_loose_tile(entries, rank, i) && entries[i].body == Some(bytes) && forall|
                    r: int,
                    j: int,
                | #[trigger]
                    is_loose_tile(entries, r, j) ==> rank < r || (rank == r && i <= j),
            None => forall|rank: int, i: int| !#[trigger] is_loose_tile(entries, rank, i),
        },
{
    lemma_loose_tile(entries, 0);
}

proof fn lemma_loose_tile(entries: Seq<ZipView>, from: int)
    requires
        0 <= from <= 4,
    ensures
        match loose_tile(entries, from) {
            Some(bytes) => exists|rank: int, i: int| #[trigger]
                is_loose_tile(entries, rank, i) && from <= rank && entries[i].body == Some(bytes)
                    && forall|r: int, j: int| #[trigger]
                    is_loose_tile(entries, r, j) && from <= r ==> rank < r || (rank == r && i <= j),
            None => forall|rank: int, i: int|
                from <= rank ==> !#[trigger] is_loose_tile(entries, rank, i),
        },
    decreases 4 - from,
{
    if from > 3 {
        assert forall|rank: int, i: int| from <= rank implies !#[trigger] is_loose_tile(
            entries,
            rank,
            i,
        ) by {
            law_tile_ranks(lower(entries[i].name));
        }
    } else {
        lemma_loose_tile(entries, from + 1);
        lemma_ranked_tile(entries, from, 0);
        if ranked_tile(entries, from, 0) is Some {
            let bytes = ranked_tile(entries, from, 0)->0;
            let i = choose|i: int| #[trigger]
                is_loose_tile(entries, from, i) && 0 <= i && entries[i].body == Some(bytes)
                    && forall|j: int| #[trigger]
                    is_loose_tile(entries, from, j) && 0 <= j ==> i <= j;
            assert(is_loose_tile(entries, from, i));
        }
    }
}

proof fn lemma_ranked_tile(entries: Seq<ZipView>, rank: int, from: int)
    requires
        0 <= from <= entries.len(),
    ensures
        match ranked_tile(entries, rank, from) {
            Some(bytes) => exists|i: int| #[trigger]
                is_loose_tile(entries, rank, i) && from <= i && entries[i].body == Some(bytes)
                    && forall|j: int| #[trigger]
                    is_loose_tile(entries, rank, j) && from <= j ==> i <= j,
            None => forall|i: int| from <= i ==> !#[trigger] is_loose_tile(entries, rank, i),
        },
    decreases entries.len() - from,
{
    if from < entries.len() {
        lemma_ranked_tile(entries, rank, from + 1);
        assert(is_loose_tile(entries, rank, from) <==> loose_rank(entries[from].name) == Some(rank)
            && entry_texture(entries[from]) is Some);
    }
}

/// The archive file that is looked into is the first of the mod.
pub proof fn law_packed_at(entries: Seq<ZipView>, from: int)
    requires
        0 <= from <= entries.len(),
    ensures
        match packed_at(entries, from) {
            Some(i) => from <= i < entries.len() && is_packed_wad(entries[i].name) && forall|j: int|
                from <= j < i ==> !is_packed_wad((#[trigger] entries[j]).name),
            None => forall|j: int|
                from <= j < entries.len() ==> !is_packed_wad((#[trigger] entries[j]).name),
        },
    decreases entries.len() - from,
{
    if from < entries.len() {
        law_packed_at(entries, from + 1);
    }
}

/// What a mod with an archive file is looked through for: the loading screen that
/// a property file names, else the one in a usual place of the champion; where
/// there is neither, all textures; and the tile that a property file names.
pub proof fn law_packed_mod(entries: Seq<ZipView>, champion: Option<Seq<char>>, i: int)
    requires
        0 <= i < entries.len(),
        is_packed_wad(entries[i].name),
        forall|j: int| 0 <= j < i ==> !is_packed_wad((#[trigger] entries[j]).name),
        entries[i].body is Some,
        open_error(entries[i].body->0) is None,
    ensures
        textures_found(entries, champion) is Ok,
        ({
            let data = entries[i].body->0;
            let toc = entries_in(data);
            let found = textures_found(entries, champion)->Ok_0;
            let by_name = splash_via_bin(data, toc, 0);
            &&& by_name is Some ==> found.splash == by_name
            &&& by_name is None ==> found.splash == match champion {
                Some(name) => splash_by_known_paths(data, toc, name),
                None => None,
            }
            &&& found.splash is None ==> found.candidates == textures_in(
                data,
                toc,
                toc.len() as int,
            )
            &&& found.tile == tile_via_bin(data, toc, 0)
        }),
{
    law_packed_at(entries, 0);
    if packed_at(entries, 0)->0 > i {
        assert(!is_packed_wad(entries[i].name));
    }
    if packed_at(entries, 0)->0 < i {
        assert(!is_packed_wad(entries[packed_at(entries, 0)->0].name));
    }
}

/// A mod without an archive file is looked through for all textures among its
/// loose files, and for a tile among them.
pub proof fn law_unpacked_mod(entries: Seq<ZipView>, champion: Option<Seq<char>>)
    requires
        forall|j: int| 0 <= j < entries.len() ==> !is_packed_wad((#[trigger] entries[j]).name),
    ensures
        textures_found(entries, champion) is Ok,
        textures_found(entries, champion)->Ok_0 == (TexturesView {
            splash: None,
            candidates: loose_textures(entries, entries.len() as int),
            tile: loose_tile(entries, 0),
        }),
{
    law_packed_at(entries, 0);
}

/// Textures are told by their first four bytes, `DDS ` or `TEX` and a zero, whatever
/// follows; nothing else is one.
pub proof fn law_texture_magic(a: u8, b: u8, c: u8, d: u8, rest: Seq<u8>)
    ensures
        is_texture(seq![a, b, c, d] + rest) <==> (a == 0x44 && b == 0x44 && c == 0x53 && d == 0x20)
            || (a == 0x54 && b == 0x45 && c == 0x58 && d == 0),
        forall|s: Seq<u8>| s.len() < 4 ==> !#[trigger] is_texture(s),
{
    let s = seq![a, b, c, d] + rest;
    let head = s.take(4);
    assert(head[0] == a && head[1] == b && head[2] == c && head[3] == d);
    let dds = seq![0x44u8, 0x44u8, 0x53u8, 0x20u8];
    let tex = seq![0x54u8, 0x45u8, 0x58u8, 0u8];
    if a == 0x44 && b == 0x44 && c == 0x53 && d == 0x20 {
        assert(head =~= dds);
    }
    if a == 0x54 && b == 0x45 && c == 0x58 && d == 0 {
        assert(head =~= tex);
    }
    assert(dds[0] == 0x44 && dds[1] == 0x44 && dds[2] == 0x53 && dds[3] == 0x20);
    assert(tex[0] == 0x54 && tex[1] == 0x45 && tex[2] == 0x58 && tex[3] == 0);
}

/// A path leads to the texture whose name is the hash of the path, where the archive
/// has one and it can be extracted; in an archive in the order of its names none is
/// missed.
pub proof fn law_texture_at(data: Seq<u8>, toc: Seq<WadEntry>, path: Seq<char>)
    ensures
        texture_at(data, toc, path) matches Some(content) ==> is_texture(content) && exists|i: int|
            0 <= i < toc.len() && (#[trigger] toc[i]).name_hash == xxh64_of(encode_utf8(path), 0)
                && extracted(data, toc[i]) == Ok::<Seq<u8>, ReaderError>(content),
        sorted_by_hash(toc) && texture_at(data, toc, path) is None ==> forall|i: int|
            0 <= i < toc.len() && (#[trigger] toc[i]).name_hash == xxh64_of(encode_utf8(path), 0)
                && (forall|j: int|
                0 <= j < toc.len() && j != i ==> (#[trigger] toc[j]).name_hash
                    != toc[i].name_hash) ==> !(extracted(data, toc[i]) is Ok && is_texture(
                extracted(data, toc[i])->Ok_0,
            )),
{
    let hash = xxh64_of(encode_utf8(path), 0);
    law_found(toc, hash);
    if let Some(e) = found(toc, hash) {
        let i = choose|i: int| 0 <= i < toc.len() && toc[i] == e;
        assert(toc[i].name_hash == hash);
    } else {
        if sorted_by_hash(toc) {
            assert(!has_hash(toc, hash));
        }
    }
}

/// `WAD/x.wad.client` is an archive of a mod, and only such names are.
pub proof fn law_packed_names(name: Seq<char>)
    ensures
        is_packed_wad("WAD/"@ + name) <==> has_suffix(name, ".wad.client"@) && !name.contains('/'),
        is_packed_wad(name) ==> exists|rest: Seq<char>| name == #[trigger] ("WAD/"@ + rest),
{
    let whole = "WAD/"@ + name;
    assert(whole.take("WAD/"@.len() as int) =~= "WAD/"@);
    assert(whole.skip("WAD/"@.len() as int) =~= name);
    if is_packed_wad(name) {
        let rest = name.skip("WAD/"@.len() as int);
        assert(name =~= "WAD/"@ + rest);
    }
}

/// What lies in an archive that was unpacked into the top directory is a loose file,
/// at whatever depth.
pub proof fn law_loose_names(top: Seq<char>, name: Seq<char>, a: Seq<char>, b: Seq<char>)
    ensures
        is_loose_file(top + a + ".wad.client/"@ + b, top),
        is_loose_file(name, top) <==> has_prefix(name, top) && has_part(
            name.skip(top.len() as int),
            ".wad.client/"@,
        ),
{
    let part = ".wad.client/"@;
    let whole = top + a + part + b;
    let rest = whole.skip(top.len() as int);
    assert(whole.take(top.len() as int) =~= top);
    assert(rest =~= a + part + b);
    assert(rest.subrange(a.len() as int, a.len() as int + part.len()) =~= part);
    assert(occurs_at(rest, part, a.len() as int));
    law_part_from(rest, part, 0);
    law_part_from(name.skip(top.len() as int), part, 0);
}

} // verus!
