//! Hashes and codecs of other crates, with what is relied on of each.

use crate::bytes::{le16, le32};
use crate::text::texts;
use crate::textures::texture_whole;
use vstd::prelude::*;
use vstd::utf8::{decode_utf8, valid_utf8};
use xxhash_rust::xxh3::Xxh3;

verus! {

/// The bytes that `data`, read as a series of zstd frames, stands for; `None`
/// where `data` is not such a series.
pub uninterp spec fn zstd_content(data: Seq<u8>) -> Option<Seq<u8>>;

/// What the zstd compressor makes of `data` at a level.
pub uninterp spec fn zstd_compressed(data: Seq<u8>, level: i32) -> Option<Seq<u8>>;

/// The first `limit` bytes, or fewer where the stream ends or turns bad before
/// that, that the streaming zstd decoder gives for `data`; `None` where the
/// decoder cannot be made.
pub uninterp spec fn zstd_stream_head(data: Seq<u8>, limit: nat) -> Option<Seq<u8>>;

/// The bytes that `data`, read as a gzip stream, stands for; `None` where
/// `data` does not start with a whole one.
pub uninterp spec fn gzip_content(data: Seq<u8>) -> Option<Seq<u8>>;

/// The XXH3 hash of `data` in one piece.
pub uninterp spec fn xxh3_of(data: Seq<u8>) -> u64;

/// The XXH64 hash of `data` under a seed.
pub uninterp spec fn xxh64_of(data: Seq<u8>, seed: u64) -> u64;

/// What an XXH3 hasher has taken in so far.
pub uninterp spec fn xxh3_input(hasher: Xxh3) -> Seq<u8>;

/// The digest of an XXH3 hasher that has taken in `data`.
pub uninterp spec fn xxh3_digest_of(data: Seq<u8>) -> u64;

/// `data` in the standard base64 alphabet, with padding.
pub uninterp spec fn base64_of(data: Seq<u8>) -> Seq<char>;

/// The strings of a JSON text that is a list of strings; `None` where it is
/// something else.
pub uninterp spec fn json_strings_of(json: Seq<char>) -> Option<Seq<Seq<char>>>;

/// A list of strings as indented JSON text.
pub uninterp spec fn json_list_of(list: Seq<Seq<char>>) -> Option<Seq<char>>;

/// `serde_json::from_str`, to a list of strings.
#[verifier::external_body]
pub(crate) fn parse_json_strings(json: &str) -> (r: Option<Vec<String>>)
    ensures
        match r {
            Some(list) => json_strings_of(json@) == Some(texts(list@)),
            None => json_strings_of(json@) is None,
        },
{
    serde_json::from_str::<Vec<String>>(json).ok()
}

/// `serde_json::to_string_pretty`, of a list of strings: JSON text that starts
/// with a bracket, and that reads back as the same strings.
#[verifier::external_body]
pub(crate) fn json_strings(list: &Vec<String>) -> (r: Option<String>)
    ensures
        match r {
            Some(json) => json_list_of(texts(list@)) == Some(json@) && json_strings_of(json@)
                == Some(texts(list@)) && json@.len() > 0 && json@[0] == '[',
            None => json_list_of(texts(list@)) is None,
        },
{
    serde_json::to_string_pretty(list).ok()
}

/// `base64::engine::general_purpose::STANDARD.encode`: a function of the data,
/// four characters for every three bytes or part of them.
#[verifier::external_body]
pub(crate) fn base64_encode(data: &[u8]) -> (r: String)
    requires
        data@.len() <= isize::MAX / 2,
    ensures
        r@ == base64_of(data@),
        r@.len() == (data@.len() + 2) / 3 * 4,
{
    base64::Engine::encode(&base64::engine::general_purpose::STANDARD, data)
}

/// Whether the headers of a DDS texture can be read.
pub uninterp spec fn dds_readable(data: Seq<u8>) -> bool;

/// `ltk_texture::Dds::from_reader`, and `width` and `height` of the texture:
/// both give the width, which stands in the header behind the height.
#[verifier::external_body]
pub(crate) fn dds_size(data: &[u8]) -> (r: Option<(u32, u32)>)
    ensures
        match r {
            Some((w, h)) => dds_readable(data@) && data@.len() >= 128 && w == le32(data@, 16) && h
                == w,
            None => !dds_readable(data@),
        },
{
    let dds = ltk_texture::Dds::from_reader(&mut std::io::Cursor::new(data)).ok()?;
    let texture = ltk_texture::Texture::from(dds);
    Some((texture.width(), texture.height()))
}

/// Whether `data` starts like a TEX texture: magic number, width, height, a
/// byte of no meaning, a known format, the type of resource, known flags.
pub open spec fn tex_readable(data: Seq<u8>) -> bool {
    &&& data.len() >= 12
    &&& data.take(4) == seq![0x54u8, 0x45u8, 0x58u8, 0u8]
    &&& data[9] == 1 || data[9] == 2 || data[9] == 3 || data[9] == 10 || data[9] == 11 || data[9]
        == 12 || data[9] == 20
    &&& data[11] <= 3
}

/// `ltk_texture::Tex::from_reader`, and `width` and `height` of the texture.
#[verifier::external_body]
pub(crate) fn tex_size(data: &[u8]) -> (r: Option<(u32, u32)>)
    ensures
        match r {
            Some((w, h)) => tex_readable(data@) && w == le16(data@, 4) && h == le16(data@, 6),
            None => !tex_readable(data@),
        },
{
    let tex = ltk_texture::Tex::from_reader(&mut std::io::Cursor::new(data)).ok()?;
    let texture = ltk_texture::Texture::from(tex);
    Some((texture.width(), texture.height()))
}

/// A picture as PNG, compressed fast and unfiltered; `None` where it cannot be
/// one.
pub uninterp spec fn png_of(pixels: Seq<u8>, width: u32, height: u32) -> Option<Seq<u8>>;

/// `image::codecs::png::PngEncoder::write_image`, of eight-bit RGBA pixels, with
/// fast compression and no filter. It panics where the pixels are not as many
/// as the size says.
#[verifier::external_body]
pub(crate) fn png_encode(pixels: &[u8], width: u32, height: u32) -> (r: Option<Vec<u8>>)
    requires
        pixels@.len() == 4 * (width * height),
    ensures
        match r {
            Some(png) => png_of(pixels@, width, height) == Some(png@),
            None => png_of(pixels@, width, height) is None,
        },
{
    let mut png = Vec::new();
    let encoder = image::codecs::png::PngEncoder::new_with_quality(
        &mut png,
        image::codecs::png::CompressionType::Fast,
        image::codecs::png::FilterType::NoFilter,
    );
    let color = image::ExtendedColorType::Rgba8;
    let written = image::ImageEncoder::write_image(encoder, pixels, width, height, color);
    written.ok().map(|_| png)
}

/// The pixels of the largest level of a game texture, and their width and
/// height, on a machine with words of `word_bits` bits; `None` where it cannot
/// be unpacked.
pub uninterp spec fn texture_pixels(data: Seq<u8>, word_bits: u32) -> Option<
    (u32, u32, Seq<u8>),
>;

/// `ltk_texture::Texture::from_reader`, `decode_mipmap` of the largest level and
/// `into_rgba_image` of that: a function of the data, four bytes for each pixel.
/// The size of the machine's word counts, because the decoder of some blocks
/// keeps bits in a word; the machine is taken to store low bytes first, and to
/// put buffers where floating-point pixels can be read from them. It panics on
/// textures that are not whole.
#[verifier::external_body]
pub(crate) fn texture_decode(data: &[u8]) -> (r: Option<(u32, u32, Vec<u8>)>)
    requires
        texture_whole(data@),
    ensures
        match r {
            Some((width, height, pixels)) => texture_pixels(data@, usize::BITS) == Some(
                (width, height, pixels@),
            ) && pixels@.len() == 4 * (width * height),
            None => texture_pixels(data@, usize::BITS) is None,
        },
{
    let texture = ltk_texture::Texture::from_reader(&mut std::io::Cursor::new(data)).ok()?;
    let picture = texture.decode_mipmap(0).ok()?.into_rgba_image().ok()?;
    let (width, height) = (picture.width(), picture.height());
    Some((width, height, picture.into_raw()))
}

/// The width and height of the picture that a PNG or JPEG file holds; `None`
/// where it is no such file.
pub uninterp spec fn picture_size(data: Seq<u8>) -> Option<(u32, u32)>;

/// Whether the data starts with the eight bytes that open a PNG file.
pub open spec fn starts_as_png(data: Seq<u8>) -> bool {
    data.len() >= 8 && data.take(8) == seq![0x89u8, 0x50, 0x4E, 0x47, 0x0D, 0x0A, 0x1A, 0x0A]
}

/// The width, the height and the pixels of the picture that a PNG file holds;
/// `None` where it cannot be read.
pub uninterp spec fn png_pixels(data: Seq<u8>) -> Option<(u32, u32, Seq<u8>)>;

/// `image::load_from_memory`, and `into_rgba8` of the picture: its width, its
/// height, and four bytes for each pixel. Whether a picture comes out, and its
/// size, are a function of the data. Data that starts as a PNG file is taken for
/// one, and then the pixels are a function of the data too. Which bytes the
/// pixels of a JPEG file are is left unsaid: its decoder picks its arithmetic by
/// the machine.
#[verifier::external_body]
pub(crate) fn picture_decode(data: &[u8]) -> (r: Option<(u32, u32, Vec<u8>)>)
    ensures
        match r {
            Some((width, height, pixels)) => picture_size(data@) == Some((width, height))
                && pixels@.len() == 4 * (width * height),
            None => picture_size(data@) is None,
        },
        starts_as_png(data@) ==> match r {
            Some((width, height, pixels)) => png_pixels(data@) == Some((width, height, pixels@)),
            None => png_pixels(data@) is None,
        },
{
    let picture = image::load_from_memory(data).ok()?.into_rgba8();
    let (width, height) = picture.dimensions();
    Some((width, height, picture.into_raw()))
}

/// A character in capitals, which may be several characters.
pub uninterp spec fn uppercase_of(c: char) -> Seq<char>;

/// `char::to_uppercase`: the capitals of a character by the Unicode tables, or
/// the character itself where it has none. Small ASCII letters become the
/// capital ones.
#[verifier::external_body]
pub(crate) fn uppercase(c: char) -> (r: Vec<char>)
    ensures
        r@ == uppercase_of(c),
        r@.len() >= 1,
        'a' <= c <= 'z' ==> r@ == seq![(c as u32 - 32) as char],
{
    c.to_uppercase().collect()
}

/// `std::str::from_utf8`: the text that the bytes encode, where they are UTF-8.
#[verifier::external_body]
pub(crate) fn utf8_text(bytes: &[u8]) -> (r: Option<String>)
    ensures
        match r {
            Some(s) => valid_utf8(bytes@) && s@ == decode_utf8(bytes@),
            None => !valid_utf8(bytes@),
        },
{
    match std::str::from_utf8(bytes) {
        Ok(s) => Some(String::from(s)),
        Err(_) => None,
    }
}

/// `zstd::bulk::decompress`: gives the whole content of the frames, and an
/// error where the data is malformed or its content is longer than `capacity`.
/// It allocates `capacity` bytes up front, which no allocation above
/// `isize::MAX` can meet.
#[verifier::external_body]
pub(crate) fn zstd_decompress(data: &[u8], capacity: usize) -> (r: Option<Vec<u8>>)
    requires
        capacity <= isize::MAX,
    ensures
        match r {
            Some(v) => zstd_content(data@) == Some(v@) && v@.len() <= capacity,
            None => zstd_content(data@) is None || zstd_content(data@)->0.len() > capacity,
        },
{
    zstd::bulk::decompress(data, capacity).ok()
}

/// The longest input whose worst-case compressed size a buffer can have.
pub open spec fn zstd_input_limit() -> int {
    isize::MAX - isize::MAX / 128
}

/// `zstd::bulk::compress`: gives one frame that is a function of the data and
/// the level, and whose content is the data. It allocates the worst-case size,
/// the input's length plus a 256th of it and at most 64 bytes more.
#[verifier::external_body]
pub(crate) fn zstd_compress(data: &[u8], level: i32) -> (r: Option<Vec<u8>>)
    requires
        data@.len() <= zstd_input_limit(),
    ensures
        match r {
            Some(v) => zstd_compressed(data@, level) == Some(v@) && zstd_content(v@) == Some(data@),
            None => zstd_compressed(data@, level) is None,
        },
{
    zstd::bulk::compress(data, level).ok()
}

/// `zstd::stream::read::Decoder`, read up to `limit` bytes: a read error ends
/// the reading and keeps what came before it.
#[verifier::external_body]
pub(crate) fn zstd_head(data: &[u8], limit: usize) -> (r: Option<Vec<u8>>)
    ensures
        match r {
            Some(v) => zstd_stream_head(data@, limit as nat) == Some(v@) && v@.len() <= limit,
            None => zstd_stream_head(data@, limit as nat) is None,
        },
{
    let decoder = zstd::stream::read::Decoder::new(data).ok()?;
    let mut out = Vec::new();
    let _ = std::io::Read::read_to_end(&mut std::io::Read::take(decoder, limit as u64), &mut out);
    Some(out)
}

/// `flate2::read::GzDecoder`, read to its end: gives the content of the gzip
/// member that the data starts with, and an error where that is malformed, cut
/// short or fails its checksum. What follows the member is not looked at.
#[verifier::external_body]
pub(crate) fn gzip_decompress(data: &[u8]) -> (r: Option<Vec<u8>>)
    ensures
        match r {
            Some(v) => gzip_content(data@) == Some(v@),
            None => gzip_content(data@) is None,
        },
{
    let mut out = Vec::new();
    let mut decoder = flate2::read::GzDecoder::new(data);
    std::io::Read::read_to_end(&mut decoder, &mut out).ok()?;
    Some(out)
}

/// `xxhash_rust::xxh3::xxh3_64`: a function of the data alone.
#[verifier::external_body]
pub(crate) fn xxh3_hash(data: &[u8]) -> (r: u64)
    ensures
        r == xxh3_of(data@),
{
    xxhash_rust::xxh3::xxh3_64(data)
}

/// `xxhash_rust::xxh64::xxh64`: a function of the data and the seed.
#[verifier::external_body]
pub(crate) fn xxh64_hash(data: &[u8], seed: u64) -> (r: u64)
    ensures
        r == xxh64_of(data@, seed),
{
    xxhash_rust::xxh64::xxh64(data, seed)
}

#[verifier::external_type_specification]
#[verifier::external_body]
pub struct ExXxh3(Xxh3);

/// `Xxh3::new`: a hasher that has taken in nothing.
#[verifier::external_body]
pub(crate) fn xxh3_new() -> (r: Xxh3)
    ensures
        xxh3_input(r) == Seq::<u8>::empty(),
{
    Xxh3::new()
}

/// `Xxh3::update`: takes in `data` after what was taken in before.
#[verifier::external_body]
pub(crate) fn xxh3_update(hasher: &mut Xxh3, data: &[u8])
    ensures
        xxh3_input(*final(hasher)) == xxh3_input(*old(hasher)) + data@,
{
    hasher.update(data)
}

/// `Xxh3::digest`: a function of all that was taken in, however it was cut
/// into pieces.
#[verifier::external_body]
pub(crate) fn xxh3_digest(hasher: &Xxh3) -> (r: u64)
    ensures
        r == xxh3_digest_of(xxh3_input(*hasher)),
{
    hasher.digest()
}

} // verus!
