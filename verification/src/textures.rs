//! Headers of game textures: which textures are whole, so that the decoder can
//! unpack them.

use crate::bytes::{le16, le32, read_u16, read_u32};
use vstd::prelude::*;

verus! {

/// The larger of a number and one.
pub open spec fn at_least_one(x: int) -> int {
    if x < 1 {
        1
    } else {
        x
    }
}

/// The number of binary digits of a number.
pub open spec fn bit_len(x: int) -> int
    decreases x,
{
    if x <= 0 {
        0
    } else {
        1 + bit_len(x / 2)
    }
}

/// How many pixels wide and high the blocks of a TEX format are.
pub open spec fn block_side(format: u8) -> int {
    if format == 20 {
        1
    } else {
        4
    }
}

/// How many bytes a block of a TEX format takes up.
pub open spec fn block_bytes(format: u8) -> int {
    if format == 20 {
        4
    } else if format == 1 || format == 10 || format == 11 {
        8
    } else {
        16
    }
}

/// How many blocks cover so many pixels.
pub open spec fn blocks(pixels: int, format: u8) -> int {
    (pixels + block_side(format) - 1) / block_side(format)
}

/// How many bytes `count` levels of a TEX texture take up, the largest of which
/// is so wide and so high. Each is half as wide and half as high as the one
/// before, but at least one pixel.
pub open spec fn levels_len(width: int, height: int, format: u8, count: int) -> int
    decreases count,
{
    if count <= 0 {
        0
    } else {
        blocks(width, format) * blocks(height, format) * block_bytes(format) + levels_len(
            at_least_one(width / 2),
            at_least_one(height / 2),
            format,
            count - 1,
        )
    }
}

/// How many levels a TEX texture has: one, or where it is flagged so all down to
/// a single pixel.
pub open spec fn tex_levels(data: Seq<u8>) -> int {
    let width = le16(data, 4);
    let height = le16(data, 6);
    if data[11] % 2 == 1 {
        bit_len(if width < height {
            height
        } else {
            width
        })
    } else {
        1
    }
}

/// Whether a TEX texture has a level, holds the bytes of all its levels, and has
/// no more pixels than a buffer can hold.
pub open spec fn tex_whole(data: Seq<u8>) -> bool {
    let width = at_least_one(le16(data, 4));
    let height = at_least_one(le16(data, 6));
    &&& data.len() >= 12
    &&& tex_levels(data) >= 1
    &&& 12 + levels_len(width, height, data[9], tex_levels(data)) <= data.len()
    &&& width * height <= isize::MAX / 4
}

/// Whether the flags that stand at `at` have the one of this value, which is a
/// power of two.
pub open spec fn has_flag(data: Seq<u8>, at: int, flag: int) -> bool {
    le32(data, at) / flag % 2 == 1
}

/// Whether a DDS texture has the longer header.
pub open spec fn dds_is_long(data: Seq<u8>) -> bool {
    has_flag(data, 80, 4) && le32(data, 84) == 0x3031_5844
}

/// How many pictures a DDS texture holds, but at least one.
pub open spec fn dds_layers(data: Seq<u8>) -> int {
    if dds_is_long(data) {
        at_least_one(le32(data, 140))
    } else if has_flag(data, 112, 0x200) {
        6
    } else {
        1
    }
}

/// How many slices each picture of a DDS texture has.
pub open spec fn dds_depth(data: Seq<u8>) -> int {
    if has_flag(data, 8, 0x80_0000) {
        le32(data, 24)
    } else {
        1
    }
}

/// Whether a DDS texture has a level, and its pictures and their slices, one
/// below the other, are no higher and have no more pixels than a picture can.
/// Cube maps have six sides for each picture.
pub open spec fn dds_whole(data: Seq<u8>) -> bool {
    let rows = le32(data, 12) * dds_depth(data) * dds_layers(data);
    &&& 128 <= data.len() <= isize::MAX / 4
    &&& dds_is_long(data) ==> data.len() >= 148
    &&& has_flag(data, 8, 0x2_0000) ==> le32(data, 28) >= 1
    &&& dds_is_long(data) && has_flag(data, 136, 4) ==> 6 * le32(data, 140) <= u32::MAX
    &&& rows <= u32::MAX
    &&& le32(data, 16) * rows <= isize::MAX / 4
}

/// Whether a texture starts like a DDS texture.
pub open spec fn is_dds(data: Seq<u8>) -> bool {
    data.len() >= 4 && data.take(4) == seq![0x44u8, 0x44u8, 0x53u8, 0x20u8]
}

/// Whether a texture can be given to the decoder.
pub open spec fn texture_whole(data: Seq<u8>) -> bool {
    if is_dds(data) {
        dds_whole(data)
    } else {
        tex_whole(data)
    }
}

pub fn starts_as_dds(data: &[u8]) -> (r: bool)
    ensures
        r == is_dds(data@),
{
    if data.len() < 4 {
        return false;
    }
    let r = data[0] == 0x44 && data[1] == 0x44 && data[2] == 0x53 && data[3] == 0x20;
    proof {
        let head = data@.take(4);
        if r {
            assert(head =~= seq![0x44u8, 0x44u8, 0x53u8, 0x20u8]);
        } else if head == seq![0x44u8, 0x44u8, 0x53u8, 0x20u8] {
            assert(head[0] == 0x44 && head[1] == 0x44 && head[2] == 0x53 && head[3] == 0x20);
        }
    }
    r
}

fn one_at_least(x: u64) -> (r: u64)
    ensures
        r == at_least_one(x as int),
{
    if x < 1 {
        1
    } else {
        x
    }
}

proof fn lemma_bit_len(x: int)
    requires
        0 <= x < 0x1_0000,
    ensures
        0 <= bit_len(x) <= 16,
{
    reveal_with_fuel(bit_len, 18);
}

/// The number of levels of a texture whose longer side is `x`.
fn count_levels(x: u16) -> (r: u64)
    ensures
        r == bit_len(x as int),
        r <= 16,
{
    let mut left: u16 = x;
    let mut n: u64 = 0;
    proof {
        lemma_bit_len(x as int);
    }
    while left > 0
        invariant
            n + bit_len(left as int) == bit_len(x as int),
            bit_len(x as int) <= 16,
        decreases left,
    {
        proof {
            lemma_bit_len(left as int);
            lemma_bit_len(left as int / 2);
        }
        left = left / 2;
        n = n + 1;
    }
    n
}

fn count_blocks(pixels: u64, format: u8) -> (r: u64)
    requires
        pixels <= 0xFFFF,
    ensures
        r == blocks(pixels as int, format),
        r <= 0xFFFF,
{
    if format == 20 {
        pixels
    } else {
        (pixels + 3) / 4
    }
}

fn len_of_block(format: u8) -> (r: u64)
    ensures
        r == block_bytes(format),
        r <= 16,
{
    match format {
        20 => 4,
        1 | 10 | 11 => 8,
        _ => 16,
    }
}

/// How many bytes the levels of a TEX texture take up.
fn len_of_levels(width: u16, height: u16, format: u8, count: u64) -> (r: u64)
    requires
        count <= 16,
    ensures
        r == levels_len(
            at_least_one(width as int),
            at_least_one(height as int),
            format,
            count as int,
        ),
{
    let mut w: u64 = one_at_least(width as u64);
    let mut h: u64 = one_at_least(height as u64);
    let mut left: u64 = count;
    let mut sum: u64 = 0;
    while left > 0
        invariant
            1 <= w <= 0xFFFF,
            1 <= h <= 0xFFFF,
            left <= count <= 16,
            sum <= (count - left) * 0x10_0000_0000,
            sum + levels_len(w as int, h as int, format, left as int) == levels_len(
                at_least_one(width as int),
                at_least_one(height as int),
                format,
                count as int,
            ),
        decreases left,
    {
        let across: u64 = count_blocks(w, format);
        let down: u64 = count_blocks(h, format);
        let each: u64 = len_of_block(format);
        assert(across * down <= 0xFFFF * 0xFFFF) by (nonlinear_arith)
            requires
                across <= 0xFFFF,
                down <= 0xFFFF,
        ;
        let area: u64 = across * down;
        assert(area * each <= 0xFFFF * 0xFFFF * 16) by (nonlinear_arith)
            requires
                area <= 0xFFFF * 0xFFFF,
                each <= 16,
        ;
        sum = sum + area * each;
        w = one_at_least(w / 2);
        h = one_at_least(h / 2);
        left = left - 1;
    }
    sum
}

fn whole_tex(data: &[u8]) -> (r: bool)
    ensures
        r == tex_whole(data@),
{
    if data.len() < 12 {
        return false;
    }
    let width: u16 = read_u16(data, 4);
    let height: u16 = read_u16(data, 6);
    let count: u64 = if data[11] % 2 == 1 {
        count_levels(if width < height {
            height
        } else {
            width
        })
    } else {
        1
    };
    let needed: u64 = len_of_levels(width, height, data[9], count);
    let w: u64 = one_at_least(width as u64);
    let h: u64 = one_at_least(height as u64);
    assert(w * h <= 0xFFFF * 0xFFFF) by (nonlinear_arith)
        requires
            w <= 0xFFFF,
            h <= 0xFFFF,
    ;
    count >= 1 && needed <= data.len() as u64 - 12 && w * h <= isize::MAX as u64 / 4
}

/// Whether the flags that stand at `at` have the one of this value.
fn flag_at(data: &[u8], at: usize, flag: u32) -> (r: bool)
    requires
        at + 4 <= data@.len(),
        flag > 0,
    ensures
        r == has_flag(data@, at as int, flag as int),
{
    read_u32(data, at) / flag % 2 == 1
}

fn product(a: u64, b: u64) -> (r: u64)
    requires
        a <= u32::MAX,
        b <= u32::MAX,
    ensures
        r == a * b,
{
    assert(a * b <= 0xFFFF_FFFF * 0xFFFF_FFFF) by (nonlinear_arith)
        requires
            a <= 0xFFFF_FFFF,
            b <= 0xFFFF_FFFF,
    ;
    a * b
}

fn whole_dds(data: &[u8]) -> (r: bool)
    ensures
        r == dds_whole(data@),
{
    if data.len() < 128 || data.len() > isize::MAX as usize / 4 {
        return false;
    }
    let long = flag_at(data, 80, 4) && read_u32(data, 84) == 0x3031_5844;
    if long && data.len() < 148 {
        return false;
    }
    if flag_at(data, 8, 0x2_0000) && read_u32(data, 28) == 0 {
        return false;
    }
    if long && flag_at(data, 136, 4) && read_u32(data, 140) > u32::MAX / 6 {
        return false;
    }
    let layers: u64 = if long {
        one_at_least(read_u32(data, 140) as u64)
    } else if flag_at(data, 112, 0x200) {
        6
    } else {
        1
    };
    let depth: u64 = if flag_at(data, 8, 0x80_0000) {
        read_u32(data, 24) as u64
    } else {
        1
    };
    let height: u64 = read_u32(data, 12) as u64;
    let width: u64 = read_u32(data, 16) as u64;
    let slices: u64 = product(height, depth);
    if slices > u32::MAX as u64 {
        assert(slices * layers >= slices) by (nonlinear_arith)
            requires
                layers >= 1,
        ;
        return false;
    }
    let rows: u64 = product(slices, layers);
    if rows > u32::MAX as u64 {
        return false;
    }
    product(width, rows) <= isize::MAX as u64 / 4
}

/// Whether a texture can be given to the decoder.
pub fn is_texture_whole(data: &[u8]) -> (r: bool)
    ensures
        r == texture_whole(data@),
{
    if starts_as_dds(data) {
        whole_dds(data)
    } else {
        whole_tex(data)
    }
}

/// The side of a level that comes so many levels behind another.
pub open spec fn halved(side: int, times: int) -> int
    decreases times,
{
    if times <= 0 {
        side
    } else {
        halved(at_least_one(side / 2), times - 1)
    }
}

/// A texture with all its levels has just so many that the longer side of the last is
/// a single pixel, and that of none before.
pub proof fn law_level_count(x: int, k: int)
    requires
        1 <= x,
        0 <= k < bit_len(x) - 1,
    ensures
        halved(x, bit_len(x) - 1) == 1,
        halved(x, k) > 1,
    decreases x,
{
    lemma_last_level(x);
    assert(bit_len(x) == 1 + bit_len(x / 2));
    if x == 1 {
        assert(bit_len(0) == 0);
    } else if k > 0 {
        law_level_count(x / 2, k - 1);
    }
}

proof fn lemma_last_level(x: int)
    requires
        1 <= x,
    ensures
        bit_len(x) >= 1,
        halved(x, bit_len(x) - 1) == 1,
    decreases x,
{
    assert(bit_len(x) == 1 + bit_len(x / 2));
    if x == 1 {
        assert(bit_len(0) == 0);
    } else {
        lemma_last_level(x / 2);
    }
}

/// Levels take up what the first of them and the rest do: all levels count, and each
/// level is half as wide and high as the one before.
pub proof fn law_levels_add_up(width: int, height: int, format: u8, a: int, b: int)
    requires
        0 <= a,
        0 <= b,
    ensures
        levels_len(width, height, format, a + b) == levels_len(width, height, format, a)
            + levels_len(halved(width, a), halved(height, a), format, b),
        levels_len(width, height, format, 1) == blocks(width, format) * blocks(height, format)
            * block_bytes(format),
    decreases a,
{
    reveal_with_fuel(levels_len, 2);
    if a > 0 {
        law_levels_add_up(at_least_one(width / 2), at_least_one(height / 2), format, a - 1, b);
    }
}

/// Blocks cover the pixels, and no block lies wholly beyond them.
pub proof fn law_blocks_cover(pixels: int, format: u8)
    requires
        1 <= pixels,
    ensures
        blocks(pixels, format) * block_side(format) >= pixels,
        (blocks(pixels, format) - 1) * block_side(format) < pixels,
{
    let n = blocks(pixels, format);
    if format == 20 {
        assert(n == pixels);
        assert(n * 1 == n && (n - 1) * 1 == n - 1);
    } else {
        assert(n == (pixels + 3) / 4);
        assert(n * 4 >= pixels && (n - 1) * 4 < pixels);
    }
}

} // verus!
