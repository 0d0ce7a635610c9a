//! Pictures: what they are decoded from, written as, and fitted into.

use super::warm::{size_of_texture, texture_size};
use crate::codecs::{
    picture_decode, picture_size, png_encode, png_of, png_pixels, starts_as_png, texture_decode,
    texture_pixels,
};
use crate::textures::{is_texture_whole, texture_whole};
use vstd::prelude::*;

verus! {

/// A picture of RGBA pixels, row by row, four bytes each.
pub struct Picture {
    pub width: u32,
    pub height: u32,
    pub pixels: Vec<u8>,
}

impl Picture {
    /// There are as many pixels as the size says.
    pub open spec fn wf(&self) -> bool {
        self.pixels@.len() == 4 * (self.width * self.height)
    }
}

/// What the bytes of an image file are.
pub enum Decoded {
    Picture(Picture),
    Unreadable,
}

/// Decodes the bytes of an image file, which may be a game texture. Of a texture
/// the largest level counts, and one that is not whole cannot be read. Which
/// bytes the pixels of a JPEG file are is left unsaid: its decoder picks its
/// arithmetic by the machine.
pub fn decode_image(bytes: &[u8]) -> (r: Decoded)
    ensures
        match r {
            Decoded::Picture(p) => {
                &&& p.wf()
                &&& if size_of_texture(bytes@) is Some {
                    &&& texture_whole(bytes@)
                    &&& texture_pixels(bytes@, usize::BITS) == Some(
                        (p.width, p.height, p.pixels@),
                    )
                } else {
                    picture_size(bytes@) == Some((p.width, p.height))
                }
            },
            Decoded::Unreadable => if size_of_texture(bytes@) is Some {
                texture_whole(bytes@) ==> texture_pixels(bytes@, usize::BITS) is None
            } else {
                picture_size(bytes@) is None
            },
        },
        starts_as_png(bytes@) ==> match r {
            Decoded::Picture(p) => png_pixels(bytes@) == Some((p.width, p.height, p.pixels@)),
            Decoded::Unreadable => png_pixels(bytes@) is None,
        },
{
    proof {
        if starts_as_png(bytes@) {
            lemma_png_is_no_texture(bytes@);
        }
    }
    if texture_size(bytes).is_none() {
        picture_of_decoded(picture_decode(bytes))
    } else if is_texture_whole(bytes) {
        picture_of_decoded(texture_decode(bytes))
    } else {
        Decoded::Unreadable
    }
}

/// What starts as a PNG file is no game texture.
proof fn lemma_png_is_no_texture(data: Seq<u8>)
    requires
        starts_as_png(data),
    ensures
        size_of_texture(data) is None,
{
    assert(data.take(8)[0] == data[0]);
    assert(data[0] == 0x89);
}

/// The picture that a decoder gave, if any.
pub fn picture_of_decoded(decoded: Option<(u32, u32, Vec<u8>)>) -> (r: Decoded)
    ensures
        match decoded {
            Some((width, height, pixels)) => r == Decoded::Picture(
                Picture { width, height, pixels },
            ),
            None => r == Decoded::Unreadable,
        },
{
    match decoded {
        Some((width, height, pixels)) => Decoded::Picture(Picture { width, height, pixels }),
        None => Decoded::Unreadable,
    }
}

/// What making a PNG of a picture can fail with.
#[derive(Debug, Clone, Copy, PartialEq, Eq, Structural)]
pub enum PngError {
    /// There are more or fewer pixels than the size says.
    WrongSize,
    NotEncoded,
}

/// The bytes of the PNG file of a picture.
pub fn png_bytes(picture: &Picture) -> (r: Result<Vec<u8>, PngError>)
    ensures
        match r {
            Ok(png) => picture.wf() && png_of(picture.pixels@, picture.width, picture.height)
                == Some(png@),
            Err(PngError::WrongSize) => !picture.wf(),
            Err(PngError::NotEncoded) => picture.wf() && png_of(
                picture.pixels@,
                picture.width,
                picture.height,
            ) is None,
        },
{
    let area: u64 = picture_area(picture.width, picture.height);
    let len: usize = picture.pixels.len();
    if area > u64::MAX / 4 || len as u64 != 4 * area {
        return Err(PngError::WrongSize);
    }
    match png_encode(picture.pixels.as_slice(), picture.width, picture.height) {
        Some(png) => Ok(png),
        None => Err(PngError::NotEncoded),
    }
}

/// The number of pixels of a picture.
pub fn picture_area(width: u32, height: u32) -> (r: u64)
    ensures
        r == width * height,
{
    assert(width * height <= 0xFFFF_FFFF * 0xFFFF_FFFF) by (nonlinear_arith)
        requires
            width <= 0xFFFF_FFFF,
            height <= 0xFFFF_FFFF,
    ;
    width as u64 * height as u64
}

/// The longest side of a tile, in pixels.
pub const TILE_MAX_DIM: u32 = 384;

/// Whether a picture is written as a tile without being scaled down.
pub fn fits_tile(width: u32, height: u32) -> (r: bool)
    ensures
        r == (width <= 384 && height <= 384),
{
    width <= TILE_MAX_DIM && height <= TILE_MAX_DIM
}

/// The width of a background, in pixels.
pub const BACKGROUND_WIDTH: u32 = 1280;

/// The height of a background, in pixels.
pub const BACKGROUND_HEIGHT: u32 = 720;

/// How a picture becomes a background.
#[derive(Debug, Clone, Copy, PartialEq, Eq, Structural)]
pub enum BackgroundShape {
    /// It has no pixels.
    Nothing,
    /// It is higher than wide, and stands in front of a blurred copy of itself.
    Portrait,
    /// It is scaled to cover the background, and cropped.
    Landscape,
}

pub fn background_shape(width: u32, height: u32) -> (r: BackgroundShape)
    ensures
        r == (if width == 0 || height == 0 {
            BackgroundShape::Nothing
        } else if height > width {
            BackgroundShape::Portrait
        } else {
            BackgroundShape::Landscape
        }),
{
    if width == 0 || height == 0 {
        BackgroundShape::Nothing
    } else if height > width {
        BackgroundShape::Portrait
    } else {
        BackgroundShape::Landscape
    }
}

/// How much is cut off at the start of a side so that what remains of a longer
/// side stands in the middle.
pub open spec fn cut_off(side: int, kept: int) -> int {
    if side > kept {
        (side - kept) / 2
    } else {
        0
    }
}

/// The corner at which a picture that covers the background is cropped.
pub fn crop_corner(width: u32, height: u32) -> (r: (u32, u32))
    ensures
        r.0 == cut_off(width as int, 1280),
        r.1 == cut_off(height as int, 720),
{
    let x: u32 = if width > BACKGROUND_WIDTH {
        (width - BACKGROUND_WIDTH) / 2
    } else {
        0
    };
    let y: u32 = if height > BACKGROUND_HEIGHT {
        (height - BACKGROUND_HEIGHT) / 2
    } else {
        0
    };
    (x, y)
}

/// The column at which a picture of some width stands in the middle of the
/// background. One that is wider starts before the first column.
pub fn portrait_left(width: u32) -> (r: i64)
    ensures
        width <= 1280 ==> r == (1280 - width) / 2,
        width > 1280 ==> r == -((width - 1280) / 2),
{
    if width <= BACKGROUND_WIDTH {
        ((BACKGROUND_WIDTH - width) / 2) as i64
    } else {
        -(((width - BACKGROUND_WIDTH) / 2) as i64)
    }
}

/// How far a position is from the nearer end of a side.
pub fn edge_distance(at: u32, side: u32) -> (r: u32)
    requires
        at < side,
    ensures
        r == (if at <= side - 1 - at {
            at as int
        } else {
            side - 1 - at
        }),
{
    let rest: u32 = side - 1 - at;
    if at <= rest {
        at
    } else {
        rest
    }
}

/// A crop corner leaves room for the whole background in a picture that covers
/// it.
pub proof fn law_crop_fits(width: int, height: int)
    requires
        width >= 1280,
        height >= 720,
    ensures
        0 <= cut_off(width, 1280) && cut_off(width, 1280) + 1280 <= width,
        0 <= cut_off(height, 720) && cut_off(height, 720) + 720 <= height,
{
}

/// What is cut off so that the rest stands in the middle is as much on one side as on
/// the other, up to one pixel; nothing is cut off a side that is short enough.
pub proof fn law_crop_centred(side: int, kept: int)
    requires
        0 <= kept,
    ensures
        side > kept ==> 0 <= side - kept - 2 * cut_off(side, kept) <= 1,
        side <= kept ==> cut_off(side, kept) == 0,
{
}

} // verus!
