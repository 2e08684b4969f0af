//! Colours and their place in a pixel buffer.
//!
//! A buffer holds its pixels row by row, three bytes per pixel in the order
//! red, green, blue.

use vstd::prelude::*;

verus! {

/// Bytes that one pixel occupies in a buffer.
pub const BYTES_PER_PIXEL: usize = 3;

/// A colour of three 8-bit channels.
#[derive(Clone, Copy, PartialEq, Eq, Debug, Structural)]
pub struct Color {
    pub r: u8,
    pub g: u8,
    pub b: u8,
}

impl Color {
    /// The colour of the points inside the set.
    pub open spec fn spec_black() -> Color {
        Color { r: 0, g: 0, b: 0 }
    }

    /// The colour of the points inside the set.
    #[verifier::when_used_as_spec(spec_black)]
    pub fn black() -> (c: Color)
        ensures
            c == Color::spec_black(),
    {
        Color { r: 0, g: 0, b: 0 }
    }

    /// The colour with the given channels.
    pub fn new(r: u8, g: u8, b: u8) -> (c: Color)
        ensures
            c == (Color { r, g, b }),
    {
        Color { r, g, b }
    }
}

/// Bytes of a zone of `width` by `height` pixels.
pub open spec fn zone_len(width: nat, height: nat) -> nat {
    width * height * 3
}

/// Index of the first byte of pixel `(x, y)` in a zone that is `width` pixels wide.
pub open spec fn pixel_offset(width: nat, x: nat, y: nat) -> nat {
    (y * width + x) * 3
}

/// The colour that `buf` holds at pixel `(x, y)`.
pub open spec fn pixel_at(buf: Seq<u8>, width: nat, x: nat, y: nat) -> Color {
    let at = pixel_offset(width, x, y) as int;
    Color { r: buf[at], g: buf[at + 1], b: buf[at + 2] }
}

/// `buf` with the three bytes of pixel `(x, y)` replaced by `color`.
pub open spec fn with_pixel(buf: Seq<u8>, width: nat, x: nat, y: nat, color: Color) -> Seq<u8> {
    let at = pixel_offset(width, x, y) as int;
    buf.update(at, color.r).update(at + 1, color.g).update(at + 2, color.b)
}

/// Bytes that a buffer for `width` by `height` pixels must have, or `None`
/// where that number does not fit the machine's `usize`.
pub fn buffer_len(width: u32, height: u32) -> (len: Option<usize>)
    ensures
        len == if zone_len(width as nat, height as nat) <= usize::MAX {
            Some(zone_len(width as nat, height as nat) as usize)
        } else {
            None::<usize>
        },
{
    match (width as usize).checked_mul(height as usize) {
        Some(pixels) => {
            proof {
                assert(pixels * 3 == width * height * 3);
            }
            pixels.checked_mul(BYTES_PER_PIXEL)
        },
        None => {
            proof {
                assert(width * height * 3 >= width * height) by (nonlinear_arith);
            }
            None
        },
    }
}

/// Why a buffer cannot take an image.
#[derive(Clone, Copy, PartialEq, Eq, Debug, Structural)]
pub enum ImageError {
    /// The image has no pixel: its width or its height is zero.
    Empty,
    /// The image's bytes are more than the machine can address.
    TooLarge,
    /// The buffer holds `actual` bytes where the image has `expected`.
    WrongLength { expected: usize, actual: usize },
}

/// Whether a buffer of `len` bytes is the buffer of an image of `width` by
/// `height` pixels: the image has a pixel at least, and the buffer exactly
/// the image's bytes.
pub open spec fn image_check(width: u32, height: u32, len: usize) -> Result<(), ImageError> {
    if width == 0 || height == 0 {
        Err(ImageError::Empty)
    } else if zone_len(width as nat, height as nat) > usize::MAX {
        Err(ImageError::TooLarge)
    } else if len != zone_len(width as nat, height as nat) {
        Err(
            ImageError::WrongLength {
                expected: zone_len(width as nat, height as nat) as usize,
                actual: len,
            },
        )
    } else {
        Ok(())
    }
}

/// Checks that a buffer of `len` bytes can take an image of `width` by
/// `height` pixels.
pub fn check_image(width: u32, height: u32, len: usize) -> (checked: Result<(), ImageError>)
    ensures
        checked == image_check(width, height, len),
        checked is Ok ==> width > 0 && height > 0 && len == zone_len(width as nat, height as nat),
{
    if width == 0 || height == 0 {
        return Err(ImageError::Empty);
    }
    match buffer_len(width, height) {
        None => Err(ImageError::TooLarge),
        Some(expected) => {
            if len != expected {
                Err(ImageError::WrongLength { expected, actual: len })
            } else {
                Ok(())
            }
        },
    }
}

/// Writes `color` at pixel `(x, y)` of a buffer that is `width` pixels wide.
pub fn put_pixel(out: &mut [u8], width: u32, x: u32, y: u32, color: Color)
    requires
        x < width,
        pixel_offset(width as nat, x as nat, y as nat) + 3 <= old(out)@.len(),
    ensures
        final(out)@ == with_pixel(old(out)@, width as nat, x as nat, y as nat, color),
{
    proof {
        assert(out.len() == out@.len());
        assert(0 <= y * width <= (y * width + x) * 3) by (nonlinear_arith);
    }
    let at: usize = (y as usize * width as usize + x as usize) * BYTES_PER_PIXEL;
    out[at] = color.r;
    out[at + 1] = color.g;
    out[at + 2] = color.b;
}

/// Reads the colour at pixel `(x, y)` of a buffer that is `width` pixels wide.
pub fn get_pixel(buf: &[u8], width: u32, x: u32, y: u32) -> (color: Color)
    requires
        x < width,
        pixel_offset(width as nat, x as nat, y as nat) + 3 <= buf@.len(),
    ensures
        color == pixel_at(buf@, width as nat, x as nat, y as nat),
{
    proof {
        assert(buf.len() == buf@.len());
        assert(0 <= y * width <= (y * width + x) * 3) by (nonlinear_arith);
    }
    let at: usize = (y as usize * width as usize + x as usize) * BYTES_PER_PIXEL;
    Color { r: buf[at], g: buf[at + 1], b: buf[at + 2] }
}

/// The bytes of the first rows of a zone never exceed the bytes of the zone.
pub proof fn lemma_zone_len_monotonic(width: nat, rows: nat, height: nat)
    requires
        rows <= height,
    ensures
        zone_len(width, rows) <= zone_len(width, height),
{
    assert(width * rows * 3 <= width * height * 3) by (nonlinear_arith)
        requires
            rows <= height,
    ;
}

/// The bytes of a zone are those of its upper rows followed by those of its lower rows.
pub proof fn lemma_zone_len_additive(width: nat, upper: nat, lower: nat)
    ensures
        zone_len(width, upper + lower) == zone_len(width, upper) + zone_len(width, lower),
{
    assert(width * (upper + lower) * 3 == width * upper * 3 + width * lower * 3)
        by (nonlinear_arith);
}

/// A pixel of a zone lies wholly inside the zone's bytes.
pub proof fn lemma_pixel_inside(width: nat, height: nat, x: nat, y: nat)
    requires
        x < width,
        y < height,
    ensures
        pixel_offset(width, x, y) + 3 <= zone_len(width, height),
        y * width + x < width * height,
{
    assert(y * width + x < width * height) by (nonlinear_arith)
        requires
            x < width,
            y < height,
    ;
    assert((y * width + x) * 3 + 3 <= width * height * 3) by (nonlinear_arith)
        requires
            y * width + x < width * height,
    ;
}

/// Two different pixels of one zone share no byte.
pub proof fn lemma_pixels_apart(width: nat, x1: nat, y1: nat, x2: nat, y2: nat)
    requires
        x1 < width,
        x2 < width,
        x1 != x2 || y1 != y2,
    ensures
        pixel_offset(width, x1, y1) + 3 <= pixel_offset(width, x2, y2) || pixel_offset(
            width,
            x2,
            y2,
        ) + 3 <= pixel_offset(width, x1, y1),
{
    assert(y1 * width + x1 != y2 * width + x2) by (nonlinear_arith)
        requires
            x1 < width,
            x2 < width,
            x1 != x2 || y1 != y2,
    ;
}

/// Writing a pixel sets that pixel and leaves every other pixel and the
/// length of the buffer as they were.
pub proof fn lemma_with_pixel(buf: Seq<u8>, width: nat, x: nat, y: nat, color: Color)
    requires
        x < width,
        pixel_offset(width, x, y) + 3 <= buf.len(),
    ensures
        with_pixel(buf, width, x, y, color).len() == buf.len(),
        pixel_at(with_pixel(buf, width, x, y, color), width, x, y) == color,
        forall|px: nat, py: nat|
            px < width && (px != x || py != y) && pixel_offset(width, px, py) + 3 <= buf.len()
                ==> #[trigger] pixel_at(with_pixel(buf, width, x, y, color), width, px, py)
                == pixel_at(buf, width, px, py),
{
    assert forall|px: nat, py: nat|
        px < width && (px != x || py != y) && pixel_offset(width, px, py) + 3
            <= buf.len() implies #[trigger] pixel_at(
        with_pixel(buf, width, x, y, color),
        width,
        px,
        py,
    ) == pixel_at(buf, width, px, py) by {
        lemma_pixels_apart(width, x, y, px, py);
    }
}

} // verus!
