//! Filling a rectangular zone of pixels.

use vstd::prelude::*;
use crate::pixel::{
    lemma_pixel_inside,
    lemma_with_pixel,
    pixel_at,
    pixel_offset,
    put_pixel,
    zone_len,
    Color,
};

verus! {

/// `buf` is a zone of `width` by `height` pixels in which every pixel holds
/// a colour that `allowed` admits at its coordinates.
pub open spec fn renders(
    buf: Seq<u8>,
    width: nat,
    height: nat,
    allowed: spec_fn(nat, nat, Color) -> bool,
) -> bool {
    &&& buf.len() == zone_len(width, height)
    &&& forall|x: nat, y: nat|
        x < width && y < height ==> allowed(x, y, #[trigger] pixel_at(buf, width, x, y))
}

/// The colours that a call of `shade` may return at each pixel.
pub open spec fn outcomes<F: Fn(u32, u32) -> Color>(shade: F) -> spec_fn(nat, nat, Color) -> bool {
    |x: nat, y: nat, c: Color|
        x <= u32::MAX && y <= u32::MAX && call_ensures(shade, (x as u32, y as u32), c)
}

/// `allowed` seen from a zone that starts `rows_above` rows further down.
pub open spec fn shifted(allowed: spec_fn(nat, nat, Color) -> bool, rows_above: nat) -> spec_fn(
    nat,
    nat,
    Color,
) -> bool {
    |x: nat, y: nat, c: Color| allowed(x, y + rows_above, c)
}

/// `allowed` admits at most one colour at each pixel of a zone of `width` by
/// `height` pixels.
pub open spec fn single_valued(
    allowed: spec_fn(nat, nat, Color) -> bool,
    width: nat,
    height: nat,
) -> bool {
    forall|x: nat, y: nat, c1: Color, c2: Color|
        x < width && y < height && #[trigger] allowed(x, y, c1) && #[trigger] allowed(x, y, c2)
            ==> c1 == c2
}

/// `shade` may be called at every pixel of a zone of `width` by `height` pixels.
pub open spec fn accepts<F: Fn(u32, u32) -> Color>(shade: F, width: nat, height: nat) -> bool {
    forall|x: u32, y: u32| x < width && y < height ==> call_requires(shade, (x, y))
}

/// Fills a zone of `width` by `height` pixels: every pixel `(x, y)` receives
/// the colour that `shade` returns for it, at the pixel's place in `out`.
pub fn render_zone<F: Fn(u32, u32) -> Color>(width: u32, height: u32, out: &mut [u8], shade: F)
    requires
        old(out)@.len() == zone_len(width as nat, height as nat),
        accepts(shade, width as nat, height as nat),
    ensures
        renders(final(out)@, width as nat, height as nat, outcomes(shade)),
{
    let mut y: u32 = 0;
    while y < height
        invariant
            y <= height,
            out@.len() == zone_len(width as nat, height as nat),
            accepts(shade, width as nat, height as nat),
            forall|px: nat, py: nat|
                px < width && py < y ==> outcomes(shade)(
                    px,
                    py,
                    #[trigger] pixel_at(out@, width as nat, px, py),
                ),
        decreases height - y,
    {
        let mut x: u32 = 0;
        while x < width
            invariant
                x <= width,
                y < height,
                out@.len() == zone_len(width as nat, height as nat),
                accepts(shade, width as nat, height as nat),
                forall|px: nat, py: nat|
                    px < width && (py < y || (py == y && px < x)) ==> outcomes(shade)(
                        px,
                        py,
                        #[trigger] pixel_at(out@, width as nat, px, py),
                    ),
            decreases width - x,
        {
            let color = shade(x, y);
            let ghost before = out@;
            proof {
                lemma_pixel_inside(width as nat, height as nat, x as nat, y as nat);
            }
            put_pixel(out, width, x, y, color);
            proof {
                lemma_with_pixel(before, width as nat, x as nat, y as nat, color);
                assert forall|px: nat, py: nat|
                    px < width && (py < y || (py == y && px < x + 1)) implies outcomes(shade)(
                    px,
                    py,
                    #[trigger] pixel_at(out@, width as nat, px, py),
                ) by {
                    lemma_pixel_inside(width as nat, height as nat, px, py);
                    if px != x || py != y {
                        assert(outcomes(shade)(px, py, pixel_at(before, width as nat, px, py)));
                    }
                }
            }
            x += 1;
        }
        y += 1;
    }
}

/// Every byte of a zone belongs to one pixel of it: byte `at` is channel
/// `at % 3` of the pixel `at / 3`, counted row by row.
pub proof fn lemma_byte_to_pixel(width: nat, height: nat, at: nat) -> (p: (nat, nat))
    requires
        at < zone_len(width, height),
    ensures
        p.0 < width,
        p.1 < height,
        pixel_offset(width, p.0, p.1) <= at < pixel_offset(width, p.0, p.1) + 3,
{
    let pixel = at / 3;
    assert(width > 0 && pixel < width * height) by (nonlinear_arith)
        requires
            at < width * height * 3,
            pixel == at / 3,
    ;
    let x = pixel % width;
    let y = pixel / width;
    assert(y < height && pixel == y * width + x && x < width) by (nonlinear_arith)
        requires
            width > 0,
            pixel < width * height,
            x == pixel % width,
            y == pixel / width,
    ;
    (x, y)
}

/// A rendering is determined by its pixels: where `allowed` admits one colour
/// at most per pixel, any two buffers that it renders hold the same bytes.
pub proof fn lemma_rendering_unique(
    a: Seq<u8>,
    b: Seq<u8>,
    width: nat,
    height: nat,
    allowed: spec_fn(nat, nat, Color) -> bool,
)
    requires
        renders(a, width, height, allowed),
        renders(b, width, height, allowed),
        single_valued(allowed, width, height),
    ensures
        a == b,
{
    assert forall|at: int| 0 <= at < a.len() implies a[at] == b[at] by {
        let (x, y) = lemma_byte_to_pixel(width, height, at as nat);
        let in_a = pixel_at(a, width, x, y);
        let in_b = pixel_at(b, width, x, y);
        assert(allowed(x, y, in_a));
        assert(allowed(x, y, in_b));
        assert(in_a == in_b);
    }
    assert(a =~= b);
}

/// A zone rendered under one relation is rendered under every relation that
/// admits at least the same colours at its pixels.
pub proof fn lemma_renders_weaken(
    buf: Seq<u8>,
    width: nat,
    height: nat,
    narrow: spec_fn(nat, nat, Color) -> bool,
    wide: spec_fn(nat, nat, Color) -> bool,
)
    requires
        renders(buf, width, height, narrow),
        forall|x: nat, y: nat, c: Color|
            x < width && y < height && #[trigger] narrow(x, y, c) ==> wide(x, y, c),
    ensures
        renders(buf, width, height, wide),
{
    assert forall|x: nat, y: nat| x < width && y < height implies wide(
        x,
        y,
        #[trigger] pixel_at(buf, width, x, y),
    ) by {
        assert(narrow(x, y, pixel_at(buf, width, x, y)));
    }
}

} // verus!
