//! Export of a colour buffer as an RGBA image: the packed pixels are taken
//! apart and laid out, through the `image` crate's buffer, as four bytes
//! for each pixel.

use vstd::prelude::*;
use crate::grid::lemma_index;
use crate::raster::rgb_value;

verus! {

/// The red, green, blue and alpha channel of a packed `0xAARRGGBB` pixel.
pub open spec fn channels_of(px: u32) -> (u8, u8, u8, u8) {
    (
        ((px as int / 0x1_0000) % 0x100) as u8,
        ((px as int / 0x100) % 0x100) as u8,
        (px as int % 0x100) as u8,
        (px as int / 0x100_0000) as u8,
    )
}

/// Takes a packed `0xAARRGGBB` pixel apart into red, green, blue and alpha.
pub fn channels(px: u32) -> (c: (u8, u8, u8, u8))
    ensures
        c == channels_of(px),
{
    assert(((px >> 16) & 0xFF) == (px / 0x1_0000) % 0x100) by (bit_vector);
    assert(((px >> 8) & 0xFF) == (px / 0x100) % 0x100) by (bit_vector);
    assert((px & 0xFF) == px % 0x100) by (bit_vector);
    assert(((px >> 24) & 0xFF) == px / 0x100_0000) by (bit_vector);
    let a: u8 = ((px >> 24) & 0xFF) as u8;
    let r: u8 = ((px >> 16) & 0xFF) as u8;
    let g: u8 = ((px >> 8) & 0xFF) as u8;
    let b: u8 = (px & 0xFF) as u8;
    (r, g, b, a)
}

/// Taking apart a colour packed from three channels gives the three
/// channels back, with full alpha.
pub proof fn lemma_channels_of_rgb(r: u8, g: u8, b: u8)
    ensures
        channels_of(rgb_value(r, g, b) as u32) == (r, g, b, 0xFFu8),
{
}

/// An RGBA image of the `image` crate: an `image::RgbaImage`.
#[verifier::external_body]
pub struct RgbaCanvas {
    img: image::RgbaImage,
}

/// The bytes of the image: four for each pixel, in the order red, green,
/// blue, alpha, the pixels row by row from the top left.
pub uninterp spec fn canvas_bytes(c: RgbaCanvas) -> Seq<u8>;

/// The width that the image was made with.
pub uninterp spec fn canvas_width(c: RgbaCanvas) -> int;

/// `image::ImageBuffer::new`: an image of the given size in which every
/// channel of every pixel is zero. The call panics where the bytes of the
/// image outnumber what a vector can hold, which `requires` leaves out.
#[verifier::external_body]
fn blank_canvas(width: u32, height: u32) -> (c: RgbaCanvas)
    requires
        4 * width * height <= isize::MAX,
    ensures
        canvas_width(c) == width,
        canvas_bytes(c) == Seq::new((4 * width * height) as nat, |j: int| 0u8),
{
    RgbaCanvas { img: image::RgbaImage::new(width, height) }
}

/// `image::ImageBuffer::put_pixel`: writes the four channels of the pixel
/// at `(x, y)`, which lie from byte `4 (y width + x)` on, and nothing else.
/// The call panics on a position outside the image, which `requires` leaves
/// out: an image has four bytes for each of its pixels and no more, so the
/// second clause says that `y` is below its height.
#[verifier::external_body]
fn paint(c: &mut RgbaCanvas, x: u32, y: u32, px: (u8, u8, u8, u8))
    requires
        x < canvas_width(*old(c)),
        4 * (y * canvas_width(*old(c)) + x) + 4 <= canvas_bytes(*old(c)).len(),
    ensures
        canvas_width(*final(c)) == canvas_width(*old(c)),
        canvas_bytes(*final(c)) == {
            let at = 4 * (y * canvas_width(*old(c)) + x);
            canvas_bytes(*old(c)).update(at, px.0).update(at + 1, px.1).update(at + 2, px.2).update(
                at + 3,
                px.3,
            )
        },
{
    c.img.put_pixel(x, y, image::Rgba([px.0, px.1, px.2, px.3]));
}

/// `image::ImageBuffer::into_raw`: hands the bytes of the image out.
#[verifier::external_body]
fn into_bytes(c: RgbaCanvas) -> (bytes: Vec<u8>)
    ensures
        bytes@ == canvas_bytes(c),
{
    c.img.into_raw()
}

/// The channel `k` of a pixel, counted red, green, blue, alpha.
pub open spec fn channel(p: (u8, u8, u8, u8), k: int) -> u8 {
    if k == 0 {
        p.0
    } else if k == 1 {
        p.1
    } else if k == 2 {
        p.2
    } else {
        p.3
    }
}

/// The bytes of a colour buffer as an RGBA image: byte `4 i + k` is channel
/// `k` of pixel `i`.
pub open spec fn rgba_bytes(buf: Seq<u32>) -> Seq<u8> {
    Seq::new(4 * buf.len(), |j: int| channel(channels_of(buf[j / 4]), j % 4))
}

/// Whether an image of this size can be made: each side fits a `u32`, and
/// the bytes of the image fit a vector.
pub open spec fn exportable(w: int, h: int) -> bool {
    w <= u32::MAX && h <= u32::MAX && 4 * w * h <= isize::MAX
}

/// The bytes of the image while it is painted: those of the first `done`
/// pixels are the channels of the pixels, the others are zero.
spec fn bytes_begun(buf: Seq<u32>, done: int) -> Seq<u8> {
    Seq::new(
        4 * buf.len(),
        |j: int|
            if j < 4 * done {
                channel(channels_of(buf[j / 4]), j % 4)
            } else {
                0u8
            },
    )
}

/// Lays the colour buffer out as the bytes of an RGBA image of the same
/// size, or gives `None` where no image of that size can be made.
pub fn to_rgba_bytes(buf: &[u32], w: usize, h: usize) -> (r: Option<Vec<u8>>)
    requires
        buf.len() == w * h,
    ensures
        r is Some <==> exportable(w as int, h as int),
        r matches Some(bytes) ==> bytes@ == rgba_bytes(buf@),
{
    if w > 0xFFFF_FFFF || h > 0xFFFF_FFFF {
        return None;
    }
    assert(4 * w * h == 4 * (w * h)) by (nonlinear_arith);
    let n: usize = buf.len();
    if n > (isize::MAX as usize) / 4 {
        return None;
    }
    let mut c = blank_canvas(w as u32, h as u32);
    assert(canvas_bytes(c) =~= bytes_begun(buf@, 0));
    let mut y: usize = 0;
    while y < h
        invariant
            y <= h,
            w <= u32::MAX,
            h <= u32::MAX,
            buf@.len() == w * h,
            w * h <= usize::MAX,
            canvas_width(c) == w,
            canvas_bytes(c) == bytes_begun(buf@, y * w),
        decreases h - y,
    {
        let mut x: usize = 0;
        while x < w
            invariant
                x <= w,
                y < h,
                w <= u32::MAX,
                h <= u32::MAX,
                buf@.len() == w * h,
                w * h <= usize::MAX,
                canvas_width(c) == w,
                canvas_bytes(c) == bytes_begun(buf@, y * w + x),
            decreases w - x,
        {
            proof {
                lemma_index(w as int, h as int, x as int, y as int);
            }
            let px: u32 = buf[y * w + x];
            paint(&mut c, x as u32, y as u32, channels(px));
            assert(canvas_bytes(c) =~= bytes_begun(buf@, y * w + x + 1));
            x = x + 1;
        }
        assert((y + 1) * w == y * w + w) by (nonlinear_arith);
        y = y + 1;
    }
    assert(h * w == w * h) by (nonlinear_arith);
    let bytes = into_bytes(c);
    assert(bytes@ =~= rgba_bytes(buf@));
    Some(bytes)
}

} // verus!
