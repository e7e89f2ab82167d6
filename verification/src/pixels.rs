//! Integer pixel arithmetic of the raster renderer: straight and
//! premultiplied alpha, compositing glyph masks, and the in-place buffer
//! conversions done before encoding.
//!
//! Pixels are RGBA8, four bytes each, row after row.

use vstd::prelude::*;
use crate::codec::{demultiplied, demultiply, jpeg_encode_rgb8, jpeg_rgb8, png_encode_rgba8, png_rgba8};

verus! {

/// Straight-alpha component to premultiplied, rounded to nearest.
pub open spec fn premultiplied(c: u8, a: u8) -> u8 {
    ((c as int * a as int + 127) / 255) as u8
}

proof fn lemma_premultiplied(c: u8, a: u8)
    ensures
        (c as int * a as int + 127) / 255 <= a,
        0 <= (c as int * a as int + 127) / 255,
{
    assert((c as int * a as int + 127) / 255 <= a) by (nonlinear_arith)
        requires
            c <= 255,
            0 <= a <= 255,
    ;
    assert(0 <= (c as int * a as int + 127) / 255) by (nonlinear_arith)
        requires
            0 <= c,
            0 <= a,
    ;
}

/// Straight-alpha RGBA to premultiplied, the form the raster canvas stores.
/// The result never exceeds the alpha.
pub fn premultiply(component: u8, alpha: u8) -> (r: u8)
    ensures
        r == premultiplied(component, alpha),
        r <= alpha,
{
    proof {
        lemma_premultiplied(component, alpha);
    }
    ((component as u32 * alpha as u32 + 127) / 255) as u8
}

/// A premultiplied pixel is valid when no colour component exceeds its
/// alpha (the condition `tiny_skia::PremultipliedColorU8::from_rgba`
/// checks).
pub open spec fn valid_premultiplied(p: Seq<u8>, i: int) -> bool {
    p[4 * i] <= p[4 * i + 3] && p[4 * i + 1] <= p[4 * i + 3] && p[4 * i + 2] <= p[4 * i + 3]
}

/// Straight RGBA pixels, as many whole pixels as the buffer holds, turned
/// into premultiplied pixels.
pub fn premultiplied_pixels(rgba: &[u8]) -> (out: Vec<u8>)
    ensures
        out@.len() == 4 * (rgba@.len() / 4),
        forall|i: int|
            0 <= i < rgba@.len() / 4 ==> {
                &&& #[trigger] out@[4 * i] == premultiplied(rgba@[4 * i], rgba@[4 * i + 3])
                &&& out@[4 * i + 1] == premultiplied(rgba@[4 * i + 1], rgba@[4 * i + 3])
                &&& out@[4 * i + 2] == premultiplied(rgba@[4 * i + 2], rgba@[4 * i + 3])
                &&& out@[4 * i + 3] == rgba@[4 * i + 3]
                &&& valid_premultiplied(out@, i)
            },
{
    let n = rgba.len() / 4;
    let mut out: Vec<u8> = Vec::new();
    let mut i: usize = 0;
    while i < n
        invariant
            n == rgba@.len() / 4,
            rgba@.len() == rgba.len(),
            i <= n,
            out@.len() == 4 * i,
            forall|j: int|
                0 <= j < i ==> {
                    &&& #[trigger] out@[4 * j] == premultiplied(rgba@[4 * j], rgba@[4 * j + 3])
                    &&& out@[4 * j + 1] == premultiplied(rgba@[4 * j + 1], rgba@[4 * j + 3])
                    &&& out@[4 * j + 2] == premultiplied(rgba@[4 * j + 2], rgba@[4 * j + 3])
                    &&& out@[4 * j + 3] == rgba@[4 * j + 3]
                    &&& valid_premultiplied(out@, j)
                },
        decreases n - i,
    {
        assert(4 * i + 3 < rgba.len());
        let a = rgba[4 * i + 3];
        let r = premultiply(rgba[4 * i], a);
        let g = premultiply(rgba[4 * i + 1], a);
        let b = premultiply(rgba[4 * i + 2], a);
        let ghost before = out@;
        out.push(r);
        out.push(g);
        out.push(b);
        out.push(a);
        assert forall|j: int| 0 <= j < i + 1 implies {
            &&& #[trigger] out@[4 * j] == premultiplied(rgba@[4 * j], rgba@[4 * j + 3])
            &&& out@[4 * j + 1] == premultiplied(rgba@[4 * j + 1], rgba@[4 * j + 3])
            &&& out@[4 * j + 2] == premultiplied(rgba@[4 * j + 2], rgba@[4 * j + 3])
            &&& out@[4 * j + 3] == rgba@[4 * j + 3]
            &&& valid_premultiplied(out@, j)
        } by {
            if j < i {
                assert(out@[4 * j] == before[4 * j]);
                assert(out@[4 * j + 1] == before[4 * j + 1]);
                assert(out@[4 * j + 2] == before[4 * j + 2]);
                assert(out@[4 * j + 3] == before[4 * j + 3]);
            }
        }
        i = i + 1;
    }
    out
}

/// Premultiplied RGBA back to straight RGBA, one pixel: an opaque pixel is
/// kept, a fully transparent one becomes black, an invalid one is kept, and
/// any other gets the colour `tiny_skia` demultiplies it to.
pub open spec fn straight_pixel(r: u8, g: u8, b: u8, a: u8) -> (u8, u8, u8) {
    if a == 255 {
        (r, g, b)
    } else if a == 0 {
        (0, 0, 0)
    } else if r <= a && g <= a && b <= a {
        demultiplied(r, g, b, a)
    } else {
        (r, g, b)
    }
}

/// Premultiplied RGBA to straight RGBA, over the same buffer: every whole
/// pixel's colour is replaced by `straight_pixel`, alphas and any trailing
/// partial pixel are untouched.
pub fn demultiply_in_place(data: &mut [u8])
    ensures
        final(data)@.len() == old(data)@.len(),
        forall|i: int|
            0 <= i < old(data)@.len() / 4 ==> {
                let s = straight_pixel(
                    old(data)@[4 * i],
                    old(data)@[4 * i + 1],
                    old(data)@[4 * i + 2],
                    old(data)@[4 * i + 3],
                );
                &&& #[trigger] final(data)@[4 * i] == s.0
                &&& final(data)@[4 * i + 1] == s.1
                &&& final(data)@[4 * i + 2] == s.2
                &&& final(data)@[4 * i + 3] == old(data)@[4 * i + 3]
            },
        forall|k: int|
            4 * (old(data)@.len() / 4) <= k < old(data)@.len() ==> final(data)@[k] == old(data)@[k],
{
    let ghost orig = data@;
    let n = data.len() / 4;
    let mut i: usize = 0;
    while i < n
        invariant
            n == orig.len() / 4,
            i <= n,
            data@.len() == orig.len(),
            data@.len() == data.len(),
            forall|j: int|
                0 <= j < i ==> {
                    let s = straight_pixel(orig[4 * j], orig[4 * j + 1], orig[4 * j + 2], orig[4 * j + 3]);
                    &&& #[trigger] data@[4 * j] == s.0
                    &&& data@[4 * j + 1] == s.1
                    &&& data@[4 * j + 2] == s.2
                    &&& data@[4 * j + 3] == orig[4 * j + 3]
                },
            forall|k: int| 4 * i <= k < orig.len() ==> data@[k] == orig[k],
        decreases n - i,
    {
        assert(4 * i + 3 < data.len());
        let p = 4 * i;
        let (r, g, b, a) = (data[p], data[p + 1], data[p + 2], data[p + 3]);
        let ghost before = data@;
        if a == 255 {
        } else if a == 0 {
            data[p] = 0;
            data[p + 1] = 0;
            data[p + 2] = 0;
        } else if r <= a && g <= a && b <= a {
            let (dr, dg, db) = demultiply(r, g, b, a);
            data[p] = dr;
            data[p + 1] = dg;
            data[p + 2] = db;
        }
        assert forall|j: int| 0 <= j < i + 1 implies {
            let s = straight_pixel(orig[4 * j], orig[4 * j + 1], orig[4 * j + 2], orig[4 * j + 3]);
            &&& #[trigger] data@[4 * j] == s.0
            &&& data@[4 * j + 1] == s.1
            &&& data@[4 * j + 2] == s.2
            &&& data@[4 * j + 3] == orig[4 * j + 3]
        } by {
            if j < i {
                assert(data@[4 * j] == before[4 * j]);
                assert(data@[4 * j + 1] == before[4 * j + 1]);
                assert(data@[4 * j + 2] == before[4 * j + 2]);
                assert(data@[4 * j + 3] == before[4 * j + 3]);
            }
        }
        i = i + 1;
    }
}

/// Packs the first `pixels` RGBA pixels into RGB triples at the front of the
/// same buffer, dropping the alpha. A single forward pass is safe because it
/// reads four bytes per pixel ahead of the three it writes.
pub fn rgba_to_rgb_in_place(data: &mut [u8], pixels: usize)
    requires
        4 * pixels <= old(data)@.len(),
    ensures
        final(data)@.len() == old(data)@.len(),
        forall|i: int, k: int|
            0 <= i < pixels && 0 <= k < 3 ==> #[trigger] final(data)@[3 * i + k] == old(data)@[4 * i
                + k],
{
    let ghost orig = data@;
    let mut i: usize = 0;
    while i < pixels
        invariant
            4 * pixels <= orig.len(),
            i <= pixels,
            data@.len() == orig.len(),
            data@.len() == data.len(),
            forall|j: int, k: int|
                0 <= j < i && 0 <= k < 3 ==> #[trigger] data@[3 * j + k] == orig[4 * j + k],
            forall|q: int| 3 * i <= q < orig.len() ==> data@[q] == orig[q],
        decreases pixels - i,
    {
        assert(i * 4 + 3 < data.len());
        let rgb = [data[i * 4], data[i * 4 + 1], data[i * 4 + 2]];
        data[i * 3] = rgb[0];
        data[i * 3 + 1] = rgb[1];
        data[i * 3 + 2] = rgb[2];
        assert forall|j: int, k: int| 0 <= j < i + 1 && 0 <= k < 3 implies #[trigger] data@[3 * j
            + k] == orig[4 * j + k] by {
            if j == i {
                assert(data@[3 * j + k] == orig[4 * j + k]);
            }
        }
        i = i + 1;
    }
}


/// A premultiplied buffer read as straight RGBA: each whole pixel's colour
/// is `straight_pixel`'s; alphas and a trailing partial pixel stay.
pub open spec fn straight_pixels(p: Seq<u8>) -> Seq<u8> {
    Seq::new(
        p.len(),
        |k: int|
            if k < 4 * (p.len() / 4) && k % 4 < 3 {
                let q = 4 * (k / 4);
                let s = straight_pixel(p[q], p[q + 1], p[q + 2], p[q + 3]);
                if k % 4 == 0 {
                    s.0
                } else if k % 4 == 1 {
                    s.1
                } else {
                    s.2
                }
            } else {
                p[k]
            },
    )
}

/// The red, green and blue of the first `pixels` RGBA pixels, packed.
pub open spec fn rgb_of(p: Seq<u8>, pixels: int) -> Seq<u8> {
    Seq::new((3 * pixels) as nat, |k: int| p[4 * (k / 3) + k % 3])
}

/// The JPEG quality actually asked for: clamped into 1..=100.
pub open spec fn jpeg_quality(quality: u8) -> u8 {
    if quality < 1 {
        1
    } else if quality > 100 {
        100
    } else {
        quality
    }
}

proof fn lemma_straight_pixels(before: Seq<u8>, after: Seq<u8>)
    requires
        after.len() == before.len(),
        forall|i: int|
            0 <= i < before.len() / 4 ==> {
                let s = straight_pixel(before[4 * i], before[4 * i + 1], before[4 * i + 2], before[4 * i + 3]);
                &&& #[trigger] after[4 * i] == s.0
                &&& after[4 * i + 1] == s.1
                &&& after[4 * i + 2] == s.2
                &&& after[4 * i + 3] == before[4 * i + 3]
            },
        forall|k: int| 4 * (before.len() / 4) <= k < before.len() ==> after[k] == before[k],
    ensures
        after == straight_pixels(before),
{
    assert forall|k: int| 0 <= k < after.len() implies after[k] == #[trigger] straight_pixels(
        before,
    )[k] by {
        if k < 4 * (before.len() / 4) {
            let i = k / 4;
            assert(k == 4 * i + k % 4);
            assert(0 <= i < before.len() / 4);
            assert(after[4 * i] == straight_pixel(before[4 * i], before[4 * i + 1], before[4 * i + 2], before[4 * i + 3]).0);
        }
    }
    assert(after =~= straight_pixels(before));
}

/// Premultiplied RGBA pixels to a PNG file: the buffer is demultiplied in
/// place (PNG wants straight alpha) and handed to the encoder as it stands.
/// `None` when the encoder refuses, which it does for an empty side.
pub fn png_from_premultiplied(pixels: &mut [u8], width: u32, height: u32) -> (out: Option<Vec<u8>>)
    requires
        old(pixels)@.len() == 4 * width * height,
    ensures
        final(pixels)@ == straight_pixels(old(pixels)@),
        match out {
            Some(v) => png_rgba8(straight_pixels(old(pixels)@), width, height) == Some(v@),
            None => png_rgba8(straight_pixels(old(pixels)@), width, height) is None,
        },
        width == 0 || height == 0 ==> out is None,
{
    let ghost before = pixels@;
    let len = pixels.len();
    demultiply_in_place(pixels);
    proof {
        lemma_straight_pixels(before, pixels@);
    }
    // Half a byte per pixel, at least 8 KiB: what the pages drawn here
    // compress to, so the output rarely grows past its first buffer.
    let half = len / 8;
    let capacity = if half < 8192 {
        8192
    } else {
        half
    };
    png_encode_rgba8(pixels, width, height, capacity)
}

/// Premultiplied RGBA pixels to a JPEG file: the buffer is demultiplied,
/// then packed to RGB at its front in place, the alpha dropped (the sheet is
/// opaque), and the quality clamped into 1..=100. `None` when the encoder
/// refuses, which it does for a side of zero or above 65535.
pub fn jpeg_from_premultiplied(pixels: &mut [u8], width: u32, height: u32, quality: u8) -> (out:
    Option<Vec<u8>>)
    requires
        old(pixels)@.len() == 4 * width * height,
    ensures
        final(pixels)@.len() == old(pixels)@.len(),
        match out {
            Some(v) => jpeg_rgb8(
                rgb_of(straight_pixels(old(pixels)@), width * height),
                width,
                height,
                jpeg_quality(quality),
            ) == Some(v@),
            None => jpeg_rgb8(
                rgb_of(straight_pixels(old(pixels)@), width * height),
                width,
                height,
                jpeg_quality(quality),
            ) is None,
        },
        width == 0 || height == 0 || width > 65535 || height > 65535 ==> out is None,
{
    let ghost before = pixels@;
    let len = pixels.len();
    assert(width * height <= len && 4 * (width * height) == len) by (nonlinear_arith)
        requires
            len == 4 * width * height,
    ;
    let count = width as usize * height as usize;
    demultiply_in_place(pixels);
    proof {
        lemma_straight_pixels(before, pixels@);
    }
    let ghost straight = pixels@;
    rgba_to_rgb_in_place(pixels, count);
    let rgb = vstd::slice::slice_subrange(pixels, 0, count * 3);
    assert(rgb@ =~= rgb_of(straight, width * height)) by {
        assert forall|k: int| 0 <= k < 3 * count implies rgb@[k] == #[trigger] rgb_of(
            straight,
            count as int,
        )[k] by {
            let i = k / 3;
            let c = k % 3;
            assert(k == 3 * i + c);
            assert(pixels@[3 * i + c] == straight[4 * i + c]);
        }
    }
    assert(rgb@.len() == 3 * width * height) by (nonlinear_arith)
        requires
            rgb@.len() == 3 * count,
            count == width * height,
    ;
    let q = if quality < 1 {
        1
    } else if quality > 100 {
        100
    } else {
        quality
    };
    jpeg_encode_rgb8(rgb, width, height, q)
}

/// How many rows (or columns) of a glyph mask are walked: the mask's size
/// read as an `i32`, and none at all when the cast wraps negative.
pub open spec fn walked(n: u32) -> int {
    if n <= i32::MAX {
        n as int
    } else {
        0
    }
}

/// The alpha the mask puts over the pixel at `(x, y)` of the target: zero
/// outside the mask, and zero everywhere when the mask buffer is too short.
pub open spec fn coverage(
    mask: Seq<u8>,
    width: u32,
    height: u32,
    left: i32,
    top: i32,
    x: int,
    y: int,
) -> u8 {
    if width == 0 || height == 0 || mask.len() < width * height {
        0
    } else if left <= x < left + walked(width) && top <= y < top + walked(height) {
        mask[(y - top) * width + (x - left)]
    } else {
        0
    }
}

/// `min(v, 255)`.
pub open spec fn clamp255(v: int) -> u8 {
    if v < 255 {
        v as u8
    } else {
        255
    }
}

/// Source-over of `color` at coverage `a` onto a premultiplied pixel. A
/// result that is not a valid premultiplied colour leaves the pixel as it
/// was (never the case for a valid pixel; see
/// `law_blending_keeps_pixels_valid`).
pub open spec fn blend(p: (u8, u8, u8, u8), a: u8, color: [u8; 3]) -> (u8, u8, u8, u8) {
    let inv = 255 - a;
    let r = clamp255(premultiplied(color[0], a) + (p.0 * inv + 127) / 255);
    let g = clamp255(premultiplied(color[1], a) + (p.1 * inv + 127) / 255);
    let b = clamp255(premultiplied(color[2], a) + (p.2 * inv + 127) / 255);
    let al = clamp255(a + (p.3 * inv + 127) / 255);
    if r <= al && g <= al && b <= al {
        (r, g, b, al)
    } else {
        p
    }
}

/// The pixel at index `i` of a buffer.
pub open spec fn pixel(s: Seq<u8>, i: int) -> (u8, u8, u8, u8) {
    (s[4 * i], s[4 * i + 1], s[4 * i + 2], s[4 * i + 3])
}

/// The pixel `(x, y)` after the mask is composited: blended where the mask
/// covers it, unchanged elsewhere.
pub open spec fn masked_pixel(
    old: Seq<u8>,
    tw: int,
    x: int,
    y: int,
    mask: Seq<u8>,
    width: u32,
    height: u32,
    left: i32,
    top: i32,
    color: [u8; 3],
) -> (u8, u8, u8, u8) {
    let a = coverage(mask, width, height, left, top, x, y);
    if a == 0 {
        pixel(old, y * tw + x)
    } else {
        blend(pixel(old, y * tw + x), a, color)
    }
}

proof fn lemma_cell(tw: int, th: int, x: int, y: int)
    requires
        0 <= x < tw,
        0 <= y < th,
    ensures
        0 <= y * tw + x < tw * th,
{
    assert(0 <= y * tw + x < tw * th) by (nonlinear_arith)
        requires
            0 <= x < tw,
            0 <= y < th,
    ;
}

proof fn lemma_cells_differ(tw: int, x1: int, y1: int, x2: int, y2: int)
    requires
        0 <= x1 < tw,
        0 <= x2 < tw,
        0 <= y1,
        0 <= y2,
        x1 != x2 || y1 != y2,
    ensures
        y1 * tw + x1 != y2 * tw + x2,
{
    assert(y1 * tw + x1 != y2 * tw + x2) by (nonlinear_arith)
        requires
            0 <= x1 < tw,
            0 <= x2 < tw,
            0 <= y1,
            0 <= y2,
            x1 != x2 || y1 != y2,
    ;
}

/// Whether the walk has already reached mask cell `(r, c)` when it is at
/// row `row`, column `col`.
pub open spec fn reached(r: int, c: int, row: int, col: int) -> bool {
    r < row || (r == row && c < col)
}

/// The pixel `(x, y)` while the walk is at row `row`, column `col`.
pub open spec fn partly_masked(
    old: Seq<u8>,
    tw: int,
    x: int,
    y: int,
    mask: Seq<u8>,
    width: u32,
    height: u32,
    left: i32,
    top: i32,
    color: [u8; 3],
    row: int,
    col: int,
) -> (u8, u8, u8, u8) {
    if reached(y - top, x - left, row, col) {
        masked_pixel(old, tw, x, y, mask, width, height, left, top, color)
    } else {
        pixel(old, y * tw + x)
    }
}

/// Blends an 8-bit alpha mask over a premultiplied RGBA canvas of
/// `target_width` by `target_height` pixels, in `color`, source-over, with
/// the mask's top-left corner at `(left, top)`. Parts of the mask outside
/// the canvas are clipped; a mask buffer too short for its size draws
/// nothing.
pub fn blend_mask(
    target: &mut [u8],
    target_width: i32,
    target_height: i32,
    mask: &[u8],
    width: u32,
    height: u32,
    left: i32,
    top: i32,
    color: [u8; 3],
)
    requires
        0 <= target_width,
        0 <= target_height,
        target_width * target_height <= i32::MAX,
        old(target)@.len() == 4 * target_width * target_height,
        width * height <= u32::MAX,
        walked(height) == 0 || top + walked(height) - 1 <= i32::MAX,
        walked(width) == 0 || left + walked(width) - 1 <= i32::MAX,
    ensures
        final(target)@.len() == old(target)@.len(),
        forall|x: int, y: int|
            0 <= x < target_width && 0 <= y < target_height ==> #[trigger] pixel(
                final(target)@,
                y * target_width + x,
            ) == masked_pixel(
                old(target)@,
                target_width as int,
                x,
                y,
                mask@,
                width,
                height,
                left,
                top,
                color,
            ),
{
    let ghost orig = target@;
    let ghost tw = target_width as int;
    let ghost th = target_height as int;
    if width == 0 || height == 0 || mask.len() < (width * height) as usize {
        return;
    }
    let rows: i32 = if height <= 0x7fff_ffffu32 {
        height as i32
    } else {
        0
    };
    let cols: i32 = if width <= 0x7fff_ffffu32 {
        width as i32
    } else {
        0
    };
    let mut row: i32 = 0;
    while row < rows
        invariant
            0 <= row <= rows,
            rows == walked(height),
            cols == walked(width),
            width > 0 && height > 0 && mask@.len() >= width * height,
            width * height <= u32::MAX,
            target@.len() == orig.len(),
            target@.len() == target.len(),
            orig.len() == 4 * tw * th,
            tw == target_width,
            th == target_height,
            0 <= tw,
            0 <= th,
            tw * th <= i32::MAX,
            rows == 0 || top + rows - 1 <= i32::MAX,
            cols == 0 || left + cols - 1 <= i32::MAX,
            forall|x: int, y: int|
                0 <= x < tw && 0 <= y < th ==> #[trigger] pixel(target@, y * tw + x) == partly_masked(
                    orig,
                    tw,
                    x,
                    y,
                    mask@,
                    width,
                    height,
                    left,
                    top,
                    color,
                    row as int,
                    0,
                ),
        decreases rows - row,
    {
        let y = top + row;
        if y >= 0 && y < target_height {
            let mut col: i32 = 0;
            while col < cols
                invariant
                    0 <= row < rows,
                    0 <= col <= cols,
                    rows == walked(height),
                    cols == walked(width),
                    y == top + row,
                    0 <= y < th,
                    width > 0 && height > 0 && mask@.len() >= width * height,
                    width * height <= u32::MAX,
                    target@.len() == orig.len(),
                    target@.len() == target.len(),
                    orig.len() == 4 * tw * th,
                    tw == target_width,
                    th == target_height,
                    0 <= tw,
                    tw * th <= i32::MAX,
                    cols == 0 || left + cols - 1 <= i32::MAX,
                    forall|x: int, yy: int|
                        0 <= x < tw && 0 <= yy < th ==> #[trigger] pixel(target@, yy * tw + x)
                            == partly_masked(
                            orig,
                            tw,
                            x,
                            yy,
                            mask@,
                            width,
                            height,
                            left,
                            top,
                            color,
                            row as int,
                            col as int,
                        ),
                decreases cols - col,
            {
                let x = left + col;
                if x >= 0 && x < target_width {
                    let r32: u32 = row as u32;
                    let c32: u32 = col as u32;
                    proof {
                        assert(r32 * width + c32 < width * height) by (nonlinear_arith)
                            requires
                                0 <= r32 < height,
                                0 <= c32 < width,
                        ;
                    }
                    let a = mask[(r32 * width + c32) as usize];
                    if a != 0 {
                        proof {
                            lemma_cell(tw, th, x as int, y as int);
                            assert(4 * tw * th == 4 * (tw * th)) by (nonlinear_arith);
                        }
                        let idx = (y * target_width + x) as usize;
                        assert(idx as int == y * tw + x);
                        let ghost before = target@;
                        let p = 4 * idx;
                        let (pr, pg, pb, pa) = (target[p], target[p + 1], target[p + 2], target[p + 3]);
                        let inverse: u32 = 255 - a as u32;
                        let r = mix(color[0], pr, a, inverse);
                        let g = mix(color[1], pg, a, inverse);
                        let b = mix(color[2], pb, a, inverse);
                        proof {
                            assert(pa as u32 * inverse <= 255 * 255) by (nonlinear_arith)
                                requires
                                    pa <= 255,
                                    inverse <= 255,
                            ;
                        }
                        let al_wide: u32 = a as u32 + (pa as u32 * inverse + 127) / 255;
                        let al: u8 = if al_wide < 255 {
                            al_wide as u8
                        } else {
                            255
                        };
                        if r <= al && g <= al && b <= al {
                            target[p] = r;
                            target[p + 1] = g;
                            target[p + 2] = b;
                            target[p + 3] = al;
                        }
                        proof {
                            let here = y * tw + x;
                            assert((y - top) * width + (x - left) == r32 * width + c32);
                            assert(coverage(mask@, width, height, left, top, x as int, y as int) == a);
                            assert(pixel(before, here) == partly_masked(
                                orig, tw, x as int, y as int, mask@, width, height, left, top, color,
                                row as int, col as int,
                            ));
                            assert(pixel(before, here) == pixel(orig, here));
                            assert(pixel(target@, here) == blend(pixel(orig, here), a, color));
                            assert forall|xx: int, yy: int|
                                0 <= xx < tw && 0 <= yy < th implies #[trigger] pixel(
                                target@,
                                yy * tw + xx,
                            ) == partly_masked(
                                orig,
                                tw,
                                xx,
                                yy,
                                mask@,
                                width,
                                height,
                                left,
                                top,
                                color,
                                row as int,
                                col + 1,
                            ) by {
                                lemma_cell(tw, th, xx, yy);
                                if xx != x || yy != y {
                                    lemma_cells_differ(tw, xx, yy, x as int, y as int);
                                    assert(pixel(target@, yy * tw + xx) == pixel(before, yy * tw + xx));
                                }
                            }
                        }
                    } else {
                        proof {
                            assert forall|xx: int, yy: int|
                                0 <= xx < tw && 0 <= yy < th implies #[trigger] pixel(
                                target@,
                                yy * tw + xx,
                            ) == partly_masked(
                                orig,
                                tw,
                                xx,
                                yy,
                                mask@,
                                width,
                                height,
                                left,
                                top,
                                color,
                                row as int,
                                col + 1,
                            ) by {
                                lemma_cell(tw, th, xx, yy);
                            }
                        }
                    }
                } else {
                    proof {
                        assert forall|xx: int, yy: int|
                            0 <= xx < tw && 0 <= yy < th implies #[trigger] pixel(target@, yy * tw + xx)
                            == partly_masked(
                            orig,
                            tw,
                            xx,
                            yy,
                            mask@,
                            width,
                            height,
                            left,
                            top,
                            color,
                            row as int,
                            col + 1,
                        ) by {
                            lemma_cell(tw, th, xx, yy);
                        }
                    }
                }
                col = col + 1;
            }
            proof {
                assert forall|xx: int, yy: int|
                    0 <= xx < tw && 0 <= yy < th implies #[trigger] pixel(target@, yy * tw + xx)
                    == partly_masked(
                    orig,
                    tw,
                    xx,
                    yy,
                    mask@,
                    width,
                    height,
                    left,
                    top,
                    color,
                    row + 1,
                    0,
                ) by {
                    lemma_cell(tw, th, xx, yy);
                }
            }
        } else {
            proof {
                assert forall|xx: int, yy: int|
                    0 <= xx < tw && 0 <= yy < th implies #[trigger] pixel(target@, yy * tw + xx)
                    == partly_masked(
                    orig,
                    tw,
                    xx,
                    yy,
                    mask@,
                    width,
                    height,
                    left,
                    top,
                    color,
                    row + 1,
                    0,
                ) by {
                    lemma_cell(tw, th, xx, yy);
                }
            }
        }
        row = row + 1;
    }
    proof {
        assert forall|xx: int, yy: int|
            0 <= xx < tw && 0 <= yy < th implies #[trigger] pixel(target@, yy * tw + xx)
            == masked_pixel(orig, tw, xx, yy, mask@, width, height, left, top, color) by {
            lemma_cell(tw, th, xx, yy);
        }
    }
}

/// One colour channel of source-over: the premultiplied source at coverage
/// `a` plus what shows through of the previous value, capped at 255.
fn mix(new: u8, previous: u8, a: u8, inverse: u32) -> (r: u8)
    requires
        inverse == 255 - a,
    ensures
        r == clamp255(premultiplied(new, a) + (previous * inverse + 127) / 255),
{
    proof {
        assert(previous as u32 * inverse <= 255 * 255) by (nonlinear_arith)
            requires
                previous <= 255,
                inverse <= 255,
        ;
    }
    let v: u32 = premultiply(new, a) as u32 + (previous as u32 * inverse + 127) / 255;
    if v < 255 {
        v as u8
    } else {
        255
    }
}

/// Blending never produces an invalid premultiplied pixel from a valid one:
/// the validity check before the write always passes on a valid canvas.
pub proof fn law_blending_keeps_pixels_valid(p: (u8, u8, u8, u8), a: u8, color: [u8; 3])
    requires
        p.0 <= p.3,
        p.1 <= p.3,
        p.2 <= p.3,
    ensures
        ({
            let inv = 255 - a;
            let al = clamp255(a + (p.3 * inv + 127) / 255);
            &&& clamp255(premultiplied(color[0], a) + (p.0 * inv + 127) / 255) <= al
            &&& clamp255(premultiplied(color[1], a) + (p.1 * inv + 127) / 255) <= al
            &&& clamp255(premultiplied(color[2], a) + (p.2 * inv + 127) / 255) <= al
        }),
        blend(p, a, color).0 <= blend(p, a, color).3,
        blend(p, a, color).1 <= blend(p, a, color).3,
        blend(p, a, color).2 <= blend(p, a, color).3,
{
    let inv = 255 - a;
    lemma_premultiplied(color[0], a);
    lemma_premultiplied(color[1], a);
    lemma_premultiplied(color[2], a);
    assert((p.0 * inv + 127) / 255 <= (p.3 * inv + 127) / 255) by (nonlinear_arith)
        requires
            p.0 <= p.3,
            0 <= inv,
    ;
    assert((p.1 * inv + 127) / 255 <= (p.3 * inv + 127) / 255) by (nonlinear_arith)
        requires
            p.1 <= p.3,
            0 <= inv,
    ;
    assert((p.2 * inv + 127) / 255 <= (p.3 * inv + 127) / 255) by (nonlinear_arith)
        requires
            p.2 <= p.3,
            0 <= inv,
    ;
}

/// Where row `row` of a crop starts in an RGBA8 buffer `width` pixels wide,
/// for a crop whose top-left pixel is `(left, top)`.
pub open spec fn row_start(width: int, left: int, top: int, row: int) -> int {
    ((top + row) * width + left) * 4
}

/// The first `rows` rows of the crop `crop_width` pixels wide at
/// `(left, top)`, one after the other.
pub open spec fn cropped(src: Seq<u8>, width: int, left: int, top: int, crop_width: int, rows: int) -> Seq<u8>
    decreases rows,
{
    if rows <= 0 {
        Seq::empty()
    } else {
        let start = row_start(width, left, top, rows - 1);
        cropped(src, width, left, top, crop_width, rows - 1) + src.subrange(start, start + 4 * crop_width)
    }
}

proof fn lemma_row_inside(
    width: int,
    height: int,
    left: int,
    top: int,
    crop_width: int,
    row: int,
    last: int,
)
    requires
        0 <= left,
        0 <= top,
        0 <= crop_width,
        left + crop_width <= width,
        0 <= row <= last,
        top + row < height,
    ensures
        0 <= row_start(width, left, top, row),
        row_start(width, left, top, row) + 4 * crop_width <= 4 * width * height,
        row_start(width, left, top, row) <= row_start(width, left, top, last),
{
    assert(row_start(width, left, top, row) <= row_start(width, left, top, last)) by (nonlinear_arith)
        requires
            0 <= row <= last,
            0 <= width,
    ;
    assert(0 <= row_start(width, left, top, row)) by (nonlinear_arith)
        requires
            0 <= left,
            0 <= top,
            0 <= row,
            0 <= width,
    ;
    assert(((top + row) * width + left) * 4 + 4 * crop_width <= 4 * width * height) by (nonlinear_arith)
        requires
            left + crop_width <= width,
            0 <= top + row,
            top + row + 1 <= height,
            0 <= width,
    ;
}

/// The pixels of a `crop_width` by `crop_height` crop of an RGBA8 image
/// `width` by `height` pixels, whose top-left pixel is `(left, top)`, row
/// after row.
pub fn crop_pixels(
    rgba: &[u8],
    width: u32,
    height: u32,
    left: u32,
    top: u32,
    crop_width: u32,
    crop_height: u32,
) -> (out: Vec<u8>)
    requires
        rgba@.len() == 4 * width * height,
        left + crop_width <= width,
        top + crop_height <= height,
        crop_height == 0 || row_start(width as int, left as int, top as int, crop_height - 1) <= u32::MAX,
    ensures
        out@ == cropped(rgba@, width as int, left as int, top as int, crop_width as int, crop_height as int),
{
    let len = rgba.len();
    let mut out: Vec<u8> = Vec::new();
    let mut row: u32 = 0;
    while row < crop_height
        invariant
            rgba@.len() == 4 * width * height,
            rgba@.len() == len,
            left + crop_width <= width,
            top + crop_height <= height,
            crop_height == 0 || row_start(width as int, left as int, top as int, crop_height - 1) <= u32::MAX,
            row <= crop_height,
            out@ == cropped(rgba@, width as int, left as int, top as int, crop_width as int, row as int),
        decreases crop_height - row,
    {
        proof {
            lemma_row_inside(
                width as int,
                height as int,
                left as int,
                top as int,
                crop_width as int,
                row as int,
                crop_height - 1,
            );
        }
        let start: u32 = ((top + row) * width + left) * 4;
        let end: usize = start as usize + crop_width as usize * 4;
        let ghost before = out@;
        let mut k: usize = start as usize;
        while k < end
            invariant
                rgba@.len() == 4 * width * height,
                start <= k <= end,
                end <= rgba@.len(),
                out@ == before + rgba@.subrange(start as int, k as int),
            decreases end - k,
        {
            out.push(rgba[k]);
            assert(rgba@.subrange(start as int, k + 1) =~= rgba@.subrange(start as int, k as int).push(
                rgba@[k as int],
            ));
            k = k + 1;
        }
        assert(out@ =~= cropped(rgba@, width as int, left as int, top as int, crop_width as int, row + 1));
        row = row + 1;
    }
    out
}

/// The quality handed to the JPEG encoder is the asked one clamped into
/// 1..=100: always within that range, the asked quality itself when it lies
/// there, and never decreasing as the asked quality grows (so 0 asks for 1
/// and anything above 100 for 100).
pub proof fn law_the_jpeg_quality_is_clamped(q: u8, r: u8)
    ensures
        1 <= jpeg_quality(q) <= 100,
        1 <= q <= 100 ==> jpeg_quality(q) == q,
        q <= r ==> jpeg_quality(q) <= jpeg_quality(r),
        q == 0 ==> jpeg_quality(q) == 1,
        q > 100 ==> jpeg_quality(q) == 100,
{
}

} // verus!
