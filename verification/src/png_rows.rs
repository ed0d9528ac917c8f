//! Decisions on single decoded PNG rows, for reading an image row by row: whether a row
//! shows anything, and its pixels as RGBA.
use vstd::prelude::*;

use crate::image::Pixel;

verus! {

/// Some byte at a position `k` with `k % bpp == bpp - 1` (an alpha byte) is not zero.
pub open spec fn alpha_visible(data: Seq<u8>, bpp: int) -> bool {
    exists|k: int| 0 <= k < data.len() && k % bpp == bpp - 1 && #[trigger] data[k] > 0
}

/// Some pixel of `bpp` bytes has a non-zero byte among its first three.
pub open spec fn color_visible(data: Seq<u8>, bpp: int) -> bool {
    exists|k: int| 0 <= k < data.len() && k % bpp < 3 && #[trigger] data[k] > 0
}

/// Some byte is not zero.
pub open spec fn any_visible(data: Seq<u8>) -> bool {
    exists|k: int| 0 <= k < data.len() && #[trigger] data[k] > 0
}

/// A decoded row shows something: for a format with alpha, some alpha byte is not zero;
/// for one with three or more bytes per pixel, some color byte is not zero; else some byte
/// is not zero.
pub open spec fn row_visible(data: Seq<u8>, has_alpha: bool, bpp: int) -> bool {
    if has_alpha {
        alpha_visible(data, bpp)
    } else if bpp >= 3 {
        color_visible(data, bpp)
    } else {
        any_visible(data)
    }
}

/// Whether a decoded row shows something (see [`row_visible`]).
pub fn row_is_visible(data: &[u8], has_alpha: bool, bpp: usize) -> (b: bool)
    requires
        bpp > 0,
        (data@.len() as int) % (bpp as int) == 0,
    ensures
        b == row_visible(data@, has_alpha, bpp as int),
{
    let n = data.len();
    let mut k: usize = 0;
    while k < n
        invariant
            n == data@.len(),
            bpp > 0,
            k <= n,
            forall|j: int|
                0 <= j < k ==> !(#[trigger] data@[j] > 0 && (if has_alpha {
                    j % (bpp as int) == bpp - 1
                } else if bpp >= 3 {
                    j % (bpp as int) < 3
                } else {
                    true
                })),
        decreases n - k,
    {
        let pos = k % bpp;
        let counts = if has_alpha { pos == bpp - 1 } else if bpp >= 3 { pos < 3 } else { true };
        if counts && data[k] > 0 {
            assert(data@[k as int] > 0);
            return true;
        }
        k += 1;
    }
    proof {
        if has_alpha {
            assert(!alpha_visible(data@, bpp as int));
        } else if bpp >= 3 {
            assert(!color_visible(data@, bpp as int));
        } else {
            assert(!any_visible(data@));
        }
    }
    false
}

/// How a decoded row stores its pixels.
#[derive(Debug, Clone, Copy, PartialEq, Eq, Structural)]
pub enum RowLayout {
    Rgba,
    Rgb,
    GrayAlpha,
    Gray,
}

/// Bytes per pixel of a layout.
pub open spec fn layout_bytes(l: RowLayout) -> int {
    match l {
        RowLayout::Rgba => 4,
        RowLayout::Rgb => 3,
        RowLayout::GrayAlpha => 2,
        RowLayout::Gray => 1,
    }
}

/// Pixel `x` of a decoded row, as RGBA: gray is spread to the three colors, and a missing
/// alpha is opaque.
pub open spec fn row_pixel(data: Seq<u8>, l: RowLayout, x: int) -> Pixel {
    match l {
        RowLayout::Rgba => [data[4 * x], data[4 * x + 1], data[4 * x + 2], data[4 * x + 3]],
        RowLayout::Rgb => [data[3 * x], data[3 * x + 1], data[3 * x + 2], 255u8],
        RowLayout::GrayAlpha => [data[2 * x], data[2 * x], data[2 * x], data[2 * x + 1]],
        RowLayout::Gray => [data[x], data[x], data[x], 255u8],
    }
}

/// The first `width` pixels of a decoded row, as RGBA.
pub fn row_pixels(data: &[u8], layout: RowLayout, width: u32) -> (r: Vec<Pixel>)
    requires
        width * layout_bytes(layout) <= data@.len(),
    ensures
        r@.len() == width,
        forall|x: int| 0 <= x < width ==> #[trigger] r@[x] == row_pixel(data@, layout, x),
{
    let mut r: Vec<Pixel> = Vec::new();
    let mut x: usize = 0;
    let w = width as usize;
    let _n = data.len();
    while x < w
        invariant
            w == width,
            data@.len() <= usize::MAX,
            width * layout_bytes(layout) <= data@.len(),
            x <= w,
            r@.len() == x,
            forall|j: int| 0 <= j < x ==> #[trigger] r@[j] == row_pixel(data@, layout, j),
        decreases w - x,
    {
        assert((x + 1) * layout_bytes(layout) <= width * layout_bytes(layout)) by (nonlinear_arith)
            requires
                x < width,
                layout_bytes(layout) >= 1,
        ;
        let ghost lb = layout_bytes(layout);
        assert(lb * x + lb <= data@.len()) by (nonlinear_arith)
            requires
                (x + 1) * lb <= data@.len(),
        ;
        let p: Pixel = match layout {
            RowLayout::Rgba => [data[4 * x], data[4 * x + 1], data[4 * x + 2], data[4 * x + 3]],
            RowLayout::Rgb => [data[3 * x], data[3 * x + 1], data[3 * x + 2], 255],
            RowLayout::GrayAlpha => [data[2 * x], data[2 * x], data[2 * x], data[2 * x + 1]],
            RowLayout::Gray => [data[x], data[x], data[x], 255],
        };
        r.push(p);
        x += 1;
    }
    r
}

} // verus!
