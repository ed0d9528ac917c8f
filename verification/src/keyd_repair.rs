//! Key image repair (`KeyImage#` and `KeyImage#D`).
//!
//! The opaque element of the image is found by its bounding box; the new canvas is
//! `ColumnWidth × 1.6` wide (twice that for `@2x` images); the element is scaled by the
//! ratio of the new width to the old one and placed at the old left padding, at the top;
//! the old bottom padding is kept below it.
use vstd::prelude::*;

use crate::image::{
    Image, ImageSpec, Pixel, buffer_len, clear, filled, fits_buffer,
    lemma_image_shaped, opaque_at, pixel, resize_lanczos3,
};
use crate::image_utils::{crop_region, find_bounding_box, has_content, is_bounding_box, region};
use crate::tail_repair::{column_width_scaled, width_for_column};

verus! {

broadcast use lemma_image_shaped;

/// The bounding box of the content of `s` (meaningful when `s` has content).
pub open spec fn bbox_of(s: ImageSpec) -> (int, int, int, int) {
    choose|b: (int, int, int, int)| is_bounding_box(s, b.0, b.1, b.2, b.3)
}

/// There is one bounding box only.
pub proof fn lemma_bounding_box_unique(s: ImageSpec, l: int, t: int, r: int, b: int, l2: int, t2: int, r2: int, b2: int)
    requires
        is_bounding_box(s, l, t, r, b),
        is_bounding_box(s, l2, t2, r2, b2),
    ensures
        l == l2 && t == t2 && r == r2 && b == b2,
{
    let y1 = choose|y: int| 0 <= y < s.height && #[trigger] opaque_at(s, l, y);
    let y2 = choose|y: int| 0 <= y < s.height && #[trigger] opaque_at(s, l2, y);
    let y3 = choose|y: int| 0 <= y < s.height && #[trigger] opaque_at(s, r - 1, y);
    let y4 = choose|y: int| 0 <= y < s.height && #[trigger] opaque_at(s, r2 - 1, y);
    let x1 = choose|x: int| 0 <= x < s.width && #[trigger] opaque_at(s, x, t);
    let x2 = choose|x: int| 0 <= x < s.width && #[trigger] opaque_at(s, x, t2);
    let x3 = choose|x: int| 0 <= x < s.width && #[trigger] opaque_at(s, x, b - 1);
    let x4 = choose|x: int| 0 <= x < s.width && #[trigger] opaque_at(s, x, b2 - 1);
}

/// `num / den` rounded half up (`den > 0`), saturated at `u32::MAX`.
pub open spec fn round_ratio(num: nat, den: nat) -> nat {
    let q = (2 * num + den) / (2 * den);
    if q > 0xffff_ffff { 0xffff_ffff } else { q }
}

/// The canvas width for column width `cw`: `cw × 1.6` rounded, doubled for `@2x`,
/// at least 1.
pub open spec fn key_width(cw: nat, is_2x: bool) -> nat {
    let w = if is_2x { width_for_column(cw) * 2 } else { width_for_column(cw) };
    if w == 0 { 1 } else { w }
}

/// `el` placed on a transparent `w` × `h` canvas with its top-left corner at
/// `(pad_left, 0)`; what does not fit is cut off.
pub open spec fn placed(el: ImageSpec, w: nat, h: nat, pad_left: nat) -> ImageSpec {
    ImageSpec {
        width: w,
        height: h,
        pixels: Seq::new(
            h,
            |y: int|
                Seq::new(
                    w,
                    |x: int|
                        if y < el.height && pad_left <= x < pad_left + el.width {
                            el.pixels[y][x - pad_left]
                        } else {
                            clear()
                        },
                ),
        ),
    }
}

/// A placed element stands upright at its place: canvas pixel `(X, y)` with
/// `pad_left <= X < pad_left + el.width` and `y < el.height` is element pixel
/// `(X - pad_left, y)`; every other pixel of the canvas is transparent.
pub proof fn lemma_placed_pixels(el: ImageSpec, w: nat, h: nat, pad_left: nat)
    ensures
        placed(el, w, h, pad_left).width == w,
        placed(el, w, h, pad_left).height == h,
        forall|xx: int, y: int|
            pad_left <= xx < pad_left + el.width && xx < w && 0 <= y < el.height && y < h ==> #[trigger] pixel(
                placed(el, w, h, pad_left),
                xx,
                y,
            ) == pixel(el, xx - pad_left, y),
        forall|xx: int, y: int|
            0 <= xx < w && 0 <= y < h && !(pad_left <= xx < pad_left + el.width && y < el.height) ==> #[trigger] pixel(
                placed(el, w, h, pad_left),
                xx,
                y,
            ) == clear(),
{
}

/// When the element keeps its size, the repaired key image shows the original element
/// unchanged and upright, at its old left offset and moved to the top: with `(l, t, rr, bb)`
/// the bounding box of the opaque pixels, canvas pixel `(X, y)` over the element's columns
/// is pixel `(X, t + y)` of the original for each of the element's rows `y`, and the rows
/// below the element are transparent.
pub proof fn lemma_repaired_key_element(s: ImageSpec, cw: nat, is_2x: bool, r: ImageSpec, l: int, t: int, rr: int, bb: int)
    requires
        is_bounding_box(s, l, t, rr, bb),
        scaled_element_size(s, key_width(cw, is_2x)) == ((rr - l) as nat, (bb - t) as nat),
        is_repaired_key(s, cw, is_2x, r),
    ensures
        forall|xx: int, y: int|
            l <= xx < rr && xx < key_width(cw, is_2x) && 0 <= y < bb - t ==> #[trigger] pixel(r, xx, y) == pixel(s, xx, t + y),
        forall|xx: int, y: int| 0 <= xx < r.width && bb - t <= y < r.height ==> #[trigger] pixel(r, xx, y) == clear(),
{
    let wit = (l, t, rr, bb);
    assert(is_bounding_box(s, wit.0, wit.1, wit.2, wit.3));
    let b = bbox_of(s);
    assert(is_bounding_box(s, b.0, b.1, b.2, b.3));
    lemma_bounding_box_unique(s, l, t, rr, bb, b.0, b.1, b.2, b.3);
    let y0 = choose|y: int| 0 <= y < s.height && #[trigger] opaque_at(s, l, y);
    assert(has_content(s));
    let new_w = key_width(cw, is_2x);
    let (ew, eh) = scaled_element_size(s, new_w);
    let el = region(s, b.0 as nat, b.1 as nat, (b.2 - b.0) as nat, (b.3 - b.1) as nat);
    let sc = choose|scaled: ImageSpec|
        scaled.width == ew && scaled.height == eh && (ew == el.width && eh == el.height ==> scaled == el)
            && r == #[trigger] placed(scaled, new_w, eh + (s.height - b.3) as nat, b.0 as nat);
    assert(sc == el);
    lemma_placed_pixels(el, new_w, eh + (s.height - b.3) as nat, b.0 as nat);
    assert forall|xx: int, y: int|
        l <= xx < rr && xx < new_w && 0 <= y < bb - t implies #[trigger] pixel(r, xx, y) == pixel(s, xx, t + y) by {
        assert(pixel(r, xx, y) == pixel(el, xx - l, y));
    }
}

/// The element's size after scaling by `new_w / old_w`: `size × new_w / old_w` in exact
/// arithmetic, rounded half up once. This is the true rounding of the scaled size; a
/// computation that first forms the ratio `new_w / old_w` in floating point can land just
/// below an exact half and round down instead (old width 14, new width 61, element width 7:
/// exactly 30.5, so 31 here, where the floating-point product gives 30).
pub open spec fn scaled_element_size(s: ImageSpec, new_w: nat) -> (nat, nat) {
    let b = bbox_of(s);
    (round_ratio(((b.2 - b.0) * new_w) as nat, s.width), round_ratio(((b.3 - b.1) * new_w) as nat, s.width))
}

/// `r` is a repaired key image of `s` for column width `cw`, its element scaled to
/// `size`: the element (the bounding box of the opaque pixels) is scaled to `size` and
/// placed on a transparent canvas of the key width, at its old left offset, keeping its
/// distance to the bottom. The scaled element is any image of that size (which pixels the
/// Lanczos3 resampling gives is not stated), and the element itself when its size does
/// not change.
pub open spec fn is_repaired_key_sized(s: ImageSpec, cw: nat, is_2x: bool, size: (nat, nat), r: ImageSpec) -> bool {
    let new_w = key_width(cw, is_2x);
    if s.width == 0 || s.height == 0 {
        r == filled(1, 1, clear())
    } else if !has_content(s) {
        r == filled(new_w, s.height, clear())
    } else {
        let b = bbox_of(s);
        let (ew, eh) = size;
        if ew == 0 || eh == 0 {
            r == filled(new_w, s.height, clear())
        } else {
            let el = region(s, b.0 as nat, b.1 as nat, (b.2 - b.0) as nat, (b.3 - b.1) as nat);
            exists|scaled: ImageSpec|
                scaled.width == ew && scaled.height == eh && (ew == el.width && eh == el.height ==> scaled == el)
                    && r == #[trigger] placed(scaled, new_w, eh + (s.height - b.3) as nat, b.0 as nat)
        }
    }
}

/// `r` is a repaired key image of `s` for column width `cw`, its element scaled to
/// [`scaled_element_size`] (see [`is_repaired_key_sized`]).
pub open spec fn is_repaired_key(s: ImageSpec, cw: nat, is_2x: bool, r: ImageSpec) -> bool {
    is_repaired_key_sized(s, cw, is_2x, scaled_element_size(s, key_width(cw, is_2x)), r)
}

/// What the repair of `s` with the element scaled to `size` allocates fits in memory
/// addresses, and its height fits a `u32`.
pub open spec fn key_repair_fits_sized(s: ImageSpec, cw: nat, is_2x: bool, size: (nat, nat)) -> bool {
    let new_w = key_width(cw, is_2x);
    &&& !is_2x || width_for_column(cw) * 2 <= 0xffff_ffff
    &&& buffer_len(new_w, s.height) <= usize::MAX
    &&& (s.width > 0 && s.height > 0 && has_content(s)) ==> {
        let b = bbox_of(s);
        let (ew, eh) = size;
        &&& eh + (s.height - b.3) <= 0xffff_ffff
        &&& buffer_len(ew, eh) <= usize::MAX
        &&& buffer_len((b.2 - b.0) as nat, eh) <= usize::MAX
        &&& buffer_len(new_w, eh + (s.height - b.3) as nat) <= usize::MAX
    }
}

/// What the repair of `s` allocates fits in memory addresses, and its height fits a `u32`.
pub open spec fn key_repair_fits(s: ImageSpec, cw: nat, is_2x: bool) -> bool {
    key_repair_fits_sized(s, cw, is_2x, scaled_element_size(s, key_width(cw, is_2x)))
}

/// Places a scaled element on a transparent `new_w` × `new_h` canvas at `(pad_left, 0)`.
pub fn place_element(scaled: &Image, new_w: u32, new_h: u32, pad_left: u32) -> (r: Image)
    requires
        scaled@.height <= new_h,
        buffer_len(new_w as nat, new_h as nat) <= usize::MAX,
    ensures
        r@ == placed(scaled@, new_w as nat, new_h as nat, pad_left as nat),
{
    let (ew, eh) = scaled.dimensions();
    let mut result = Image::new(new_w, new_h);
    let ghost spec = placed(scaled@, new_w as nat, new_h as nat, pad_left as nat);
    let mut y: u32 = 0;
    while y < eh
        invariant
            ew == scaled@.width,
            eh == scaled@.height,
            eh <= new_h,
            spec == placed(scaled@, new_w as nat, new_h as nat, pad_left as nat),
            y <= eh,
            result@.width == new_w,
            result@.height == new_h,
            forall|yy: int, xx: int| 0 <= yy < new_h && 0 <= xx < new_w ==> #[trigger] result@.pixels[yy][xx] == (if yy < y {
                spec.pixels[yy][xx]
            } else {
                clear()
            }),
        decreases eh - y,
    {
        let mut x: u32 = 0;
        while x < ew
            invariant
                ew == scaled@.width,
                eh == scaled@.height,
                eh <= new_h,
                spec == placed(scaled@, new_w as nat, new_h as nat, pad_left as nat),
                y < eh,
                x <= ew,
                result@.width == new_w,
                result@.height == new_h,
                forall|yy: int, xx: int| 0 <= yy < new_h && 0 <= xx < new_w ==> #[trigger] result@.pixels[yy][xx] == (if yy < y || (yy == y && pad_left <= xx < pad_left + x) {
                    spec.pixels[yy][xx]
                } else {
                    clear()
                }),
            ensures
                x == ew || pad_left + x >= new_w,
            decreases ew - x,
        {
            if pad_left >= new_w || x >= new_w - pad_left {
                break;
            }
            let dst_x = pad_left + x;
            let p = scaled.get_pixel(x, y);
            result.put_pixel(dst_x, y, p);
            x += 1;
        }
        assert(x == ew || pad_left + x >= new_w);
        y += 1;
    }
    assert(result@ =~= spec) by {
        assert forall|yy: int| 0 <= yy < new_h implies #[trigger] result@.pixels[yy] =~= spec.pixels[yy] by {
            assert forall|xx: int| 0 <= xx < new_w implies #[trigger] result@.pixels[yy][xx] == spec.pixels[yy][xx] by {}
        }
    }
    result
}


/// `num / den` rounded half up, saturated at `u32::MAX`.
fn round_ratio_exec(num: u64, den: u32) -> (q: u32)
    requires
        den > 0,
    ensures
        q == round_ratio(num as nat, den as nat),
{
    let r: u128 = (2 * (num as u128) + (den as u128)) / (2 * (den as u128));
    if r > 0xffff_ffff { 0xffff_ffff } else { r as u32 }
}

/// The canvas width of a repaired key image for column width `column_width`.
pub fn key_canvas_width(column_width: u32, is_2x: bool) -> (w: u32)
    requires
        !is_2x || width_for_column(column_width as nat) * 2 <= 0xffff_ffff,
    ensures
        w == key_width(column_width as nat, is_2x),
{
    let mut new_w = column_width_scaled(column_width);
    if is_2x {
        new_w = new_w * 2;
    }
    if new_w == 0 { 1 } else { new_w }
}

/// The size the element of `img` is scaled to, with exact rounding (see
/// [`scaled_element_size`]), for a canvas `new_w` wide; `(0, 0)` when `img` is empty or
/// has no opaque pixel.
pub fn element_size(img: &Image, new_w: u32) -> (r: (u32, u32))
    ensures
        img@.width > 0 && img@.height > 0 && has_content(img@) ==> r.0 == scaled_element_size(img@, new_w as nat).0
            && r.1 == scaled_element_size(img@, new_w as nat).1,
{
    let (old_w, old_h) = img.dimensions();
    if old_w == 0 || old_h == 0 {
        return (0, 0);
    }
    match find_bounding_box(img) {
        None => (0, 0),
        Some((left, top, right, bottom)) => {
            proof {
                let b = bbox_of(img@);
                assert(is_bounding_box(img@, left as int, top as int, right as int, bottom as int));
                assert(is_bounding_box(img@, b.0, b.1, b.2, b.3));
                lemma_bounding_box_unique(img@, left as int, top as int, right as int, bottom as int, b.0, b.1, b.2, b.3);
            }
            let element_w = right - left;
            let element_h = bottom - top;
            assert((element_w as nat) * (new_w as nat) <= 0xffff_ffffnat * 0xffff_ffffnat) by (nonlinear_arith)
                requires
                    element_w <= 0xffff_ffffnat,
                    new_w <= 0xffff_ffffnat,
            ;
            assert((element_h as nat) * (new_w as nat) <= 0xffff_ffffnat * 0xffff_ffffnat) by (nonlinear_arith)
                requires
                    element_h <= 0xffff_ffffnat,
                    new_w <= 0xffff_ffffnat,
            ;
            (round_ratio_exec((element_w as u64) * (new_w as u64), old_w), round_ratio_exec((element_h as u64) * (new_w as u64), old_w))
        },
    }
}

/// Repairs one key image for a column of width `column_width`; `is_2x` doubles the
/// canvas width for `@2x` images.
///
/// The element is scaled with exact rounding (see [`scaled_element_size`]): where the
/// scaled size is exactly a half, it rounds up, which a floating-point ratio may not do.
/// [`repair_key_image_sized`] takes the element's size from the caller instead.
pub fn repair_key_image(img: &Image, column_width: u32, is_2x: bool) -> (r: Image)
    requires
        key_repair_fits(img@, column_width as nat, is_2x),
    ensures
        is_repaired_key(img@, column_width as nat, is_2x, r@),
{
    let new_w = key_canvas_width(column_width, is_2x);
    let (ew, eh) = element_size(img, new_w);
    repair_key_image_sized(img, column_width, is_2x, ew, eh)
}

/// Repairs one key image for a column of width `column_width`, scaling its element to
/// `element_w_new` × `element_h_new` (see [`is_repaired_key_sized`]).
pub fn repair_key_image_sized(img: &Image, column_width: u32, is_2x: bool, element_w_new: u32, element_h_new: u32) -> (r: Image)
    requires
        key_repair_fits_sized(img@, column_width as nat, is_2x, (element_w_new as nat, element_h_new as nat)),
    ensures
        is_repaired_key_sized(img@, column_width as nat, is_2x, (element_w_new as nat, element_h_new as nat), r@),
{
    let (old_w, old_h) = img.dimensions();
    if old_w == 0 || old_h == 0 {
        return Image::new(1, 1);
    }
    let new_w = key_canvas_width(column_width, is_2x);
    let bbox = match find_bounding_box(img) {
        Some(b) => b,
        None => {
            return Image::new(new_w, old_h);
        },
    };
    let (left, top, right, bottom) = bbox;
    proof {
        let b = bbox_of(img@);
        assert(is_bounding_box(img@, left as int, top as int, right as int, bottom as int));
        assert(is_bounding_box(img@, b.0, b.1, b.2, b.3));
        lemma_bounding_box_unique(img@, left as int, top as int, right as int, bottom as int, b.0, b.1, b.2, b.3);
    }
    let element_w = right - left;
    let element_h = bottom - top;
    if element_w == 0 || element_h == 0 {
        return Image::new(new_w, old_h);
    }
    let pad_left = left;
    let pad_bottom = old_h - bottom;
    let new_element_w = element_w_new;
    let new_element_h = element_h_new;
    if new_element_w == 0 || new_element_h == 0 {
        return Image::new(new_w, old_h);
    }
    let new_h = new_element_h + pad_bottom;
    let element = crop_region(img, left, top, element_w, element_h);
    let scaled = resize_lanczos3(&element, new_element_w, new_element_h);
    let r = place_element(&scaled, new_w, new_h, pad_left);
    proof {
        let s = img@;
        let b = bbox_of(s);
        let nw = key_width(column_width as nat, is_2x);
        assert(nw == new_w);
        let (ew, eh) = (element_w_new as nat, element_h_new as nat);
        let el = region(s, b.0 as nat, b.1 as nat, (b.2 - b.0) as nat, (b.3 - b.1) as nat);
        assert(element@ == el);
        lemma_image_shaped(&element);
        assert(el.width == element_w && el.height == element_h);
        assert(scaled@.width == ew && scaled@.height == eh && (ew == el.width && eh == el.height ==> scaled@ == el));
        assert(new_h == eh + (s.height - b.3));
        assert(r@ == placed(scaled@, nw, eh + (s.height - b.3) as nat, b.0 as nat));
    }
    r
}


/// Whether [`repair_key_image_sized`] can run on `img` for `column_width`, `is_2x` and the
/// element size `ew` × `eh`: the doubled width fits a `u32` and the buffers fit in memory
/// addresses.
pub fn can_repair_key_sized(img: &Image, column_width: u32, is_2x: bool, ew: u32, eh: u32) -> (b: bool)
    ensures
        b == key_repair_fits_sized(img@, column_width as nat, is_2x, (ew as nat, eh as nat)),
{
    let w0 = column_width_scaled(column_width);
    if is_2x && w0 > 0x7fff_ffff {
        return false;
    }
    let w1 = if is_2x { w0 * 2 } else { w0 };
    let new_w = if w1 == 0 { 1 } else { w1 };
    let (old_w, old_h) = img.dimensions();
    if !fits_buffer(new_w, old_h) {
        return false;
    }
    if old_w == 0 || old_h == 0 {
        return true;
    }
    match find_bounding_box(img) {
        None => true,
        Some((left, top, right, bottom)) => {
            proof {
                let b = bbox_of(img@);
                assert(is_bounding_box(img@, left as int, top as int, right as int, bottom as int));
                assert(is_bounding_box(img@, b.0, b.1, b.2, b.3));
                lemma_bounding_box_unique(img@, left as int, top as int, right as int, bottom as int, b.0, b.1, b.2, b.3);
            }
            let element_w = right - left;
            let pad_bottom = old_h - bottom;
            if (eh as u64) + (pad_bottom as u64) > 0xffff_ffff {
                return false;
            }
            fits_buffer(ew, eh) && fits_buffer(element_w, eh) && fits_buffer(new_w, eh + pad_bottom)
        },
    }
}

/// Whether [`repair_key_image`] can run on `img` for `column_width` and `is_2x`: the
/// doubled width fits a `u32` and the buffers fit in memory addresses.
pub fn can_repair_key(img: &Image, column_width: u32, is_2x: bool) -> (b: bool)
    ensures
        b == key_repair_fits(img@, column_width as nat, is_2x),
{
    let w0 = column_width_scaled(column_width);
    if is_2x && w0 > 0x7fff_ffff {
        return false;
    }
    let new_w = key_canvas_width(column_width, is_2x);
    let (ew, eh) = element_size(img, new_w);
    can_repair_key_sized(img, column_width, is_2x, ew, eh)
}

} // verus!
