//! Note tail repair for osu!lazer: the tail is scaled to `ColumnWidth × 1.6` wide,
//! keeping its aspect ratio, then cut or extended to 32800 rows (extended by repeating
//! its bottom 1000 rows).
use vstd::prelude::*;

use crate::image::{Image, ImageSpec, buffer_len, fits_buffer, lemma_image_shaped};
use crate::image_utils::{
    can_scale_to_width, crop_to_height, cropped_to_height, scale_fits, scale_to_width, is_scaled_to_width,
    tile_bottom_rows_to_height, tiled_to_height,
};

verus! {

broadcast use lemma_image_shaped;

/// The height of a repaired note tail.
pub const TAIL_TARGET_HEIGHT: u32 = 32800;

/// `cw × 1.6` rounded, saturated at `u32::MAX`.
pub open spec fn width_for_column(cw: nat) -> nat {
    let q = (16 * cw + 5) / 10;
    if q > 0xffff_ffff { 0xffff_ffff } else { q }
}

/// `cw × 1.6` rounded, saturated at `u32::MAX`.
pub fn column_width_scaled(cw: u32) -> (w: u32)
    ensures
        w == width_for_column(cw as nat),
{
    let q: u64 = (16 * (cw as u64) + 5) / 10;
    if q > 0xffff_ffff { 0xffff_ffff } else { q as u32 }
}

/// The width of a repaired tail for column width `cw` (at least 1).
pub open spec fn tail_width(cw: nat) -> nat {
    let w = width_for_column(cw);
    if w == 0 { 1 } else { w }
}

/// `s` cut to, or extended by its bottom 1000 rows to, 32800 rows.
pub open spec fn fitted_to_tail_height(s: ImageSpec) -> ImageSpec {
    if s.height > TAIL_TARGET_HEIGHT {
        cropped_to_height(s, TAIL_TARGET_HEIGHT as nat)
    } else if s.height < TAIL_TARGET_HEIGHT {
        tiled_to_height(s, if s.height < 1000 { s.height } else { 1000 }, TAIL_TARGET_HEIGHT as nat)
    } else {
        s
    }
}

/// Fitting a tail to 32800 rows keeps its top rows (all of them, up to 32800); what it
/// adds below a shorter tail comes from the tail's bottom 1000 rows (all its rows when it
/// has fewer): the first added row is the first row of that block, and from there on the
/// block repeats, each added row equal to the one a block's height above it.
pub proof fn lemma_fit_tail_rows(s: ImageSpec)
    requires
        s.width > 0,
        s.height > 0,
        s.pixels.len() == s.height,
    ensures
        ({
            let r = fitted_to_tail_height(s);
            let h = s.height as int;
            let t = if h < 1000 { h } else { 1000 };
            &&& r.width == s.width
            &&& r.height == TAIL_TARGET_HEIGHT
            &&& forall|y: int| 0 <= y < h && y < TAIL_TARGET_HEIGHT ==> #[trigger] r.pixels[y] == s.pixels[y]
            &&& h < TAIL_TARGET_HEIGHT ==> forall|y: int|
                h <= y < TAIL_TARGET_HEIGHT ==> exists|k: int| h - t <= k < h && #[trigger] r.pixels[y] == s.pixels[k]
            &&& h < TAIL_TARGET_HEIGHT ==> r.pixels[h] == s.pixels[h - t]
            &&& h < TAIL_TARGET_HEIGHT ==> forall|y: int|
                h + t <= y < TAIL_TARGET_HEIGHT ==> #[trigger] r.pixels[y] == r.pixels[y - t]
        }),
{
    let r = fitted_to_tail_height(s);
    let h = s.height as int;
    let t = if h < 1000 { h } else { 1000 };
    if h < TAIL_TARGET_HEIGHT {
        assert forall|y: int| h <= y < TAIL_TARGET_HEIGHT implies exists|k: int| h - t <= k < h && #[trigger] r.pixels[y] == s.pixels[k] by {
            let k = h - t + (y - h) % t;
            assert(r.pixels[y] == s.pixels[k]);
        }
        vstd::arithmetic::div_mod::lemma_small_mod(0nat, t as nat);
        assert(r.pixels[h] == s.pixels[h - t]);
        assert forall|y: int| h + t <= y < TAIL_TARGET_HEIGHT implies #[trigger] r.pixels[y] == r.pixels[y - t] by {
            vstd::arithmetic::div_mod::lemma_mod_add_multiples_vanish(y - t - h, t);
            assert(t + (y - t - h) == y - h);
        }
        assert forall|y: int| 0 <= y < h && y < TAIL_TARGET_HEIGHT implies #[trigger] r.pixels[y] == s.pixels[y] by {}
    } else {
        assert forall|y: int| 0 <= y < h && y < TAIL_TARGET_HEIGHT implies #[trigger] r.pixels[y] == s.pixels[y] by {}
    }
    assert(r.width == s.width);
    assert(r.height == TAIL_TARGET_HEIGHT);
}

/// Brings a scaled tail to exactly 32800 rows: cuts the bottom off a taller one,
/// repeats the bottom 1000 rows (or all rows, when fewer) of a shorter one.
pub fn fit_tail_height(scaled: &Image) -> (r: Image)
    requires
        buffer_len(scaled@.width, TAIL_TARGET_HEIGHT as nat) <= usize::MAX,
    ensures
        r@ == fitted_to_tail_height(scaled@),
{
    let scaled_h = scaled.height();
    if scaled_h > TAIL_TARGET_HEIGHT {
        crop_to_height(scaled, TAIL_TARGET_HEIGHT)
    } else if scaled_h < TAIL_TARGET_HEIGHT {
        let tile_height = if scaled_h < 1000 { scaled_h } else { 1000 };
        tile_bottom_rows_to_height(scaled, tile_height, TAIL_TARGET_HEIGHT)
    } else {
        scaled.clone()
    }
}

/// `r` is a repaired tail of `s` for column width `cw`: `s` scaled to the tail width (see
/// [`is_scaled_to_width`]), then brought to 32800 rows.
pub open spec fn is_repaired_tail(s: ImageSpec, cw: nat, r: ImageSpec) -> bool {
    exists|t: ImageSpec| is_scaled_to_width(s, tail_width(cw), t) && r == #[trigger] fitted_to_tail_height(t)
}

/// Repairs one note tail for a column of width `column_width`.
pub fn repair_tail_image(img: &Image, column_width: u32) -> (r: Image)
    requires
        scale_fits(img@, tail_width(column_width as nat)),
        buffer_len(tail_width(column_width as nat), TAIL_TARGET_HEIGHT as nat) <= usize::MAX,
    ensures
        is_repaired_tail(img@, column_width as nat, r@),
{
    let w = column_width_scaled(column_width);
    let target_width = if w == 0 { 1 } else { w };
    let scaled = scale_to_width(img, target_width);
    let r = fit_tail_height(&scaled);
    assert(is_scaled_to_width(img@, tail_width(column_width as nat), scaled@) && r@ == fitted_to_tail_height(scaled@));
    r
}

/// A repaired tail is `ColumnWidth × 1.6` (rounded, at least 1) wide and 32800 rows high,
/// for any non-empty source image.
pub proof fn lemma_repaired_tail_size(s: ImageSpec, cw: nat, r: ImageSpec)
    requires
        s.width > 0,
        s.height > 0,
        cw <= 0xffff_ffff,
        is_repaired_tail(s, cw, r),
    ensures
        r.width == tail_width(cw),
        r.height == TAIL_TARGET_HEIGHT,
{
    let t = choose|t: ImageSpec| is_scaled_to_width(s, tail_width(cw), t) && r == #[trigger] fitted_to_tail_height(t);
    assert(t.width == tail_width(cw));
}


/// Whether [`repair_tail_image`] can allocate its buffers for `img` and `column_width`.
pub fn can_repair_tail(img: &Image, column_width: u32) -> (b: bool)
    ensures
        b == (scale_fits(img@, tail_width(column_width as nat)) && buffer_len(
            tail_width(column_width as nat),
            TAIL_TARGET_HEIGHT as nat,
        ) <= usize::MAX),
{
    let w = column_width_scaled(column_width);
    let tw = if w == 0 { 1 } else { w };
    can_scale_to_width(img, tw) && fits_buffer(tw, TAIL_TARGET_HEIGHT)
}

} // verus!
