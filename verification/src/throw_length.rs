//! Throw length of a note tail: the number of fully transparent rows above its content.
//!
//! Raising the throw length adds transparent rows at the top and moves the content
//! down; lowering it removes top rows and moves the content up. Either way the size is
//! kept, and the rows below the moved content are taken from the bottom of the original.
use vstd::prelude::*;

use crate::image::{Image, ImageSpec, Pixel, clear, filled, lemma_image_shaped, row_has_content, shaped};
use crate::image_utils::{find_first_non_transparent_row, first_content_row, first_content_row_from, row_has_pixel};

verus! {

broadcast use lemma_image_shaped;

/// The throw length: the index of the first row with content, or the height when the
/// image is fully transparent.
pub open spec fn throw_length(s: ImageSpec) -> nat {
    match first_content_row(s) {
        Some(y) => y,
        None => s.height,
    }
}

/// The current throw length of `img`.
pub fn find_throw_length(img: &Image) -> (t: u32)
    ensures
        t == throw_length(img@),
{
    match find_first_non_transparent_row(img) {
        Some(y) => y,
        None => img.height(),
    }
}

/// Whether the image can have its throw length changed (its height is above 5000),
/// and its height.
pub fn validate_tail_image(img: &Image) -> (r: (bool, u32))
    ensures
        r.0 == (img@.height > 5000),
        r.1 == img@.height,
{
    let h = img.height();
    (h > 5000, h)
}

/// A row of `w` transparent pixels.
pub open spec fn clear_row(w: nat) -> Seq<Pixel> {
    Seq::new(w, |x: int| clear())
}

/// Row `y` of `s` with its content moved from row `c` to row `t`: the rows from `t` on
/// take the rows from `c` on, as far as both exist; the other rows are transparent.
pub open spec fn shifted_row(s: ImageSpec, c: nat, t: nat, y: int) -> Seq<Pixel> {
    if t <= y && y < s.height && y < t + s.height - c {
        s.pixels[c + y - t]
    } else {
        clear_row(s.width)
    }
}

pub open spec fn shifted(s: ImageSpec, c: nat, t: nat) -> ImageSpec {
    ImageSpec { width: s.width, height: s.height, pixels: Seq::new(s.height, |y: int| shifted_row(s, c, t, y)) }
}

/// One past the last row below `y` that has content (0 when there is none).
pub open spec fn content_end_below(s: ImageSpec, y: nat) -> nat
    decreases y,
{
    if y == 0 {
        0
    } else if row_has_content(s, y - 1) {
        y
    } else {
        content_end_below(s, (y - 1) as nat)
    }
}

/// `s` with its throw length changed to `t` (see the module documentation); a 1 × 1
/// transparent image when `s` is empty.
pub open spec fn throw_modified(s: ImageSpec, t: nat) -> ImageSpec {
    if s.width == 0 || s.height == 0 {
        filled(1, 1, clear())
    } else {
        let c = throw_length(s);
        if t == c {
            s
        } else {
            let sh = shifted(s, c, t);
            if first_content_row(sh) is None {
                sh
            } else {
                let last = content_end_below(sh, s.height);
                ImageSpec {
                    width: s.width,
                    height: s.height,
                    pixels: Seq::new(s.height, |y: int| if y < last { sh.pixels[y] } else { s.pixels[y] }),
                }
            }
        }
    }
}

proof fn lemma_first_content_row_bound(s: ImageSpec, y: nat)
    ensures
        first_content_row_from(s, y) matches Some(r) ==> y <= r < s.height && row_has_content(s, r as int),
    decreases s.height - y,
{
    if y < s.height && !row_has_content(s, y as int) {
        lemma_first_content_row_bound(s, y + 1);
    }
}

proof fn lemma_first_content_row_at(s: ImageSpec, y: nat, r: nat)
    requires
        y <= r < s.height,
        row_has_content(s, r as int),
        forall|k: int| y <= k < r ==> !#[trigger] row_has_content(s, k),
    ensures
        first_content_row_from(s, y) == Some(r),
    decreases r - y,
{
    if y < r {
        lemma_first_content_row_at(s, y + 1, r);
    }
}

proof fn lemma_throw_length_bound(s: ImageSpec)
    ensures
        throw_length(s) <= s.height,
        throw_length(s) < s.height ==> row_has_content(s, throw_length(s) as int),
{
    lemma_first_content_row_bound(s, 0);
}

proof fn lemma_content_end_below(s: ImageSpec, y: nat, r: int)
    requires
        0 <= r < y,
        row_has_content(s, r),
    ensures
        r < content_end_below(s, y) <= y,
        content_end_below(s, y) >= 1 ==> row_has_content(s, content_end_below(s, y) - 1),
    decreases y,
{
    if !row_has_content(s, y - 1) {
        lemma_content_end_below(s, (y - 1) as nat, r);
    }
}

/// Changes the throw length of `img` to `target_throw`, keeping its size.
pub fn modify_throw_length(img: &Image, target_throw: u32) -> (r: Image)
    ensures
        r@ == throw_modified(img@, target_throw as nat),
{
    let (w, h) = img.dimensions();
    if w == 0 || h == 0 {
        return Image::new(1, 1);
    }
    let current = find_throw_length(img);
    proof {
        lemma_throw_length_bound(img@);
    }
    if target_throw == current {
        return img.clone();
    }
    let ghost s = img@;
    let ghost c = current as nat;
    let ghost t = target_throw as nat;
    let _n = img.raw_len();
    let mut result = Image::new(w, h);
    let ghost clear_w = clear_row(w as nat);
    assert(filled(w as nat, h as nat, clear()).pixels =~= Seq::new(h as nat, |y: int| clear_w));
    if target_throw > current {
        let shift = target_throw - current;
        let content_rows = if h > shift { h - shift } else { 0 };
        let copy_rows = if content_rows < h - current { content_rows } else { h - current };
        let mut dy: u32 = 0;
        while dy < copy_rows
            invariant
                s == img@,
                w == s.width,
                h == s.height,
                current <= h,
                target_throw > current,
                copy_rows <= h - current,
                dy <= copy_rows,
                target_throw + dy <= h || dy == 0,
                result@.width == w,
                result@.height == h,
                forall|y: int| 0 <= y < h ==> #[trigger] result@.pixels[y] == (if target_throw <= y < target_throw + dy {
                    s.pixels[current + y - target_throw]
                } else {
                    clear_row(w as nat)
                }),
            ensures
                dy == copy_rows || target_throw + dy >= h,
            decreases copy_rows - dy,
        {
            let src_y = current + dy;
            if target_throw >= h - dy {
                break;
            }
            let dst_y = target_throw + dy;
            result.copy_row(dst_y, img, src_y);
            dy += 1;
        }
        assert(result@ =~= shifted(s, c, t)) by {
            assert forall|y: int| 0 <= y < h implies #[trigger] result@.pixels[y] == shifted(s, c, t).pixels[y] by {}
        }
    } else {
        let content_rows = h - target_throw;
        let mut dy: u32 = 0;
        while dy < content_rows
            invariant
                s == img@,
                w == s.width,
                h == s.height,
                target_throw < current <= h,
                content_rows == h - target_throw,
                dy <= content_rows,
                current + dy <= h,
                result@.width == w,
                result@.height == h,
                forall|y: int| 0 <= y < h ==> #[trigger] result@.pixels[y] == (if target_throw <= y < target_throw + dy {
                    s.pixels[current + y - target_throw]
                } else {
                    clear_row(w as nat)
                }),
            ensures
                dy == content_rows || current + dy >= h,
            decreases content_rows - dy,
        {
            let src_y = current + dy;
            let dst_y = target_throw + dy;
            if src_y >= h || dst_y >= h {
                break;
            }
            result.copy_row(dst_y, img, src_y);
            dy += 1;
        }
        assert(result@ =~= shifted(s, c, t)) by {
            assert forall|y: int| 0 <= y < h implies #[trigger] result@.pixels[y] == shifted(s, c, t).pixels[y] by {}
        }
    }
    let ghost sh = result@;
    let result_throw = find_throw_length(&result);
    proof {
        lemma_throw_length_bound(sh);
        lemma_first_content_row_bound(sh, 0);
    }
    if result_throw >= h {
        return result;
    }
    let mut last_content_row = result_throw;
    let mut y = h;
    while y > result_throw
        invariant_except_break
            last_content_row == result_throw,
        invariant
            result@ == sh,
            h == sh.height,
            result_throw < y <= h,
            row_has_content(sh, result_throw as int),
            result_throw < h,
            content_end_below(sh, h as nat) == content_end_below(sh, y as nat),
        ensures
            last_content_row == content_end_below(sh, h as nat),
        decreases y,
    {
        if row_has_pixel(&result, y - 1) {
            last_content_row = y;
            break;
        }
        y -= 1;
    }
    proof {
        lemma_content_end_below(sh, h as nat, result_throw as int);
    }
    let bottom_gap = h - last_content_row;
    let ghost spec = throw_modified(s, t);
    if bottom_gap == 0 {
        assert(result@ =~= spec) by {
            assert forall|yy: int| 0 <= yy < h implies #[trigger] result@.pixels[yy] == spec.pixels[yy] by {}
        }
        return result;
    }
    let tile_h = bottom_gap;
    let tile_start = h - tile_h;
    let mut out_y = last_content_row;
    while out_y < h
        invariant
            s == img@,
            h == s.height,
            w == s.width,
            last_content_row <= out_y <= h,
            tile_start == last_content_row,
            result@.width == w,
            result@.height == h,
            forall|yy: int| 0 <= yy < h ==> #[trigger] result@.pixels[yy] == (if yy < last_content_row {
                sh.pixels[yy]
            } else if yy < out_y {
                s.pixels[yy]
            } else {
                sh.pixels[yy]
            }),
        decreases h - out_y,
    {
        let ty = out_y - last_content_row;
        result.copy_row(out_y, img, tile_start + ty);
        out_y += 1;
    }
    assert(result@ =~= spec) by {
        assert forall|yy: int| 0 <= yy < h implies #[trigger] result@.pixels[yy] == spec.pixels[yy] by {}
    }
    result
}


/// Changing the throw length keeps the size of a non-empty image.
pub proof fn lemma_modify_keeps_size(s: ImageSpec, t: nat)
    requires
        s.width > 0,
        s.height > 0,
    ensures
        throw_modified(s, t).width == s.width,
        throw_modified(s, t).height == s.height,
{
}

/// After changing the throw length of an image with content to `t`, its throw length
/// is `t`, or its height when `t` is not above the content's reach (`t >= height`).
pub proof fn lemma_modify_sets_throw(s: ImageSpec, t: nat)
    requires
        shaped(s),
        s.width > 0,
        throw_length(s) < s.height,
    ensures
        throw_length(throw_modified(s, t)) == if t < s.height { t } else { s.height },
{
    let c = throw_length(s);
    let h = s.height;
    lemma_throw_length_bound(s);
    if t != c {
        let sh = shifted(s, c, t);
        assert forall|y: int| 0 <= y < h && !(t <= y && y < t + h - c) implies !#[trigger] row_has_content(sh, y) by {
            assert(sh.pixels[y] == clear_row(s.width));
            if row_has_content(sh, y) {
                let x = choose|x: int| 0 <= x < sh.width && #[trigger] crate::image::opaque_at(sh, x, y);
                assert(sh.pixels[y][x] == clear());
            }
        }
        if t < h {
            assert(sh.pixels[t as int] == s.pixels[c as int]);
            assert(row_has_content(sh, t as int)) by {
                let x = choose|x: int| 0 <= x < s.width && #[trigger] crate::image::opaque_at(s, x, c as int);
                assert(crate::image::opaque_at(sh, x, t as int));
            }
            lemma_first_content_row_at(sh, 0, t);
            let last = content_end_below(sh, h);
            lemma_content_end_below(sh, h, t as int);
            let r = throw_modified(s, t);
            assert forall|y: int| 0 <= y <= t implies r.pixels[y] == #[trigger] sh.pixels[y] by {}
            assert(row_has_content(r, t as int)) by {
                let x = choose|x: int| 0 <= x < sh.width && #[trigger] crate::image::opaque_at(sh, x, t as int);
                assert(crate::image::opaque_at(r, x, t as int));
            }
            assert forall|k: int| 0 <= k < t implies !#[trigger] row_has_content(r, k) by {
                assert(r.pixels[k] == sh.pixels[k]);
                assert(!row_has_content(sh, k));
                if row_has_content(r, k) {
                    let x = choose|x: int| 0 <= x < r.width && #[trigger] crate::image::opaque_at(r, x, k);
                    assert(crate::image::opaque_at(sh, x, k));
                }
            }
            lemma_first_content_row_at(r, 0, t);
        } else {
            lemma_first_content_row_bound(sh, 0);
        }
    }
}

} // verus!
