//! Image helpers: content rows, bounding boxes, cropping, tiling and scaling.
use vstd::prelude::*;

use crate::text::chars_of;
use crate::image::{
    Image, ImageSpec, Pixel, buffer_len, clear, filled, lemma_image_shaped,
    fits_buffer, opaque_at, pixel, resize_lanczos3, row_has_content, shaped, with_row,
};

verus! {

broadcast use lemma_image_shaped;

/// Whether row `y` holds a pixel that is not fully transparent.
pub fn row_has_pixel(img: &Image, y: u32) -> (b: bool)
    requires
        y < img@.height,
    ensures
        b == row_has_content(img@, y as int),
{
    let w = img.width();
    let mut x: u32 = 0;
    while x < w
        invariant
            w == img@.width,
            y < img@.height,
            x <= w,
            forall|k: int| 0 <= k < x ==> !#[trigger] opaque_at(img@, k, y as int),
        decreases w - x,
    {
        if img.alpha(x, y) > 0 {
            assert(opaque_at(img@, x as int, y as int));
            return true;
        }
        x += 1;
    }
    false
}

/// The first row, from `y` on, that holds a pixel that is not fully transparent.
pub open spec fn first_content_row_from(s: ImageSpec, y: nat) -> Option<nat>
    decreases s.height - y,
{
    if y >= s.height {
        None
    } else if row_has_content(s, y as int) {
        Some(y)
    } else {
        first_content_row_from(s, y + 1)
    }
}

/// The first row that holds a pixel that is not fully transparent.
pub open spec fn first_content_row(s: ImageSpec) -> Option<nat> {
    first_content_row_from(s, 0)
}

/// Index of the first row, from the top, with a pixel that is not fully transparent;
/// `None` for a fully transparent image.
pub fn find_first_non_transparent_row(img: &Image) -> (r: Option<u32>)
    ensures
        match r {
            Some(y) => first_content_row(img@) == Some(y as nat),
            None => first_content_row(img@) is None,
        },
{
    let h = img.height();
    let mut y: u32 = 0;
    while y < h
        invariant
            h == img@.height,
            y <= h,
            first_content_row(img@) == first_content_row_from(img@, y as nat),
        decreases h - y,
    {
        if row_has_pixel(img, y) {
            return Some(y);
        }
        y += 1;
    }
    None
}

/// `s` has a pixel that is not fully transparent.
pub open spec fn has_content(s: ImageSpec) -> bool {
    exists|x: int, y: int| 0 <= x < s.width && 0 <= y < s.height && #[trigger] opaque_at(s, x, y)
}

/// `(l, t, r, b)` = (left, top, right, bottom), right and bottom exclusive, is the smallest
/// rectangle that holds every pixel of `s` that is not fully transparent.
pub open spec fn is_bounding_box(s: ImageSpec, l: int, t: int, r: int, b: int) -> bool {
    &&& 0 <= l < r <= s.width
    &&& 0 <= t < b <= s.height
    &&& forall|x: int, y: int|
        0 <= x < s.width && 0 <= y < s.height && #[trigger] opaque_at(s, x, y) ==> l <= x < r && t <= y < b
    &&& exists|y: int| 0 <= y < s.height && #[trigger] opaque_at(s, l, y)
    &&& exists|y: int| 0 <= y < s.height && #[trigger] opaque_at(s, r - 1, y)
    &&& exists|x: int| 0 <= x < s.width && #[trigger] opaque_at(s, x, t)
    &&& exists|x: int| 0 <= x < s.width && #[trigger] opaque_at(s, x, b - 1)
}

/// The bounding rectangle `(left, top, right, bottom)` of the pixels that are not fully
/// transparent, right and bottom exclusive; `None` for a fully transparent image.
pub fn find_bounding_box(img: &Image) -> (r: Option<(u32, u32, u32, u32)>)
    ensures
        r is Some <==> has_content(img@),
        r matches Some(b) ==> is_bounding_box(img@, b.0 as int, b.1 as int, b.2 as int, b.3 as int),
{
    let (w, h) = img.dimensions();
    let ghost s = img@;
    let mut left = w;
    let mut top = h;
    let mut right: u32 = 0;
    let mut bottom: u32 = 0;
    let mut has_pixel = false;
    let ghost mut ly: int = 0;
    let ghost mut ry: int = 0;
    let ghost mut tx: int = 0;
    let ghost mut bx: int = 0;
    let mut y: u32 = 0;
    while y < h
        invariant
            s == img@,
            w == s.width,
            h == s.height,
            y <= h,
            has_pixel <==> exists|x: int, yy: int| 0 <= x < w && 0 <= yy < y && #[trigger] opaque_at(s, x, yy),
            forall|x: int, yy: int|
                0 <= x < w && 0 <= yy < y && #[trigger] opaque_at(s, x, yy) ==> left <= x < right && top <= yy < bottom,
            has_pixel ==> 0 <= ly < h && opaque_at(s, left as int, ly),
            has_pixel ==> 0 <= ry < h && right >= 1 && opaque_at(s, right - 1, ry),
            has_pixel ==> 0 <= tx < w && opaque_at(s, tx, top as int),
            has_pixel ==> 0 <= bx < w && bottom >= 1 && opaque_at(s, bx, bottom - 1),
            right <= w,
            bottom <= h,
        decreases h - y,
    {
        let mut x: u32 = 0;
        while x < w
            invariant
                s == img@,
                w == s.width,
                h == s.height,
                y < h,
                x <= w,
                has_pixel <==> (exists|xx: int, yy: int| 0 <= xx < w && 0 <= yy < y && #[trigger] opaque_at(s, xx, yy))
                    || (exists|xx: int| 0 <= xx < x && #[trigger] opaque_at(s, xx, y as int)),
                forall|xx: int, yy: int|
                    0 <= xx < w && 0 <= yy < y && #[trigger] opaque_at(s, xx, yy) ==> left <= xx < right && top <= yy < bottom,
                forall|xx: int| 0 <= xx < x && #[trigger] opaque_at(s, xx, y as int) ==> left <= xx < right && top <= y < bottom,
                has_pixel ==> 0 <= ly < h && opaque_at(s, left as int, ly),
                has_pixel ==> 0 <= ry < h && right >= 1 && opaque_at(s, right - 1, ry),
                has_pixel ==> 0 <= tx < w && opaque_at(s, tx, top as int),
                has_pixel ==> 0 <= bx < w && bottom >= 1 && opaque_at(s, bx, bottom - 1),
                right <= w,
                bottom <= h,
            decreases w - x,
        {
            if img.alpha(x, y) > 0 {
                assert(opaque_at(s, x as int, y as int));
                if !has_pixel || x < left {
                    left = x;
                    proof { ly = y as int; }
                }
                if !has_pixel || y < top {
                    top = y;
                    proof { tx = x as int; }
                }
                if !has_pixel || x + 1 > right {
                    right = x + 1;
                    proof { ry = y as int; }
                }
                if !has_pixel || y + 1 > bottom {
                    bottom = y + 1;
                    proof { bx = x as int; }
                }
                has_pixel = true;
            }
            x += 1;
        }
        y += 1;
    }
    if has_pixel {
        assert(0 <= ly < h && opaque_at(s, left as int, ly));
        assert(0 <= ry < h && opaque_at(s, right - 1, ry));
        assert(0 <= tx < w && opaque_at(s, tx, top as int));
        assert(0 <= bx < w && opaque_at(s, bx, bottom - 1));
        assert(forall|x: int, yy: int|
            0 <= x < s.width && 0 <= yy < s.height && #[trigger] opaque_at(s, x, yy) ==> left <= x < right && top <= yy < bottom);
        assert(exists|yy: int| 0 <= yy < s.height && #[trigger] opaque_at(s, left as int, yy));
        assert(exists|yy: int| 0 <= yy < s.height && #[trigger] opaque_at(s, right - 1, yy));
        assert(exists|x: int| 0 <= x < s.width && #[trigger] opaque_at(s, x, top as int));
        assert(exists|x: int| 0 <= x < s.width && #[trigger] opaque_at(s, x, bottom - 1));
        Some((left, top, right, bottom))
    } else {
        None
    }
}

/// The top `th` rows of `s`, or `s` itself when it is not taller.
pub open spec fn cropped_to_height(s: ImageSpec, th: nat) -> ImageSpec {
    if s.height <= th {
        s
    } else {
        ImageSpec { width: s.width, height: th, pixels: s.pixels.take(th as int) }
    }
}

/// Keeps the top `target_height` rows.
pub fn crop_to_height(img: &Image, target_height: u32) -> (r: Image)
    ensures
        r@ == cropped_to_height(img@, target_height as nat),
{
    let (w, h) = img.dimensions();
    if h <= target_height {
        return img.clone();
    }
    proof {
        assert(buffer_len(w as nat, target_height as nat) <= buffer_len(w as nat, h as nat)) by (nonlinear_arith)
            requires
                target_height < h,
        ;
    }
    let _n = img.raw_len();
    let mut out = Image::new(w, target_height);
    let mut y: u32 = 0;
    while y < target_height
        invariant
            w == img@.width,
            h == img@.height,
            target_height < h,
            y <= target_height,
            out@.width == w,
            out@.height == target_height,
            forall|k: int| 0 <= k < y ==> #[trigger] out@.pixels[k] == img@.pixels[k],
        decreases target_height - y,
    {
        out.copy_row(y, img, y);
        y += 1;
    }
    assert(out@ =~= cropped_to_height(img@, target_height as nat)) by {
        assert(out@.pixels =~= img@.pixels.take(target_height as int));
    }
    out
}

/// The source row of output row `y` when the bottom `tile_h` rows of `s` are repeated
/// after the first `copy_h` rows.
pub open spec fn tile_source_row(h: nat, tile_h: nat, copy_h: nat, y: int) -> int {
    if y < copy_h {
        y
    } else {
        h - tile_h + (y - copy_h) % (tile_h as int)
    }
}

/// `s` extended (or cut) to `total` rows: its rows first, then its bottom `tile_height`
/// rows over and over. With no width or no total height, a 1 × 1 transparent image;
/// with no rows to repeat, the rest is transparent.
pub open spec fn tiled_to_height(s: ImageSpec, tile_height: nat, total: nat) -> ImageSpec {
    if s.width == 0 || total == 0 {
        filled(1, 1, clear())
    } else {
        let tile_h = if tile_height < s.height { tile_height } else { s.height };
        let copy_h = if s.height < total { s.height } else { total };
        ImageSpec {
            width: s.width,
            height: total,
            pixels: Seq::new(
                total,
                |y: int|
                    if y < copy_h || tile_h > 0 {
                        s.pixels[tile_source_row(s.height, tile_h, copy_h, y)]
                    } else {
                        Seq::new(s.width, |x: int| clear())
                    },
            ),
        }
    }
}

/// Repeats the bottom `tile_height` rows of `img` below its own rows up to `total_height`
/// rows; the width is kept.
pub fn tile_bottom_rows_to_height(img: &Image, tile_height: u32, total_height: u32) -> (r: Image)
    requires
        buffer_len(img@.width, total_height as nat) <= usize::MAX,
    ensures
        r@ == tiled_to_height(img@, tile_height as nat, total_height as nat),
{
    let (w, h) = img.dimensions();
    if w == 0 || total_height == 0 {
        return Image::new(1, 1);
    }
    let tile_h = if tile_height < h { tile_height } else { h };
    let copy_h = if h < total_height { h } else { total_height };
    let ghost spec = tiled_to_height(img@, tile_height as nat, total_height as nat);
    let mut out = Image::new(w, total_height);
    let mut y: u32 = 0;
    while y < copy_h
        invariant
            w == img@.width,
            h == img@.height,
            w > 0,
            copy_h <= h,
            copy_h <= total_height,
            y <= copy_h,
            out@.width == w,
            out@.height == total_height,
            forall|k: int| 0 <= k < y ==> #[trigger] out@.pixels[k] == img@.pixels[k],
            forall|k: int| y <= k < total_height ==> #[trigger] out@.pixels[k] == Seq::new(w as nat, |x: int| clear()),
        decreases copy_h - y,
    {
        out.copy_row(y, img, y);
        y += 1;
    }
    if tile_h > 0 && copy_h < total_height {
        let tile_start = h - tile_h;
        let mut out_y = copy_h;
        let mut ty: u32 = 0;
        assert(0int % (tile_h as int) == 0) by (nonlinear_arith)
            requires
                0 < tile_h,
        ;
        while out_y < total_height
            invariant
                w == img@.width,
                h == img@.height,
                0 < tile_h <= h,
                tile_start == h - tile_h,
                copy_h <= out_y <= total_height,
                ty < tile_h,
                ty == (out_y - copy_h) % (tile_h as int),
                out@.width == w,
                out@.height == total_height,
                forall|k: int| 0 <= k < copy_h ==> #[trigger] out@.pixels[k] == img@.pixels[k],
                forall|k: int| copy_h <= k < out_y ==> #[trigger] out@.pixels[k] == img@.pixels[
                    tile_source_row(h as nat, tile_h as nat, copy_h as nat, k)],
            decreases total_height - out_y,
        {
            out.copy_row(out_y, img, tile_start + ty);
            proof {
                assert((out_y + 1 - copy_h) % (tile_h as int) == if ty + 1 == tile_h { 0 } else { ty + 1 }) by (nonlinear_arith)
                    requires
                        ty == (out_y - copy_h) % (tile_h as int),
                        ty < tile_h,
                        0 < tile_h,
                        copy_h <= out_y,
                ;
            }
            ty = if ty + 1 == tile_h { 0 } else { ty + 1 };
            out_y += 1;
        }
        assert(out@ =~= spec) by {
            assert forall|k: int| 0 <= k < total_height implies #[trigger] out@.pixels[k] == spec.pixels[k] by {}
        }
    } else {
        assert(out@ =~= spec) by {
            assert forall|k: int| 0 <= k < total_height implies #[trigger] out@.pixels[k] == spec.pixels[k] by {}
        }
    }
    out
}


/// `h * tw / w` rounded half up, capped at `u32::MAX` (the height that keeps the aspect
/// ratio at width `tw`).
pub open spec fn scaled_height(w: nat, h: nat, tw: nat) -> nat {
    let q = (2 * h * tw + w) / (2 * w);
    if q > 0xffff_ffff { 0xffff_ffff } else { q }
}

/// The height an image of `w` × `h` gets when scaled to width `tw` (at least 1).
pub open spec fn scale_target_height(w: nat, h: nat, tw: nat) -> nat {
    let th = scaled_height(w, h, tw);
    if th == 0 { 1 } else { th }
}

/// `r` is `s` scaled to width `tw`, keeping its aspect ratio: a 1 × 1 transparent image
/// when `s` or `tw` is empty, `s` itself when it already has that width, and otherwise an
/// image `tw` wide and [`scale_target_height`] high whose pixels the Lanczos3 resampling
/// gives (which pixels those are is not stated).
pub open spec fn is_scaled_to_width(s: ImageSpec, tw: nat, r: ImageSpec) -> bool {
    if s.width == 0 || s.height == 0 || tw == 0 {
        r == filled(1, 1, clear())
    } else if s.width == tw {
        r == s
    } else {
        r.width == tw && r.height == scale_target_height(s.width, s.height, tw)
    }
}

/// The buffers that scaling `s` to width `tw` allocates fit in memory addresses.
pub open spec fn scale_fits(s: ImageSpec, tw: nat) -> bool {
    s.width == 0 || s.height == 0 || tw == 0 || s.width == tw || {
        let th = scale_target_height(s.width, s.height, tw);
        &&& buffer_len(tw, th) <= usize::MAX
        &&& buffer_len(s.width, th) <= usize::MAX
    }
}

/// Scales `img` to width `target_width`, keeping its aspect ratio (Lanczos3).
pub fn scale_to_width(img: &Image, target_width: u32) -> (r: Image)
    requires
        scale_fits(img@, target_width as nat),
    ensures
        is_scaled_to_width(img@, target_width as nat, r@),
{
    let (w, h) = img.dimensions();
    if w == 0 || h == 0 || target_width == 0 {
        return Image::new(1, 1);
    }
    if w == target_width {
        return img.clone();
    }
    let th = scale_target_height_exec(w, h, target_width);
    resize_lanczos3(img, target_width, th)
}

/// The height an image of `w` × `h` gets when scaled to width `tw` (`w > 0`).
pub fn scale_target_height_exec(w: u32, h: u32, tw: u32) -> (th: u32)
    requires
        w > 0,
    ensures
        th == scale_target_height(w as nat, h as nat, tw as nat),
{
    assert(2 * (h as int) * (tw as int) <= 2 * 0xffff_ffff * 0xffff_ffff) by (nonlinear_arith)
        requires
            0 <= h <= 0xffff_ffff,
            0 <= tw <= 0xffff_ffff,
    ;
    let num: u128 = 2 * (h as u128) * (tw as u128) + (w as u128);
    let q: u128 = num / (2 * (w as u128));
    let th: u32 = if q > 0xffff_ffff { 0xffff_ffff } else { q as u32 };
    if th == 0 { 1 } else { th }
}


/// The file stem of a path (`Path::file_stem`), when it has one.
pub uninterp spec fn file_stem_of(path: Seq<char>) -> Option<Seq<char>>;

/// `Path::file_stem` of `path`, as text.
///
/// Trusted: the result is named `file_stem_of(path)`; which part of the path that is
/// (the last component without its extension) is left to the platform's `Path`.
#[verifier::external_body]
pub(crate) fn path_file_stem(path: &str) -> (r: Option<String>)
    ensures
        match r {
            Some(s) => file_stem_of(path@) == Some(s@),
            None => file_stem_of(path@) is None,
        },
{
    std::path::Path::new(path).file_stem().and_then(|s| s.to_str()).map(|s| s.to_string())
}

/// `s` ends with `t`.
pub open spec fn ends_with(s: Seq<char>, t: Seq<char>) -> bool {
    t.len() <= s.len() && s.skip(s.len() - t.len()) == t
}

/// Whether the file stem of `path` ends with `@2x` (a double-resolution image).
pub fn is_2x(path: &str) -> (b: bool)
    ensures
        b == (match file_stem_of(path@) {
            Some(stem) => ends_with(stem, "@2x"@),
            None => false,
        }),
{
    match path_file_stem(path) {
        Some(stem) => {
            let v = chars_of(stem.as_str());
            let n = v.len();
            proof {
                reveal_strlit("@2x");
            }
            if n < 3 {
                return false;
            }
            let r = v[n - 3] == '@' && v[n - 2] == '2' && v[n - 1] == 'x';
            assert(r == (v@.skip(n - 3) =~= "@2x"@)) by {
                if r {
                    assert(v@.skip(n - 3) =~= "@2x"@);
                } else if v@.skip(n - 3) =~= "@2x"@ {
                    assert(v@.skip(n - 3)[0] == v@[n - 3]);
                    assert(v@.skip(n - 3)[1] == v@[n - 2]);
                    assert(v@.skip(n - 3)[2] == v@[n - 1]);
                }
            }
            r
        },
        None => false,
    }
}


/// The `cw` × `ch` region of `s` whose top-left pixel is `(x0, y0)`.
pub open spec fn region(s: ImageSpec, x0: nat, y0: nat, cw: nat, ch: nat) -> ImageSpec {
    ImageSpec {
        width: cw,
        height: ch,
        pixels: Seq::new(ch, |y: int| Seq::new(cw, |x: int| s.pixels[y0 + y][x0 + x])),
    }
}

/// Copies the `cw` × `ch` region at `(x0, y0)` of `img` into a new image.
pub fn crop_region(img: &Image, x0: u32, y0: u32, cw: u32, ch: u32) -> (r: Image)
    requires
        x0 + cw <= img@.width,
        y0 + ch <= img@.height,
    ensures
        r@ == region(img@, x0 as nat, y0 as nat, cw as nat, ch as nat),
{
    let _n = img.raw_len();
    proof {
        assert(buffer_len(cw as nat, ch as nat) <= buffer_len(img@.width, img@.height)) by (nonlinear_arith)
            requires
                cw <= img@.width,
                ch <= img@.height,
        ;
    }
    let (iw, ih) = img.dimensions();
    let mut out = Image::new(cw, ch);
    let ghost spec = region(img@, x0 as nat, y0 as nat, cw as nat, ch as nat);
    let mut y: u32 = 0;
    while y < ch
        invariant
            x0 + cw <= img@.width,
            y0 + ch <= img@.height,
            iw == img@.width,
            ih == img@.height,
            spec == region(img@, x0 as nat, y0 as nat, cw as nat, ch as nat),
            y <= ch,
            out@.width == cw,
            out@.height == ch,
            forall|yy: int, xx: int| 0 <= yy < ch && 0 <= xx < cw ==> #[trigger] out@.pixels[yy][xx] == (if yy < y {
                spec.pixels[yy][xx]
            } else {
                crate::image::clear()
            }),
        decreases ch - y,
    {
        let mut x: u32 = 0;
        while x < cw
            invariant
                x0 + cw <= img@.width,
                y0 + ch <= img@.height,
                iw == img@.width,
                ih == img@.height,
                spec == region(img@, x0 as nat, y0 as nat, cw as nat, ch as nat),
                y < ch,
                x <= cw,
                out@.width == cw,
                out@.height == ch,
                forall|yy: int, xx: int| 0 <= yy < ch && 0 <= xx < cw ==> #[trigger] out@.pixels[yy][xx] == (if yy < y || (yy == y && xx < x) {
                    spec.pixels[yy][xx]
                } else {
                    crate::image::clear()
                }),
            decreases cw - x,
        {
            let p = img.get_pixel(x0 + x, y0 + y);
            out.put_pixel(x, y, p);
            x += 1;
        }
        y += 1;
    }
    assert(out@ =~= spec) by {
        assert forall|yy: int| 0 <= yy < ch implies #[trigger] out@.pixels[yy] =~= spec.pixels[yy] by {
            assert forall|xx: int| 0 <= xx < cw implies #[trigger] out@.pixels[yy][xx] == spec.pixels[yy][xx] by {}
        }
    }
    out
}


/// Whether [`scale_to_width`] can allocate its buffers for `img` and `target_width`.
pub fn can_scale_to_width(img: &Image, target_width: u32) -> (b: bool)
    ensures
        b == scale_fits(img@, target_width as nat),
{
    let (w, h) = img.dimensions();
    if w == 0 || h == 0 || target_width == 0 || w == target_width {
        return true;
    }
    let th = scale_target_height_exec(w, h, target_width);
    fits_buffer(target_width, th) && fits_buffer(w, th)
}


/// The rows kept in a preset thumbnail: from 50 rows above the first visible row (the
/// top row when the image is fully transparent) to 200 rows below it, clipped to the
/// image; `(top, height)`.
pub open spec fn thumbnail_rows(s: ImageSpec) -> (nat, nat) {
    let first: nat = match first_content_row(s) {
        Some(y) => y,
        None => 0,
    };
    let top: nat = if first >= 50 { (first - 50) as nat } else { 0 };
    let bottom: nat = if first + 200 < s.height { first + 200 } else { s.height };
    (top, if bottom >= top { (bottom - top) as nat } else { 0 })
}

/// The thumbnail of a rendered preset: the rows of [`thumbnail_rows`]; a fully transparent
/// row of the same width when they are none.
pub fn preset_thumbnail(img: &Image) -> (r: Image)
    requires
        buffer_len(img@.width, 1) <= usize::MAX,
    ensures
        thumbnail_rows(img@).1 > 0 ==> r@ == region(img@, 0, thumbnail_rows(img@).0, img@.width, thumbnail_rows(img@).1),
        thumbnail_rows(img@).1 == 0 ==> r@ == filled(img@.width, 1, clear()),
{
    let (w, h) = img.dimensions();
    let first_row = match find_first_non_transparent_row(img) {
        Some(y) => y,
        None => 0,
    };
    let crop_top = first_row.saturating_sub(50);
    let crop_bottom = if (first_row as u64) + 200 < h as u64 { first_row + 200 } else { h };
    let crop_h = crop_bottom.saturating_sub(crop_top);
    if crop_h > 0 {
        crop_region(img, 0, crop_top, w, crop_h)
    } else {
        Image::new(w, 1)
    }
}

} // verus!
