//! Reading the parameters of an existing tail image back: margins, throw length, the body
//! region, its color and its border.
use vstd::prelude::*;

use crate::config::{
    BodyConfig, CapConfig, CapShape, EffectConfig, ImageConfig, ParseResult, RgbaColor, TailConfig, grey, white,
};
use crate::image_utils::{file_stem_of, path_file_stem};
use crate::text::{push_str, strings_view};
use crate::image::{Image, ImageSpec, Pixel, lemma_image_shaped, opaque_at, pixel, row_has_content};
use crate::throw_length::{content_end_below, find_throw_length, throw_length};

verus! {

broadcast use lemma_image_shaped;

/// Column `x` of `s` is fully transparent.
pub open spec fn column_clear(s: ImageSpec, x: int) -> bool {
    forall|y: int| 0 <= y < s.height ==> !#[trigger] opaque_at(s, x, y)
}

/// The number of fully transparent columns from `x` on, counted up to `lim`.
pub open spec fn clear_columns_from(s: ImageSpec, x: int, lim: int) -> int
    decreases lim - x,
{
    if x >= lim || !column_clear(s, x) { x } else { clear_columns_from(s, x + 1, lim) }
}

/// The number of fully transparent columns at the right, counted from column `x - 1`
/// down to column `lim`.
pub open spec fn clear_columns_right(s: ImageSpec, x: int, lim: int) -> int
    decreases x - lim,
{
    if x <= lim || !column_clear(s, x - 1) { s.width - x } else { clear_columns_right(s, x - 1, lim) }
}

/// The margin: the larger of the transparent columns at the left (within the left half)
/// and at the right (within the right half).
pub open spec fn margin_of(s: ImageSpec) -> int {
    let half = (s.width / 2) as int;
    let l = clear_columns_from(s, 0, half);
    let r = clear_columns_right(s, s.width as int, half);
    if r > l { r } else { l }
}

fn column_is_clear(img: &Image, x: u32) -> (b: bool)
    requires
        x < img@.width,
    ensures
        b == column_clear(img@, x as int),
{
    let h = img.height();
    let mut y: u32 = 0;
    while y < h
        invariant
            h == img@.height,
            x < img@.width,
            y <= h,
            forall|k: int| 0 <= k < y ==> !#[trigger] opaque_at(img@, x as int, k),
        decreases h - y,
    {
        if img.alpha(x, y) > 0 {
            assert(opaque_at(img@, x as int, y as int));
            return false;
        }
        y += 1;
    }
    true
}

/// The left/right margin of the tail (transparent columns at its sides).
pub fn detect_margin(img: &Image) -> (m: u32)
    ensures
        m == margin_of(img@),
{
    let (width, _height) = img.dimensions();
    let half = width / 2;
    let mut max_margin: u32 = 0;
    let mut x: u32 = 0;
    while x < half
        invariant
            width == img@.width,
            half == width / 2,
            x <= half,
            max_margin == x,
            clear_columns_from(img@, 0, half as int) == clear_columns_from(img@, x as int, half as int),
        ensures
            max_margin == clear_columns_from(img@, 0, half as int),
        decreases half - x,
    {
        if column_is_clear(img, x) {
            max_margin = x + 1;
        } else {
            break;
        }
        x += 1;
    }
    let ghost left = clear_columns_from(img@, 0, half as int);
    let mut xr: u32 = width;
    while xr > half
        invariant
            width == img@.width,
            half == width / 2,
            half <= xr <= width,
            left == clear_columns_from(img@, 0, half as int),
            max_margin == (if width - xr > left { width - xr } else { left }),
            clear_columns_right(img@, width as int, half as int) == clear_columns_right(img@, xr as int, half as int),
        ensures
            max_margin == (if clear_columns_right(img@, width as int, half as int) > left {
                clear_columns_right(img@, width as int, half as int)
            } else {
                left
            }),
        decreases xr,
    {
        if column_is_clear(img, xr - 1) {
            if width - (xr - 1) > max_margin {
                max_margin = width - (xr - 1);
            }
        } else {
            break;
        }
        xr -= 1;
    }
    max_margin
}

/// The throw length of the tail: the number of fully transparent rows at its top.
pub fn detect_throw_length(img: &Image) -> (t: u32)
    ensures
        t == throw_length(img@),
{
    find_throw_length(img)
}

/// The first column, from `x` on, of row `y` with a visible pixel (the width when none).
pub open spec fn first_opaque_from(s: ImageSpec, y: int, x: int) -> int
    decreases s.width - x,
{
    if x >= s.width { s.width as int } else if opaque_at(s, x, y) { x } else { first_opaque_from(s, y, x + 1) }
}

/// One past the last column, below `x`, of row `y` with a visible pixel (0 when none).
pub open spec fn opaque_end_below(s: ImageSpec, y: int, x: int) -> int
    decreases x,
{
    if x <= 0 { 0 } else if opaque_at(s, x - 1, y) { x } else { opaque_end_below(s, y, x - 1) }
}

/// The columns of row `y` that hold visible pixels: from the first to one past the last;
/// `(width, 0)` for a fully transparent row.
pub open spec fn row_range(s: ImageSpec, y: int) -> (int, int) {
    (first_opaque_from(s, y, 0), opaque_end_below(s, y, s.width as int))
}

proof fn lemma_first_opaque(s: ImageSpec, y: int, x: int)
    requires
        0 <= x <= s.width,
    ensures
        x <= first_opaque_from(s, y, x) <= s.width,
        first_opaque_from(s, y, x) < s.width ==> opaque_at(s, first_opaque_from(s, y, x), y),
        forall|k: int| x <= k < first_opaque_from(s, y, x) ==> !#[trigger] opaque_at(s, k, y),
    decreases s.width - x,
{
    if x < s.width && !opaque_at(s, x, y) {
        lemma_first_opaque(s, y, x + 1);
    }
}

proof fn lemma_opaque_end(s: ImageSpec, y: int, x: int)
    requires
        0 <= x <= s.width,
    ensures
        0 <= opaque_end_below(s, y, x) <= x,
        opaque_end_below(s, y, x) > 0 ==> opaque_at(s, opaque_end_below(s, y, x) - 1, y),
        forall|k: int| opaque_end_below(s, y, x) <= k < x ==> !#[trigger] opaque_at(s, k, y),
    decreases x,
{
    if x > 0 && !opaque_at(s, x - 1, y) {
        lemma_opaque_end(s, y, x - 1);
    }
}

/// The range of columns of row `y` that hold visible pixels (see [`row_range`]).
pub fn row_width_range(img: &Image, y: u32) -> (r: (u32, u32))
    requires
        y < img@.height,
    ensures
        r.0 == row_range(img@, y as int).0,
        r.1 == row_range(img@, y as int).1,
{
    let w = img.width();
    let ghost s = img@;
    proof {
        lemma_first_opaque(s, y as int, 0);
        lemma_opaque_end(s, y as int, w as int);
    }
    let mut x_start = w;
    let mut x_end: u32 = 0;
    let mut x: u32 = 0;
    while x < w
        invariant
            s == img@,
            w == s.width,
            y < s.height,
            x <= w,
            x_start == (if first_opaque_from(s, y as int, 0) < x { first_opaque_from(s, y as int, 0) } else { w as int }),
            x_end == opaque_end_below(s, y as int, x as int),
            0 <= first_opaque_from(s, y as int, 0) <= w,
            first_opaque_from(s, y as int, 0) < w ==> opaque_at(s, first_opaque_from(s, y as int, 0), y as int),
            forall|k: int| 0 <= k < first_opaque_from(s, y as int, 0) ==> !#[trigger] opaque_at(s, k, y as int),
        decreases w - x,
    {
        if img.alpha(x, y) > 0 {
            assert(opaque_at(s, x as int, y as int));
            if x < x_start {
                x_start = x;
            }
            x_end = x + 1;
        }
        x += 1;
    }
    (x_start, x_end)
}


/// Row `y` holds a visible pixel, by its column range.
pub open spec fn row_nonempty(s: ImageSpec, y: int) -> bool {
    row_range(s, y).0 < row_range(s, y).1
}

/// The width of the visible part of row `y`: one past its last visible column less its
/// first.
pub open spec fn row_span(s: ImageSpec, y: int) -> int {
    row_range(s, y).1 - row_range(s, y).0
}

/// The column range of a row lies within the image, and it is non-empty exactly when the
/// row holds a visible pixel.
pub proof fn lemma_row_range(s: ImageSpec, y: int)
    ensures
        0 <= row_range(s, y).0 <= s.width,
        0 <= row_range(s, y).1 <= s.width,
        row_nonempty(s, y) <==> row_has_content(s, y),
        row_nonempty(s, y) ==> opaque_at(s, row_range(s, y).0, y) && opaque_at(s, row_range(s, y).1 - 1, y),
{
    lemma_first_opaque(s, y, 0);
    lemma_opaque_end(s, y, s.width as int);
    let (a, b) = row_range(s, y);
    if row_has_content(s, y) {
        let x = choose|x: int| 0 <= x < s.width && #[trigger] opaque_at(s, x, y);
        assert(a <= x < b);
    }
    if a < b {
        assert(opaque_at(s, a, y));
    }
}

/// `|a - b|`.
pub open spec fn abs_diff(a: int, b: int) -> int {
    if a > b { a - b } else { b - a }
}

/// How far a row's width may stray from the body's: a tenth of it, at least 2.
pub open spec fn width_tolerance(w: int) -> int {
    if w / 10 > 2 { w / 10 } else { 2 }
}

/// The last row below `y` (exclusive) that holds a visible pixel, or -1 when none does.
pub open spec fn last_content_row(s: ImageSpec, y: int) -> int
    decreases y,
{
    if y <= 0 { -1 } else if row_nonempty(s, y - 1) { y - 1 } else { last_content_row(s, y - 1) }
}

/// Going up from row `y - 1`: the top of the run of rows that hold visible pixels and whose
/// visible width is within `tol` of `ref_w`.
pub open spec fn body_top_from(s: ImageSpec, y: int, ref_w: int, tol: int) -> int
    decreases y,
{
    if y <= 0 || !row_nonempty(s, y - 1) || abs_diff(row_span(s, y - 1), ref_w) > tol {
        y
    } else {
        body_top_from(s, y - 1, ref_w, tol)
    }
}

proof fn lemma_last_content_row(s: ImageSpec, y: int)
    requires
        0 <= y <= s.height,
    ensures
        -1 <= last_content_row(s, y) < y,
        last_content_row(s, y) >= 0 ==> row_nonempty(s, last_content_row(s, y)),
    decreases y,
{
    if y > 0 && !row_nonempty(s, y - 1) {
        lemma_last_content_row(s, y - 1);
    }
}

proof fn lemma_body_top(s: ImageSpec, y: int, ref_w: int, tol: int)
    requires
        0 <= y,
    ensures
        0 <= body_top_from(s, y, ref_w, tol) <= y,
    decreases y,
{
    if !(y <= 0 || !row_nonempty(s, y - 1) || abs_diff(row_span(s, y - 1), ref_w) > tol) {
        lemma_body_top(s, y - 1, ref_w, tol);
    }
}

/// The smallest height of a body that the parser accepts.
pub const MIN_BODY_HEIGHT: u32 = 5000;

/// The rows and columns of the body of a tail image.
#[derive(Debug, Clone, Copy, PartialEq, Eq, Structural)]
pub struct BodyRegion {
    pub y_start: u32,
    pub y_end: u32,
    pub x_start: u32,
    pub x_end: u32,
}

/// Why a tail image could not be read back.
#[derive(Debug, Clone)]
pub enum ParseError {
    /// No body of at least [`MIN_BODY_HEIGHT`] rows was found.
    BodyTooShort,
    /// The image could not be decoded (the decoder's message).
    ImageReadError(String),
    /// The image has no pixels.
    ImageTooSmall,
}

/// The body of a tail image: going up from the lowest row with a visible pixel, the rows
/// whose visible width stays within [`width_tolerance`] of that row's; its columns are
/// those of the lowest row. An error when there is no visible pixel or the run is shorter
/// than [`MIN_BODY_HEIGHT`].
pub open spec fn body_of(s: ImageSpec) -> Result<BodyRegion, ParseError> {
    let b = last_content_row(s, s.height as int);
    if b < 0 {
        Err(ParseError::BodyTooShort)
    } else {
        let r = row_range(s, b);
        let w = r.1 - r.0;
        let top = body_top_from(s, b, w, width_tolerance(w));
        if b + 1 - top < MIN_BODY_HEIGHT {
            Err(ParseError::BodyTooShort)
        } else {
            Ok(BodyRegion { y_start: top as u32, y_end: (b + 1) as u32, x_start: r.0 as u32, x_end: r.1 as u32 })
        }
    }
}

proof fn lemma_body_top_rows(s: ImageSpec, y: int, ref_w: int, tol: int)
    ensures
        forall|k: int|
            body_top_from(s, y, ref_w, tol) <= k < y ==> #[trigger] row_nonempty(s, k) && abs_diff(
                row_span(s, k),
                ref_w,
            ) <= tol,
    decreases y,
{
    if !(y <= 0 || !row_nonempty(s, y - 1) || abs_diff(row_span(s, y - 1), ref_w) > tol) {
        lemma_body_top_rows(s, y - 1, ref_w, tol);
    }
}

proof fn lemma_last_content_rows(s: ImageSpec, y: int)
    ensures
        forall|k: int| last_content_row(s, y) < k < y ==> !#[trigger] row_nonempty(s, k),
    decreases y,
{
    if y > 0 && !row_nonempty(s, y - 1) {
        lemma_last_content_rows(s, y - 1);
    }
}

/// A body that the parser finds is at least [`MIN_BODY_HEIGHT`] rows high; each of its
/// rows holds a visible pixel and is within the tolerance of the body's width, which is the
/// width of its lowest row; no row below it holds a visible pixel.
pub proof fn lemma_body_region(s: ImageSpec)
    requires
        s.width <= u32::MAX,
        s.height <= u32::MAX,
        body_of(s) is Ok,
    ensures
        ({
            let b = body_of(s)->Ok_0;
            let w = b.x_end - b.x_start;
            &&& b.y_end - b.y_start >= MIN_BODY_HEIGHT
            &&& b.y_end <= s.height
            &&& row_range(s, b.y_end - 1) == (b.x_start as int, b.x_end as int)
            &&& forall|y: int|
                b.y_start <= y < b.y_end ==> #[trigger] row_nonempty(s, y) && abs_diff(row_span(s, y), w)
                    <= width_tolerance(w)
            &&& forall|y: int| b.y_end <= y < s.height ==> !#[trigger] row_nonempty(s, y)
        }),
{
    let h = s.height as int;
    lemma_last_content_row(s, h);
    lemma_last_content_rows(s, h);
    let bot = last_content_row(s, h);
    lemma_row_range(s, bot);
    let r = row_range(s, bot);
    let w = r.1 - r.0;
    lemma_body_top(s, bot, w, width_tolerance(w));
    lemma_body_top_rows(s, bot, w, width_tolerance(w));
    assert(row_nonempty(s, bot) && abs_diff(row_span(s, bot), w) <= width_tolerance(w));
    let top = body_top_from(s, bot, w, width_tolerance(w));
    let b = body_of(s)->Ok_0;
    assert(b.y_start == top && b.y_end == bot + 1 && b.x_start == r.0 && b.x_end == r.1);
}

/// Finds the body of a tail image (see [`body_of`]).
pub fn detect_body(img: &Image) -> (r: Result<BodyRegion, ParseError>)
    ensures
        r == body_of(img@),
        r is Ok ==> r->Ok_0.y_start < r->Ok_0.y_end <= img@.height,
        r is Ok ==> r->Ok_0.x_start < r->Ok_0.x_end <= img@.width,
{
    let height = img.height();
    let ghost s = img@;
    proof {
        lemma_last_content_row(s, s.height as int);
    }
    let mut bottom_y = height;
    let mut y = height;
    while y > 0
        invariant_except_break
            bottom_y == height,
        invariant
            s == img@,
            height == s.height,
            y <= height,
            last_content_row(s, height as int) == last_content_row(s, y as int),
        ensures
            bottom_y == height ==> last_content_row(s, height as int) == -1,
            bottom_y != height ==> bottom_y == last_content_row(s, height as int),
        decreases y,
    {
        let (xs, xe) = row_width_range(img, y - 1);
        if xs < xe {
            bottom_y = y - 1;
            break;
        }
        y -= 1;
    }
    if bottom_y == height {
        return Err(ParseError::BodyTooShort);
    }
    proof {
        lemma_row_range(s, bottom_y as int);
    }
    let (ref_xs, ref_xe) = row_width_range(img, bottom_y);
    let ref_width = ref_xe - ref_xs;
    let tolerance = if ref_width / 10 > 2 { ref_width / 10 } else { 2 };
    let body_y_end = bottom_y + 1;
    let mut body_y_start = bottom_y;
    let mut y = bottom_y;
    let ghost top = body_top_from(s, bottom_y as int, ref_width as int, tolerance as int);
    proof {
        lemma_body_top(s, bottom_y as int, ref_width as int, tolerance as int);
    }
    while y > 0
        invariant
            s == img@,
            height == s.height,
            bottom_y < height,
            y <= bottom_y,
            body_y_start == y,
            top == body_top_from(s, y as int, ref_width as int, tolerance as int),
        ensures
            body_y_start == top,
        decreases y,
    {
        let (xs, xe) = row_width_range(img, y - 1);
        if xs >= xe {
            break;
        }
        let row_w = xe - xs;
        let diff = if row_w > ref_width { row_w - ref_width } else { ref_width - row_w };
        if diff <= tolerance {
            body_y_start = y - 1;
        } else {
            break;
        }
        y -= 1;
    }
    if body_y_end - body_y_start < MIN_BODY_HEIGHT {
        return Err(ParseError::BodyTooShort);
    }
    Ok(BodyRegion { y_start: body_y_start, y_end: body_y_end, x_start: ref_xs, x_end: ref_xe })
}


/// Sum of channel `c` over columns `x0 .. x1` of row `y`.
pub open spec fn row_sum(s: ImageSpec, c: int, y: int, x0: int, x1: int) -> int
    decreases x1 - x0,
{
    if x1 <= x0 { 0 } else { row_sum(s, c, y, x0, x1 - 1) + pixel(s, x1 - 1, y)[c] as int }
}

/// Sum of channel `c` over the rectangle of columns `x0 .. x1` and rows `y0 .. y1`.
pub open spec fn rect_sum(s: ImageSpec, c: int, x0: int, x1: int, y0: int, y1: int) -> int
    decreases y1 - y0,
{
    if y1 <= y0 { 0 } else { rect_sum(s, c, x0, x1, y0, y1 - 1) + row_sum(s, c, y1 - 1, x0, x1) }
}

proof fn lemma_row_sum_bound(s: ImageSpec, c: int, y: int, x0: int, x1: int)
    requires
        x0 <= x1,
    ensures
        0 <= row_sum(s, c, y, x0, x1) <= 255 * (x1 - x0),
    decreases x1 - x0,
{
    if x1 > x0 {
        lemma_row_sum_bound(s, c, y, x0, x1 - 1);
    }
}

proof fn lemma_rect_sum_bound(s: ImageSpec, c: int, x0: int, x1: int, y0: int, y1: int)
    requires
        x0 <= x1,
        y0 <= y1,
    ensures
        0 <= rect_sum(s, c, x0, x1, y0, y1) <= 255 * (x1 - x0) * (y1 - y0),
    decreases y1 - y0,
{
    if y1 > y0 {
        lemma_rect_sum_bound(s, c, x0, x1, y0, y1 - 1);
        lemma_row_sum_bound(s, c, y1 - 1, x0, x1);
        assert(255 * (x1 - x0) * (y1 - 1 - y0) + 255 * (x1 - x0) == 255 * (x1 - x0) * (y1 - y0))
            by (nonlinear_arith);
    }
}

/// The sum of channel `c` over a rectangle inside the image.
fn rect_channel_sum(img: &Image, c: usize, x0: u32, x1: u32, y0: u32, y1: u32) -> (t: u64)
    requires
        c < 4,
        x0 <= x1 <= img@.width,
        y0 <= y1 <= img@.height,
        (x1 - x0) * (y1 - y0) <= 0x1_0000_0000,
    ensures
        t == rect_sum(img@, c as int, x0 as int, x1 as int, y0 as int, y1 as int),
{
    let ghost s = img@;
    let mut total: u64 = 0;
    let mut y = y0;
    while y < y1
        invariant
            s == img@,
            c < 4,
            x0 <= x1 <= s.width,
            y0 <= y <= y1 <= s.height,
            (x1 - x0) * (y1 - y0) <= 0x1_0000_0000,
            total == rect_sum(s, c as int, x0 as int, x1 as int, y0 as int, y as int),
        decreases y1 - y,
    {
        proof {
            lemma_rect_sum_bound(s, c as int, x0 as int, x1 as int, y0 as int, y as int);
            assert((x1 - x0) * (y - y0) + (x1 - x0) <= (x1 - x0) * (y1 - y0)) by (nonlinear_arith)
                requires
                    y < y1,
                    x0 <= x1,
            ;
        }
        let mut row: u64 = 0;
        let mut x = x0;
        while x < x1
            invariant
                s == img@,
                c < 4,
                x0 <= x <= x1 <= s.width,
                y < s.height,
                row == row_sum(s, c as int, y as int, x0 as int, x as int),
                row <= 255 * (x - x0),
            decreases x1 - x,
        {
            let p = img.get_pixel(x, y);
            row = row + p[c] as u64;
            x += 1;
        }
        assert(total + row <= 255 * 0x1_0000_0000) by (nonlinear_arith)
            requires
                total <= 255 * (x1 - x0) * (y - y0),
                row <= 255 * (x1 - x0),
                (x1 - x0) * (y - y0) + (x1 - x0) <= (x1 - x0) * (y1 - y0),
                (x1 - x0) * (y1 - y0) <= 0x1_0000_0000,
        ;
        total = total + row;
        y += 1;
    }
    total
}

/// The first column of a window of radius `r` around `c`, clipped to the image.
pub open spec fn clip_low(c: int, r: int) -> int {
    if c - r > 0 { c - r } else { 0 }
}

/// One past the last column of a window of radius `r` around `c`, clipped to `n`.
pub open spec fn clip_high(c: int, r: int, n: int) -> int {
    if c + r + 1 < n { c + r + 1 } else { n }
}

/// The mean of each channel over the square of radius `r` around `(x, y)`, clipped to the
/// image (each mean truncated); `None` when nothing of the square lies inside.
pub open spec fn window_mean(s: ImageSpec, x: int, y: int, r: int) -> Option<Pixel> {
    let x0 = clip_low(x, r);
    let x1 = clip_high(x, r, s.width as int);
    let y0 = clip_low(y, r);
    let y1 = clip_high(y, r, s.height as int);
    let n = (x1 - x0) * (y1 - y0);
    if x0 < x1 && y0 < y1 {
        Some([
            (rect_sum(s, 0, x0, x1, y0, y1) / n) as u8,
            (rect_sum(s, 1, x0, x1, y0, y1) / n) as u8,
            (rect_sum(s, 2, x0, x1, y0, y1) / n) as u8,
            (rect_sum(s, 3, x0, x1, y0, y1) / n) as u8,
        ])
    } else {
        None
    }
}

proof fn lemma_mean_fits(t: int, n: int)
    requires
        0 < n,
        0 <= t <= 255 * n,
    ensures
        0 <= t / n <= 255,
{
    assert(t / n <= 255) by (nonlinear_arith)
        requires
            0 < n,
            0 <= t <= 255 * n,
    ;
    assert(t / n >= 0) by (nonlinear_arith)
        requires
            0 < n,
            0 <= t,
    ;
}

/// The channel means over the window of radius `r` around `(x, y)` (see [`window_mean`]).
fn window_average(img: &Image, x: u32, y: u32, r: u32) -> (m: Option<Pixel>)
    requires
        r <= 0x7fff,
    ensures
        m == window_mean(img@, x as int, y as int, r as int),
{
    let ghost s = img@;
    let (w, h) = img.dimensions();
    let x0 = if x > r { x - r } else { 0 };
    let x1 = if (x as u64) + (r as u64) + 1 < (w as u64) { x + r + 1 } else { w };
    let y0 = if y > r { y - r } else { 0 };
    let y1 = if (y as u64) + (r as u64) + 1 < (h as u64) { y + r + 1 } else { h };
    if x0 >= x1 || y0 >= y1 {
        return None;
    }
    assert((x1 - x0) * (y1 - y0) <= 0x1_0000_0000) by (nonlinear_arith)
        requires
            0 < x1 - x0 <= 2 * r + 1,
            0 < y1 - y0 <= 2 * r + 1,
            r <= 0x7fff,
    ;
    let n: u64 = (x1 - x0) as u64 * (y1 - y0) as u64;
    assert(n > 0) by (nonlinear_arith)
        requires
            n == (x1 - x0) * (y1 - y0),
            x0 < x1,
            y0 < y1,
    ;
    let t0 = rect_channel_sum(img, 0, x0, x1, y0, y1);
    let t1 = rect_channel_sum(img, 1, x0, x1, y0, y1);
    let t2 = rect_channel_sum(img, 2, x0, x1, y0, y1);
    let t3 = rect_channel_sum(img, 3, x0, x1, y0, y1);
    proof {
        lemma_rect_sum_bound(s, 0, x0 as int, x1 as int, y0 as int, y1 as int);
        lemma_rect_sum_bound(s, 1, x0 as int, x1 as int, y0 as int, y1 as int);
        lemma_rect_sum_bound(s, 2, x0 as int, x1 as int, y0 as int, y1 as int);
        lemma_rect_sum_bound(s, 3, x0 as int, x1 as int, y0 as int, y1 as int);
        assert(255 * (x1 - x0) * (y1 - y0) == 255 * n) by (nonlinear_arith)
            requires
                n == (x1 - x0) * (y1 - y0),
        ;
        lemma_mean_fits(t0 as int, n as int);
        lemma_mean_fits(t1 as int, n as int);
        lemma_mean_fits(t2 as int, n as int);
        lemma_mean_fits(t3 as int, n as int);
    }
    Some([(t0 / n) as u8, (t1 / n) as u8, (t2 / n) as u8, (t3 / n) as u8])
}

/// The blurred color around `(x, y)`: the channel means over the square of radius
/// `radius`, clipped to the image; all zero when nothing of it lies inside.
pub open spec fn blurred(s: ImageSpec, x: int, y: int, radius: int) -> Pixel {
    match window_mean(s, x, y, radius) {
        Some(p) => p,
        None => [0u8, 0u8, 0u8, 0u8],
    }
}

/// Samples the color around `(x, y)` (see [`blurred`]).
pub fn sample_color_blur(img: &Image, x: u32, y: u32, radius: u32) -> (p: Pixel)
    requires
        radius <= 0x7fff,
    ensures
        p == blurred(img@, x as int, y as int, radius as int),
{
    match window_average(img, x, y, radius) {
        Some(p) => p,
        None => [0, 0, 0, 0],
    }
}


/// The squared distance between the RGB parts of two colors.
pub open spec fn sq_dist(c1: Pixel, c2: Pixel) -> int {
    let dr = c1[0] as int - c2[0] as int;
    let dg = c1[1] as int - c2[1] as int;
    let db = c1[2] as int - c2[2] as int;
    dr * dr + dg * dg + db * db
}

/// The distance between the RGB parts of two colors, rounded down: the `d` with
/// `d² <= sq_dist(c1, c2) < (d + 1)²`.
pub fn color_diff(c1: Pixel, c2: Pixel) -> (d: u32)
    ensures
        d * d <= sq_dist(c1, c2) < (d + 1) * (d + 1),
{
    let dr: i32 = c1[0] as i32 - c2[0] as i32;
    let dg: i32 = c1[1] as i32 - c2[1] as i32;
    let db: i32 = c1[2] as i32 - c2[2] as i32;
    assert(dr * dr <= 65025 && dg * dg <= 65025 && db * db <= 65025) by (nonlinear_arith)
        requires
            -255 <= dr <= 255,
            -255 <= dg <= 255,
            -255 <= db <= 255,
    ;
    assert(dr * dr >= 0 && dg * dg >= 0 && db * db >= 0) by (nonlinear_arith);
    let v: u32 = (dr * dr + dg * dg + db * db) as u32;
    let mut r: u32 = 0;
    loop
        invariant
            v <= 195075,
            r * r <= v,
            r <= 441,
        ensures
            r * r <= v < (r + 1) * (r + 1),
        decreases 442 - r,
    {
        assert((r + 1) * (r + 1) <= 442 * 442) by (nonlinear_arith)
            requires
                r <= 441,
        ;
        let sq = (r + 1) * (r + 1);
        if sq > v {
            break;
        }
        assert(r + 1 <= 441) by (nonlinear_arith)
            requires
                (r + 1) * (r + 1) <= v,
                v <= 195075,
        ;
        r += 1;
    }
    r
}

/// Two colors differ by more than `t` in [`color_diff`]'s rounded distance.
pub open spec fn differs_by_more(c1: Pixel, c2: Pixel, t: int) -> bool {
    sq_dist(c1, c2) >= (t + 1) * (t + 1)
}

/// The radius of the blur used to read the border.
pub const BORDER_BLUR_RADIUS: u32 = 20;

/// The distance beyond which a column counts as border.
pub const BORDER_THRESHOLD: u32 = 30;

/// Going right from column `x` (up to `xe`): the first column of row `y` whose blurred
/// color is within the threshold of `base` (or `xe`).
pub open spec fn border_end_from(s: ImageSpec, x: int, xe: int, y: int, base: Pixel) -> int
    decreases xe - x,
{
    if x >= xe || !differs_by_more(base, blurred(s, x, y, BORDER_BLUR_RADIUS as int), BORDER_THRESHOLD as int) {
        x
    } else {
        border_end_from(s, x + 1, xe, y, base)
    }
}

proof fn lemma_border_end(s: ImageSpec, x: int, xe: int, y: int, base: Pixel)
    requires
        x <= xe,
    ensures
        x <= border_end_from(s, x, xe, y, base) <= xe,
    decreases xe - x,
{
    if x < xe && differs_by_more(base, blurred(s, x, y, BORDER_BLUR_RADIUS as int), BORDER_THRESHOLD as int) {
        lemma_border_end(s, x + 1, xe, y, base);
    }
}

/// The column at which the body's own color is sampled: five in from `xs`, at most `xe - 1`.
pub open spec fn body_sample_x(xs: int, xe: int) -> int {
    if xs + 5 < xe - 1 { xs + 5 } else { xe - 1 }
}

/// The border width read from columns `xs .. xe` on the middle row of `ys .. ye`: the
/// number of columns from `xs` on whose blurred color differs from that of the body
/// (sampled at [`body_sample_x`]).
pub open spec fn border_width_of(s: ImageSpec, ys: int, ye: int, xs: int, xe: int) -> int {
    let cy = (ys + ye) / 2;
    let base = blurred(s, body_sample_x(xs, xe), cy, BORDER_BLUR_RADIUS as int);
    border_end_from(s, xs, xe, cy, base) - xs
}

/// Measures the border width (see [`border_width_of`]).
pub fn detect_border_width(img: &Image, ys: u32, ye: u32, xs: u32, xe: u32) -> (w: u32)
    requires
        xs <= xe,
        0 < xe,
    ensures
        w == border_width_of(img@, ys as int, ye as int, xs as int, xe as int),
        w <= xe - xs,
{
    let ghost s = img@;
    let sample_x = if xs < xe && xe - 1 - xs > 5 { xs + 5 } else { xe - 1 };
    let center_y = ((ys as u64 + ye as u64) / 2) as u32;
    let body_color = sample_color_blur(img, sample_x, center_y, BORDER_BLUR_RADIUS);
    let ghost end = border_end_from(s, xs as int, xe as int, center_y as int, body_color);
    proof {
        lemma_border_end(s, xs as int, xe as int, center_y as int, body_color);
    }
    let mut border_end = xs;
    let mut x = xs;
    while x < xe
        invariant
            s == img@,
            xs <= x <= xe,
            border_end == x,
            end == border_end_from(s, x as int, xe as int, center_y as int, body_color),
        ensures
            border_end == end,
        decreases xe - x,
    {
        let color = sample_color_blur(img, x, center_y, BORDER_BLUR_RADIUS);
        let diff = color_diff(body_color, color);
        proof {
            let v = sq_dist(body_color, color);
            if diff > 30 {
                assert(v >= 31 * 31) by (nonlinear_arith)
                    requires
                        diff * diff <= v,
                        diff >= 31,
                ;
            } else {
                assert(v < 31 * 31) by (nonlinear_arith)
                    requires
                        v < (diff + 1) * (diff + 1),
                        diff <= 30,
                ;
            }
        }
        if diff > BORDER_THRESHOLD {
            border_end = x + 1;
        } else {
            break;
        }
        x += 1;
    }
    border_end - xs
}


/// The color and opacity of the body: the channel means over the 11 × 11 square around the
/// middle of the body (clipped to the image); opaque white when nothing of it lies inside.
pub open spec fn body_color_of(s: ImageSpec, b: BodyRegion) -> (RgbaColor, u8) {
    let cx = (b.x_start + b.x_end) / 2;
    let cy = (b.y_start + b.y_end) / 2;
    match window_mean(s, cx, cy, 5) {
        Some(p) => (RgbaColor { r: p[0], g: p[1], b: p[2], a: p[3] }, p[3]),
        None => (white(), 255u8),
    }
}

/// Samples the body's color (see [`body_color_of`]).
pub fn extract_body_color(img: &Image, body: &BodyRegion) -> (r: (RgbaColor, u8))
    ensures
        r == body_color_of(img@, *body),
{
    let center_x = ((body.x_start as u64 + body.x_end as u64) / 2) as u32;
    let center_y = ((body.y_start as u64 + body.y_end as u64) / 2) as u32;
    match window_average(img, center_x, center_y, 5) {
        Some(p) => (RgbaColor { r: p[0], g: p[1], b: p[2], a: p[3] }, p[3]),
        None => (RgbaColor::white(), 255),
    }
}

/// The centre of a body region (rounded down on both axes).
pub open spec fn body_center(b: BodyRegion) -> (int, int) {
    ((b.x_start + b.x_end) / 2, (b.y_start + b.y_end) / 2)
}

proof fn lemma_row_sum_const(s: ImageSpec, c: int, y: int, x0: int, x1: int, v: int)
    requires
        x0 <= x1,
        forall|x: int| x0 <= x < x1 ==> #[trigger] pixel(s, x, y)[c] == v,
    ensures
        row_sum(s, c, y, x0, x1) == v * (x1 - x0),
    decreases x1 - x0,
{
    if x1 > x0 {
        lemma_row_sum_const(s, c, y, x0, x1 - 1, v);
        assert(pixel(s, x1 - 1, y)[c] == v);
        assert(v * (x1 - 1 - x0) + v == v * (x1 - x0)) by (nonlinear_arith);
    } else {
        assert(v * (x1 - x0) == 0) by (nonlinear_arith)
            requires
                x1 == x0,
        ;
    }
}

proof fn lemma_rect_sum_const(s: ImageSpec, c: int, x0: int, x1: int, y0: int, y1: int, v: int)
    requires
        x0 <= x1,
        y0 <= y1,
        forall|x: int, y: int| x0 <= x < x1 && y0 <= y < y1 ==> #[trigger] pixel(s, x, y)[c] == v,
    ensures
        rect_sum(s, c, x0, x1, y0, y1) == v * (x1 - x0) * (y1 - y0),
    decreases y1 - y0,
{
    if y1 > y0 {
        lemma_rect_sum_const(s, c, x0, x1, y0, y1 - 1, v);
        assert forall|x: int| x0 <= x < x1 implies #[trigger] pixel(s, x, y1 - 1)[c] == v by {
            assert(pixel(s, x, y1 - 1)[c] == v);
        }
        lemma_row_sum_const(s, c, y1 - 1, x0, x1, v);
        assert(v * (x1 - x0) * (y1 - 1 - y0) + v * (x1 - x0) == v * (x1 - x0) * (y1 - y0)) by (nonlinear_arith);
    } else {
        assert(v * (x1 - x0) * (y1 - y0) == 0) by (nonlinear_arith)
            requires
                y1 == y0,
        ;
    }
}

/// The sampled body colour keeps each channel where the image is even: when every pixel
/// within 5 of the body's centre (on both axes, inside the image) has the value `v` in
/// channel `c`, the colour has `v` in that channel — red for channel 0, green for 1,
/// blue for 2, and alpha, which is also the opacity, for 3.
pub proof fn lemma_body_color_channel(s: ImageSpec, b: BodyRegion, c: int, v: u8)
    requires
        0 <= c < 4,
        0 <= body_center(b).0 < s.width,
        0 <= body_center(b).1 < s.height,
        forall|x: int, y: int|
            0 <= x < s.width && 0 <= y < s.height && body_center(b).0 - 5 <= x <= body_center(b).0 + 5
                && body_center(b).1 - 5 <= y <= body_center(b).1 + 5 ==> #[trigger] pixel(s, x, y)[c] == v,
    ensures
        c == 0 ==> body_color_of(s, b).0.r == v,
        c == 1 ==> body_color_of(s, b).0.g == v,
        c == 2 ==> body_color_of(s, b).0.b == v,
        c == 3 ==> body_color_of(s, b).0.a == v && body_color_of(s, b).1 == v,
{
    let cx = body_center(b).0;
    let cy = body_center(b).1;
    let x0 = clip_low(cx, 5);
    let x1 = clip_high(cx, 5, s.width as int);
    let y0 = clip_low(cy, 5);
    let y1 = clip_high(cy, 5, s.height as int);
    assert forall|x: int, y: int| x0 <= x < x1 && y0 <= y < y1 implies #[trigger] pixel(s, x, y)[c] == v by {
        assert(0 <= x < s.width && 0 <= y < s.height && cx - 5 <= x <= cx + 5 && cy - 5 <= y <= cy + 5);
    }
    lemma_rect_sum_const(s, c, x0, x1, y0, y1, v as int);
    let n = (x1 - x0) * (y1 - y0);
    assert(n > 0) by (nonlinear_arith)
        requires
            n == (x1 - x0) * (y1 - y0),
            x0 < x1,
            y0 < y1,
    ;
    assert(v * (x1 - x0) * (y1 - y0) == n * v) by (nonlinear_arith)
        requires
            n == (x1 - x0) * (y1 - y0),
    ;
    vstd::arithmetic::div_mod::lemma_div_multiples_vanish(v as int, n);
    assert(rect_sum(s, c, x0, x1, y0, y1) / n == v);
}

/// The border color: the blurred color at the middle of the border, on the middle row.
pub open spec fn border_color_of(s: ImageSpec, ys: int, ye: int, xs: int, bw: int) -> RgbaColor {
    let p = blurred(s, xs + bw / 2, (ys + ye) / 2, BORDER_BLUR_RADIUS as int);
    RgbaColor { r: p[0], g: p[1], b: p[2], a: p[3] }
}

/// Samples the border's color (see [`border_color_of`]).
pub fn extract_border_color(img: &Image, ys: u32, ye: u32, xs: u32, bw: u32) -> (c: RgbaColor)
    requires
        xs + bw / 2 <= u32::MAX,
    ensures
        c == border_color_of(img@, ys as int, ye as int, xs as int, bw as int),
{
    let sample_x = xs + bw / 2;
    let center_y = ((ys as u64 + ye as u64) / 2) as u32;
    let p = sample_color_blur(img, sample_x, center_y, BORDER_BLUR_RADIUS);
    RgbaColor { r: p[0], g: p[1], b: p[2], a: p[3] }
}

/// How many columns from the body's left edge are searched for a border.
pub const BORDER_SEARCH_WIDTH: u32 = 100;

/// The message reported when no border is found.
pub open spec fn msg_no_border() -> Seq<char> {
    "未检测到边框"@
}

/// The border of the body: searched in its first [`BORDER_SEARCH_WIDTH`] columns.
/// `(enabled, color, width, warnings)`: when a border is found, its color and width and no
/// warning; else white, 0 and [`msg_no_border`].
pub open spec fn border_of(s: ImageSpec, b: BodyRegion) -> (bool, RgbaColor, int, Seq<Seq<char>>) {
    let dw = if b.x_end - b.x_start < BORDER_SEARCH_WIDTH { b.x_end - b.x_start } else { BORDER_SEARCH_WIDTH as int };
    let bw = border_width_of(s, b.y_start as int, b.y_end as int, b.x_start as int, b.x_start + dw);
    if bw > 0 {
        (true, border_color_of(s, b.y_start as int, b.y_end as int, b.x_start as int, bw), bw, seq![])
    } else {
        (false, white(), 0, seq![msg_no_border()])
    }
}

/// Reads the border of the body (see [`border_of`]).
pub fn detect_border(img: &Image, body: &BodyRegion) -> (r: (bool, RgbaColor, u32, Vec<String>))
    requires
        body.x_start < body.x_end,
    ensures
        r.0 == border_of(img@, *body).0,
        r.1 == border_of(img@, *body).1,
        r.2 == border_of(img@, *body).2,
        strings_view(r.3@) == border_of(img@, *body).3,
{
    let mut warnings: Vec<String> = Vec::new();
    let detect_width = if body.x_end - body.x_start < BORDER_SEARCH_WIDTH {
        body.x_end - body.x_start
    } else {
        BORDER_SEARCH_WIDTH
    };
    let detect_x_start = body.x_start;
    let detect_x_end = detect_x_start + detect_width;
    let border_width = detect_border_width(img, body.y_start, body.y_end, detect_x_start, detect_x_end);
    if border_width > 0 {
        let border_color = extract_border_color(img, body.y_start, body.y_end, detect_x_start, border_width);
        assert(strings_view(warnings@) =~= Seq::<Seq<char>>::empty());
        (true, border_color, border_width, warnings)
    } else {
        let mut m = String::new();
        push_str(&mut m, "未检测到边框");
        warnings.push(m);
        assert(strings_view(warnings@) =~= seq![msg_no_border()]);
        (false, RgbaColor::white(), 0, warnings)
    }
}

/// Going up from row `y - 1`: the top of the run of rows that hold a visible pixel.
pub open spec fn content_top_from(s: ImageSpec, y: int) -> int
    decreases y,
{
    if y <= 0 || !row_nonempty(s, y - 1) { y } else { content_top_from(s, y - 1) }
}

/// The first visible column over rows `y0 .. y1` (the width when there is none).
pub open spec fn rows_first(s: ImageSpec, y0: int, y1: int) -> int
    decreases y1 - y0,
{
    if y1 <= y0 {
        s.width as int
    } else {
        let a = rows_first(s, y0, y1 - 1);
        let b = row_range(s, y1 - 1).0;
        if b < a { b } else { a }
    }
}

/// One past the last visible column over rows `y0 .. y1` (0 when there is none).
pub open spec fn rows_end(s: ImageSpec, y0: int, y1: int) -> int
    decreases y1 - y0,
{
    if y1 <= y0 {
        0
    } else {
        let a = rows_end(s, y0, y1 - 1);
        let b = row_range(s, y1 - 1).1;
        if b > a { b } else { a }
    }
}

proof fn lemma_content_top(s: ImageSpec, y: int)
    requires
        0 <= y,
    ensures
        0 <= content_top_from(s, y) <= y,
    decreases y,
{
    if !(y <= 0 || !row_nonempty(s, y - 1)) {
        lemma_content_top(s, y - 1);
    }
}

proof fn lemma_rows_bounds(s: ImageSpec, y0: int, y1: int)
    ensures
        0 <= rows_first(s, y0, y1) <= s.width,
        0 <= rows_end(s, y0, y1) <= s.width,
    decreases y1 - y0,
{
    if y1 > y0 {
        lemma_rows_bounds(s, y0, y1 - 1);
        lemma_row_range(s, y1 - 1);
    }
}

/// The region of the cap: the rows with a visible pixel right above the body, and the
/// columns that those rows cover. `(y_start, y_end, x_start, x_end)`.
pub open spec fn cap_region_of(s: ImageSpec, b: BodyRegion) -> (int, int, int, int) {
    let ye = b.y_start as int;
    let ys = content_top_from(s, ye);
    (ys, ye, rows_first(s, ys, ye), rows_end(s, ys, ye))
}

/// Finds the region of the cap (see [`cap_region_of`]).
pub fn detect_cap_region(img: &Image, body: &BodyRegion) -> (r: (u32, u32, u32, u32))
    requires
        body.y_start <= img@.height,
    ensures
        r.0 == cap_region_of(img@, *body).0,
        r.1 == cap_region_of(img@, *body).1,
        r.2 == cap_region_of(img@, *body).2,
        r.3 == cap_region_of(img@, *body).3,
{
    let ghost s = img@;
    let width = img.width();
    let cap_y_end = body.y_start;
    let mut cap_y_start = cap_y_end;
    let ghost top = content_top_from(s, cap_y_end as int);
    proof {
        lemma_content_top(s, cap_y_end as int);
    }
    while cap_y_start > 0
        invariant
            s == img@,
            cap_y_end <= s.height,
            cap_y_start <= cap_y_end,
            top == content_top_from(s, cap_y_start as int),
        ensures
            cap_y_start == top,
        decreases cap_y_start,
    {
        let (xs, xe) = row_width_range(img, cap_y_start - 1);
        if xs < xe {
            cap_y_start = cap_y_start - 1;
        } else {
            break;
        }
    }
    let mut cap_x_start = width;
    let mut cap_x_end: u32 = 0;
    let mut y = cap_y_start;
    while y < cap_y_end
        invariant
            s == img@,
            width == s.width,
            cap_y_start <= y <= cap_y_end <= s.height,
            cap_x_start == rows_first(s, cap_y_start as int, y as int),
            cap_x_end == rows_end(s, cap_y_start as int, y as int),
        decreases cap_y_end - y,
    {
        let (xs, xe) = row_width_range(img, y);
        proof {
            lemma_row_range(s, y as int);
        }
        if xs < cap_x_start {
            cap_x_start = xs;
        }
        if xe > cap_x_end {
            cap_x_end = xe;
        }
        y += 1;
    }
    (cap_y_start, cap_y_end, cap_x_start, cap_x_end)
}

/// The cap scale for a cap of height `h` over a content width `cw`: `200 · h / cw`,
/// rounded half up, at most 1000; 100 when `cw` is 0.
pub open spec fn cap_scale_of(h: int, cw: int) -> int {
    if cw > 0 {
        let q = (400 * h + cw) / (2 * cw);
        if q < 1000 { q } else { 1000 }
    } else {
        100
    }
}

/// Computes the cap scale (see [`cap_scale_of`]).
pub fn cap_scale(h: u32, cw: u32) -> (r: u32)
    ensures
        r == cap_scale_of(h as int, cw as int),
{
    if cw > 0 {
        let q = (400 * (h as u64) + cw as u64) / (2 * cw as u64);
        if q < 1000 { q as u32 } else { 1000 }
    } else {
        100
    }
}


/// The cap settings read back: `shape` (as the caller recognized it) with the scale of a cap
/// of height `h` over content width `cw`; the default rectangle at 100 when there is no cap.
pub open spec fn cap_config_of(shape: CapShape, h: int, cw: int) -> CapConfig {
    CapConfig {
        shape: if h == 0 { CapShape::Rect } else { shape },
        scale: if h == 0 { 100 } else { cap_scale_of(h, cw) as u32 },
        independent_settings: false,
        color: grey(),
        opacity: 255,
    }
}

/// The message reported when no cap is found.
pub open spec fn msg_no_cap() -> Seq<char> {
    "未检测到 cap，使用默认矩形，缩放100%"@
}

/// The message reported when no margin is found.
pub open spec fn msg_no_margin() -> Seq<char> {
    "未检测到左右边距，使用默认值 0"@
}

/// The message reported when no throw is found.
pub open spec fn msg_no_throw() -> Seq<char> {
    "未检测到投的长度，使用默认值 0"@
}

/// The effect settings given to a tail read back from an image: repetition and glow off,
/// with their usual colors and sizes.
pub open spec fn parsed_effect() -> EffectConfig {
    EffectConfig {
        cap_echo_enabled: false,
        echo_color: RgbaColor { r: 113, g: 113, b: 113, a: 76 },
        echo_opacity: 76,
        echo_length: 50,
        glow_enabled: false,
        glow_color: RgbaColor { r: 144, g: 238, b: 144, a: 255 },
        glow_opacity: 180,
        glow_dx: 0,
        glow_dy: 0,
        glow_size: 8,
        glow_spread: 4,
    }
}

pub(crate) fn make_parsed_effect() -> (e: EffectConfig)
    ensures
        e == parsed_effect(),
{
    EffectConfig {
        cap_echo_enabled: false,
        echo_color: RgbaColor { r: 113, g: 113, b: 113, a: 76 },
        echo_opacity: 76,
        echo_length: 50,
        glow_enabled: false,
        glow_color: RgbaColor { r: 144, g: 238, b: 144, a: 255 },
        glow_opacity: 180,
        glow_dx: 0,
        glow_dy: 0,
        glow_size: 8,
        glow_spread: 4,
    }
}

/// What the parser measures of a tail image, all but the shape of its cap.
#[derive(Debug)]
pub struct TailMeasurements {
    pub margin: u32,
    pub throw_length: u32,
    pub body: BodyRegion,
    pub global_color: RgbaColor,
    pub global_opacity: u8,
    /// `(y_start, y_end, x_start, x_end)` of the cap.
    pub cap_region: (u32, u32, u32, u32),
    pub border_enabled: bool,
    pub border_color: RgbaColor,
    pub border_width: u32,
    pub border_warnings: Vec<String>,
}

/// `m` holds what the parser measures of `s`, whose body is `m.body`.
pub open spec fn measures(m: TailMeasurements, s: ImageSpec) -> bool {
    &&& body_of(s) == Ok::<BodyRegion, ParseError>(m.body)
    &&& m.margin == margin_of(s)
    &&& m.throw_length == throw_length(s)
    &&& (m.global_color, m.global_opacity) == body_color_of(s, m.body)
    &&& m.cap_region.0 == cap_region_of(s, m.body).0
    &&& m.cap_region.1 == cap_region_of(s, m.body).1
    &&& m.cap_region.2 == cap_region_of(s, m.body).2
    &&& m.cap_region.3 == cap_region_of(s, m.body).3
    &&& m.border_enabled == border_of(s, m.body).0
    &&& m.border_color == border_of(s, m.body).1
    &&& m.border_width == border_of(s, m.body).2
    &&& strings_view(m.border_warnings@) == border_of(s, m.body).3
}

/// Measures a tail image: its margin, throw length, body, body color, cap region and
/// border. `ImageTooSmall` for an image without pixels; the error of [`body_of`] when no
/// body is found.
pub fn measure_tail(img: &Image) -> (r: Result<TailMeasurements, ParseError>)
    ensures
        (img@.width == 0 || img@.height == 0) ==> r matches Err(ParseError::ImageTooSmall),
        (img@.width > 0 && img@.height > 0 && body_of(img@) is Err) ==> r matches Err(ParseError::BodyTooShort),
        (img@.width > 0 && img@.height > 0 && body_of(img@) is Ok) ==> r is Ok,
        r is Ok ==> measures(r->Ok_0, img@),
{
    let (width, height) = img.dimensions();
    if width == 0 || height == 0 {
        return Err(ParseError::ImageTooSmall);
    }
    let margin = detect_margin(img);
    let throw_length = detect_throw_length(img);
    let body = match detect_body(img) {
        Ok(b) => b,
        Err(e) => {
            return Err(e);
        },
    };
    let (global_color, global_opacity) = extract_body_color(img, &body);
    let cap_region = detect_cap_region(img, &body);
    let (border_enabled, border_color, border_width, border_warnings) = detect_border(img, &body);
    Ok(
        TailMeasurements {
            margin,
            throw_length,
            body,
            global_color,
            global_opacity,
            cap_region,
            border_enabled,
            border_color,
            border_width,
            border_warnings,
        },
    )
}

/// The warnings of a reading: no margin, no throw, no cap, then those of the border.
pub open spec fn parse_warnings(m: TailMeasurements) -> Seq<Seq<char>> {
    (if m.margin == 0 { seq![msg_no_margin()] } else { seq![] }) + (if m.throw_length == 0 {
        seq![msg_no_throw()]
    } else {
        seq![]
    }) + (if m.cap_region.1 == m.cap_region.0 { seq![msg_no_cap()] } else { seq![] })
        + strings_view(m.border_warnings@)
}

/// The body settings read back: the body color, and the border as measured.
pub open spec fn parsed_body(m: TailMeasurements) -> BodyConfig {
    BodyConfig {
        independent_settings: false,
        color: m.global_color,
        opacity: m.global_opacity,
        border_enabled: m.border_enabled,
        border_color: m.border_color,
        border_opacity: 255,
        border_opacity_independent: false,
        border_match_body: false,
        border_width: m.border_width,
    }
}

/// Builds the tail parameters from the measurements of an image of `width` × `height`
/// named `filename`, whose cap was recognized as `shape`.
pub fn tail_config_from(m: TailMeasurements, width: u32, height: u32, filename: String, shape: CapShape) -> (r: ParseResult)
    requires
        m.cap_region.0 <= m.cap_region.1,
        m.body.x_start <= m.body.x_end,
    ensures
        r.config.image.width == width,
        r.config.image.height == height,
        r.config.image.filename@ == filename@,
        r.config.margin == m.margin,
        r.config.throw_length == m.throw_length,
        r.config.global_color == m.global_color,
        r.config.global_opacity == m.global_opacity,
        r.config.cap == cap_config_of(shape, m.cap_region.1 - m.cap_region.0, m.body.x_end - m.body.x_start),
        r.config.body == parsed_body(m),
        r.config.effect == parsed_effect(),
        strings_view(r.warnings@) == parse_warnings(m),
{
    let ghost m0 = m;
    let mut warnings: Vec<String> = Vec::new();
    if m.margin == 0 {
        let mut t = String::new();
        push_str(&mut t, "未检测到左右边距，使用默认值 0");
        warnings.push(t);
    }
    if m.throw_length == 0 {
        let mut t = String::new();
        push_str(&mut t, "未检测到投的长度，使用默认值 0");
        warnings.push(t);
    }
    let cap_height = m.cap_region.1 - m.cap_region.0;
    let content_width = m.body.x_end - m.body.x_start;
    let cap = if cap_height == 0 {
        let mut t = String::new();
        push_str(&mut t, "未检测到 cap，使用默认矩形，缩放100%");
        warnings.push(t);
        CapConfig { shape: CapShape::Rect, scale: 100, independent_settings: false, color: RgbaColor::grey(), opacity: 255 }
    } else {
        CapConfig {
            shape,
            scale: cap_scale(cap_height, content_width),
            independent_settings: false,
            color: RgbaColor::grey(),
            opacity: 255,
        }
    };
    let TailMeasurements {
        margin,
        throw_length,
        body: _,
        global_color,
        global_opacity,
        cap_region: _,
        border_enabled,
        border_color,
        border_width,
        border_warnings,
    } = m;
    let mut bw = border_warnings;
    warnings.append(&mut bw);
    assert(strings_view(warnings@) =~= parse_warnings(m0));
    let config = TailConfig {
        image: ImageConfig { width, height, filename },
        margin,
        throw_length,
        global_color,
        global_opacity,
        cap,
        body: BodyConfig {
            independent_settings: false,
            color: global_color,
            opacity: global_opacity,
            border_enabled,
            border_color,
            border_opacity: 255,
            border_opacity_independent: false,
            border_match_body: false,
            border_width,
        },
        effect: make_parsed_effect(),
    };
    ParseResult { config, warnings }
}

/// The name given to a preset read from the image at `path`: `upload-` and the file stem
/// (`unknown` when the path has none).
pub fn upload_name(path: &str) -> (r: String)
    ensures
        r@ == "upload-"@ + match file_stem_of(path@) {
            Some(stem) => stem,
            None => "unknown"@,
        },
{
    let mut r = String::new();
    push_str(&mut r, "upload-");
    match path_file_stem(path) {
        Some(stem) => push_str(&mut r, stem.as_str()),
        None => push_str(&mut r, "unknown"),
    }
    r
}

impl ParseError {
    /// The message of the error.
    pub fn message(&self) -> (m: String)
        ensures
            m@ == match *self {
                ParseError::BodyTooShort => "解析失败或非投皮：body 高度不足 5000px"@,
                ParseError::ImageReadError(e) => "无法读取图片: "@ + e@,
                ParseError::ImageTooSmall => "图片为空或尺寸过小"@,
            },
    {
        let mut m = String::new();
        match self {
            ParseError::BodyTooShort => push_str(&mut m, "解析失败或非投皮：body 高度不足 5000px"),
            ParseError::ImageReadError(e) => {
                push_str(&mut m, "无法读取图片: ");
                push_str(&mut m, e.as_str());
            },
            ParseError::ImageTooSmall => push_str(&mut m, "图片为空或尺寸过小"),
        }
        m
    }
}


/// The width of the body's content: its width less the border on both sides (at least 0)
/// when a border is found.
pub open spec fn inner_width_of(b: BodyRegion, border_enabled: bool, border_width: int) -> int {
    let w = b.x_end - b.x_start;
    if border_enabled {
        if w >= 2 * border_width { w - 2 * border_width } else { 0 }
    } else {
        w
    }
}

/// Computes the width of the body's content (see [`inner_width_of`]).
pub fn inner_width(b: &BodyRegion, border_enabled: bool, border_width: u32) -> (w: u32)
    requires
        b.x_start <= b.x_end,
    ensures
        w == inner_width_of(*b, border_enabled, border_width as int),
{
    let w = b.x_end - b.x_start;
    if border_enabled {
        if (w as u64) >= 2 * (border_width as u64) { w - 2 * border_width } else { 0 }
    } else {
        w
    }
}

/// The cap scale by shape: 100 for a rectangle or a ball; for a diamond or a gradient, the
/// scale of a cap `h` high over content width `cw` (see [`cap_scale_of`]).
pub open spec fn shaped_cap_scale_of(shape: CapShape, h: int, cw: int) -> int {
    match shape {
        CapShape::Rect => 100,
        CapShape::Ball => 100,
        _ => cap_scale_of(h, cw),
    }
}

/// Computes the cap scale by shape (see [`shaped_cap_scale_of`]).
pub fn shaped_cap_scale(shape: CapShape, h: u32, cw: u32) -> (r: u32)
    ensures
        r == shaped_cap_scale_of(shape, h as int, cw as int),
{
    match shape {
        CapShape::Rect => 100,
        CapShape::Ball => 100,
        _ => cap_scale(h, cw),
    }
}

} // verus!
