//! Reading the border of a tail body from three sample rows, on both sides of the body.
use vstd::prelude::*;

use crate::config::{BodyConfig, CapConfig, CapShape, ImageConfig, ParseResult, RgbaColor, TailConfig, grey, white};
use crate::image::{Image, ImageSpec, Pixel};
use crate::image_utils::{file_stem_of, path_file_stem};
use crate::tail_parser::{
    BodyRegion, ParseError, TailMeasurements, blurred, body_color_of, body_of, cap_region_of, color_diff, detect_body,
    detect_cap_region, detect_margin, detect_throw_length, differs_by_more, extract_body_color, inner_width,
    inner_width_of, make_parsed_effect, margin_of, msg_no_border, msg_no_cap, msg_no_margin, msg_no_throw, parsed_body,
    parsed_effect, sample_color_blur, shaped_cap_scale, shaped_cap_scale_of, sq_dist,
};
use crate::throw_length::throw_length;
use crate::text::{push_str, strings_view};

verus! {

/// The blur radius used to sample the body's own color.
pub const BASE_RADIUS: u32 = 10;

/// The blur radius used along a sample row.
pub const SCAN_RADIUS: u32 = 5;

/// The distance beyond which a column counts as border.
pub const SAMPLED_THRESHOLD: u32 = 25;

/// A column whose blurred color (radius [`SCAN_RADIUS`]) differs from `base` by more than
/// [`SAMPLED_THRESHOLD`].
pub open spec fn off_color(s: ImageSpec, x: int, y: int, base: Pixel) -> bool {
    differs_by_more(base, blurred(s, x, y, SCAN_RADIUS as int), SAMPLED_THRESHOLD as int)
}

/// Going right from column `x` (up to `xe`) on row `y`: the first column that is not off
/// color (or `xe`).
pub open spec fn run_end(s: ImageSpec, x: int, xe: int, y: int, base: Pixel) -> int
    decreases xe - x,
{
    if x >= xe || !off_color(s, x, y, base) { x } else { run_end(s, x + 1, xe, y, base) }
}

/// Going left from column `x - 1` (down to `xs`) on row `y`: the column after the last one
/// that is off color (or `x`, when column `x - 1` is not).
pub open spec fn run_start(s: ImageSpec, x: int, xs: int, y: int, base: Pixel) -> int
    decreases x - xs,
{
    if x <= xs || !off_color(s, x - 1, y, base) { x } else { run_start(s, x - 1, xs, y, base) }
}

proof fn lemma_run_end(s: ImageSpec, x: int, xe: int, y: int, base: Pixel)
    requires
        x <= xe,
    ensures
        x <= run_end(s, x, xe, y, base) <= xe,
    decreases xe - x,
{
    if x < xe && off_color(s, x, y, base) {
        lemma_run_end(s, x + 1, xe, y, base);
    }
}

proof fn lemma_run_start(s: ImageSpec, x: int, xs: int, y: int, base: Pixel)
    requires
        xs <= x,
    ensures
        xs <= run_start(s, x, xs, y, base) <= x,
    decreases x - xs,
{
    if x > xs && off_color(s, x - 1, y, base) {
        lemma_run_start(s, x - 1, xs, y, base);
    }
}

/// The three sample rows of `ys .. ye`: at a quarter, a half and three quarters.
pub open spec fn sample_rows(ys: int, ye: int) -> Seq<int> {
    seq![ys + (ye - ys) / 4, ys + (ye - ys) / 2, ys + (ye - ys) * 3 / 4]
}

/// The width read on the left edge at row `y`: the run of off-color columns from `xs`,
/// the body's color sampled ten columns in (at most at `xe - 1`).
pub open spec fn left_width_at(s: ImageSpec, xs: int, xe: int, y: int) -> int {
    let sx = if xs + 10 < xe - 1 { xs + 10 } else { xe - 1 };
    run_end(s, xs, xe, y, blurred(s, sx, y, BASE_RADIUS as int)) - xs
}

/// The width read on the right edge at row `y`: the run of off-color columns ending at
/// `xe`, the body's color sampled ten columns in (at least at `xs`).
pub open spec fn right_width_at(s: ImageSpec, xs: int, xe: int, y: int) -> int {
    let sx = if xe - 10 > xs { xe - 10 } else { xs };
    xe - run_start(s, xe, xs, y, blurred(s, sx, y, BASE_RADIUS as int))
}

/// The widths kept of readings `w`: those above 0 and below half of `span`.
pub open spec fn kept_widths(w: Seq<int>, span: int) -> Seq<int>
    decreases w.len(),
{
    if w.len() == 0 {
        seq![]
    } else {
        let r = kept_widths(w.drop_last(), span);
        if 0 < w.last() < span / 2 { r.push(w.last()) } else { r }
    }
}

/// The median of at most three readings, the upper one of two; 0 of none.
pub open spec fn median_of(v: Seq<int>) -> int {
    if v.len() == 0 {
        0
    } else if v.len() == 1 {
        v[0]
    } else if v.len() == 2 {
        if v[0] > v[1] { v[0] } else { v[1] }
    } else {
        let (a, b, c) = (v[0], v[1], v[2]);
        if (a <= b && b <= c) || (c <= b && b <= a) {
            b
        } else if (b <= a && a <= c) || (c <= a && a <= b) {
            a
        } else {
            c
        }
    }
}

/// The border width on the left edge of columns `xs .. xe`: the median of the widths kept
/// at the three sample rows.
pub open spec fn left_border_width(s: ImageSpec, ys: int, ye: int, xs: int, xe: int) -> int {
    let r = sample_rows(ys, ye);
    median_of(kept_widths(seq![left_width_at(s, xs, xe, r[0]), left_width_at(s, xs, xe, r[1]), left_width_at(s, xs, xe, r[2])], xe - xs))
}

/// The border width on the right edge of columns `xs .. xe` (see [`left_border_width`]).
pub open spec fn right_border_width(s: ImageSpec, ys: int, ye: int, xs: int, xe: int) -> int {
    let r = sample_rows(ys, ye);
    median_of(kept_widths(seq![right_width_at(s, xs, xe, r[0]), right_width_at(s, xs, xe, r[1]), right_width_at(s, xs, xe, r[2])], xe - xs))
}

fn off_color_exec(img: &Image, x: u32, y: u32, base: Pixel) -> (b: bool)
    ensures
        b == off_color(img@, x as int, y as int, base),
{
    let color = sample_color_blur(img, x, y, SCAN_RADIUS);
    let diff = color_diff(base, color);
    proof {
        let v = sq_dist(base, color);
        if diff > 25 {
            assert(v >= 26 * 26) by (nonlinear_arith)
                requires
                    diff * diff <= v,
                    diff >= 26,
            ;
        } else {
            assert(v < 26 * 26) by (nonlinear_arith)
                requires
                    v < (diff + 1) * (diff + 1),
                    diff <= 25,
            ;
        }
    }
    diff > SAMPLED_THRESHOLD
}

/// The row at `num / 4` of the way from `ys` to `ye`.
fn sample_row(ys: u32, ye: u32, num: u64) -> (y: u32)
    requires
        ys <= ye,
        num <= 3,
    ensures
        y == ys + (ye - ys) * num / 4,
{
    let d = (ye - ys) as u64;
    assert(d * num / 4 <= d) by (nonlinear_arith)
        requires
            num <= 3,
            d >= 0,
    ;
    ys + (d * num / 4) as u32
}

fn left_width(img: &Image, xs: u32, xe: u32, y: u32) -> (w: u32)
    requires
        xs < xe,
    ensures
        w == left_width_at(img@, xs as int, xe as int, y as int),
{
    let ghost s = img@;
    let sx = if xe - 1 - xs > 10 { xs + 10 } else { xe - 1 };
    let base = sample_color_blur(img, sx, y, BASE_RADIUS);
    let ghost end = run_end(s, xs as int, xe as int, y as int, base);
    proof {
        lemma_run_end(s, xs as int, xe as int, y as int, base);
    }
    let mut x = xs;
    while x < xe
        invariant
            s == img@,
            xs <= x <= xe,
            end == run_end(s, x as int, xe as int, y as int, base),
        ensures
            x == end,
        decreases xe - x,
    {
        if !off_color_exec(img, x, y, base) {
            break;
        }
        x += 1;
    }
    x - xs
}

fn right_width(img: &Image, xs: u32, xe: u32, y: u32) -> (w: u32)
    requires
        xs < xe,
    ensures
        w == right_width_at(img@, xs as int, xe as int, y as int),
{
    let ghost s = img@;
    let sx = if xe - xs > 10 { xe - 10 } else { xs };
    let base = sample_color_blur(img, sx, y, BASE_RADIUS);
    let ghost start = run_start(s, xe as int, xs as int, y as int, base);
    proof {
        lemma_run_start(s, xe as int, xs as int, y as int, base);
    }
    let mut x = xe;
    while x > xs
        invariant
            s == img@,
            xs <= x <= xe,
            start == run_start(s, x as int, xs as int, y as int, base),
        ensures
            x == start,
        decreases x,
    {
        if !off_color_exec(img, x - 1, y, base) {
            break;
        }
        x -= 1;
    }
    xe - x
}

/// The median of the readings (see [`median_of`]).
fn median(v: &Vec<u32>) -> (m: u32)
    requires
        v@.len() <= 3,
    ensures
        m == median_of(v@.map_values(|x: u32| x as int)),
{
    let ghost mv = v@.map_values(|x: u32| x as int);
    if v.len() == 0 {
        0
    } else if v.len() == 1 {
        v[0]
    } else if v.len() == 2 {
        if v[0] > v[1] { v[0] } else { v[1] }
    } else {
        let (a, b, c) = (v[0], v[1], v[2]);
        assert(mv[0] == a && mv[1] == b && mv[2] == c);
        if (a <= b && b <= c) || (c <= b && b <= a) {
            b
        } else if (b <= a && a <= c) || (c <= a && a <= b) {
            a
        } else {
            c
        }
    }
}

/// Reads the left border width (see [`left_border_width`]).
pub fn detect_border_width_left(img: &Image, ys: u32, ye: u32, xs: u32, xe: u32) -> (w: u32)
    requires
        ys <= ye,
        xs < xe,
    ensures
        w == left_border_width(img@, ys as int, ye as int, xs as int, xe as int),
{
    let span = xe - xs;
    let y0 = sample_row(ys, ye, 1);
    let y1 = sample_row(ys, ye, 2);
    let y2 = sample_row(ys, ye, 3);
    assert((ye - ys) * 2 / 4 == (ye - ys) / 2);
    let w0 = left_width(img, xs, xe, y0);
    let w1 = left_width(img, xs, xe, y1);
    let w2 = left_width(img, xs, xe, y2);
    assert(sample_rows(ys as int, ye as int) == seq![y0 as int, y1 as int, y2 as int]);
    median(&kept(w0, w1, w2, span))
}

/// Reads the right border width (see [`right_border_width`]).
pub fn detect_border_width_right(img: &Image, ys: u32, ye: u32, xs: u32, xe: u32) -> (w: u32)
    requires
        ys <= ye,
        xs < xe,
    ensures
        w == right_border_width(img@, ys as int, ye as int, xs as int, xe as int),
{
    let span = xe - xs;
    let y0 = sample_row(ys, ye, 1);
    let y1 = sample_row(ys, ye, 2);
    let y2 = sample_row(ys, ye, 3);
    assert((ye - ys) * 2 / 4 == (ye - ys) / 2);
    let w0 = right_width(img, xs, xe, y0);
    let w1 = right_width(img, xs, xe, y1);
    let w2 = right_width(img, xs, xe, y2);
    assert(sample_rows(ys as int, ye as int) == seq![y0 as int, y1 as int, y2 as int]);
    median(&kept(w0, w1, w2, span))
}

/// The readings kept (see [`kept_widths`]).
fn kept(w0: u32, w1: u32, w2: u32, span: u32) -> (v: Vec<u32>)
    ensures
        v@.len() <= 3,
        v@.map_values(|x: u32| x as int) == kept_widths(seq![w0 as int, w1 as int, w2 as int], span as int),
{
    let mut v: Vec<u32> = Vec::new();
    let ghost ws = seq![w0 as int, w1 as int, w2 as int];
    assert(seq![w0 as int].drop_last() =~= Seq::<int>::empty());
    assert(kept_widths(Seq::<int>::empty(), span as int) =~= Seq::<int>::empty());
    assert(seq![w0 as int, w1 as int].drop_last() =~= seq![w0 as int]);
    assert(ws.drop_last() =~= seq![w0 as int, w1 as int]);
    if w0 > 0 && w0 < span / 2 {
        v.push(w0);
    }
    assert(v@.map_values(|x: u32| x as int) =~= kept_widths(seq![w0 as int], span as int));
    if w1 > 0 && w1 < span / 2 {
        v.push(w1);
    }
    assert(v@.map_values(|x: u32| x as int) =~= kept_widths(seq![w0 as int, w1 as int], span as int));
    if w2 > 0 && w2 < span / 2 {
        v.push(w2);
    }
    assert(v@.map_values(|x: u32| x as int) =~= kept_widths(ws, span as int));
    v
}


/// The border color read at the middle of a border `bw` wide from `xs`: the mean, channel
/// by channel (rounded down), of the blurred colors (radius [`BASE_RADIUS`]) at the three
/// sample rows.
pub open spec fn sampled_border_color(s: ImageSpec, ys: int, ye: int, xs: int, bw: int) -> RgbaColor {
    let sx = xs + bw / 2;
    let r = sample_rows(ys, ye);
    let p0 = blurred(s, sx, r[0], BASE_RADIUS as int);
    let p1 = blurred(s, sx, r[1], BASE_RADIUS as int);
    let p2 = blurred(s, sx, r[2], BASE_RADIUS as int);
    RgbaColor {
        r: ((p0[0] + p1[0] + p2[0]) / 3) as u8,
        g: ((p0[1] + p1[1] + p2[1]) / 3) as u8,
        b: ((p0[2] + p1[2] + p2[2]) / 3) as u8,
        a: ((p0[3] + p1[3] + p2[3]) / 3) as u8,
    }
}

/// Samples the border color (see [`sampled_border_color`]).
pub fn extract_border_color_sampled(img: &Image, ys: u32, ye: u32, xs: u32, bw: u32) -> (c: RgbaColor)
    requires
        ys <= ye,
        xs + bw / 2 <= u32::MAX,
    ensures
        c == sampled_border_color(img@, ys as int, ye as int, xs as int, bw as int),
{
    let sx = xs + bw / 2;
    let y0 = sample_row(ys, ye, 1);
    let y1 = sample_row(ys, ye, 2);
    let y2 = sample_row(ys, ye, 3);
    assert((ye - ys) * 2 / 4 == (ye - ys) / 2);
    assert(sample_rows(ys as int, ye as int) == seq![y0 as int, y1 as int, y2 as int]);
    let p0 = sample_color_blur(img, sx, y0, BASE_RADIUS);
    let p1 = sample_color_blur(img, sx, y1, BASE_RADIUS);
    let p2 = sample_color_blur(img, sx, y2, BASE_RADIUS);
    RgbaColor {
        r: ((p0[0] as u32 + p1[0] as u32 + p2[0] as u32) / 3) as u8,
        g: ((p0[1] as u32 + p1[1] as u32 + p2[1] as u32) / 3) as u8,
        b: ((p0[2] as u32 + p1[2] as u32 + p2[2] as u32) / 3) as u8,
        a: ((p0[3] as u32 + p1[3] as u32 + p2[3] as u32) / 3) as u8,
    }
}

/// The border of the body read on both sides, each in its outer
/// `min(100, width / 2)` columns: the mean of the two widths when both are found, else the
/// one found; `(enabled, color, width, warnings)`, the color read on the left, white and
/// the no-border message when no border is found.
pub open spec fn sampled_border_of(s: ImageSpec, b: BodyRegion) -> (bool, RgbaColor, int, Seq<Seq<char>>) {
    let half = (b.x_end - b.x_start) / 2;
    let dw = if half < 100 { half } else { 100 };
    let lw = if dw == 0 { 0 } else { left_border_width(s, b.y_start as int, b.y_end as int, b.x_start as int, b.x_start + dw) };
    let rw = if dw == 0 { 0 } else { right_border_width(s, b.y_start as int, b.y_end as int, b.x_end - dw, b.x_end as int) };
    let bw = if lw > 0 && rw > 0 { (lw + rw) / 2 } else if lw > rw { lw } else { rw };
    if bw > 0 {
        (true, sampled_border_color(s, b.y_start as int, b.y_end as int, b.x_start as int, bw), bw, seq![])
    } else {
        (false, white(), 0, seq![msg_no_border()])
    }
}

proof fn lemma_median_bound(v: Seq<int>, hi: int)
    requires
        v.len() <= 3,
        forall|i: int| 0 <= i < v.len() ==> 0 <= #[trigger] v[i] < hi,
    ensures
        0 <= median_of(v),
        v.len() > 0 ==> median_of(v) < hi,
{
}

proof fn lemma_kept_bound(w: Seq<int>, span: int)
    ensures
        kept_widths(w, span).len() <= w.len(),
        forall|i: int| 0 <= i < kept_widths(w, span).len() ==> 0 < #[trigger] kept_widths(w, span)[i] < span / 2,
    decreases w.len(),
{
    if w.len() > 0 {
        lemma_kept_bound(w.drop_last(), span);
    }
}

/// Reads the border of the body on both sides (see [`sampled_border_of`]).
pub fn detect_border_sampled(img: &Image, body: &BodyRegion) -> (r: (bool, RgbaColor, u32, Vec<String>))
    requires
        body.x_start < body.x_end,
        body.y_start <= body.y_end,
    ensures
        r.0 == sampled_border_of(img@, *body).0,
        r.1 == sampled_border_of(img@, *body).1,
        r.2 == sampled_border_of(img@, *body).2,
        strings_view(r.3@) == sampled_border_of(img@, *body).3,
{
    let ghost s = img@;
    let half = (body.x_end - body.x_start) / 2;
    let dw = if half < 100 { half } else { 100 };
    let (lw, rw) = if dw == 0 {
        (0, 0)
    } else {
        let lw = detect_border_width_left(img, body.y_start, body.y_end, body.x_start, body.x_start + dw);
        let rw = detect_border_width_right(img, body.y_start, body.y_end, body.x_end - dw, body.x_end);
        proof {
            let rows = sample_rows(body.y_start as int, body.y_end as int);
            let lws = seq![
                left_width_at(s, body.x_start as int, body.x_start + dw, rows[0]),
                left_width_at(s, body.x_start as int, body.x_start + dw, rows[1]),
                left_width_at(s, body.x_start as int, body.x_start + dw, rows[2]),
            ];
            lemma_kept_bound(lws, dw as int);
            lemma_median_bound(kept_widths(lws, dw as int), (dw / 2) as int);
            let rws = seq![
                right_width_at(s, body.x_end - dw, body.x_end as int, rows[0]),
                right_width_at(s, body.x_end - dw, body.x_end as int, rows[1]),
                right_width_at(s, body.x_end - dw, body.x_end as int, rows[2]),
            ];
            lemma_kept_bound(rws, dw as int);
            lemma_median_bound(kept_widths(rws, dw as int), (dw / 2) as int);
        }
        (lw, rw)
    };
    let bw = if lw > 0 && rw > 0 { (lw + rw) / 2 } else if lw > rw { lw } else { rw };
    let mut warnings: Vec<String> = Vec::new();
    if bw > 0 {
        let color = extract_border_color_sampled(img, body.y_start, body.y_end, body.x_start, bw);
        assert(strings_view(warnings@) =~= Seq::<Seq<char>>::empty());
        (true, color, bw, warnings)
    } else {
        let mut m = String::new();
        push_str(&mut m, "未检测到边框");
        warnings.push(m);
        assert(strings_view(warnings@) =~= seq![msg_no_border()]);
        (false, RgbaColor::white(), 0, warnings)
    }
}


/// `m` holds what the both-sides reading measures of `s`: as [`measures`] but for the
/// border, read by [`sampled_border_of`].
pub open spec fn measures_sampled(m: TailMeasurements, s: ImageSpec) -> bool {
    &&& body_of(s) == Ok::<BodyRegion, ParseError>(m.body)
    &&& m.margin == margin_of(s)
    &&& m.throw_length == throw_length(s)
    &&& (m.global_color, m.global_opacity) == body_color_of(s, m.body)
    &&& m.cap_region.0 == cap_region_of(s, m.body).0
    &&& m.cap_region.1 == cap_region_of(s, m.body).1
    &&& m.cap_region.2 == cap_region_of(s, m.body).2
    &&& m.cap_region.3 == cap_region_of(s, m.body).3
    &&& m.border_enabled == sampled_border_of(s, m.body).0
    &&& m.border_color == sampled_border_of(s, m.body).1
    &&& m.border_width == sampled_border_of(s, m.body).2
    &&& strings_view(m.border_warnings@) == sampled_border_of(s, m.body).3
}

/// Measures a tail image, reading the border on both sides (see [`measures_sampled`]);
/// the errors are those of [`measure_tail`].
pub fn measure_tail_sampled(img: &Image) -> (r: Result<TailMeasurements, ParseError>)
    ensures
        (img@.width == 0 || img@.height == 0) ==> r matches Err(ParseError::ImageTooSmall),
        (img@.width > 0 && img@.height > 0 && body_of(img@) is Err) ==> r matches Err(ParseError::BodyTooShort),
        (img@.width > 0 && img@.height > 0 && body_of(img@) is Ok) ==> r is Ok,
        r is Ok ==> measures_sampled(r->Ok_0, img@),
{
    let (width, height) = img.dimensions();
    if width == 0 || height == 0 {
        return Err(ParseError::ImageTooSmall);
    }
    let margin = detect_margin(img);
    let throw_length = detect_throw_length(img);
    let body = match detect_body(img) {
        Ok(b) => b,
        Err(e) => {
            return Err(e);
        },
    };
    let (global_color, global_opacity) = extract_body_color(img, &body);
    let (border_enabled, border_color, border_width, border_warnings) = detect_border_sampled(img, &body);
    let cap_region = detect_cap_region(img, &body);
    Ok(
        TailMeasurements {
            margin,
            throw_length,
            body,
            global_color,
            global_opacity,
            cap_region,
            border_enabled,
            border_color,
            border_width,
            border_warnings,
        },
    )
}

/// The warnings of a both-sides reading: no margin, no throw, those of the border, then no
/// cap.
pub open spec fn sampled_warnings(m: TailMeasurements) -> Seq<Seq<char>> {
    (if m.margin == 0 { seq![msg_no_margin()] } else { seq![] }) + (if m.throw_length == 0 {
        seq![msg_no_throw()]
    } else {
        seq![]
    }) + strings_view(m.border_warnings@) + (if m.cap_region.1 == m.cap_region.0 {
        seq![msg_no_cap()]
    } else {
        seq![]
    })
}

/// The cap settings of a both-sides reading: `shape` with its scale over the body's content
/// width (see [`shaped_cap_scale_of`], [`inner_width_of`]); the default rectangle at 100
/// when there is no cap.
pub open spec fn sampled_cap_of(m: TailMeasurements, shape: CapShape) -> CapConfig {
    let h = m.cap_region.1 - m.cap_region.0;
    CapConfig {
        shape: if h == 0 { CapShape::Rect } else { shape },
        scale: if h == 0 { 100 } else { shaped_cap_scale_of(shape, h, inner_width_of(m.body, m.border_enabled, m.border_width as int)) as u32 },
        independent_settings: false,
        color: grey(),
        opacity: 255,
    }
}

/// Builds the tail parameters from a both-sides reading of an image of `width` × `height`
/// named `filename`, whose cap was recognized as `shape`.
pub fn sampled_tail_config(m: TailMeasurements, width: u32, height: u32, filename: String, shape: CapShape) -> (r: ParseResult)
    requires
        m.cap_region.0 <= m.cap_region.1,
        m.body.x_start <= m.body.x_end,
    ensures
        r.config.image.width == width,
        r.config.image.height == height,
        r.config.image.filename@ == filename@,
        r.config.margin == m.margin,
        r.config.throw_length == m.throw_length,
        r.config.global_color == m.global_color,
        r.config.global_opacity == m.global_opacity,
        r.config.cap == sampled_cap_of(m, shape),
        r.config.body == parsed_body(m),
        r.config.effect == parsed_effect(),
        strings_view(r.warnings@) == sampled_warnings(m),
{
    let ghost m0 = m;
    let mut warnings: Vec<String> = Vec::new();
    if m.margin == 0 {
        let mut t = String::new();
        push_str(&mut t, "未检测到左右边距，使用默认值 0");
        warnings.push(t);
    }
    if m.throw_length == 0 {
        let mut t = String::new();
        push_str(&mut t, "未检测到投的长度，使用默认值 0");
        warnings.push(t);
    }
    let cap_height = m.cap_region.1 - m.cap_region.0;
    let content_width = inner_width(&m.body, m.border_enabled, m.border_width);
    let TailMeasurements {
        margin,
        throw_length,
        body: _,
        global_color,
        global_opacity,
        cap_region: _,
        border_enabled,
        border_color,
        border_width,
        border_warnings,
    } = m;
    let mut bw = border_warnings;
    warnings.append(&mut bw);
    let cap = if cap_height == 0 {
        let mut t = String::new();
        push_str(&mut t, "未检测到 cap，使用默认矩形，缩放100%");
        warnings.push(t);
        CapConfig { shape: CapShape::Rect, scale: 100, independent_settings: false, color: RgbaColor::grey(), opacity: 255 }
    } else {
        CapConfig {
            shape,
            scale: shaped_cap_scale(shape, cap_height, content_width),
            independent_settings: false,
            color: RgbaColor::grey(),
            opacity: 255,
        }
    };
    assert(strings_view(warnings@) =~= sampled_warnings(m0));
    let config = TailConfig {
        image: ImageConfig { width, height, filename },
        margin,
        throw_length,
        global_color,
        global_opacity,
        cap,
        body: BodyConfig {
            independent_settings: false,
            color: global_color,
            opacity: global_opacity,
            border_enabled,
            border_color,
            border_opacity: 255,
            border_opacity_independent: false,
            border_match_body: false,
            border_width,
        },
        effect: make_parsed_effect(),
    };
    ParseResult { config, warnings }
}

/// The name given to a preset imported from the image at `path`: `import-` and the file
/// stem (`unknown` when the path has none).
pub fn import_name(path: &str) -> (r: String)
    ensures
        r@ == "import-"@ + match file_stem_of(path@) {
            Some(stem) => stem,
            None => "unknown"@,
        },
{
    let mut r = String::new();
    push_str(&mut r, "import-");
    match path_file_stem(path) {
        Some(stem) => push_str(&mut r, stem.as_str()),
        None => push_str(&mut r, "unknown"),
    }
    r
}

} // verus!
