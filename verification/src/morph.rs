//! Morphological erosion of a mask, used to find the border of the tail body.
use vstd::prelude::*;

verus! {

/// The minimum of `buf[start + j * stride]` over `lo <= j < hi` (255 when empty).
pub open spec fn strided_min(buf: Seq<u8>, start: int, stride: int, lo: int, hi: int) -> u8
    decreases hi - lo,
{
    if hi <= lo {
        255
    } else {
        let m = strided_min(buf, start, stride, lo, hi - 1);
        let v = buf[start + (hi - 1) * stride];
        if v < m { v } else { m }
    }
}

/// The eroded value of element `i` of a run of `length` elements: the minimum over the
/// elements within `r` of it.
pub open spec fn eroded_at(buf: Seq<u8>, start: int, length: int, stride: int, r: int, i: int) -> u8 {
    let lo = if i >= r { i - r } else { 0 };
    let hi = if i + r < length - 1 { i + r } else { length - 1 };
    strided_min(buf, start, stride, lo, hi + 1)
}

/// `buf` after the first `n` elements of the run were overwritten with their eroded values
/// (all computed from `orig`).
pub open spec fn written(orig: Seq<u8>, buf: Seq<u8>, start: int, length: int, stride: int, r: int, n: int) -> Seq<u8>
    decreases n,
{
    if n <= 0 {
        buf
    } else {
        written(orig, buf, start, length, stride, r, n - 1).update(
            start + (n - 1) * stride,
            eroded_at(orig, start, length, stride, r, n - 1),
        )
    }
}

/// One-dimensional erosion of the run `buf[start + i * stride]`, `0 <= i < length`.
pub open spec fn eroded_1d(buf: Seq<u8>, start: int, length: int, stride: int, r: int) -> Seq<u8> {
    written(buf, buf, start, length, stride, r, length)
}

proof fn lemma_index_bound(start: int, stride: int, j: int, length: int)
    requires
        0 <= j < length,
        0 <= stride,
        0 <= start,
    ensures
        start + j * stride <= start + (length - 1) * stride,
        0 <= start + j * stride,
{
    assert(j * stride <= (length - 1) * stride) by (nonlinear_arith)
        requires
            0 <= j <= length - 1,
            0 <= stride,
    ;
    assert(0 <= j * stride) by (nonlinear_arith)
        requires
            0 <= j,
            0 <= stride,
    ;
}

proof fn lemma_written_len(orig: Seq<u8>, buf: Seq<u8>, start: int, length: int, stride: int, r: int, n: int)
    requires
        0 <= n <= length,
        0 <= stride,
        0 <= start,
        length == 0 || start + (length - 1) * stride < buf.len(),
    ensures
        written(orig, buf, start, length, stride, r, n).len() == buf.len(),
    decreases n,
{
    if n > 0 {
        lemma_written_len(orig, buf, start, length, stride, r, n - 1);
        lemma_index_bound(start, stride, n - 1, length);
    }
}

/// Erodes the run `buf[start + i * stride]`, `0 <= i < length`, with radius `radius`.
pub fn erode_1d(buf: &mut [u8], start: usize, length: usize, stride: usize, radius: usize)
    requires
        length == 0 || start + (length - 1) * stride < old(buf)@.len(),
    ensures
        final(buf)@ == eroded_1d(old(buf)@, start as int, length as int, stride as int, radius as int),
{
    let ghost orig = buf@;
    let n = buf.len();
    let mut tmp: Vec<u8> = Vec::new();
    let mut i: usize = 0;
    while i < length
        invariant
            buf@ == orig,
            n == orig.len(),
            length == 0 || start + (length - 1) * stride < orig.len(),
            i <= length,
            tmp@.len() == i,
            forall|k: int| 0 <= k < i ==> #[trigger] tmp@[k] == eroded_at(orig, start as int, length as int, stride as int, radius as int, k),
        decreases length - i,
    {
        let lo = if i >= radius { i - radius } else { 0 };
        let hi = if radius <= length - 1 - i { i + radius } else { length - 1 };
        let mut min_val: u8 = 255;
        let mut j = lo;
        while j <= hi
            invariant
                buf@ == orig,
                n == orig.len(),
                start + (length - 1) * stride < orig.len(),
                lo <= j <= hi + 1,
                hi < length,
                min_val == strided_min(orig, start as int, stride as int, lo as int, j as int),
            decreases hi + 1 - j,
        {
            proof {
                lemma_index_bound(start as int, stride as int, j as int, length as int);
            }
            let v = buf[start + j * stride];
            if v < min_val {
                min_val = v;
            }
            j += 1;
        }
        tmp.push(min_val);
        i += 1;
    }
    let mut i: usize = 0;
    while i < length
        invariant
            length == 0 || start + (length - 1) * stride < orig.len(),
            n == orig.len(),
            i <= length,
            tmp@.len() == length,
            forall|k: int| 0 <= k < length ==> #[trigger] tmp@[k] == eroded_at(orig, start as int, length as int, stride as int, radius as int, k),
            buf@ == written(orig, orig, start as int, length as int, stride as int, radius as int, i as int),
        decreases length - i,
    {
        proof {
            lemma_index_bound(start as int, stride as int, i as int, length as int);
            lemma_written_len(orig, orig, start as int, length as int, stride as int, radius as int, i as int);
        }
        buf[start + i * stride] = tmp[i];
        i += 1;
    }
}

/// The position of index `k` in the run `start + i * stride`, or -1 when `k` is not on it.
pub open spec fn run_pos(k: int, start: int, stride: int) -> int {
    if stride > 0 && k >= start && (k - start) % stride == 0 {
        (k - start) / stride
    } else {
        -1
    }
}

proof fn lemma_run_pos_of(start: int, stride: int, i: int)
    requires
        stride > 0,
        0 <= i,
    ensures
        run_pos(start + i * stride, start, stride) == i,
{
    assert((i * stride) % stride == 0 && (i * stride) / stride == i) by (nonlinear_arith)
        requires
            stride > 0,
            0 <= i,
    {
        vstd::arithmetic::div_mod::lemma_mod_multiples_basic(i, stride);
        vstd::arithmetic::div_mod::lemma_div_multiples_vanish(i, stride);
    }
}

proof fn lemma_run_pos_inv(k: int, start: int, stride: int)
    requires
        run_pos(k, start, stride) >= 0,
    ensures
        k == start + run_pos(k, start, stride) * stride,
{
    let d = k - start;
    assert(d == stride * (d / stride) + d % stride) by {
        vstd::arithmetic::div_mod::lemma_fundamental_div_mod(d, stride);
    }
    assert(stride * (d / stride) == (d / stride) * stride) by (nonlinear_arith);
}

/// What one-dimensional erosion does to each index: an index on the run holds the
/// eroded value of its position, every other index keeps its value.
proof fn lemma_written_at(orig: Seq<u8>, start: int, length: int, stride: int, r: int, n: int, k: int)
    requires
        0 <= n <= length,
        0 < stride,
        0 <= start,
        start + (length - 1) * stride < orig.len(),
        0 <= k < orig.len(),
    ensures
        written(orig, orig, start, length, stride, r, n)[k] == if 0 <= run_pos(k, start, stride) < n {
            eroded_at(orig, start, length, stride, r, run_pos(k, start, stride))
        } else {
            orig[k]
        },
    decreases n,
{
    if n > 0 {
        lemma_written_at(orig, start, length, stride, r, n - 1, k);
        lemma_written_len(orig, orig, start, length, stride, r, n - 1);
        lemma_index_bound(start, stride, n - 1, length);
        let p = start + (n - 1) * stride;
        if k == p {
            lemma_run_pos_of(start, stride, n - 1);
        } else if run_pos(k, start, stride) == n - 1 {
            lemma_run_pos_inv(k, start, stride);
        }
    }
}

/// The eroded run: each index on it holds the eroded value of its position, every other
/// index keeps its value.
proof fn lemma_eroded_1d_at(buf: Seq<u8>, start: int, length: int, stride: int, r: int, k: int)
    requires
        0 < length,
        0 < stride,
        0 <= start,
        start + (length - 1) * stride < buf.len(),
        0 <= k < buf.len(),
    ensures
        eroded_1d(buf, start, length, stride, r).len() == buf.len(),
        eroded_1d(buf, start, length, stride, r)[k] == if 0 <= run_pos(k, start, stride) < length {
            eroded_at(buf, start, length, stride, r, run_pos(k, start, stride))
        } else {
            buf[k]
        },
{
    lemma_written_len(buf, buf, start, length, stride, r, length);
    lemma_written_at(buf, start, length, stride, r, length, k);
}

/// The strided minimum is one of the elements it ranges over.
proof fn lemma_strided_min_attained(buf: Seq<u8>, start: int, stride: int, lo: int, hi: int)
    requires
        lo < hi,
    ensures
        exists|j: int| lo <= j < hi && strided_min(buf, start, stride, lo, hi) == #[trigger] buf[start + j * stride],
    decreases hi - lo,
{
    if lo < hi - 1 {
        lemma_strided_min_attained(buf, start, stride, lo, hi - 1);
        let j0 = choose|j: int| lo <= j < hi - 1 && strided_min(buf, start, stride, lo, hi - 1) == #[trigger] buf[start + j * stride];
        let v = buf[start + (hi - 1) * stride];
        if v < strided_min(buf, start, stride, lo, hi - 1) {
            assert(strided_min(buf, start, stride, lo, hi) == buf[start + (hi - 1) * stride]);
        } else {
            assert(strided_min(buf, start, stride, lo, hi) == buf[start + j0 * stride]);
        }
    } else {
        assert(strided_min(buf, start, stride, lo, hi - 1) == 255);
        assert(strided_min(buf, start, stride, lo, hi) == buf[start + lo * stride]);
    }
}

/// The mask after eroding rows `0 .. y`.
pub open spec fn rows_eroded(m: Seq<u8>, w: int, r: int, y: int) -> Seq<u8>
    decreases y,
{
    if y <= 0 { m } else { eroded_1d(rows_eroded(m, w, r, y - 1), (y - 1) * w, w, 1, r) }
}

/// The mask after eroding columns `0 .. x`.
pub open spec fn cols_eroded(m: Seq<u8>, w: int, h: int, r: int, x: int) -> Seq<u8>
    decreases x,
{
    if x <= 0 { m } else { eroded_1d(cols_eroded(m, w, h, r, x - 1), x - 1, h, w, r) }
}

/// The minimum of `m` over the window of radius `r` around `(x, y)`, clipped to the
/// `w` × `h` grid (see [`is_window_min`]).
pub open spec fn window_min(m: Seq<u8>, w: int, h: int, r: int, x: int, y: int) -> u8 {
    choose|v: u8| is_window_min(m, w, h, r, x, y, v)
}

/// A `w` × `h` row-major mask eroded with radius `r`: each pixel of the grid becomes the
/// minimum of the mask over the window of radius `r` around it, clipped to the grid;
/// elements past the grid are kept, and so is everything for radius 0.
pub open spec fn eroded_mask(m: Seq<u8>, w: int, h: int, r: int) -> Seq<u8> {
    Seq::new(
        m.len(),
        |k: int|
            if 0 < r && 0 < w && k < w * h {
                window_min(m, w, h, r, k % w, k / w)
            } else {
                m[k]
            },
    )
}

/// What the separable erosion computes: each row, then each column (unchanged for
/// radius 0).
spec fn separable_eroded(m: Seq<u8>, w: int, h: int, r: int) -> Seq<u8> {
    if r == 0 { m } else { cols_eroded(rows_eroded(m, w, r, h), w, h, r, w) }
}

proof fn lemma_written_shrinks(orig: Seq<u8>, start: int, length: int, stride: int, r: int, n: int, k: int)
    requires
        0 <= n <= length,
        0 <= stride,
        0 <= start,
        0 <= r,
        start + (length - 1) * stride < orig.len(),
        0 <= k < orig.len(),
    ensures
        written(orig, orig, start, length, stride, r, n)[k] <= orig[k],
    decreases n,
{
    if n > 0 {
        lemma_written_shrinks(orig, start, length, stride, r, n - 1, k);
        lemma_written_len(orig, orig, start, length, stride, r, n - 1);
        lemma_index_bound(start, stride, n - 1, length);
        let i = n - 1;
        if k == start + i * stride {
            let lo = if i >= r { i - r } else { 0 };
            let hi = if i + r < length - 1 { i + r } else { length - 1 };
            lemma_strided_min_le(orig, start, stride, lo, hi + 1, i);
        }
    }
}

proof fn lemma_strided_min_le(buf: Seq<u8>, start: int, stride: int, lo: int, hi: int, i: int)
    requires
        lo <= i < hi,
    ensures
        strided_min(buf, start, stride, lo, hi) <= buf[start + i * stride],
    decreases hi - lo,
{
    if i < hi - 1 {
        lemma_strided_min_le(buf, start, stride, lo, hi - 1, i);
    }
}

/// Erosion never raises a value of the run.
pub proof fn lemma_erode_1d_shrinks(buf: Seq<u8>, start: int, length: int, stride: int, r: int, k: int)
    requires
        0 <= start,
        0 <= stride,
        0 <= r,
        length > 0,
        start + (length - 1) * stride < buf.len(),
        0 <= k < buf.len(),
    ensures
        eroded_1d(buf, start, length, stride, r).len() == buf.len(),
        eroded_1d(buf, start, length, stride, r)[k] <= buf[k],
{
    lemma_written_len(buf, buf, start, length, stride, r, length);
    lemma_written_shrinks(buf, start, length, stride, r, length, k);
}


proof fn lemma_row_run(w: int, h: int, y: int, len: int)
    requires
        0 <= y < h,
        0 < w,
        w * h <= len,
    ensures
        0 <= y * w,
        y * w + (w - 1) * 1 < len,
{
    assert(y * w + w <= w * h) by (nonlinear_arith)
        requires
            0 <= y < h,
            0 < w,
    ;
    assert(0 <= y * w) by (nonlinear_arith)
        requires
            0 <= y,
            0 < w,
    ;
}

proof fn lemma_col_run(w: int, h: int, x: int, len: int)
    requires
        0 <= x < w,
        0 < h,
        w * h <= len,
    ensures
        x + (h - 1) * w < len,
{
    assert(x + (h - 1) * w < w * h) by (nonlinear_arith)
        requires
            0 <= x < w,
            0 < h,
    ;
}

/// The size condition under which the erosion of a `w` × `h` mask reads only its elements.
pub open spec fn mask_fits(len: int, w: int, h: int) -> bool {
    w * h <= len && w <= len + 1
}

/// Erodes a `w` × `h` mask (row-major) with radius `radius`: rows first, then columns;
/// the foreground shrinks by `radius` pixels.
pub fn erode_mask(mask: &mut [u8], w: u32, h: u32, radius: u32)
    requires
        radius > 0 ==> mask_fits(old(mask)@.len() as int, w as int, h as int),
    ensures
        final(mask)@ == eroded_mask(old(mask)@, w as int, h as int, radius as int),
{
    if radius == 0 {
        assert(mask@ =~= eroded_mask(mask@, w as int, h as int, 0));
        return;
    }
    let ghost m0 = mask@;
    let n = mask.len();
    let r = radius as usize;
    let wu = w as usize;
    let hu = h as usize;
    let mut y: usize = 0;
    while y < hu
        invariant
            mask_fits(m0.len() as int, w as int, h as int),
            wu == w,
            hu == h,
            r == radius,
            y <= hu,
            n == m0.len(),
            mask@ == rows_eroded(m0, w as int, r as int, y as int),
            mask@.len() == m0.len(),
        decreases hu - y,
    {
        proof {
            if w > 0 {
                lemma_row_run(w as int, h as int, y as int, m0.len() as int);
            } else {
                assert(y * w == 0) by (nonlinear_arith)
                    requires
                        w == 0,
                ;
            }
        }
        let ghost before = mask@;
        let row_start = y * wu;
        erode_1d(mask, row_start, wu, 1, r);
        proof {
            if w > 0 {
                lemma_written_len(before, before, row_start as int, w as int, 1, r as int, w as int);
            }
        }
        y += 1;
    }
    let ghost m1 = mask@;
    let mut x: usize = 0;
    while x < wu
        invariant
            mask_fits(m0.len() as int, w as int, h as int),
            wu == w,
            hu == h,
            r == radius,
            x <= wu,
            m1 == rows_eroded(m0, w as int, r as int, h as int),
            mask@ == cols_eroded(m1, w as int, h as int, r as int, x as int),
            mask@.len() == m0.len(),
        decreases wu - x,
    {
        proof {
            if h > 0 {
                lemma_col_run(w as int, h as int, x as int, m0.len() as int);
            }
        }
        let ghost before = mask@;
        erode_1d(mask, x, hu, wu, r);
        proof {
            if h > 0 {
                lemma_written_len(before, before, x as int, h as int, w as int, r as int, h as int);
            }
        }
        x += 1;
    }
    proof {
        lemma_separable_is_direct(m0, w as int, h as int, radius as int);
    }
}

/// The element at column `x`, row `y` of a row-major mask `w` wide.
pub open spec fn at(m: Seq<u8>, w: int, x: int, y: int) -> u8 {
    m[y * w + x]
}

/// `(xx, yy)` lies in the `w` × `h` grid within `r` of `(x, y)` on both axes.
pub open spec fn in_window(w: int, h: int, r: int, x: int, y: int, xx: int, yy: int) -> bool {
    &&& 0 <= xx < w
    &&& 0 <= yy < h
    &&& x - r <= xx <= x + r
    &&& y - r <= yy <= y + r
}

/// `v` is the minimum of `m` over the window of radius `r` around `(x, y)`, clipped to the
/// `w` × `h` grid.
pub open spec fn is_window_min(m: Seq<u8>, w: int, h: int, r: int, x: int, y: int, v: u8) -> bool {
    &&& forall|xx: int, yy: int| in_window(w, h, r, x, y, xx, yy) ==> v <= #[trigger] at(m, w, xx, yy)
    &&& exists|xx: int, yy: int| in_window(w, h, r, x, y, xx, yy) && v == #[trigger] at(m, w, xx, yy)
}

proof fn lemma_strided_min_congruent(a: Seq<u8>, b: Seq<u8>, start: int, stride: int, lo: int, hi: int)
    requires
        forall|j: int| lo <= j < hi ==> a[start + j * stride] == #[trigger] b[start + j * stride],
    ensures
        strided_min(a, start, stride, lo, hi) == strided_min(b, start, stride, lo, hi),
    decreases hi - lo,
{
    if lo < hi {
        lemma_strided_min_congruent(a, b, start, stride, lo, hi - 1);
        assert(a[start + (hi - 1) * stride] == b[start + (hi - 1) * stride]);
    }
}

proof fn lemma_grid_index(w: int, h: int, xx: int, yy: int, len: int)
    requires
        0 <= xx < w,
        0 <= yy < h,
        w * h <= len,
    ensures
        0 <= yy * w + xx < w * h,
        yy * w + xx < len,
{
    assert(0 <= yy * w + xx < w * h) by (nonlinear_arith)
        requires
            0 <= xx < w,
            0 <= yy < h,
    ;
}

/// The row run starting at `y0 * w` reaches index `yy * w + xx` exactly in row `y0`.
proof fn lemma_row_pos(w: int, xx: int, yy: int, y0: int)
    requires
        0 <= xx < w,
        0 <= yy,
        0 <= y0,
    ensures
        run_pos(yy * w + xx, y0 * w, 1) == if yy == y0 { xx } else if yy < y0 { -1 } else { (yy - y0) * w + xx },
        yy != y0 ==> !(0 <= run_pos(yy * w + xx, y0 * w, 1) < w),
{
    let k = yy * w + xx;
    let d = k - y0 * w;
    assert(d == (yy - y0) * w + xx) by (nonlinear_arith)
        requires
            d == yy * w + xx - y0 * w,
    ;
    assert(d % 1 == 0 && d / 1 == d);
    if yy < y0 {
        assert((yy - y0) * w <= -w) by (nonlinear_arith)
            requires
                yy < y0,
                0 < w,
        ;
    } else if yy > y0 {
        assert((yy - y0) * w >= w) by (nonlinear_arith)
            requires
                yy > y0,
                0 < w,
        ;
    }
}

/// The column run starting at `c` with stride `w` reaches index `yy * w + xx` exactly in
/// column `c`, at position `yy`.
proof fn lemma_col_pos(w: int, xx: int, yy: int, c: int)
    requires
        0 <= xx < w,
        0 <= c < w,
        0 <= yy,
    ensures
        xx == c ==> run_pos(yy * w + xx, c, w) == yy,
        xx != c ==> run_pos(yy * w + xx, c, w) < 0,
{
    if xx == c {
        assert(yy * w + xx == c + yy * w);
        lemma_run_pos_of(c, w, yy);
    } else if run_pos(yy * w + xx, c, w) >= 0 {
        let p = run_pos(yy * w + xx, c, w);
        lemma_run_pos_inv(yy * w + xx, c, w);
        assert(false) by (nonlinear_arith)
            requires
                yy * w + xx == c + p * w,
                0 <= xx < w,
                0 <= c < w,
                xx != c,
        ;
    }
}

/// After eroding rows `0 .. y`, each of those rows holds its row-wise erosion of `m`; the
/// other rows, and everything past the grid, are as in `m`.
proof fn lemma_rows_eroded_at(m: Seq<u8>, w: int, h: int, r: int, y: int, k: int)
    requires
        0 < w,
        0 <= y <= h,
        w * h <= m.len(),
        0 <= k < m.len(),
    ensures
        rows_eroded(m, w, r, y).len() == m.len(),
        k < w * h ==> rows_eroded(m, w, r, y)[k] == if k / w < y {
            eroded_at(m, (k / w) * w, w, 1, r, k % w)
        } else {
            m[k]
        },
        k >= w * h ==> rows_eroded(m, w, r, y)[k] == m[k],
    decreases y,
{
    if y > 0 {
        let prev = rows_eroded(m, w, r, y - 1);
        lemma_rows_eroded_at(m, w, h, r, y - 1, k);
        lemma_row_run(w, h, y - 1, m.len() as int);
        lemma_eroded_1d_at(prev, (y - 1) * w, w, 1, r, k);
        let xx = k % w;
        let yy = k / w;
        if k < w * h {
            assert(k == yy * w + xx && 0 <= xx < w && 0 <= yy) by {
                vstd::arithmetic::div_mod::lemma_fundamental_div_mod(k, w);
                assert(w * (k / w) == (k / w) * w) by (nonlinear_arith);
            }
            lemma_row_pos(w, xx, yy, y - 1);
            if yy == y - 1 {
                assert forall|j: int| (if xx >= r { xx - r } else { 0 }) <= j < (if xx + r < w - 1 { xx + r } else { w - 1 }) + 1
                    implies prev[(y - 1) * w + j * 1] == #[trigger] m[(y - 1) * w + j * 1] by {
                    lemma_rows_eroded_at(m, w, h, r, y - 1, (y - 1) * w + j);
                    lemma_grid_index(w, h, j, y - 1, m.len() as int);
                    let kk = (y - 1) * w + j;
                    assert(kk / w == y - 1 && kk % w == j) by {
                        vstd::arithmetic::div_mod::lemma_fundamental_div_mod_converse(kk, w, y - 1, j);
                    }
                }
                lemma_strided_min_congruent(prev, m, (y - 1) * w, 1,
                    if xx >= r { xx - r } else { 0 }, (if xx + r < w - 1 { xx + r } else { w - 1 }) + 1);
            }
        } else {
            assert(k - (y - 1) * w >= w) by (nonlinear_arith)
                requires
                    k >= w * h,
                    y <= h,
                    0 < w,
            ;
            assert((k - (y - 1) * w) % 1 == 0 && (k - (y - 1) * w) / 1 == k - (y - 1) * w);
        }
    }
}

proof fn lemma_div_mod_grid(k: int, w: int)
    requires
        0 < w,
        0 <= k,
    ensures
        k == (k / w) * w + k % w,
        0 <= k % w < w,
        0 <= k / w,
{
    vstd::arithmetic::div_mod::lemma_fundamental_div_mod(k, w);
    assert(w * (k / w) == (k / w) * w) by (nonlinear_arith);
}

/// After eroding columns `0 .. x`, each of those columns holds its column-wise erosion of
/// `m`; the other columns, and everything past the grid, are as in `m`.
proof fn lemma_cols_eroded_at(m: Seq<u8>, w: int, h: int, r: int, x: int, k: int)
    requires
        0 < w,
        0 < h,
        0 <= x <= w,
        w * h <= m.len(),
        0 <= k < m.len(),
    ensures
        cols_eroded(m, w, h, r, x).len() == m.len(),
        k < w * h ==> cols_eroded(m, w, h, r, x)[k] == if k % w < x {
            eroded_at(m, k % w, h, w, r, k / w)
        } else {
            m[k]
        },
        k >= w * h ==> cols_eroded(m, w, h, r, x)[k] == m[k],
    decreases x,
{
    if x > 0 {
        let prev = cols_eroded(m, w, h, r, x - 1);
        lemma_cols_eroded_at(m, w, h, r, x - 1, k);
        lemma_col_run(w, h, x - 1, m.len() as int);
        lemma_eroded_1d_at(prev, x - 1, h, w, r, k);
        lemma_div_mod_grid(k, w);
        let xx = k % w;
        let yy = k / w;
        if k < w * h {
            lemma_col_pos(w, xx, yy, x - 1);
            assert(yy < h) by (nonlinear_arith)
                requires
                    k == yy * w + xx,
                    0 <= xx,
                    k < w * h,
                    0 < w,
            ;
            if xx == x - 1 {
                assert forall|j: int| (if yy >= r { yy - r } else { 0 }) <= j < (if yy + r < h - 1 { yy + r } else { h - 1 }) + 1
                    implies prev[(x - 1) + j * w] == #[trigger] m[(x - 1) + j * w] by {
                    let kk = (x - 1) + j * w;
                    lemma_grid_index(w, h, x - 1, j, m.len() as int);
                    assert(kk == j * w + (x - 1));
                    lemma_cols_eroded_at(m, w, h, r, x - 1, kk);
                    assert(kk / w == j && kk % w == x - 1) by {
                        vstd::arithmetic::div_mod::lemma_fundamental_div_mod_converse(kk, w, j, x - 1);
                    }
                }
                lemma_strided_min_congruent(prev, m, x - 1, w,
                    if yy >= r { yy - r } else { 0 }, (if yy + r < h - 1 { yy + r } else { h - 1 }) + 1);
            }
        } else {
            if run_pos(k, x - 1, w) >= 0 {
                let p = run_pos(k, x - 1, w);
                lemma_run_pos_inv(k, x - 1, w);
                if p < h {
                    assert(p * w <= (h - 1) * w) by (nonlinear_arith)
                        requires
                            0 <= p <= h - 1,
                            0 < w,
                    ;
                    assert((h - 1) * w + w == w * h) by (nonlinear_arith);
                    assert(false);
                }
            }
        }
    }
}

/// Each pixel of the eroded mask is the minimum of the mask over the window of radius `r`
/// around it, clipped to the grid; what lies past the grid is left as it was.
proof fn lemma_separable_window(m: Seq<u8>, w: int, h: int, r: int, x: int, y: int)
    requires
        0 < r,
        0 < w,
        0 < h,
        w * h <= m.len(),
        0 <= x < w,
        0 <= y < h,
    ensures
        separable_eroded(m, w, h, r).len() == m.len(),
        is_window_min(m, w, h, r, x, y, separable_eroded(m, w, h, r)[y * w + x]),
{
    let m1 = rows_eroded(m, w, r, h);
    let k = y * w + x;
    lemma_grid_index(w, h, x, y, m.len() as int);
    assert(k / w == y && k % w == x) by {
        vstd::arithmetic::div_mod::lemma_fundamental_div_mod_converse(k, w, y, x);
    }
    lemma_rows_eroded_at(m, w, h, r, h, k);
    lemma_cols_eroded_at(m1, w, h, r, w, k);
    let v = separable_eroded(m, w, h, r)[k];
    let ylo = if y >= r { y - r } else { 0 };
    let yhi = if y + r < h - 1 { y + r } else { h - 1 };
    let xlo = if x >= r { x - r } else { 0 };
    let xhi = if x + r < w - 1 { x + r } else { w - 1 };
    assert(v == strided_min(m1, x, w, ylo, yhi + 1));
    // each row of the window, eroded along the row, is its row minimum around `x`
    assert forall|yy: int| ylo <= yy <= yhi implies #[trigger] m1[x + yy * w] == strided_min(m, yy * w, 1, xlo, xhi + 1) by {
        let kk = yy * w + x;
        lemma_grid_index(w, h, x, yy, m.len() as int);
        assert(kk == x + yy * w);
        assert(kk / w == yy && kk % w == x) by {
            vstd::arithmetic::div_mod::lemma_fundamental_div_mod_converse(kk, w, yy, x);
        }
        lemma_rows_eroded_at(m, w, h, r, h, kk);
    }
    assert forall|xx: int, yy: int| in_window(w, h, r, x, y, xx, yy) implies v <= #[trigger] at(m, w, xx, yy) by {
        lemma_strided_min_le(m1, x, w, ylo, yhi + 1, yy);
        assert(m1[x + yy * w] == strided_min(m, yy * w, 1, xlo, xhi + 1));
        lemma_strided_min_le(m, yy * w, 1, xlo, xhi + 1, xx);
        assert(yy * w + xx * 1 == yy * w + xx);
    }
    lemma_strided_min_attained(m1, x, w, ylo, yhi + 1);
    let y0 = choose|j: int| ylo <= j < yhi + 1 && strided_min(m1, x, w, ylo, yhi + 1) == #[trigger] m1[x + j * w];
    assert(m1[x + y0 * w] == strided_min(m, y0 * w, 1, xlo, xhi + 1));
    lemma_strided_min_attained(m, y0 * w, 1, xlo, xhi + 1);
    let x0 = choose|j: int| xlo <= j < xhi + 1 && strided_min(m, y0 * w, 1, xlo, xhi + 1) == #[trigger] m[y0 * w + j * 1];
    assert(y0 * w + x0 * 1 == y0 * w + x0);
    assert(in_window(w, h, r, x, y, x0, y0));
    assert(v == at(m, w, x0, y0));
}

proof fn lemma_separable_past_grid(m: Seq<u8>, w: int, h: int, r: int, k: int)
    requires
        0 < w,
        0 < h,
        w * h <= k < m.len(),
    ensures
        separable_eroded(m, w, h, r)[k] == m[k],
{
    if r != 0 {
        lemma_rows_eroded_at(m, w, h, r, h, k);
        lemma_cols_eroded_at(rows_eroded(m, w, r, h), w, h, r, w, k);
    }
}

proof fn lemma_window_min_unique(m: Seq<u8>, w: int, h: int, r: int, x: int, y: int, v: u8)
    requires
        is_window_min(m, w, h, r, x, y, v),
    ensures
        window_min(m, w, h, r, x, y) == v,
{
    let u = window_min(m, w, h, r, x, y);
    assert(is_window_min(m, w, h, r, x, y, u));
    let (xu, yu) = choose|xx: int, yy: int| in_window(w, h, r, x, y, xx, yy) && u == #[trigger] at(m, w, xx, yy);
    let (xv, yv) = choose|xx: int, yy: int| in_window(w, h, r, x, y, xx, yy) && v == #[trigger] at(m, w, xx, yy);
    assert(v <= at(m, w, xu, yu));
    assert(u <= at(m, w, xv, yv));
}

proof fn lemma_rows_empty(m: Seq<u8>, r: int, y: int)
    requires
        0 <= y,
    ensures
        rows_eroded(m, 0, r, y) == m,
    decreases y,
{
    if y > 0 {
        lemma_rows_empty(m, r, y - 1);
    }
}

proof fn lemma_cols_empty(m: Seq<u8>, w: int, r: int, x: int)
    requires
        0 <= x,
    ensures
        cols_eroded(m, w, 0, r, x) == m,
    decreases x,
{
    if x > 0 {
        lemma_cols_empty(m, w, r, x - 1);
    }
}

/// The separable erosion computes the window minima.
proof fn lemma_separable_is_direct(m: Seq<u8>, w: int, h: int, r: int)
    requires
        0 < r,
        0 <= w,
        0 <= h,
        w * h <= m.len(),
    ensures
        separable_eroded(m, w, h, r) == eroded_mask(m, w, h, r),
{
    let s = separable_eroded(m, w, h, r);
    let d = eroded_mask(m, w, h, r);
    if w == 0 {
        lemma_rows_empty(m, r, h);
        lemma_cols_empty(m, 0, r, 0);
        assert(s =~= d);
    } else if h == 0 {
        lemma_cols_empty(m, w, r, w);
        assert(w * h == 0);
        assert(s =~= d);
    } else {
        assert(w * h > 0) by (nonlinear_arith)
            requires
                0 < w,
                0 < h,
        ;
        lemma_rows_eroded_at(m, w, h, r, h, 0);
        lemma_cols_eroded_at(rows_eroded(m, w, r, h), w, h, r, w, 0);
        assert forall|k: int| 0 <= k < m.len() implies #[trigger] s[k] == d[k] by {
            if k < w * h {
                lemma_div_mod_grid(k, w);
                let x = k % w;
                let y = k / w;
                assert(y < h) by (nonlinear_arith)
                    requires
                        k == y * w + x,
                        0 <= x,
                        k < w * h,
                        0 < w,
                ;
                lemma_separable_window(m, w, h, r, x, y);
                lemma_window_min_unique(m, w, h, r, x, y, s[k]);
            } else {
                lemma_separable_past_grid(m, w, h, r, k);
            }
        }
        assert(s =~= d);
    }
}

/// Each pixel of the grid in the eroded mask is the minimum of the mask over its window:
/// no pixel of the window is smaller, and one of them has that value.
pub proof fn lemma_eroded_mask_window(m: Seq<u8>, w: int, h: int, r: int, x: int, y: int)
    requires
        0 < r,
        0 < w,
        0 < h,
        w * h <= m.len(),
        0 <= x < w,
        0 <= y < h,
    ensures
        is_window_min(m, w, h, r, x, y, eroded_mask(m, w, h, r)[y * w + x]),
{
    lemma_grid_index(w, h, x, y, m.len() as int);
    lemma_separable_window(m, w, h, r, x, y);
    lemma_separable_is_direct(m, w, h, r);
}

proof fn lemma_rows_eroded_shrinks(m: Seq<u8>, w: int, h: int, r: int, y: int, k: int)
    requires
        0 <= y <= h,
        0 <= r,
        w * h <= m.len(),
        0 <= k < m.len(),
    ensures
        rows_eroded(m, w, r, y).len() == m.len(),
        rows_eroded(m, w, r, y)[k] <= m[k],
    decreases y,
{
    if y > 0 {
        lemma_rows_eroded_shrinks(m, w, h, r, y - 1, k);
        let prev = rows_eroded(m, w, r, y - 1);
        if w > 0 {
            lemma_row_run(w, h, y - 1, m.len() as int);
            lemma_erode_1d_shrinks(prev, (y - 1) * w, w, 1, r, k);
        }
    }
}

proof fn lemma_cols_eroded_shrinks(m: Seq<u8>, w: int, h: int, r: int, x: int, k: int)
    requires
        0 <= x <= w,
        0 <= r,
        w * h <= m.len(),
        0 <= k < m.len(),
    ensures
        cols_eroded(m, w, h, r, x).len() == m.len(),
        cols_eroded(m, w, h, r, x)[k] <= m[k],
    decreases x,
{
    if x > 0 {
        lemma_cols_eroded_shrinks(m, w, h, r, x - 1, k);
        let prev = cols_eroded(m, w, h, r, x - 1);
        if h > 0 {
            lemma_col_run(w, h, x - 1, m.len() as int);
            lemma_erode_1d_shrinks(prev, x - 1, h, w, r, k);
        }
    }
}

/// Erosion never raises a value of the mask: the foreground can only shrink.
pub proof fn lemma_erode_mask_shrinks(m: Seq<u8>, w: int, h: int, r: int, k: int)
    requires
        0 <= w,
        0 <= h,
        0 <= r,
        w * h <= m.len(),
        0 <= k < m.len(),
    ensures
        eroded_mask(m, w, h, r).len() == m.len(),
        eroded_mask(m, w, h, r)[k] <= m[k],
{
    if r != 0 {
        lemma_rows_eroded_shrinks(m, w, h, r, h, k);
        let m1 = rows_eroded(m, w, r, h);
        lemma_cols_eroded_shrinks(m1, w, h, r, w, k);
        lemma_separable_is_direct(m, w, h, r);
    } else {
        assert(eroded_mask(m, w, h, r) =~= m);
    }
}

} // verus!
