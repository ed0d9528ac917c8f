//! The integer side of the outer glow: where the drawn tail lies, which of its pixels are on
//! its edge, and a grid of cells that finds the edge pixels near a point.
use vstd::prelude::*;

use crate::config::{TailConfig, config_in_range};
use crate::render_plan::{layout_of, render_layout};

verus! {

/// The parts of a drawn tail that the glow looks at: the body's columns and bottom row, and
/// the top of the repetition or of the cap.
#[derive(Debug, Clone, Copy, PartialEq, Eq, Structural)]
pub struct GlowGeometry {
    pub body_left: usize,
    pub body_right: usize,
    pub body_bottom: usize,
    pub echo_enabled: bool,
    pub echo_cap_top: usize,
    pub cap_top: usize,
}

/// The geometry of a tail drawn from `c` (its layout, with the body right at
/// `width - margin`).
pub open spec fn glow_geometry_of(c: TailConfig) -> GlowGeometry {
    let l = layout_of(c);
    GlowGeometry {
        body_left: c.margin as usize,
        body_right: (c.image.width - c.margin) as usize,
        body_bottom: (l.body_start + l.body_h) as usize,
        echo_enabled: l.echo_enabled,
        echo_cap_top: l.echo_start as usize,
        cap_top: l.cap_start as usize,
    }
}

/// Computes the geometry of a drawn tail (see [`glow_geometry_of`]).
pub fn compute_geometry(config: &TailConfig) -> (g: GlowGeometry)
    requires
        config_in_range(*config),
        config.margin <= config.image.width,
    ensures
        g == glow_geometry_of(*config),
{
    let l = render_layout(config);
    GlowGeometry {
        body_left: config.margin as usize,
        body_right: (config.image.width - config.margin) as usize,
        body_bottom: l.body_start as usize + l.body_h as usize,
        echo_enabled: l.echo_enabled,
        echo_cap_top: l.echo_start as usize,
        cap_top: l.cap_start as usize,
    }
}

/// The part of a `w` × `h` image scanned for the glow: the tail's region, widened by
/// `buffer` on every side and clipped to the image; `(x0, x1, y0, y1)`.
pub open spec fn glow_window(g: GlowGeometry, buffer: int, w: int, h: int) -> (int, int, int, int) {
    let top = if g.echo_enabled { g.echo_cap_top as int } else { g.cap_top as int };
    (
        if g.body_left >= buffer { g.body_left - buffer } else { 0 },
        if g.body_right + buffer < w { g.body_right + buffer } else { w },
        if top >= buffer { top - buffer } else { 0 },
        if g.body_bottom + buffer < h { g.body_bottom + buffer } else { h },
    )
}

/// Computes the scanned part (see [`glow_window`]).
pub fn glow_scan_window(g: &GlowGeometry, buffer: usize, w: usize, h: usize) -> (r: (usize, usize, usize, usize))
    ensures
        r.0 == glow_window(*g, buffer as int, w as int, h as int).0,
        r.1 == glow_window(*g, buffer as int, w as int, h as int).1,
        r.2 == glow_window(*g, buffer as int, w as int, h as int).2,
        r.3 == glow_window(*g, buffer as int, w as int, h as int).3,
{
    let top = if g.echo_enabled { g.echo_cap_top } else { g.cap_top };
    (
        g.body_left.saturating_sub(buffer),
        if (g.body_right as u128) + (buffer as u128) < w as u128 { g.body_right + buffer } else { w },
        top.saturating_sub(buffer),
        if (g.body_bottom as u128) + (buffer as u128) < h as u128 { g.body_bottom + buffer } else { h },
    )
}

/// Pixel `(x, y)` lies in the `w` × `h` alpha map and is fully transparent.
pub open spec fn clear_at(alpha: Seq<u8>, w: int, h: int, x: int, y: int) -> bool {
    0 <= x < w && 0 <= y < h && alpha[y * w + x] == 0
}

/// Pixel `(x, y)` is visible and one of its eight neighbours is transparent.
pub open spec fn is_edge(alpha: Seq<u8>, w: int, h: int, x: int, y: int) -> bool {
    &&& alpha[y * w + x] > 0
    &&& {
        ||| clear_at(alpha, w, h, x - 1, y)
        ||| clear_at(alpha, w, h, x + 1, y)
        ||| clear_at(alpha, w, h, x, y - 1)
        ||| clear_at(alpha, w, h, x, y + 1)
        ||| clear_at(alpha, w, h, x - 1, y - 1)
        ||| clear_at(alpha, w, h, x + 1, y - 1)
        ||| clear_at(alpha, w, h, x - 1, y + 1)
        ||| clear_at(alpha, w, h, x + 1, y + 1)
    }
}

/// The edge pixels of row `y` among columns `x0 .. x`, left to right.
pub open spec fn row_edges(alpha: Seq<u8>, w: int, h: int, y: int, x0: int, x: int) -> Seq<(usize, usize)>
    decreases x - x0,
{
    if x <= x0 {
        seq![]
    } else {
        let r = row_edges(alpha, w, h, y, x0, x - 1);
        if is_edge(alpha, w, h, x - 1, y) { r.push(((x - 1) as usize, y as usize)) } else { r }
    }
}

/// The edge pixels of rows `y0 .. y` among columns `x0 .. x1`, row by row.
pub open spec fn window_edges(alpha: Seq<u8>, w: int, h: int, x0: int, x1: int, y0: int, y: int) -> Seq<(usize, usize)>
    decreases y - y0,
{
    if y <= y0 {
        seq![]
    } else {
        window_edges(alpha, w, h, x0, x1, y0, y - 1) + row_edges(alpha, w, h, y - 1, x0, x1)
    }
}

fn clear_exec(alpha: &Vec<u8>, w: usize, h: usize, x: usize, y: usize, dx: i8, dy: i8) -> (b: bool)
    requires
        alpha@.len() == w * h,
        x < w,
        y < h,
        -1 <= dx <= 1,
        -1 <= dy <= 1,
    ensures
        b == clear_at(alpha@, w as int, h as int, x + dx, y + dy),
{
    let _n = alpha.len();
    if (dx < 0 && x == 0) || (dx > 0 && x + 1 >= w) || (dy < 0 && y == 0) || (dy > 0 && y + 1 >= h) {
        return false;
    }
    let nx: usize = if dx < 0 { x - 1 } else if dx > 0 { x + 1 } else { x };
    let ny: usize = if dy < 0 { y - 1 } else if dy > 0 { y + 1 } else { y };
    assert(ny * w + nx < w * h) by (nonlinear_arith)
        requires
            nx < w,
            ny < h,
    ;
    alpha[ny * w + nx] == 0
}

/// The edge pixels of the window `x0 .. x1` × `y0 .. y1` of a `w` × `h` alpha map, row by
/// row (see [`is_edge`]).
pub fn scan_edge_points(alpha: &Vec<u8>, w: usize, h: usize, x0: usize, x1: usize, y0: usize, y1: usize) -> (r: Vec<(usize, usize)>)
    requires
        alpha@.len() == w * h,
        x1 <= w,
        y1 <= h,
    ensures
        r@ == window_edges(alpha@, w as int, h as int, x0 as int, x1 as int, y0 as int, y1 as int),
{
    let mut out: Vec<(usize, usize)> = Vec::new();
    let mut y = y0;
    let _n = alpha.len();
    if y1 < y0 {
        assert(window_edges(alpha@, w as int, h as int, x0 as int, x1 as int, y0 as int, y1 as int) =~= Seq::<(usize, usize)>::empty());
        return out;
    }
    while y < y1
        invariant
            alpha@.len() == w * h,
            alpha@.len() <= usize::MAX,
            x1 <= w,
            y0 <= y <= y1 <= h,
            out@ == window_edges(alpha@, w as int, h as int, x0 as int, x1 as int, y0 as int, y as int),
        decreases y1 - y,
    {
        let ghost before = out@;
        let mut x = x0;
        if x1 < x0 {
            assert(row_edges(alpha@, w as int, h as int, y as int, x0 as int, x1 as int) =~= Seq::<(usize, usize)>::empty());
        } else {
            assert(before + row_edges(alpha@, w as int, h as int, y as int, x0 as int, x0 as int) =~= before);
            while x < x1
                invariant
                    alpha@.len() == w * h,
                    alpha@.len() <= usize::MAX,
                    x0 <= x <= x1 <= w,
                    y < y1 <= h,
                    out@ == before + row_edges(alpha@, w as int, h as int, y as int, x0 as int, x as int),
                decreases x1 - x,
            {
                assert(y * w + x < w * h) by (nonlinear_arith)
                    requires
                        x < w,
                        y < h,
                ;
                if alpha[y * w + x] > 0 {
                    let edge = clear_exec(alpha, w, h, x, y, -1, 0) || clear_exec(alpha, w, h, x, y, 1, 0)
                        || clear_exec(alpha, w, h, x, y, 0, -1) || clear_exec(alpha, w, h, x, y, 0, 1)
                        || clear_exec(alpha, w, h, x, y, -1, -1) || clear_exec(alpha, w, h, x, y, 1, -1)
                        || clear_exec(alpha, w, h, x, y, -1, 1) || clear_exec(alpha, w, h, x, y, 1, 1);
                    if edge {
                        out.push((x, y));
                    }
                }
                assert(out@ =~= before + row_edges(alpha@, w as int, h as int, y as int, x0 as int, x + 1));
                x += 1;
            }
        }
        y += 1;
    }
    out
}

/// The cell of point `p` in a grid of `cs`-wide cells, `gw` cells per row.
pub open spec fn cell_of(p: (usize, usize), cs: int, gw: int) -> int {
    (p.1 as int / cs) * gw + p.0 as int / cs
}

/// `ceil(a / b)`.
pub open spec fn ceil_div(a: int, b: int) -> int {
    (a + b - 1) / b
}

/// A grid of square cells over a `w` × `h` image, each holding the indices of the points
/// that fall in it.
#[derive(Debug, Clone)]
pub struct SpatialGrid {
    pub cells: Vec<Vec<usize>>,
    pub cell_size: usize,
    pub grid_width: usize,
    pub grid_height: usize,
}

/// The indices `i < n` of points in cell `k`, increasing.
pub open spec fn indices_in_cell(points: Seq<(usize, usize)>, cs: int, gw: int, k: int, n: int) -> Seq<usize>
    decreases n,
{
    if n <= 0 {
        seq![]
    } else {
        let r = indices_in_cell(points, cs, gw, k, n - 1);
        if cell_of(points[n - 1], cs, gw) == k { r.push((n - 1) as usize) } else { r }
    }
}

/// `g` is the grid of `points` over a `w` × `h` image with `cs`-wide cells.
pub open spec fn grid_of(g: SpatialGrid, points: Seq<(usize, usize)>, w: int, h: int, cs: int) -> bool {
    &&& g.cell_size == cs
    &&& g.grid_width == ceil_div(w, cs)
    &&& g.grid_height == ceil_div(h, cs)
    &&& g.cells@.len() == g.grid_width * g.grid_height
    &&& forall|k: int|
        0 <= k < g.cells@.len() ==> (#[trigger] g.cells@[k])@ == indices_in_cell(points, cs, g.grid_width as int, k, points.len() as int)
}

proof fn lemma_cell_in_grid(x: int, y: int, w: int, h: int, cs: int)
    requires
        0 <= x < w,
        0 <= y < h,
        cs > 0,
    ensures
        0 <= x / cs < ceil_div(w, cs),
        0 <= y / cs < ceil_div(h, cs),
        0 <= (y / cs) * ceil_div(w, cs) + x / cs < ceil_div(w, cs) * ceil_div(h, cs),
{
    assert(0 <= x / cs < ceil_div(w, cs)) by (nonlinear_arith)
        requires
            0 <= x < w,
            cs > 0,
    {
        assert(x / cs < (w + cs - 1) / cs) by (nonlinear_arith)
            requires
                0 <= x < w,
                cs > 0,
        {
            assert(x + cs <= w + cs - 1);
            assert((x + cs) / cs == x / cs + 1) by (nonlinear_arith)
                requires
                    cs > 0,
                    x >= 0,
            ;
            vstd::arithmetic::div_mod::lemma_div_is_ordered(x + cs, w + cs - 1, cs);
        }
    }
    assert(0 <= y / cs < ceil_div(h, cs)) by {
        assert((y + cs) / cs == y / cs + 1) by (nonlinear_arith)
            requires
                cs > 0,
                y >= 0,
        ;
        vstd::arithmetic::div_mod::lemma_div_is_ordered(y + cs, h + cs - 1, cs);
        vstd::arithmetic::div_mod::lemma_div_is_ordered(0, y, cs);
    }
    assert((y / cs) * ceil_div(w, cs) + x / cs < ceil_div(w, cs) * ceil_div(h, cs)) by (nonlinear_arith)
        requires
            0 <= x / cs < ceil_div(w, cs),
            0 <= y / cs < ceil_div(h, cs),
    ;
    assert(0 <= (y / cs) * ceil_div(w, cs)) by (nonlinear_arith)
        requires
            0 <= y / cs,
            0 <= ceil_div(w, cs),
    ;
}

/// Builds the grid of `points` over a `w` × `h` image with `cell_size`-wide cells; points
/// outside the grid are left out.
pub fn build_spatial_grid(points: &Vec<(usize, usize)>, w: usize, h: usize, cell_size: usize) -> (g: SpatialGrid)
    requires
        cell_size > 0,
        w + cell_size <= usize::MAX,
        h + cell_size <= usize::MAX,
        ceil_div(w as int, cell_size as int) * ceil_div(h as int, cell_size as int) <= usize::MAX,
        forall|i: int| 0 <= i < points@.len() ==> (#[trigger] points@[i]).0 < w && points@[i].1 < h,
    ensures
        grid_of(g, points@, w as int, h as int, cell_size as int),
{
    let gw = (w + cell_size - 1) / cell_size;
    let gh = (h + cell_size - 1) / cell_size;
    let n = gw * gh;
    let ghost cs = cell_size as int;
    let mut cells: Vec<Vec<usize>> = Vec::new();
    let mut k: usize = 0;
    while k < n
        invariant
            k <= n,
            cells@.len() == k,
            forall|j: int| 0 <= j < k ==> (#[trigger] cells@[j])@ == Seq::<usize>::empty(),
        decreases n - k,
    {
        cells.push(Vec::new());
        k += 1;
    }
    let mut i: usize = 0;
    while i < points.len()
        invariant
            cell_size > 0,
            cs == cell_size,
            gw == ceil_div(w as int, cs),
            gh == ceil_div(h as int, cs),
            n == gw * gh,
            cells@.len() == n,
            i <= points@.len(),
            forall|j: int| 0 <= j < points@.len() ==> (#[trigger] points@[j]).0 < w && points@[j].1 < h,
            forall|k2: int| 0 <= k2 < n ==> (#[trigger] cells@[k2])@ == indices_in_cell(points@, cs, gw as int, k2, i as int),
        decreases points@.len() - i,
    {
        let (x, y) = points[i];
        proof {
            lemma_cell_in_grid(x as int, y as int, w as int, h as int, cs);
        }
        let idx = (y / cell_size) * gw + x / cell_size;
        assert(idx == cell_of(points@[i as int], cs, gw as int));
        let ghost old_cells = cells@;
        let mut cell = cells[idx].clone();
        assert(cell@ == old_cells[idx as int]@);
        cell.push(i);
        cells.set(idx, cell);
        assert forall|k2: int| 0 <= k2 < n implies (#[trigger] cells@[k2])@ == indices_in_cell(points@, cs, gw as int, k2, i + 1) by {
            if k2 != idx {
                assert(cells@[k2] == old_cells[k2]);
            }
        }
        i += 1;
    }
    SpatialGrid { cells, cell_size, grid_width: gw, grid_height: gh }
}

/// The cells within `ceil(radius / cs)` cells of the cell of `(x, y)`, clipped to the grid,
/// row by row: `(first column, end column, first row, end row)`.
pub open spec fn nearby_cells(x: int, y: int, radius: int, cs: int, gw: int, gh: int) -> (int, int, int, int) {
    let cx = x / cs;
    let cy = y / cs;
    let r = ceil_div(radius, cs);
    (
        if cx >= r { cx - r } else { 0 },
        if cx + r + 1 < gw { cx + r + 1 } else { gw },
        if cy >= r { cy - r } else { 0 },
        if cy + r + 1 < gh { cy + r + 1 } else { gh },
    )
}

/// The cells of rows `y0 .. y` of the block `x0 .. x1`, row by row.
pub open spec fn block_cells(gw: int, x0: int, x1: int, y0: int, y: int) -> Seq<usize>
    decreases y - y0,
{
    if y <= y0 {
        seq![]
    } else {
        block_cells(gw, x0, x1, y0, y - 1) + Seq::new(
            if x1 > x0 { (x1 - x0) as nat } else { 0 },
            |j: int| ((y - 1) * gw + x0 + j) as usize,
        )
    }
}

proof fn lemma_block_cells_contains(gw: int, x0: int, x1: int, y0: int, y: int, cx: int, cy: int)
    requires
        x0 <= cx < x1,
        y0 <= cy < y,
        0 <= cy * gw + cx <= usize::MAX,
    ensures
        block_cells(gw, x0, x1, y0, y).contains((cy * gw + cx) as usize),
    decreases y - y0,
{
    let row = Seq::new((x1 - x0) as nat, |j: int| ((y - 1) * gw + x0 + j) as usize);
    let prev = block_cells(gw, x0, x1, y0, y - 1);
    if cy < y - 1 {
        lemma_block_cells_contains(gw, x0, x1, y0, y - 1, cx, cy);
        let k = choose|k: int| 0 <= k < prev.len() && prev[k] == (cy * gw + cx) as usize;
        assert((prev + row)[k] == prev[k]);
    } else {
        assert(row[cx - x0] == (cy * gw + cx) as usize);
        assert((prev + row)[prev.len() + (cx - x0)] == row[cx - x0]);
    }
}

proof fn lemma_near_cell(a: int, b: int, radius: int, cs: int)
    requires
        a >= 0,
        b >= 0,
        cs > 0,
        radius >= 0,
        b - radius <= a <= b + radius,
    ensures
        b / cs - ceil_div(radius, cs) <= a / cs <= b / cs + ceil_div(radius, cs),
{
    let k = ceil_div(radius, cs);
    vstd::arithmetic::div_mod::lemma_fundamental_div_mod(a, cs);
    vstd::arithmetic::div_mod::lemma_fundamental_div_mod(b, cs);
    vstd::arithmetic::div_mod::lemma_fundamental_div_mod(radius + cs - 1, cs);
    vstd::arithmetic::div_mod::lemma_mod_pos_bound(a, cs);
    vstd::arithmetic::div_mod::lemma_mod_pos_bound(b, cs);
    vstd::arithmetic::div_mod::lemma_mod_pos_bound(radius + cs - 1, cs);
    assert(a / cs <= b / cs + k) by (nonlinear_arith)
        requires
            a == cs * (a / cs) + a % cs,
            b == cs * (b / cs) + b % cs,
            radius + cs - 1 == cs * k + (radius + cs - 1) % cs,
            0 <= a % cs < cs,
            0 <= b % cs < cs,
            0 <= (radius + cs - 1) % cs < cs,
            a <= b + radius,
            cs > 0,
    ;
    assert(b / cs - k <= a / cs) by (nonlinear_arith)
        requires
            a == cs * (a / cs) + a % cs,
            b == cs * (b / cs) + b % cs,
            radius + cs - 1 == cs * k + (radius + cs - 1) % cs,
            0 <= a % cs < cs,
            0 <= b % cs < cs,
            0 <= (radius + cs - 1) % cs < cs,
            b - radius <= a,
            cs > 0,
    ;
}

impl SpatialGrid {
    /// The cells near `(x, y)`, row by row (see [`nearby_cells`]).
    pub fn query_nearby_cells(&self, x: usize, y: usize, radius: usize) -> (r: Vec<usize>)
        requires
            self.cell_size > 0,
            radius + self.cell_size <= usize::MAX,
            self.grid_width * self.grid_height <= usize::MAX,
        ensures
            ({
                let b = nearby_cells(x as int, y as int, radius as int, self.cell_size as int, self.grid_width as int, self.grid_height as int);
                r@ == block_cells(self.grid_width as int, b.0, b.1, b.2, b.3)
            }),
    {
        let cs = self.cell_size;
        let gw = self.grid_width;
        let gh = self.grid_height;
        let cell_x = x / cs;
        let cell_y = y / cs;
        let radius_in_cells = (radius + cs - 1) / cs;
        let x_start = cell_x.saturating_sub(radius_in_cells);
        let x_end = if (cell_x as u128) + (radius_in_cells as u128) + 1 < gw as u128 { cell_x + radius_in_cells + 1 } else { gw };
        let y_start = cell_y.saturating_sub(radius_in_cells);
        let y_end = if (cell_y as u128) + (radius_in_cells as u128) + 1 < gh as u128 { cell_y + radius_in_cells + 1 } else { gh };
        let mut result: Vec<usize> = Vec::new();
        let mut cy = y_start;
        if y_end < y_start {
            return result;
        }
        while cy < y_end
            invariant
                y_start <= cy <= y_end <= gh,
                x_end <= gw,
                gw * gh <= usize::MAX,
                result@ == block_cells(gw as int, x_start as int, x_end as int, y_start as int, cy as int),
            decreases y_end - cy,
        {
            let ghost before = result@;
            let mut cx = x_start;
            if x_start < x_end {
                while cx < x_end
                    invariant
                        x_start <= cx <= x_end <= gw,
                        cy < gh,
                        gw * gh <= usize::MAX,
                        result@ == before + Seq::new((cx - x_start) as nat, |j: int| (cy * gw + x_start + j) as usize),
                    decreases x_end - cx,
                {
                    assert(cy * gw + cx < gw * gh) by (nonlinear_arith)
                        requires
                            cx < gw,
                            cy < gh,
                    ;
                    result.push(cy * gw + cx);
                    assert(result@ =~= before + Seq::new((cx + 1 - x_start) as nat, |j: int| (cy * gw + x_start + j) as usize));
                    cx += 1;
                }
            }
            assert(result@ =~= block_cells(gw as int, x_start as int, x_end as int, y_start as int, cy + 1));
            cy += 1;
        }
        result
    }
}

/// Every point within `radius` of `(x, y)` on both axes lies in one of the cells that the
/// query near `(x, y)` returns, and that cell lists it.
pub proof fn lemma_query_finds_near_points(
    g: SpatialGrid,
    points: Seq<(usize, usize)>,
    w: int,
    h: int,
    x: int,
    y: int,
    radius: int,
    i: int,
)
    requires
        g.cell_size > 0,
        points.len() <= usize::MAX,
        grid_of(g, points, w, h, g.cell_size as int),
        g.grid_width * g.grid_height <= usize::MAX,
        0 <= i < points.len(),
        points[i].0 < w,
        points[i].1 < h,
        x >= 0,
        y >= 0,
        radius >= 0,
        x - radius <= points[i].0 <= x + radius,
        y - radius <= points[i].1 <= y + radius,
    ensures
        ({
            let cs = g.cell_size as int;
            let b = nearby_cells(x, y, radius, cs, g.grid_width as int, g.grid_height as int);
            &&& block_cells(g.grid_width as int, b.0, b.1, b.2, b.3).contains(cell_of(points[i], cs, g.grid_width as int) as usize)
            &&& g.cells@[cell_of(points[i], cs, g.grid_width as int)]@.contains(i as usize)
        }),
{
    let cs = g.cell_size as int;
    let gw = g.grid_width as int;
    let gh = g.grid_height as int;
    let p = points[i];
    lemma_near_cell(p.0 as int, x, radius, cs);
    lemma_near_cell(p.1 as int, y, radius, cs);
    lemma_cell_in_grid(p.0 as int, p.1 as int, w, h, cs);
    let b = nearby_cells(x, y, radius, cs, gw, gh);
    let k = cell_of(p, cs, gw);
    lemma_block_cells_contains(gw, b.0, b.1, b.2, b.3, p.0 as int / cs, p.1 as int / cs);
    lemma_indices_in_cell(points, cs, gw, k, points.len() as int, i);
}

proof fn lemma_indices_in_cell(points: Seq<(usize, usize)>, cs: int, gw: int, k: int, n: int, i: int)
    requires
        0 <= i < n <= points.len(),
        n <= usize::MAX + 1,
        cell_of(points[i], cs, gw) == k,
    ensures
        indices_in_cell(points, cs, gw, k, n).contains(i as usize),
    decreases n,
{
    let r = indices_in_cell(points, cs, gw, k, n - 1);
    if i < n - 1 {
        lemma_indices_in_cell(points, cs, gw, k, n - 1, i);
        if cell_of(points[n - 1], cs, gw) == k {
            let j = choose|j: int| 0 <= j < r.len() && r[j] == i as usize;
            assert(r.push((n - 1) as usize)[j] == i as usize);
        }
    } else {
        assert(r.push((n - 1) as usize)[r.len() as int] == i as usize);
    }
}

} // verus!
