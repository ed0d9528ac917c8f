//! The integer side of drawing a tail: where each part goes, the opacities used, the
//! border laid over the drawn shape and the repetition merged beneath it. Pixel buffers are
//! RGBA bytes, row by row.
use vstd::prelude::*;

use crate::config::{
    TailConfig, body_height_of, border_color_of, cap_height_of, config_in_range, echo_enabled_of,
    sat_sub,
};
use crate::morph::{erode_mask, eroded_mask};

verus! {

/// Where the parts of a tail go: the columns `left .. right`, then from the top the throw,
/// the repetition of the cap (`echo_start .. echo_cap_end`, then its extension up to
/// `cap_start`), the cap (`cap_start .. cap_end`) and the body (`body_h` rows from
/// `body_start`).
#[derive(Debug, Clone, Copy, PartialEq, Eq, Structural)]
pub struct RenderLayout {
    pub w: u32,
    pub h: u32,
    pub left: u32,
    pub right: u32,
    pub cap_h: u32,
    pub echo_enabled: bool,
    pub echo_start: u32,
    pub echo_cap_end: u32,
    pub cap_start: u32,
    pub cap_end: u32,
    pub body_start: u32,
    pub body_h: u32,
}

/// The layout of a tail drawn from `c`.
pub open spec fn layout_of(c: TailConfig) -> RenderLayout {
    let cap_h = cap_height_of(c);
    let echo = echo_enabled_of(c);
    let echo_cap_end = c.throw_length + if echo { cap_h as int } else { 0 };
    let cap_start = echo_cap_end + if echo { c.effect.echo_length as int } else { 0 };
    RenderLayout {
        w: c.image.width,
        h: c.image.height,
        left: c.margin,
        right: sat_sub(c.image.width as nat, c.margin as nat) as u32,
        cap_h,
        echo_enabled: echo,
        echo_start: c.throw_length,
        echo_cap_end: echo_cap_end as u32,
        cap_start: cap_start as u32,
        cap_end: (cap_start + cap_h) as u32,
        body_start: (cap_start + cap_h) as u32,
        body_h: body_height_of(c) as u32,
    }
}

/// Computes the layout of a tail (see [`layout_of`]).
pub fn render_layout(config: &TailConfig) -> (l: RenderLayout)
    requires
        config_in_range(*config),
    ensures
        l == layout_of(*config),
{
    let w = config.image.width;
    let h = config.image.height;
    let left = config.margin;
    let right = w.saturating_sub(config.margin);
    let cap_h = config.cap_height();
    let echo_enabled = config.effect.cap_echo_enabled && config.cap.shape != crate::config::CapShape::Gradient;
    let echo_cap_h = if echo_enabled { cap_h } else { 0 };
    let echo_start = config.throw_length;
    let echo_cap_end = echo_start + echo_cap_h;
    let echo_rect_end = echo_cap_end + if echo_enabled { config.effect.echo_length } else { 0 };
    let cap_start = echo_rect_end;
    let cap_end = cap_start + cap_h;
    let body_start = cap_end;
    let body_h = config.body_height();
    RenderLayout {
        w,
        h,
        left,
        right,
        cap_h,
        echo_enabled,
        echo_start,
        echo_cap_end,
        cap_start,
        cap_end,
        body_start,
        body_h,
    }
}

/// When the throw, the repetition and the cap fit in the image, the parts follow each other
/// without gap and the body reaches the bottom row.
pub proof fn lemma_layout_fills(c: TailConfig)
    requires
        config_in_range(c),
        c.throw_length + (if echo_enabled_of(c) { cap_height_of(c) + c.effect.echo_length } else { 0int })
            + cap_height_of(c) <= c.image.height,
    ensures
        layout_of(c).echo_cap_end <= layout_of(c).cap_start,
        layout_of(c).cap_end == layout_of(c).cap_start + layout_of(c).cap_h,
        layout_of(c).body_start == layout_of(c).cap_end,
        layout_of(c).body_start + layout_of(c).body_h == c.image.height,
{
}

/// `a` scaled by `opacity` out of 255, rounded down.
pub open spec fn scaled_alpha(a: u8, opacity: u8) -> u8 {
    (a as int * opacity as int / 255) as u8
}

/// Scales an alpha by an opacity (see [`scaled_alpha`]).
pub fn scale_alpha(a: u8, opacity: u8) -> (r: u8)
    ensures
        r == scaled_alpha(a, opacity),
{
    assert(a as int * opacity as int <= 255 * 255) by (nonlinear_arith)
        requires
            a <= 255,
            opacity <= 255,
    ;
    ((a as u16 * opacity as u16) / 255) as u8
}

/// The alpha of the rectangle that extends the repetition: the repetition color's alpha
/// scaled by the repetition opacity and by the global opacity.
pub open spec fn echo_fill_alpha_of(c: TailConfig) -> u8 {
    (c.effect.echo_color.a as int * c.effect.echo_opacity as int * c.global_opacity as int / 65025) as u8
}

/// Computes the alpha of the repetition's extension (see [`echo_fill_alpha_of`]).
pub fn echo_fill_alpha(config: &TailConfig) -> (a: u8)
    ensures
        a == echo_fill_alpha_of(*config),
{
    let x = config.effect.echo_color.a as u32;
    let y = config.effect.echo_opacity as u32;
    let z = config.global_opacity as u32;
    assert(x * y <= 255 * 255) by (nonlinear_arith)
        requires
            x <= 255,
            y <= 255,
    ;
    let xy = x * y;
    assert(xy * z <= 255 * 255 * 255) by (nonlinear_arith)
        requires
            xy <= 255 * 255,
            z <= 255,
    ;
    assert(xy * z / 65025 <= 255) by (nonlinear_arith)
        requires
            xy * z <= 255 * 255 * 255,
    ;
    (xy * z / 65025) as u8
}

/// The opacity of the repeated cap: the repetition opacity scaled by the global opacity.
pub open spec fn echo_cap_opacity_of(c: TailConfig) -> u8 {
    scaled_alpha(c.effect.echo_opacity, c.global_opacity)
}

/// Computes the opacity of the repeated cap (see [`echo_cap_opacity_of`]).
pub fn echo_cap_opacity(config: &TailConfig) -> (o: u8)
    ensures
        o == echo_cap_opacity_of(*config),
{
    scale_alpha(config.effect.echo_opacity, config.global_opacity)
}

/// Byte `k` of an RGBA buffer belongs to pixel `k / 4`, channel `k % 4`.
pub open spec fn alpha_of(data: Seq<u8>, p: int) -> u8 {
    data[4 * p + 3]
}

/// The shape mask of an RGBA buffer of `n` pixels: 255 where a pixel is visible, 0 where
/// it is not.
pub open spec fn shape_mask(data: Seq<u8>, n: int) -> Seq<u8> {
    Seq::new(n as nat, |p: int| if alpha_of(data, p) > 0 { 255u8 } else { 0u8 })
}

/// Byte `k` after the border is laid over `data`: the pixels of the shape that erosion by
/// `bw` removes take the border color, with alpha `opacity` when `independent` and their
/// own alpha otherwise; every other byte is kept.
pub open spec fn bordered_byte(
    data: Seq<u8>,
    eroded: Seq<u8>,
    k: int,
    rgb: (u8, u8, u8),
    opacity: u8,
    independent: bool,
) -> u8 {
    let p = k / 4;
    let c = k % 4;
    if alpha_of(data, p) > 0 && eroded[p] == 0 {
        if c == 0 {
            rgb.0
        } else if c == 1 {
            rgb.1
        } else if c == 2 {
            rgb.2
        } else if independent {
            opacity
        } else {
            alpha_of(data, p)
        }
    } else {
        data[k]
    }
}

/// Lays the border of `config` over a `w` × `h` RGBA buffer: nothing when the border is
/// off or 0 wide; else see [`bordered_byte`], with the mask eroded by the border width.
pub fn draw_border_overlay(data: &mut Vec<u8>, w: u32, h: u32, config: &TailConfig)
    requires
        old(data)@.len() == 4 * (w as int) * (h as int),
    ensures
        final(data)@.len() == old(data)@.len(),
        !config.body.border_enabled || config.body.border_width == 0 ==> final(data)@ == old(data)@,
        config.body.border_enabled && config.body.border_width > 0 ==> forall|k: int|
            0 <= k < old(data)@.len() ==> #[trigger] final(data)@[k] == bordered_byte(
                old(data)@,
                eroded_mask(shape_mask(old(data)@, w * h), w as int, h as int, config.body.border_width as int),
                k,
                (border_color_of(*config).r, border_color_of(*config).g, border_color_of(*config).b),
                config.body.border_opacity,
                config.body.border_opacity_independent,
            ),
{
    if !config.body.border_enabled || config.body.border_width == 0 {
        return;
    }
    let ghost d0 = data@;
    let n: usize = data.len() / 4;
    assert(n == w * h && d0.len() == 4 * n) by (nonlinear_arith)
        requires
            n == d0.len() / 4,
            d0.len() == 4 * (w as int) * (h as int),
    ;
    if n == 0 {
        return;
    }
    let mut mask: Vec<u8> = Vec::new();
    let mut i: usize = 0;
    while i < n
        invariant
            data@ == d0,
            n == w * h,
            d0.len() == 4 * n,
            d0.len() <= usize::MAX,
            i <= n,
            mask@ == shape_mask(d0, n as int).take(i as int),
        decreases n - i,
    {
        let v: u8 = if data[4 * i + 3] > 0 { 255 } else { 0 };
        mask.push(v);
        assert(mask@ =~= shape_mask(d0, n as int).take(i + 1));
        i += 1;
    }
    assert(mask@ =~= shape_mask(d0, n as int));
    assert((w as int) * (h as int) <= n && (w as int) <= n + 1) by (nonlinear_arith)
        requires
            n == w * h,
            n > 0,
    ;
    let ghost m0 = mask@;
    erode_mask(mask.as_mut_slice(), w, h, config.body.border_width);
    let ghost er = mask@;
    proof {
        crate::morph::lemma_erode_mask_shrinks(m0, w as int, h as int, config.body.border_width as int, 0);
    }
    let (br, bg, bb) = crate::config::border_rgb(config);
    let opacity = config.body.border_opacity;
    let independent = config.body.border_opacity_independent;
    let mut p: usize = 0;
    while p < n
        invariant
            n == w * h,
            d0.len() == 4 * n,
            d0.len() <= usize::MAX,
            data@.len() == d0.len(),
            er.len() == n,
            mask@ == er,
            p <= n,
            forall|k: int| 0 <= k < 4 * p ==> #[trigger] data@[k] == bordered_byte(d0, er, k, (br, bg, bb), opacity, independent),
            forall|k: int| 4 * p <= k < d0.len() ==> #[trigger] data@[k] == d0[k],
        decreases n - p,
    {
        let a = data[4 * p + 3];
        if a > 0 && mask[p] == 0 {
            let alpha = if independent { opacity } else { a };
            data.set(4 * p, br);
            data.set(4 * p + 1, bg);
            data.set(4 * p + 2, bb);
            data.set(4 * p + 3, alpha);
        }
        assert forall|k: int| 0 <= k < 4 * (p + 1) implies #[trigger] data@[k] == bordered_byte(
            d0,
            er,
            k,
            (br, bg, bb),
            opacity,
            independent,
        ) by {
            if k >= 4 * p {
                assert(k / 4 == p && k % 4 == k - 4 * p);
            }
        }
        p += 1;
    }
}

/// Byte `k` after `layer` is merged beneath `main` in the rectangle `x0 .. x1` ×
/// `y0 .. y1` of a buffer `w` pixels wide: a pixel of the rectangle that `main` leaves
/// fully transparent takes the pixel of `layer` when that one is visible.
pub open spec fn merged_byte(main: Seq<u8>, layer: Seq<u8>, w: int, x0: int, x1: int, y0: int, y1: int, k: int) -> u8 {
    let p = k / 4;
    let x = p % w;
    let y = p / w;
    if x0 <= x < x1 && y0 <= y < y1 && alpha_of(layer, p) > 0 && alpha_of(main, p) == 0 {
        layer[k]
    } else {
        main[k]
    }
}

/// Merges `layer` beneath `main` in a rectangle (see [`merged_byte`]).
pub fn merge_beneath(main: &mut Vec<u8>, layer: &Vec<u8>, w: u32, h: u32, x0: u32, x1: u32, y0: u32, y1: u32)
    requires
        old(main)@.len() == 4 * (w as int) * (h as int),
        layer@.len() == old(main)@.len(),
        x1 <= w,
        y1 <= h,
    ensures
        final(main)@.len() == old(main)@.len(),
        forall|k: int|
            0 <= k < old(main)@.len() ==> #[trigger] final(main)@[k] == merged_byte(
                old(main)@,
                layer@,
                w as int,
                x0 as int,
                x1 as int,
                y0 as int,
                y1 as int,
                k,
            ),
{
    let ghost m0 = main@;
    let n: usize = main.len() / 4;
    assert(n == w * h && m0.len() == 4 * n) by (nonlinear_arith)
        requires
            n == m0.len() / 4,
            m0.len() == 4 * (w as int) * (h as int),
    ;
    let wu = w as usize;
    let mut p: usize = 0;
    while p < n
        invariant
            n == w * h,
            wu == w,
            m0.len() == 4 * n,
            m0.len() <= usize::MAX,
            layer@.len() == m0.len(),
            main@.len() == m0.len(),
            p <= n,
            forall|k: int|
                0 <= k < 4 * p ==> #[trigger] main@[k] == merged_byte(
                    m0,
                    layer@,
                    w as int,
                    x0 as int,
                    x1 as int,
                    y0 as int,
                    y1 as int,
                    k,
                ),
            forall|k: int| 4 * p <= k < m0.len() ==> #[trigger] main@[k] == m0[k],
        decreases n - p,
    {
        assert(wu > 0) by (nonlinear_arith)
            requires
                p < n,
                n == wu * h,
        ;
        let x = p % wu;
        let y = p / wu;
        if x0 as usize <= x && x < x1 as usize && y0 as usize <= y && y < y1 as usize && layer[4 * p + 3] > 0
            && main[4 * p + 3] == 0 {
            main.set(4 * p, layer[4 * p]);
            main.set(4 * p + 1, layer[4 * p + 1]);
            main.set(4 * p + 2, layer[4 * p + 2]);
            main.set(4 * p + 3, layer[4 * p + 3]);
        }
        assert forall|k: int| 0 <= k < 4 * (p + 1) implies #[trigger] main@[k] == merged_byte(
            m0,
            layer@,
            w as int,
            x0 as int,
            x1 as int,
            y0 as int,
            y1 as int,
            k,
        ) by {
            if k >= 4 * p {
                assert(k / 4 == p);
            }
        }
        p += 1;
    }
}

} // verus!
