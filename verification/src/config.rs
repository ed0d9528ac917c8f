//! Parameters of a generated note tail, their defaults and their validation.
use vstd::prelude::*;

use crate::text::{decimal, push_decimal, push_str, strings_view};

verus! {

/// An RGBA color.
#[derive(Debug, Clone, Copy, PartialEq, Eq, Structural)]
pub struct RgbaColor {
    pub r: u8,
    pub g: u8,
    pub b: u8,
    pub a: u8,
}

/// Opaque white.
pub open spec fn white() -> RgbaColor {
    RgbaColor { r: 255, g: 255, b: 255, a: 255 }
}

/// Opaque black.
pub open spec fn black() -> RgbaColor {
    RgbaColor { r: 0, g: 0, b: 0, a: 255 }
}

/// The default grey.
pub open spec fn grey() -> RgbaColor {
    RgbaColor { r: 113, g: 113, b: 113, a: 255 }
}

impl RgbaColor {
    /// Opaque white.
    pub fn white() -> (c: RgbaColor)
        ensures
            c == white(),
    {
        RgbaColor { r: 255, g: 255, b: 255, a: 255 }
    }

    /// Opaque black.
    pub fn black() -> (c: RgbaColor)
        ensures
            c == black(),
    {
        RgbaColor { r: 0, g: 0, b: 0, a: 255 }
    }

    /// The default grey.
    pub fn grey() -> (c: RgbaColor)
        ensures
            c == grey(),
    {
        RgbaColor { r: 113, g: 113, b: 113, a: 255 }
    }
}

/// Output image settings.
#[derive(Debug, Clone)]
pub struct ImageConfig {
    pub width: u32,
    pub height: u32,
    pub filename: String,
}

/// Shape of the cap (the head of the tail).
#[derive(Debug, Clone, Copy, PartialEq, Eq, Structural)]
pub enum CapShape {
    Ball,
    Diamond,
    Rect,
    Gradient,
}

/// Cap settings.
#[derive(Debug, Clone)]
pub struct CapConfig {
    pub shape: CapShape,
    pub scale: u32,
    pub independent_settings: bool,
    pub color: RgbaColor,
    pub opacity: u8,
}

/// Body settings.
#[derive(Debug, Clone)]
pub struct BodyConfig {
    pub independent_settings: bool,
    pub color: RgbaColor,
    pub opacity: u8,
    pub border_enabled: bool,
    pub border_color: RgbaColor,
    pub border_opacity: u8,
    pub border_opacity_independent: bool,
    pub border_match_body: bool,
    pub border_width: u32,
}

/// Effect settings.
#[derive(Debug, Clone)]
pub struct EffectConfig {
    /// Darkened repetition of the cap.
    pub cap_echo_enabled: bool,
    /// Repetition color.
    pub echo_color: RgbaColor,
    /// Repetition opacity.
    pub echo_opacity: u8,
    /// Repetition length.
    pub echo_length: u32,
    /// Outer glow.
    pub glow_enabled: bool,
    /// Glow color.
    pub glow_color: RgbaColor,
    /// Glow opacity.
    pub glow_opacity: u8,
    /// Glow offset, horizontal.
    pub glow_dx: i32,
    /// Glow offset, vertical.
    pub glow_dy: i32,
    /// Glow size (blur radius).
    pub glow_size: u32,
    /// Glow spread (dilation radius).
    pub glow_spread: u32,
}

/// All parameters of a note tail.
#[derive(Debug, Clone)]
pub struct TailConfig {
    pub image: ImageConfig,
    pub margin: u32,
    pub throw_length: u32,
    pub global_color: RgbaColor,
    pub cap: CapConfig,
    pub body: BodyConfig,
    pub effect: EffectConfig,
    pub global_opacity: u8,
}

/// A named set of parameters.
#[derive(Debug, Clone)]
pub struct Preset {
    pub name: String,
    pub config: TailConfig,
    pub builtin: bool,
}

/// Outcome of [`TailConfig::validate`].
#[derive(Debug, Clone)]
pub struct ValidationResult {
    pub valid: bool,
    pub errors: Vec<String>,
}

/// The width of the content area: the image width less twice the margin, at least 0.
pub open spec fn content_width_of(c: TailConfig) -> nat {
    if c.image.width >= 2 * c.margin { (c.image.width - 2 * c.margin) as nat } else { 0 }
}

/// The cap height: `scale × content width / 200` (`/ 100` for the gradient shape),
/// truncated to `u32`.
pub open spec fn cap_height_of(c: TailConfig) -> u32 {
    let divisor: nat = if c.cap.shape == CapShape::Gradient { 100 } else { 200 };
    ((c.cap.scale as nat * content_width_of(c)) / divisor) as u32
}

/// The darkened repetition is drawn (it is never drawn for the gradient shape).
pub open spec fn echo_enabled_of(c: TailConfig) -> bool {
    c.effect.cap_echo_enabled && c.cap.shape != CapShape::Gradient
}

/// The total height of the repetition: cap height plus repetition length, when drawn.
pub open spec fn echo_total_of(c: TailConfig) -> nat {
    if echo_enabled_of(c) { (cap_height_of(c) + c.effect.echo_length) as nat } else { 0 }
}

/// `a - b`, or 0 when `b > a`.
pub open spec fn sat_sub(a: nat, b: nat) -> nat {
    if a >= b { (a - b) as nat } else { 0 }
}

/// The body height: what is left of the image height under throw, repetition and cap.
pub open spec fn body_height_of(c: TailConfig) -> nat {
    sat_sub(sat_sub(sat_sub(c.image.height as nat, c.throw_length as nat), echo_total_of(c)), cap_height_of(c) as nat)
}

/// The arithmetic of the checks stays within `u32`.
pub open spec fn config_in_range(c: TailConfig) -> bool {
    &&& 2 * c.margin <= 0xffff_ffff
    &&& echo_enabled_of(c) ==> cap_height_of(c) + c.effect.echo_length <= 0xffff_ffff
    &&& c.throw_length + echo_total_of(c) + cap_height_of(c) <= 0xffff_ffff
}

pub open spec fn msg_margin(margin: u32, width: u32) -> Seq<char> {
    "留白 ("@ + decimal(margin as nat) + ") × 2 必须小于图片宽度 ("@ + decimal(width as nat) + ")"@
}

pub open spec fn msg_height_budget(throw: nat, echo: nat, cap: nat, height: nat) -> Seq<char> {
    "投的长度 ("@ + decimal(throw) + ") + 暗化重复总高度 ("@ + decimal(echo) + ") + 顶端高度 ("@ + decimal(cap)
        + ") 必须小于图片高度 ("@ + decimal(height) + ")"@
}

pub open spec fn msg_border(border_width: u32, limit: nat) -> Seq<char> {
    "边框宽度 ("@ + decimal(border_width as nat) + ") 不能超过内容区宽度的一半 ("@ + decimal(limit) + ")"@
}

/// `seq![m]` when `cond` holds, else nothing.
pub open spec fn error_if(cond: bool, m: Seq<char>) -> Seq<Seq<char>> {
    if cond { seq![m] } else { seq![] }
}

/// The messages that validation reports for `c`, in order.
pub open spec fn validation_errors(c: TailConfig) -> Seq<Seq<char>> {
    error_if(c.image.width == 0, "图片宽度必须大于 0"@) + error_if(c.image.width > 800, "图片宽度不能超过 800"@)
        + error_if(c.image.height == 0, "图片高度必须大于 0"@) + error_if(
        c.image.height > 65535,
        "图片高度不能超过 65535"@,
    ) + error_if(2 * c.margin >= c.image.width, msg_margin(c.margin, c.image.width)) + error_if(
        c.throw_length + echo_total_of(c) + cap_height_of(c) >= c.image.height,
        msg_height_budget(c.throw_length as nat, echo_total_of(c), cap_height_of(c) as nat, c.image.height as nat),
    ) + error_if(c.body.border_width > content_width_of(c) / 2, msg_border(c.body.border_width, content_width_of(c) / 2))
}

impl TailConfig {
    /// The default parameters.
    pub fn default_config() -> (c: TailConfig)
        ensures
            c.image.width == 100 && c.image.height == 32800 && c.image.filename@ == "mania-noteL"@,
            c.margin == 8 && c.throw_length == 100 && c.global_color == grey(),
            c.cap.shape == CapShape::Ball && c.cap.scale == 100 && !c.cap.independent_settings,
            c.cap.color == grey() && c.cap.opacity == 255,
            !c.body.independent_settings && c.body.color == grey() && c.body.opacity == 255,
            !c.body.border_enabled && c.body.border_color == white() && c.body.border_opacity == 255,
            !c.body.border_opacity_independent && !c.body.border_match_body && c.body.border_width == 1,
            !c.effect.cap_echo_enabled && c.effect.echo_color == grey(),
            c.effect.echo_opacity == 76 && c.effect.echo_length == 50,
            !c.effect.glow_enabled && c.effect.glow_color == (RgbaColor { r: 144, g: 238, b: 144, a: 255 }),
            c.effect.glow_opacity == 180 && c.effect.glow_dx == 0 && c.effect.glow_dy == 0,
            c.effect.glow_size == 8 && c.effect.glow_spread == 4,
            c.global_opacity == 255,
    {
        let mut filename = String::new();
        push_str(&mut filename, "mania-noteL");
        TailConfig {
            image: ImageConfig { width: 100, height: 32800, filename },
            margin: 8,
            throw_length: 100,
            global_color: RgbaColor::grey(),
            cap: CapConfig {
                shape: CapShape::Ball,
                scale: 100,
                independent_settings: false,
                color: RgbaColor::grey(),
                opacity: 255,
            },
            body: BodyConfig {
                independent_settings: false,
                color: RgbaColor::grey(),
                opacity: 255,
                border_enabled: false,
                border_color: RgbaColor::white(),
                border_opacity: 255,
                border_opacity_independent: false,
                border_match_body: false,
                border_width: 1,
            },
            effect: EffectConfig {
                cap_echo_enabled: false,
                echo_color: RgbaColor::grey(),
                echo_opacity: 76,
                echo_length: 50,
                glow_enabled: false,
                glow_color: RgbaColor { r: 144, g: 238, b: 144, a: 255 },
                glow_opacity: 180,
                glow_dx: 0,
                glow_dy: 0,
                glow_size: 8,
                glow_spread: 4,
            },
            global_opacity: 255,
        }
    }

    /// The width of the content area.
    pub fn content_width(&self) -> (w: u32)
        requires
            2 * self.margin <= 0xffff_ffff,
        ensures
            w == content_width_of(*self),
    {
        let m2 = self.margin * 2;
        if self.image.width >= m2 { self.image.width - m2 } else { 0 }
    }

    /// The cap height: `scale × content width / 200`, `/ 100` for the gradient shape.
    pub fn cap_height(&self) -> (h: u32)
        requires
            2 * self.margin <= 0xffff_ffff,
        ensures
            h == cap_height_of(*self),
    {
        let divisor: u64 = if self.cap.shape == CapShape::Gradient { 100 } else { 200 };
        let cw = self.content_width();
        assert((self.cap.scale as nat) * (cw as nat) <= 0xffff_ffffnat * 0xffff_ffffnat) by (nonlinear_arith)
            requires
                self.cap.scale <= 0xffff_ffffnat,
                cw <= 0xffff_ffffnat,
        ;
        let v: u64 = (self.cap.scale as u64) * (cw as u64) / divisor;
        v as u32
    }

    /// The body height.
    pub fn body_height(&self) -> (h: u32)
        requires
            2 * self.margin <= 0xffff_ffff,
            echo_enabled_of(*self) ==> cap_height_of(*self) + self.effect.echo_length <= 0xffff_ffff,
        ensures
            h == body_height_of(*self),
    {
        let echo_enabled = self.effect.cap_echo_enabled && self.cap.shape != CapShape::Gradient;
        let echo_total_h = if echo_enabled { self.cap_height() + self.effect.echo_length } else { 0 };
        let a = self.image.height.saturating_sub(self.throw_length);
        let b = a.saturating_sub(echo_total_h);
        b.saturating_sub(self.cap_height())
    }

    /// Checks the parameters; `valid` when no message was reported. Besides the size and
    /// height-budget checks, the border may be at most half as wide as the content area.
    pub fn validate(&self) -> (r: ValidationResult)
        requires
            config_in_range(*self),
        ensures
            strings_view(r.errors@) == validation_errors(*self),
            r.valid == (validation_errors(*self).len() == 0),
    {
        let ghost c = *self;
        let mut errors: Vec<String> = Vec::new();
        if self.image.width == 0 {
            let mut m = String::new();
            push_str(&mut m, "图片宽度必须大于 0");
            errors.push(m);
        }
        assert(strings_view(errors@) =~= error_if(c.image.width == 0, "图片宽度必须大于 0"@));
        let ghost e1 = strings_view(errors@);
        if self.image.width > 800 {
            let mut m = String::new();
            push_str(&mut m, "图片宽度不能超过 800");
            errors.push(m);
        }
        assert(strings_view(errors@) =~= e1 + error_if(c.image.width > 800, "图片宽度不能超过 800"@));
        let ghost e2 = strings_view(errors@);
        if self.image.height == 0 {
            let mut m = String::new();
            push_str(&mut m, "图片高度必须大于 0");
            errors.push(m);
        }
        assert(strings_view(errors@) =~= e2 + error_if(c.image.height == 0, "图片高度必须大于 0"@));
        let ghost e3 = strings_view(errors@);
        if self.image.height > 65535 {
            let mut m = String::new();
            push_str(&mut m, "图片高度不能超过 65535");
            errors.push(m);
        }
        assert(strings_view(errors@) =~= e3 + error_if(c.image.height > 65535, "图片高度不能超过 65535"@));
        let ghost e4 = strings_view(errors@);
        if self.margin * 2 >= self.image.width {
            let mut m = String::new();
            push_str(&mut m, "留白 (");
            push_decimal(&mut m, self.margin as u64);
            push_str(&mut m, ") × 2 必须小于图片宽度 (");
            push_decimal(&mut m, self.image.width as u64);
            push_str(&mut m, ")");
            errors.push(m);
        }
        assert(strings_view(errors@) =~= e4 + error_if(2 * c.margin >= c.image.width, msg_margin(c.margin, c.image.width)));
        let ghost e5 = strings_view(errors@);
        let cap_h = self.cap_height();
        let echo_enabled = self.effect.cap_echo_enabled && self.cap.shape != CapShape::Gradient;
        let echo_total_h = if echo_enabled { cap_h + self.effect.echo_length } else { 0 };
        if self.throw_length + echo_total_h + cap_h >= self.image.height {
            let mut m = String::new();
            push_str(&mut m, "投的长度 (");
            push_decimal(&mut m, self.throw_length as u64);
            push_str(&mut m, ") + 暗化重复总高度 (");
            push_decimal(&mut m, echo_total_h as u64);
            push_str(&mut m, ") + 顶端高度 (");
            push_decimal(&mut m, cap_h as u64);
            push_str(&mut m, ") 必须小于图片高度 (");
            push_decimal(&mut m, self.image.height as u64);
            push_str(&mut m, ")");
            errors.push(m);
        }
        assert(strings_view(errors@) =~= e5 + error_if(
            c.throw_length + echo_total_of(c) + cap_height_of(c) >= c.image.height,
            msg_height_budget(c.throw_length as nat, echo_total_of(c), cap_height_of(c) as nat, c.image.height as nat),
        ));
        let ghost e6 = strings_view(errors@);
        let half = self.content_width() / 2;
        if self.body.border_width > half {
            let mut m = String::new();
            push_str(&mut m, "边框宽度 (");
            push_decimal(&mut m, self.body.border_width as u64);
            push_str(&mut m, ") 不能超过内容区宽度的一半 (");
            push_decimal(&mut m, half as u64);
            push_str(&mut m, ")");
            errors.push(m);
        }
        assert(strings_view(errors@) =~= e6 + error_if(
            c.body.border_width > content_width_of(c) / 2,
            msg_border(c.body.border_width, content_width_of(c) / 2),
        ));
        let valid = errors.len() == 0;
        ValidationResult { valid, errors }
    }
}

/// A configuration that passes validation leaves room for content: the content area is
/// at least one pixel wide and the body at least one row high, within the size limits.
pub proof fn lemma_valid_config_has_room(c: TailConfig)
    requires
        validation_errors(c).len() == 0,
    ensures
        content_width_of(c) > 0,
        body_height_of(c) > 0,
        0 < c.image.width <= 800,
        0 < c.image.height <= 65535,
{
    if c.image.width == 0 || c.image.width > 800 || c.image.height == 0 || c.image.height > 65535 || 2 * c.margin
        >= c.image.width || c.throw_length + echo_total_of(c) + cap_height_of(c) >= c.image.height {
        assert(validation_errors(c).len() > 0);
    }
}


/// The border color of `c`: the body color (or the global color, when the body has no
/// settings of its own) when the border follows the body, else the border color.
pub open spec fn border_color_of(c: TailConfig) -> RgbaColor {
    if c.body.border_match_body {
        if c.body.independent_settings { c.body.color } else { c.global_color }
    } else {
        c.body.border_color
    }
}

/// The red, green and blue of the border color.
pub fn border_rgb(config: &TailConfig) -> (rgb: (u8, u8, u8))
    ensures
        rgb == (border_color_of(*config).r, border_color_of(*config).g, border_color_of(*config).b),
{
    let bc: RgbaColor = if config.body.border_match_body {
        if config.body.independent_settings { config.body.color } else { config.global_color }
    } else {
        config.body.border_color
    };
    (bc.r, bc.g, bc.b)
}

/// Parameters read back from an existing tail image, with the warnings of that reading.
#[derive(Debug)]
pub struct ParseResult {
    pub config: TailConfig,
    pub warnings: Vec<String>,
}


/// Whether the arithmetic of [`TailConfig::validate`] stays within `u32` for `c` (the
/// sums that would overflow make the checks fail instead).
pub fn config_in_range_check(c: &TailConfig) -> (b: bool)
    ensures
        b == config_in_range(*c),
{
    if c.margin > 0x7fff_ffff {
        return false;
    }
    let cap_h = c.cap_height() as u64;
    let echo_sum = cap_h + c.effect.echo_length as u64;
    let echo_enabled = c.effect.cap_echo_enabled && c.cap.shape != CapShape::Gradient;
    if echo_enabled && echo_sum > 0xffff_ffff {
        return false;
    }
    let echo_total: u64 = if echo_enabled { echo_sum } else { 0 };
    (c.throw_length as u64) + echo_total + cap_h <= 0xffff_ffff
}

} // verus!
