//! The built-in presets.
use vstd::prelude::*;

use crate::config::{
    BodyConfig, CapConfig, CapShape, EffectConfig, ImageConfig, Preset, RgbaColor, TailConfig, black, grey,
    white,
};
use crate::text::push_str;

verus! {

/// The colors, shapes and sizes that tell the built-in presets apart.
pub struct PresetShape {
    pub shape: CapShape,
    pub scale: u32,
    pub color: RgbaColor,
    pub body_independent: bool,
    pub body_opacity: u8,
    pub border_enabled: bool,
    pub border_color: RgbaColor,
    pub border_opacity: u8,
    pub border_width: u32,
}

pub open spec fn pink() -> RgbaColor {
    RgbaColor { r: 255, g: 107, b: 157, a: 255 }
}

pub open spec fn sky() -> RgbaColor {
    RgbaColor { r: 100, g: 200, b: 255, a: 255 }
}

/// A built-in preset: 40 × 32800, no margin, throw length 100, white global color,
/// the cap (and body and repetition) in `p.color`, no repetition, no glow.
pub open spec fn builtin_preset(p: Preset, name: Seq<char>, k: PresetShape) -> bool {
    let c = p.config;
    &&& p.name@ == name
    &&& p.builtin
    &&& c.image.width == 40 && c.image.height == 32800 && c.image.filename@ == "mania-noteL"@
    &&& c.margin == 0 && c.throw_length == 100 && c.global_color == white() && c.global_opacity == 255
    &&& c.cap.shape == k.shape && c.cap.scale == k.scale && !c.cap.independent_settings
    &&& c.cap.color == k.color && c.cap.opacity == 255
    &&& c.body.independent_settings == k.body_independent && c.body.color == k.color
    &&& c.body.opacity == k.body_opacity && c.body.border_enabled == k.border_enabled
    &&& c.body.border_color == k.border_color && c.body.border_opacity == k.border_opacity
    &&& !c.body.border_opacity_independent && !c.body.border_match_body && c.body.border_width == k.border_width
    &&& !c.effect.cap_echo_enabled && c.effect.echo_color == k.color
    &&& c.effect.echo_opacity == 76 && c.effect.echo_length == 50 && !c.effect.glow_enabled
}

fn make_preset(name: &str, k: PresetShape) -> (p: Preset)
    ensures
        builtin_preset(p, name@, k),
{
    let mut n = String::new();
    push_str(&mut n, name);
    let mut filename = String::new();
    push_str(&mut filename, "mania-noteL");
    Preset {
        name: n,
        builtin: true,
        config: TailConfig {
            image: ImageConfig { width: 40, height: 32800, filename },
            margin: 0,
            throw_length: 100,
            global_color: RgbaColor::white(),
            cap: CapConfig {
                shape: k.shape,
                scale: k.scale,
                independent_settings: false,
                color: k.color,
                opacity: 255,
            },
            body: BodyConfig {
                independent_settings: k.body_independent,
                color: k.color,
                opacity: k.body_opacity,
                border_enabled: k.border_enabled,
                border_color: k.border_color,
                border_opacity: k.border_opacity,
                border_opacity_independent: false,
                border_match_body: false,
                border_width: k.border_width,
            },
            effect: EffectConfig {
                cap_echo_enabled: false,
                echo_color: k.color,
                echo_opacity: 76,
                echo_length: 50,
                glow_enabled: false,
                glow_color: RgbaColor { r: 144, g: 238, b: 144, a: 255 },
                glow_opacity: 180,
                glow_dx: 0,
                glow_dy: 0,
                glow_size: 8,
                glow_spread: 4,
            },
            global_opacity: 255,
        },
    }
}

/// The five built-in presets: ball, diamond without border, gradient without border,
/// plain without cap, plain with border.
pub fn builtin_presets() -> (v: Vec<Preset>)
    ensures
        v@.len() == 5,
        builtin_preset(v@[0], "球皮-标准"@, PresetShape {
            shape: CapShape::Ball, scale: 100, color: white(), body_independent: true, body_opacity: 200,
            border_enabled: true, border_color: white(), border_opacity: 180, border_width: 1,
        }),
        builtin_preset(v@[1], "菱形-无边框"@, PresetShape {
            shape: CapShape::Diamond, scale: 120, color: pink(), body_independent: true, body_opacity: 220,
            border_enabled: false, border_color: black(), border_opacity: 255, border_width: 1,
        }),
        builtin_preset(v@[2], "渐变-无边框"@, PresetShape {
            shape: CapShape::Gradient, scale: 150, color: sky(), body_independent: true, body_opacity: 200,
            border_enabled: false, border_color: black(), border_opacity: 255, border_width: 1,
        }),
        builtin_preset(v@[3], "纯色-无头"@, PresetShape {
            shape: CapShape::Rect, scale: 0, color: white(), body_independent: false, body_opacity: 255,
            border_enabled: false, border_color: black(), border_opacity: 255, border_width: 1,
        }),
        builtin_preset(v@[4], "纯色-带边框"@, PresetShape {
            shape: CapShape::Rect, scale: 0, color: white(), body_independent: true, body_opacity: 180,
            border_enabled: true, border_color: white(), border_opacity: 255, border_width: 2,
        }),
{
    let pink = RgbaColor { r: 255, g: 107, b: 157, a: 255 };
    let sky = RgbaColor { r: 100, g: 200, b: 255, a: 255 };
    let mut v: Vec<Preset> = Vec::new();
    v.push(make_preset("球皮-标准", PresetShape {
        shape: CapShape::Ball, scale: 100, color: RgbaColor::white(), body_independent: true, body_opacity: 200,
        border_enabled: true, border_color: RgbaColor::white(), border_opacity: 180, border_width: 1,
    }));
    v.push(make_preset("菱形-无边框", PresetShape {
        shape: CapShape::Diamond, scale: 120, color: pink, body_independent: true, body_opacity: 220,
        border_enabled: false, border_color: RgbaColor::black(), border_opacity: 255, border_width: 1,
    }));
    v.push(make_preset("渐变-无边框", PresetShape {
        shape: CapShape::Gradient, scale: 150, color: sky, body_independent: true, body_opacity: 200,
        border_enabled: false, border_color: RgbaColor::black(), border_opacity: 255, border_width: 1,
    }));
    v.push(make_preset("纯色-无头", PresetShape {
        shape: CapShape::Rect, scale: 0, color: RgbaColor::white(), body_independent: false, body_opacity: 255,
        border_enabled: false, border_color: RgbaColor::black(), border_opacity: 255, border_width: 1,
    }));
    v.push(make_preset("纯色-带边框", PresetShape {
        shape: CapShape::Rect, scale: 0, color: RgbaColor::white(), body_independent: true, body_opacity: 180,
        border_enabled: true, border_color: RgbaColor::white(), border_opacity: 255, border_width: 2,
    }));
    v
}


/// The names of presets.
pub open spec fn preset_names(v: Seq<Preset>) -> Seq<Seq<char>> {
    v.map_values(|p: Preset| p.name@)
}

/// The presets of `v` whose names are not among `names`, in order.
pub open spec fn without_names(v: Seq<Preset>, names: Seq<Seq<char>>) -> Seq<Preset>
    decreases v.len(),
{
    if v.len() == 0 {
        seq![]
    } else {
        let r = without_names(v.drop_last(), names);
        if names.contains(v.last().name@) { r } else { r.push(v.last()) }
    }
}

/// The presets of `v` whose names are among `names`, in order.
pub open spec fn with_names(v: Seq<Preset>, names: Seq<Seq<char>>) -> Seq<Preset>
    decreases v.len(),
{
    if v.len() == 0 {
        seq![]
    } else {
        let r = with_names(v.drop_last(), names);
        if names.contains(v.last().name@) { r.push(v.last()) } else { r }
    }
}

/// Whether `name` is one of `names`.
fn has_name(names: &Vec<String>, name: &String) -> (b: bool)
    ensures
        b == names@.map_values(|n: String| n@).contains(name@),
{
    let ghost v = names@.map_values(|n: String| n@);
    let mut k: usize = 0;
    while k < names.len()
        invariant
            k <= names@.len(),
            v == names@.map_values(|n: String| n@),
            forall|j: int| 0 <= j < k ==> v[j] != name@,
        decreases names@.len() - k,
    {
        assert(v[k as int] == names@[k as int]@);
        if names[k] == *name {
            assert(v.contains(name@));
            return true;
        }
        k += 1;
    }
    false
}

/// Keeps the presets of `v` whose names are (`keep`) or are not (`!keep`) among `names`.
fn filter_by_names(v: Vec<Preset>, names: &Vec<String>, keep: bool) -> (r: Vec<Preset>)
    ensures
        r@ == (if keep {
            with_names(v@, names@.map_values(|n: String| n@))
        } else {
            without_names(v@, names@.map_values(|n: String| n@))
        }),
{
    let ghost nv = names@.map_values(|n: String| n@);
    let ghost orig = v@;
    let mut rest = v;
    let mut out: Vec<Preset> = Vec::new();
    let mut i: usize = 0;
    let _n = rest.len();
    assert(orig.len() <= usize::MAX);
    while rest.len() > 0
        invariant
            orig.len() <= usize::MAX,
            i + rest@.len() == orig.len(),
            rest@ == orig.skip(i as int),
            nv == names@.map_values(|n: String| n@),
            out@ == (if keep { with_names(orig.take(i as int), nv) } else { without_names(orig.take(i as int), nv) }),
        decreases rest@.len(),
    {
        let p = rest.remove(0);
        assert(p == orig[i as int]);
        assert(orig.take(i + 1).drop_last() =~= orig.take(i as int));
        assert(orig.take(i + 1).last() == p);
        assert(rest@ =~= orig.skip(i + 1));
        let named = has_name(names, &p.name);
        if named == keep {
            out.push(p);
        }
        i += 1;
    }
    assert(orig.take(i as int) =~= orig);
    out
}

/// All presets the application offers: the built-in ones, then the user's presets whose
/// names no built-in preset has.
pub fn merge_presets(builtin: Vec<Preset>, user: Vec<Preset>) -> (r: Vec<Preset>)
    ensures
        r@ == builtin@ + without_names(user@, preset_names(builtin@)),
{
    let mut names: Vec<String> = Vec::new();
    let mut i: usize = 0;
    while i < builtin.len()
        invariant
            i <= builtin@.len(),
            names@.map_values(|n: String| n@) == preset_names(builtin@.take(i as int)),
        decreases builtin@.len() - i,
    {
        let ghost before = names@;
        names.push(builtin[i].name.clone());
        assert(names@.map_values(|n: String| n@) =~= before.map_values(|n: String| n@).push(builtin@[i as int].name@));
        assert(preset_names(builtin@.take(i + 1)) =~= preset_names(builtin@.take(i as int)).push(builtin@[i as int].name@));
        i += 1;
    }
    assert(builtin@.take(builtin@.len() as int) =~= builtin@);
    let kept = filter_by_names(user, &names, false);
    let mut all = builtin;
    let mut kept = kept;
    all.append(&mut kept);
    all
}

/// The presets of `all` named in `names`, in the order of `all`.
pub fn select_presets(all: Vec<Preset>, names: &Vec<String>) -> (r: Vec<Preset>)
    ensures
        r@ == with_names(all@, names@.map_values(|n: String| n@)),
{
    filter_by_names(all, names, true)
}


/// The effect settings of the standard presets: repetition and glow off, the repetition in
/// `echo_color`.
pub open spec fn standard_effect(echo_color: RgbaColor) -> EffectConfig {
    EffectConfig {
        cap_echo_enabled: false,
        echo_color,
        echo_opacity: 76,
        echo_length: 50,
        glow_enabled: false,
        glow_color: RgbaColor { r: 144, g: 238, b: 144, a: 255 },
        glow_opacity: 180,
        glow_dx: 0,
        glow_dy: 0,
        glow_size: 8,
        glow_spread: 4,
    }
}

/// The effect settings of the standard presets (see [`standard_effect`]).
pub fn default_effect(echo_color: RgbaColor) -> (e: EffectConfig)
    ensures
        e == standard_effect(echo_color),
{
    EffectConfig {
        cap_echo_enabled: false,
        echo_color,
        echo_opacity: 76,
        echo_length: 50,
        glow_enabled: false,
        glow_color: RgbaColor { r: 144, g: 238, b: 144, a: 255 },
        glow_opacity: 180,
        glow_dx: 0,
        glow_dy: 0,
        glow_size: 8,
        glow_spread: 4,
    }
}

/// The body settings of the standard presets: following the global color, no border (a
/// white one 1 wide when switched on).
pub open spec fn standard_body() -> BodyConfig {
    BodyConfig {
        independent_settings: false,
        color: grey(),
        opacity: 255,
        border_enabled: false,
        border_color: white(),
        border_opacity: 255,
        border_opacity_independent: false,
        border_match_body: false,
        border_width: 1,
    }
}

/// The body settings of the standard presets (see [`standard_body`]).
pub fn default_body() -> (b: BodyConfig)
    ensures
        b == standard_body(),
{
    BodyConfig {
        independent_settings: false,
        color: RgbaColor::grey(),
        opacity: 255,
        border_enabled: false,
        border_color: RgbaColor::white(),
        border_opacity: 255,
        border_opacity_independent: false,
        border_match_body: false,
        border_width: 1,
    }
}

/// The body settings with a white border `width` wide.
pub open spec fn bordered_body(width: u32) -> BodyConfig {
    BodyConfig { border_enabled: true, border_width: width, ..standard_body() }
}

/// A standard preset: 100 × 32800, margin 8, a grey cap color, the given throw, global
/// color and opacity, cap shape and scale, body and effect settings.
pub open spec fn standard_preset(
    p: Preset,
    name: Seq<char>,
    throw: u32,
    global: RgbaColor,
    opacity: u8,
    shape: CapShape,
    scale: u32,
    body: BodyConfig,
    effect: EffectConfig,
) -> bool {
    let c = p.config;
    &&& p.name@ == name
    &&& p.builtin
    &&& c.image.width == 100 && c.image.height == 32800 && c.image.filename@ == "mania-noteL"@
    &&& c.margin == 8 && c.throw_length == throw && c.global_color == global && c.global_opacity == opacity
    &&& c.cap == CapConfig { shape, scale, independent_settings: false, color: grey(), opacity: 255 }
    &&& c.body == body
    &&& c.effect == effect
}

fn make_standard(
    name: &str,
    throw: u32,
    global: RgbaColor,
    opacity: u8,
    shape: CapShape,
    scale: u32,
    body: BodyConfig,
    effect: EffectConfig,
) -> (p: Preset)
    ensures
        standard_preset(p, name@, throw, global, opacity, shape, scale, body, effect),
{
    let mut n = String::new();
    push_str(&mut n, name);
    let mut filename = String::new();
    push_str(&mut filename, "mania-noteL");
    Preset {
        name: n,
        builtin: true,
        config: TailConfig {
            image: ImageConfig { width: 100, height: 32800, filename },
            margin: 8,
            throw_length: throw,
            global_color: global,
            cap: CapConfig { shape, scale, independent_settings: false, color: RgbaColor::grey(), opacity: 255 },
            body,
            effect,
            global_opacity: opacity,
        },
    }
}

/// The built-in presets of the tail maker (the list its preset commands offer, beside
/// [`builtin_presets`] of the renderer): a ball, a diamond, a gradient, a gradient with a
/// border, and a darkened ball with repetition.
pub fn tail_maker_builtin_presets() -> (v: Vec<Preset>)
    ensures
        v@.len() == 5,
        standard_preset(v@[0], "球皮-标准"@, 50, grey(), 255, CapShape::Ball, 100, standard_body(), standard_effect(grey())),
        standard_preset(
            v@[1],
            "菱形-标准"@,
            50,
            RgbaColor { r: 255, g: 226, b: 116, a: 255 },
            179,
            CapShape::Diamond,
            100,
            standard_body(),
            standard_effect(grey()),
        ),
        standard_preset(
            v@[2],
            "渐变-标准"@,
            50,
            RgbaColor { r: 204, g: 252, b: 178, a: 255 },
            178,
            CapShape::Gradient,
            150,
            standard_body(),
            standard_effect(grey()),
        ),
        standard_preset(
            v@[3],
            "渐变-边框"@,
            50,
            RgbaColor { r: 188, g: 219, b: 241, a: 255 },
            178,
            CapShape::Gradient,
            150,
            bordered_body(5),
            standard_effect(grey()),
        ),
        standard_preset(
            v@[4],
            "球皮-暗化"@,
            2,
            RgbaColor { r: 193, g: 114, b: 255, a: 255 },
            205,
            CapShape::Ball,
            100,
            bordered_body(2),
            EffectConfig {
                cap_echo_enabled: true,
                echo_color: RgbaColor { r: 193, g: 114, b: 255, a: 255 },
                ..standard_effect(grey())
            },
        ),
{
    let mut v: Vec<Preset> = Vec::new();
    let grey_c = RgbaColor::grey();
    v.push(make_standard("球皮-标准", 50, grey_c, 255, CapShape::Ball, 100, default_body(), default_effect(grey_c)));
    v.push(
        make_standard(
            "菱形-标准",
            50,
            RgbaColor { r: 255, g: 226, b: 116, a: 255 },
            179,
            CapShape::Diamond,
            100,
            default_body(),
            default_effect(grey_c),
        ),
    );
    v.push(
        make_standard(
            "渐变-标准",
            50,
            RgbaColor { r: 204, g: 252, b: 178, a: 255 },
            178,
            CapShape::Gradient,
            150,
            default_body(),
            default_effect(grey_c),
        ),
    );
    let b5 = BodyConfig { border_enabled: true, border_color: RgbaColor::white(), border_opacity: 255, border_width: 5, ..default_body() };
    v.push(
        make_standard(
            "渐变-边框",
            50,
            RgbaColor { r: 188, g: 219, b: 241, a: 255 },
            178,
            CapShape::Gradient,
            150,
            b5,
            default_effect(grey_c),
        ),
    );
    let b2 = BodyConfig { border_enabled: true, border_color: RgbaColor::white(), border_opacity: 255, border_width: 2, ..default_body() };
    let purple = RgbaColor { r: 193, g: 114, b: 255, a: 255 };
    let e = EffectConfig { cap_echo_enabled: true, echo_color: purple, ..default_effect(grey_c) };
    v.push(make_standard("球皮-暗化", 2, purple, 205, CapShape::Ball, 100, b2, e));
    v
}

} // verus!
