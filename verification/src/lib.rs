use vstd::prelude::*;

pub mod text;
pub mod skin_ini;
pub mod key_finder;
pub mod ini_update;
pub mod ini_patches;
pub mod skin_files;
pub mod image;
pub mod image_utils;
pub mod throw_length;
pub mod tail_repair;
pub mod keyd_repair;
pub mod config;
pub mod preset;
pub mod backup;
pub mod logging;
pub mod morph;
pub mod render;
pub mod toolbox;
pub mod lazer_plan;
pub mod preset_image;
pub mod throw_info;
pub mod tail_parser;
pub mod border_probe;
pub mod osk;
pub mod png_rows;
pub mod render_plan;
pub mod glow_grid;

verus! {
}
