use std::collections::HashMap;
use tail_maker::backup::{epoch_to_date, is_leap, timestamp_from_secs};
use tail_maker::config::{border_rgb, config_in_range_check, CapShape, RgbaColor, TailConfig};
use tail_maker::image::Image;
use tail_maker::image_utils::{crop_to_height, find_first_non_transparent_row, is_2x, tile_bottom_rows_to_height};
use tail_maker::logging::{parse_level, passes_min_level, LogLevel};
use tail_maker::morph::erode_mask;
use tail_maker::preset::builtin_presets;
use tail_maker::render::{detect_gpu_backend, RenderBackend};
use tail_maker::skin_ini::parse_mania_sections;
use tail_maker::text::split_lines;
use tail_maker::throw_length::{find_throw_length, modify_throw_length, validate_tail_image};
use tail_maker::toolbox::collect_column_widths;

#[test]
fn default_config_is_valid() {
    let c = TailConfig::default_config();
    assert_eq!(c.image.width, 100);
    assert_eq!(c.content_width(), 84);
    assert_eq!(c.cap_height(), 42);
    assert_eq!(c.body_height(), 32800 - 100 - 42);
    assert!(config_in_range_check(&c));
    let v = c.validate();
    assert!(v.valid);
    assert!(v.errors.is_empty());
}

#[test]
fn validation_reports_each_problem() {
    let mut c = TailConfig::default_config();
    c.image.width = 900;
    c.margin = 500;
    c.image.height = 0;
    let v = c.validate();
    assert!(!v.valid);
    assert_eq!(
        v.errors,
        vec![
            "图片宽度不能超过 800".to_string(),
            "图片高度必须大于 0".to_string(),
            "留白 (500) × 2 必须小于图片宽度 (900)".to_string(),
            "投的长度 (100) + 暗化重复总高度 (0) + 顶端高度 (0) 必须小于图片高度 (0)".to_string(),
            "边框宽度 (1) 不能超过内容区宽度的一半 (0)".to_string(),
        ]
    );
}

#[test]
fn gradient_cap_and_echo_heights() {
    let mut c = TailConfig::default_config();
    c.cap.shape = CapShape::Gradient;
    assert_eq!(c.cap_height(), 84);
    c.cap.shape = CapShape::Ball;
    c.effect.cap_echo_enabled = true;
    assert_eq!(c.body_height(), 32800 - 100 - (42 + 50) - 42);
}

#[test]
fn border_color_follows_body() {
    let mut c = TailConfig::default_config();
    assert_eq!(border_rgb(&c), (255, 255, 255));
    c.body.border_match_body = true;
    assert_eq!(border_rgb(&c), (113, 113, 113));
    c.body.independent_settings = true;
    c.body.color = RgbaColor { r: 1, g: 2, b: 3, a: 4 };
    assert_eq!(border_rgb(&c), (1, 2, 3));
}

#[test]
fn builtin_presets_are_named() {
    let p = builtin_presets();
    let names: Vec<&str> = p.iter().map(|x| x.name.as_str()).collect();
    assert_eq!(names, vec!["球皮-标准", "菱形-无边框", "渐变-无边框", "纯色-无头", "纯色-带边框"]);
    assert!(p.iter().all(|x| x.builtin && x.config.image.width == 40));
    assert_eq!(p[4].config.body.border_width, 2);
}

#[test]
fn dates_from_epoch_days() {
    assert_eq!(epoch_to_date(0), (1970, 1, 1));
    assert_eq!(epoch_to_date(365), (1971, 1, 1));
    assert_eq!(epoch_to_date(365 + 365 + 31 + 28), (1972, 2, 29));
    assert_eq!(epoch_to_date(19723), (2024, 1, 1));
    assert!(is_leap(2000));
    assert!(!is_leap(1900));
    assert!(is_leap(2024));
}

#[test]
fn timestamps_are_utc_plus_8() {
    assert_eq!(timestamp_from_secs(0), "1970-01-01_08-00-00");
    assert_eq!(timestamp_from_secs(1_700_000_000), "2023-11-15_06-13-20");
}

#[test]
fn parses_levels() {
    assert_eq!(parse_level("INFO"), Ok(LogLevel::Info));
    assert_eq!(parse_level("warn"), Ok(LogLevel::Warn));
    assert_eq!(parse_level("Verbose"), Err("Invalid log level: verbose".to_string()));
    assert!(passes_min_level(LogLevel::Error, LogLevel::Info));
    assert!(!passes_min_level(LogLevel::Debug, LogLevel::Info));
}

#[test]
fn erosion_shrinks_foreground() {
    let mut mask = vec![0u8, 255, 255, 255, 0, 0, 255, 255, 255, 0, 0, 255, 255, 255, 0];
    erode_mask(&mut mask, 5, 3, 1);
    assert_eq!(mask, vec![0, 0, 255, 0, 0, 0, 0, 255, 0, 0, 0, 0, 255, 0, 0]);
    let mut dot = vec![255u8, 255, 255, 255, 255, 255, 255, 255, 0];
    erode_mask(&mut dot, 3, 3, 1);
    assert_eq!(dot, vec![255, 255, 255, 255, 0, 0, 255, 0, 0]);
    let mut same = vec![1u8, 2, 3];
    erode_mask(&mut same, 3, 1, 0);
    assert_eq!(same, vec![1, 2, 3]);
}

#[test]
fn renders_on_cpu() {
    assert!(matches!(detect_gpu_backend(), RenderBackend::Cpu));
}

#[test]
fn column_widths_of_first_section() {
    let lines = split_lines("[Mania]\nKeys: 4\nColumnWidth: 30\n[Mania]\nKeys: 4\nColumnWidth: 50\n[Mania]\nKeys: 7\nColumnWidth: 40\n");
    let secs = parse_mania_sections(&lines);
    let mut throws = HashMap::new();
    throws.insert(4u32, 100u32);
    throws.insert(9u32, 100u32);
    let cw = collect_column_widths(&secs, &throws);
    assert_eq!(cw.len(), 1);
    assert_eq!(cw.get(&4), Some(&30));
}

#[test]
fn double_resolution_names() {
    assert!(is_2x("skin/mania-note1L@2x.png"));
    assert!(!is_2x("skin/mania-note1L.png"));
    assert!(!is_2x(""));
}

#[test]
fn throw_length_laws_on_values() {
    let mut img = Image::new(4, 40);
    for y in 12..30 {
        img.put_pixel(1, y, [9, 9, 9, 255]);
    }
    assert_eq!(find_throw_length(&img), 12);
    assert_eq!(validate_tail_image(&img), (false, 40));
    for t in [0u32, 5, 12, 20, 39, 40, 100] {
        let r = modify_throw_length(&img, t);
        assert_eq!(r.dimensions(), (4, 40));
        assert_eq!(find_throw_length(&r), t.min(40));
    }
    let empty = Image::new(3, 0);
    assert_eq!(modify_throw_length(&empty, 5).dimensions(), (1, 1));
}

#[test]
fn crops_and_tiles_rows() {
    let mut img = Image::new(2, 4);
    for y in 0..4 {
        img.put_pixel(0, y, [y as u8, 0, 0, 255]);
    }
    let c = crop_to_height(&img, 2);
    assert_eq!(c.dimensions(), (2, 2));
    assert_eq!(c.get_pixel(0, 1)[0], 1);
    let t = tile_bottom_rows_to_height(&img, 2, 9);
    assert_eq!(t.dimensions(), (2, 9));
    let reds: Vec<u8> = (0..9).map(|y| t.get_pixel(0, y)[0]).collect();
    assert_eq!(reds, vec![0, 1, 2, 3, 2, 3, 2, 3, 2]);
    assert_eq!(find_first_non_transparent_row(&Image::new(2, 2)), None);
}

#[test]
fn border_may_be_at_most_half_the_content_width() {
    let mut c = TailConfig::default_config();
    c.body.border_enabled = true;
    c.body.border_width = 42;
    assert!(c.validate().valid);
    c.body.border_width = 60;
    let v = c.validate();
    assert!(!v.valid);
    assert_eq!(v.errors, vec!["边框宽度 (60) 不能超过内容区宽度的一半 (42)".to_string()]);
}

#[test]
fn echo_length_only_counts_when_the_echo_is_on() {
    let mut c = TailConfig::default_config();
    c.effect.echo_length = u32::MAX;
    assert!(config_in_range_check(&c));
    assert_eq!(c.body_height(), 32800 - 100 - 42);
    assert!(c.validate().valid);
    c.effect.cap_echo_enabled = true;
    assert!(!config_in_range_check(&c));
}

#[test]
fn keyless_section_passes_no_references_on() {
    let lines = split_lines("[Mania]\nNoteImage0L: a\n[Mania]\nKeys: 4\n");
    let secs = parse_mania_sections(&lines);
    assert_eq!(secs.len(), 1);
    assert_eq!(secs[0].keys, 4);
    assert_eq!(secs[0].column_width, 0);
    assert!(secs[0].key_images.is_empty());
    assert!(secs[0].key_image_ds.is_empty());
    assert!(secs[0].note_image_ls.is_empty());
    assert_eq!(secs[0].line_start, 2);
    assert_eq!(secs[0].line_end, 4);
}

#[test]
fn undecodable_bytes_give_an_error() {
    assert!(Image::decode(&[1, 2, 3, 4]).is_err());
}

#[test]
fn huge_day_counts_stop_in_the_first_month() {
    assert_eq!(epoch_to_date(u64::MAX - 1), (1970, 1, u64::MAX));
    assert_eq!(epoch_to_date(0), (1970, 1, 1));
}
