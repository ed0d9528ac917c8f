use tail_maker::border_probe::{
    detect_border_sampled, detect_border_width_left, detect_border_width_right, import_name, measure_tail_sampled,
    sampled_tail_config,
};
use tail_maker::config::CapShape;
use tail_maker::tail_parser::{inner_width, shaped_cap_scale};
use tail_maker::image::Image;
use tail_maker::tail_parser::{
    cap_scale, color_diff, detect_body, detect_border, detect_cap_region, detect_margin, detect_throw_length,
    extract_body_color, measure_tail, row_width_range, sample_color_blur, tail_config_from, upload_name, BodyRegion,
    ParseError,
};

fn fill(img: &mut Image, x0: u32, y0: u32, x1: u32, y1: u32, p: [u8; 4]) {
    for y in y0..y1 {
        for x in x0..x1 {
            img.put_pixel(x, y, p);
        }
    }
}

/// A 300 × 5200 tail: 100 empty rows, a grey cap (rows 100..140, columns 100..200), then a
/// white body in columns 50..250 with a black left border of two columns.
fn sample_tail() -> Image {
    let mut img = Image::new(300, 5200);
    fill(&mut img, 100, 100, 200, 140, [113, 113, 113, 255]);
    fill(&mut img, 50, 140, 52, 5200, [0, 0, 0, 255]);
    fill(&mut img, 52, 140, 250, 5200, [255, 255, 255, 255]);
    img
}

#[test]
fn margin_and_throw_of_sample() {
    let img = sample_tail();
    assert_eq!(detect_margin(&img), 50);
    assert_eq!(detect_throw_length(&img), 100);
}

#[test]
fn margin_takes_larger_side() {
    let mut img = Image::new(20, 4);
    fill(&mut img, 3, 0, 18, 4, [1, 2, 3, 255]);
    assert_eq!(detect_margin(&img), 3);
    let mut img = Image::new(20, 4);
    fill(&mut img, 1, 0, 15, 4, [1, 2, 3, 255]);
    assert_eq!(detect_margin(&img), 5);
}

#[test]
fn row_ranges() {
    let mut img = Image::new(10, 2);
    img.put_pixel(2, 0, [0, 0, 0, 1]);
    img.put_pixel(6, 0, [0, 0, 0, 1]);
    assert_eq!(row_width_range(&img, 0), (2, 7));
    assert_eq!(row_width_range(&img, 1), (10, 0));
}

#[test]
fn body_of_sample() {
    let img = sample_tail();
    let body = detect_body(&img).unwrap();
    assert_eq!(body, BodyRegion { y_start: 140, y_end: 5200, x_start: 50, x_end: 250 });
    assert_eq!(extract_body_color(&img, &body).1, 255);
    let (c, a) = extract_body_color(&img, &body);
    assert_eq!((c.r, c.g, c.b, c.a, a), (255, 255, 255, 255, 255));
}

#[test]
fn body_too_short() {
    let mut img = Image::new(10, 4999);
    fill(&mut img, 2, 0, 8, 4999, [9, 9, 9, 255]);
    assert!(matches!(detect_body(&img), Err(ParseError::BodyTooShort)));
    let img = Image::new(10, 6000);
    assert!(matches!(detect_body(&img), Err(ParseError::BodyTooShort)));
    let mut img = Image::new(10, 5000);
    fill(&mut img, 2, 0, 8, 5000, [9, 9, 9, 255]);
    assert_eq!(detect_body(&img).unwrap(), BodyRegion { y_start: 0, y_end: 5000, x_start: 2, x_end: 8 });
}

#[test]
fn body_width_tolerance() {
    // reference width 30, tolerance 3: a row of width 33 still belongs to the body, 34 does not
    let mut img = Image::new(40, 5100);
    fill(&mut img, 5, 50, 38, 60, [1, 1, 1, 255]);
    fill(&mut img, 5, 60, 35, 5100, [1, 1, 1, 255]);
    fill(&mut img, 5, 40, 39, 50, [1, 1, 1, 255]);
    let body = detect_body(&img).unwrap();
    assert_eq!(body, BodyRegion { y_start: 50, y_end: 5100, x_start: 5, x_end: 35 });
}

#[test]
fn border_of_sample() {
    let img = sample_tail();
    let body = detect_body(&img).unwrap();
    let (enabled, color, width, warnings) = detect_border(&img, &body);
    assert!(enabled);
    assert_eq!(width, 3);
    assert_eq!((color.r, color.g, color.b, color.a), (124, 124, 124, 136));
    assert!(warnings.is_empty());
}

#[test]
fn no_border_on_uniform_body() {
    let mut img = Image::new(300, 5200);
    fill(&mut img, 50, 0, 250, 5200, [10, 20, 30, 255]);
    let body = detect_body(&img).unwrap();
    let (enabled, color, width, warnings) = detect_border(&img, &body);
    assert!(!enabled);
    assert_eq!(width, 0);
    assert_eq!((color.r, color.g, color.b, color.a), (255, 255, 255, 255));
    assert_eq!(warnings, vec!["未检测到边框".to_string()]);
}

#[test]
fn cap_of_sample() {
    let img = sample_tail();
    let body = detect_body(&img).unwrap();
    assert_eq!(detect_cap_region(&img, &body), (100, 140, 100, 200));
    assert_eq!(cap_scale(40, 200), 40);
}

#[test]
fn cap_scale_rounds_and_caps() {
    assert_eq!(cap_scale(1, 400), 1);
    assert_eq!(cap_scale(1, 401), 0);
    assert_eq!(cap_scale(3, 200), 3);
    assert_eq!(cap_scale(10, 3), 667);
    assert_eq!(cap_scale(100, 3), 1000);
    assert_eq!(cap_scale(5, 0), 100);
}

#[test]
fn color_distance_rounds_down() {
    assert_eq!(color_diff([0, 0, 0, 0], [3, 4, 0, 9]), 5);
    assert_eq!(color_diff([0, 0, 0, 0], [255, 255, 255, 0]), 441);
    assert_eq!(color_diff([10, 10, 10, 0], [11, 11, 10, 200]), 1);
    assert_eq!(color_diff([7, 7, 7, 7], [7, 7, 7, 0]), 0);
}

#[test]
fn blur_averages_clipped_window() {
    let mut img = Image::new(4, 1);
    img.put_pixel(0, 0, [100, 0, 0, 255]);
    img.put_pixel(1, 0, [50, 0, 0, 255]);
    assert_eq!(sample_color_blur(&img, 0, 0, 1), [75, 0, 0, 255]);
    assert_eq!(sample_color_blur(&img, 2, 0, 1), [16, 0, 0, 85]);
    assert_eq!(sample_color_blur(&img, 9, 0, 1), [0, 0, 0, 0]);
}

#[test]
fn whole_reading_of_sample() {
    let img = sample_tail();
    let m = measure_tail(&img).unwrap();
    let r = tail_config_from(m, 300, 5200, "upload-x".to_string(), CapShape::Diamond);
    let c = &r.config;
    assert_eq!((c.image.width, c.image.height, c.image.filename.as_str()), (300, 5200, "upload-x"));
    assert_eq!((c.margin, c.throw_length), (50, 100));
    assert_eq!(c.cap.shape, CapShape::Diamond);
    assert_eq!(c.cap.scale, 40);
    assert_eq!((c.cap.color.r, c.cap.opacity), (113, 255));
    assert!(c.body.border_enabled);
    assert_eq!(c.body.border_width, 3);
    assert_eq!(c.body.border_opacity, 255);
    assert_eq!((c.global_color.r, c.global_opacity), (255, 255));
    assert!(!c.effect.cap_echo_enabled);
    assert_eq!((c.effect.echo_length, c.effect.glow_size, c.effect.glow_spread), (50, 8, 4));
    assert!(r.warnings.is_empty());
}

#[test]
fn reading_without_margin_throw_or_cap() {
    let mut img = Image::new(12, 5000);
    fill(&mut img, 0, 0, 12, 5000, [40, 40, 40, 255]);
    let m = measure_tail(&img).unwrap();
    let r = tail_config_from(m, 12, 5000, "upload-y".to_string(), CapShape::Ball);
    assert_eq!(r.config.cap.shape, CapShape::Rect);
    assert_eq!(r.config.cap.scale, 100);
    assert_eq!(
        r.warnings,
        vec![
            "未检测到左右边距，使用默认值 0".to_string(),
            "未检测到投的长度，使用默认值 0".to_string(),
            "未检测到 cap，使用默认矩形，缩放100%".to_string(),
            "未检测到边框".to_string(),
        ]
    );
}

#[test]
fn empty_image_is_too_small() {
    let img = Image::new(0, 10);
    assert!(matches!(measure_tail(&img), Err(ParseError::ImageTooSmall)));
    assert_eq!(ParseError::ImageTooSmall.message(), "图片为空或尺寸过小");
    assert_eq!(ParseError::BodyTooShort.message(), "解析失败或非投皮：body 高度不足 5000px");
    assert_eq!(ParseError::ImageReadError("x".to_string()).message(), "无法读取图片: x");
}

#[test]
fn upload_names() {
    assert_eq!(upload_name("/a/b/mania-noteL.png"), "upload-mania-noteL");
    assert_eq!(upload_name(""), "upload-unknown");
}

#[test]
fn border_read_on_both_sides() {
    let img = sample_tail();
    let body = detect_body(&img).unwrap();
    assert_eq!(detect_border_width_left(&img, 140, 5200, 50, 150), 6);
    assert_eq!(detect_border_width_right(&img, 140, 5200, 150, 250), 4);
    let (enabled, color, width, warnings) = detect_border_sampled(&img, &body);
    assert!(enabled);
    assert_eq!(width, 5);
    assert_eq!((color.r, color.g, color.b, color.a), (133, 133, 133, 157));
    assert!(warnings.is_empty());
}

#[test]
fn sampled_reading_scales_cap_by_shape() {
    let img = sample_tail();
    let m = measure_tail_sampled(&img).unwrap();
    assert_eq!(m.border_width, 5);
    let r = sampled_tail_config(m, 300, 5200, import_name("/x/tail.png"), CapShape::Diamond);
    assert_eq!(r.config.image.filename, "import-tail");
    assert_eq!(r.config.cap.shape, CapShape::Diamond);
    assert_eq!(r.config.cap.scale, 42);
    let m = measure_tail_sampled(&img).unwrap();
    let r = sampled_tail_config(m, 300, 5200, "n".to_string(), CapShape::Ball);
    assert_eq!(r.config.cap.scale, 100);
    assert!(r.warnings.is_empty());
}

#[test]
fn sampled_reading_warns_in_order() {
    let mut img = Image::new(12, 5000);
    fill(&mut img, 0, 0, 12, 5000, [40, 40, 40, 255]);
    let m = measure_tail_sampled(&img).unwrap();
    let r = sampled_tail_config(m, 12, 5000, "y".to_string(), CapShape::Ball);
    assert_eq!(
        r.warnings,
        vec![
            "未检测到左右边距，使用默认值 0".to_string(),
            "未检测到投的长度，使用默认值 0".to_string(),
            "未检测到边框".to_string(),
            "未检测到 cap，使用默认矩形，缩放100%".to_string(),
        ]
    );
}

#[test]
fn content_width_and_shaped_scale() {
    let b = BodyRegion { y_start: 0, y_end: 10, x_start: 10, x_end: 30 };
    assert_eq!(inner_width(&b, true, 3), 14);
    assert_eq!(inner_width(&b, true, 11), 0);
    assert_eq!(inner_width(&b, false, 3), 20);
    assert_eq!(shaped_cap_scale(CapShape::Rect, 40, 200), 100);
    assert_eq!(shaped_cap_scale(CapShape::Gradient, 40, 200), 40);
}
