use tail_maker::image::Image;
use tail_maker::image_utils::find_bounding_box;
use tail_maker::keyd_repair::repair_key_image;
use tail_maker::tail_repair::{repair_tail_image, TAIL_TARGET_HEIGHT};
use tail_maker::throw_length::{find_throw_length, modify_throw_length};

fn filled_rect(w: u32, h: u32, x0: u32, y0: u32, x1: u32, y1: u32, p: [u8; 4]) -> Image {
    let mut img = Image::new(w, h);
    for y in y0..y1 {
        for x in x0..x1 {
            img.put_pixel(x, y, p);
        }
    }
    img
}

#[test]
fn test_enlarge() {
    let img = filled_rect(50, 50, 10, 20, 40, 45, [255, 0, 0, 255]);
    let result = repair_key_image(&img, 40, false);
    assert_eq!(result.width(), 64);
    assert_eq!(result.height(), 37);
    let bbox = find_bounding_box(&result).unwrap();
    assert_eq!(bbox.0, 10, "pad_left 应保持 10");
    assert!(bbox.2 - bbox.0 >= 36 && bbox.2 - bbox.0 <= 40);
    assert_eq!(result.height() - bbox.3, 5, "pad_bottom 应保持 5");
}

#[test]
fn test_shrink() {
    let img = filled_rect(100, 100, 20, 30, 80, 70, [255, 0, 0, 255]);
    let result = repair_key_image(&img, 30, false);
    assert_eq!(result.width(), 48);
    assert_eq!(result.height(), 49);
    let bbox = find_bounding_box(&result).unwrap();
    assert_eq!(bbox.0, 20, "pad_left 应保持 20");
    assert!(bbox.2 - bbox.0 >= 27 && bbox.2 - bbox.0 <= 29);
    assert_eq!(result.height() - bbox.3, 30, "pad_bottom 应保持 30");
}

#[test]
fn test_enlarge_no_top_padding() {
    let img = filled_rect(50, 100, 0, 0, 40, 90, [255, 0, 0, 255]);
    let result = repair_key_image(&img, 40, false);
    assert_eq!(result.width(), 64);
    assert_eq!(result.height(), 125);
    let bbox = find_bounding_box(&result).unwrap();
    assert_eq!(bbox.0, 0, "pad_left 应保持 0");
    assert_eq!(bbox.1, 0, "元素应从顶部开始");
    assert_eq!(result.height() - bbox.3, 10, "pad_bottom 应保持 10");
}

#[test]
fn test_transparent() {
    let img = Image::new(50, 50);
    let result = repair_key_image(&img, 40, false);
    assert_eq!(result.width(), 64);
    assert_eq!(result.height(), 50);
}

#[test]
fn test_2x_enlarge() {
    let img = filled_rect(50, 50, 10, 20, 40, 45, [255, 0, 0, 255]);
    let result = repair_key_image(&img, 40, true);
    assert_eq!(result.width(), 128);
    assert_eq!(result.height(), 69);
    let bbox = find_bounding_box(&result).unwrap();
    assert_eq!(bbox.0, 10, "pad_left 应保持 10");
    assert!(bbox.2 - bbox.0 >= 74 && bbox.2 - bbox.0 <= 80);
    assert_eq!(result.height() - bbox.3, 5, "pad_bottom 应保持 5");
}

#[test]
fn test_repair_small_image() {
    let img = Image::from_pixel(100, 200, [128, 128, 128, 255]);
    let result = repair_tail_image(&img, 60);
    assert_eq!(result.width(), 96);
    assert_eq!(result.height(), TAIL_TARGET_HEIGHT);
}

#[test]
fn test_repair_height_exactly_32800() {
    let img = Image::from_pixel(100, 20000, [128, 128, 128, 255]);
    let result = repair_tail_image(&img, 63);
    assert_eq!(result.height(), TAIL_TARGET_HEIGHT);
}

#[test]
fn test_find_throw_length() {
    let mut img = Image::new(10, 50);
    img.put_pixel(5, 20, [255, 0, 0, 255]);
    assert_eq!(find_throw_length(&img), 20);

    let transparent = Image::new(10, 50);
    assert_eq!(find_throw_length(&transparent), 50);
}

#[test]
fn test_increase_throw_length() {
    let img = filled_rect(10, 30, 0, 10, 10, 30, [128, 128, 128, 255]);
    let result = modify_throw_length(&img, 15);
    assert_eq!(result.dimensions(), (10, 30));
    assert_eq!(find_throw_length(&result), 15);
}

#[test]
fn test_decrease_throw_length() {
    let img = filled_rect(10, 30, 0, 10, 10, 30, [128, 128, 128, 255]);
    let result = modify_throw_length(&img, 5);
    assert_eq!(result.dimensions(), (10, 30));
    assert_eq!(find_throw_length(&result), 5);
}

#[test]
fn test_decrease_tiles_from_bottom_not_top() {
    let mut img = Image::new(5, 20);
    for y in 5..10 {
        for x in 0..5 {
            img.put_pixel(x, y, [100, 0, 0, 255]);
        }
    }
    for y in 10..20 {
        for x in 0..5 {
            img.put_pixel(x, y, [200, 0, 0, 255]);
        }
    }
    assert_eq!(find_throw_length(&img), 5);
    let result = modify_throw_length(&img, 0);
    assert_eq!(find_throw_length(&result), 0);
    let bottom_pixel = result.get_pixel(0, 19);
    assert_eq!(bottom_pixel[0], 200, "底部应来自原图底部（蓝色=200），而非顶部");
}

#[test]
fn key_repair_takes_the_element_size_given() {
    let mut img = Image::new(14, 14);
    for y in 0..14 {
        for x in 0..7 {
            img.put_pixel(x, y, [255, 255, 255, 255]);
        }
    }
    assert_eq!(tail_maker::keyd_repair::key_canvas_width(38, false), 61);
    assert_eq!(tail_maker::keyd_repair::element_size(&img, 61), (31, 61));
    let r = tail_maker::keyd_repair::repair_key_image_sized(&img, 38, false, 30, 60);
    assert_eq!(r.dimensions(), (61, 60));
    assert!(tail_maker::keyd_repair::can_repair_key_sized(&img, 38, false, 30, 60));
}
