use base64::Engine;
use tail_maker::backup::backup_timestamp;
use tail_maker::image::Image;
use tail_maker::image_utils::scale_to_width;
use tail_maker::lazer_plan::{copy_patches, copy_stem, select_key_groups, select_key_groups_by_stems, unique_column_widths};
use tail_maker::preset_image::{decode_data_url, find_preset_image_file};
use tail_maker::skin_ini::{group_key_images_by_stem, parse_mania_sections, ManiaSection};
use tail_maker::text::split_lines;
use tail_maker::throw_info::{get_image_key_info, get_keyd_list};

const SKIN: &str = "[Mania]\nKeys: 7\nColumnWidth: 40\nKeyImage0: b\nKeyImage1: a\nKeyImage0D: a\nNoteImage0L: t\nNoteImage3L: t\n[Mania]\nKeys: 4\nColumnWidth: 30\nKeyImage2: a\nNoteImage1L: s\nNoteImage2L: t\n[Mania]\nKeys: 7\nColumnWidth: 50\nNoteImage5L: t\nNoteImage3L: t\n";

fn sections() -> Vec<ManiaSection> {
    parse_mania_sections(&split_lines(SKIN))
}

#[test]
fn keyd_listing_sorted_by_stem() {
    let list = get_keyd_list(&sections());
    let stems: Vec<&str> = list.iter().map(|e| e.stem.as_str()).collect();
    assert_eq!(stems, vec!["a", "b"]);
    assert_eq!(list[0].as_key, vec![4, 7]);
    assert_eq!(list[0].as_keyd, vec![7]);
    assert_eq!(list[1].as_key, vec![7]);
    assert!(list[1].as_keyd.is_empty());
}

#[test]
fn image_key_listing_merges_columns() {
    let list = get_image_key_info("/nonexistent-skin", &sections());
    let stems: Vec<&str> = list.iter().map(|e| e.stem.as_str()).collect();
    assert_eq!(stems, vec!["s", "t"]);
    assert_eq!(list[0].image_path, "");
    assert_eq!(list[0].used_by.len(), 1);
    assert_eq!(list[0].used_by[0].keys, 4);
    assert_eq!(list[0].used_by[0].columns, vec![1]);
    let t = &list[1];
    assert_eq!(t.used_by.len(), 2);
    assert_eq!(t.used_by[0].keys, 4);
    assert_eq!(t.used_by[0].columns, vec![2]);
    assert_eq!(t.used_by[1].keys, 7);
    assert_eq!(t.used_by[1].columns, vec![0, 3, 5]);
}

#[test]
fn copies_and_their_entries() {
    let secs = sections();
    assert_eq!(unique_column_widths(&[(7, 50), (4, 30), (7, 40), (9, 30)]), vec![30, 40, 50]);
    let copy = copy_stem("t", 50);
    assert_eq!(copy, "t_cw50");
    let tail = copy_patches(&[(4, 30), (7, 40), (7, 50)], &secs, &"t".to_string(), 50, &copy, true);
    assert_eq!(
        tail,
        vec![(7, 5, false, "t_cw50".to_string()), (7, 3, false, "t_cw50".to_string())]
    );
    let key = copy_patches(&[(7, 40)], &secs, &"a".to_string(), 40, &"a_cw40".to_string(), false);
    assert_eq!(
        key,
        vec![(7, 0, true, "a_cw40".to_string()), (7, 1, false, "a_cw40".to_string())]
    );
}

#[test]
fn key_groups_by_mode_and_stem() {
    let secs = sections();
    let groups = group_key_images_by_stem(&secs);
    let names = |g: &Vec<(String, Vec<(u32, u32)>)>| g.iter().map(|x| x.0.clone()).collect::<Vec<_>>();
    assert_eq!(names(&groups), vec!["a", "b"]);
    assert_eq!(names(&select_key_groups(groups.clone(), &secs, "all")), vec!["a", "b"]);
    assert_eq!(names(&select_key_groups(groups.clone(), &secs, "keyd")), vec!["a"]);
    assert_eq!(names(&select_key_groups(groups.clone(), &secs, "key")), vec!["a", "b"]);
    assert!(select_key_groups(groups.clone(), &secs, "other").is_empty());
    assert_eq!(names(&select_key_groups_by_stems(groups, &vec!["b".to_string()])), vec!["b"]);
}

#[test]
fn decodes_data_urls() {
    let mut png = image::RgbaImage::new(2, 1);
    png.put_pixel(1, 0, image::Rgba([1, 2, 3, 4]));
    let mut bytes: Vec<u8> = Vec::new();
    png.write_to(&mut std::io::Cursor::new(&mut bytes), image::ImageFormat::Png).unwrap();
    let url = format!("data:image/png;base64,{}", base64::engine::general_purpose::STANDARD.encode(&bytes));
    let img = decode_data_url(&url).unwrap();
    assert_eq!(img.dimensions(), (2, 1));
    assert_eq!(img.get_pixel(1, 0), [1, 2, 3, 4]);
    assert_eq!(decode_data_url("no comma").unwrap_err(), "无效的 data URL");
    assert!(decode_data_url("data:x,@@@").unwrap_err().starts_with("base64 解码失败: "));
    assert!(decode_data_url("data:x,AAAA").unwrap_err().starts_with("图片解码失败: "));
    assert_eq!(find_preset_image_file("/nonexistent-skin", "p"), None);
}

#[test]
fn scaling_changes_the_size() {
    let img = Image::from_pixel(10, 20, [5, 5, 5, 255]);
    let s = scale_to_width(&img, 5);
    assert_eq!(s.dimensions(), (5, 10));
    assert_eq!(s.get_pixel(2, 5), [5, 5, 5, 255]);
    let same = scale_to_width(&img, 10);
    assert_eq!(same.dimensions(), (10, 20));
    assert_eq!(scale_to_width(&Image::new(0, 3), 4).dimensions(), (1, 1));
}

#[test]
fn backup_names_have_the_timestamp_shape() {
    let ts = backup_timestamp();
    assert_eq!(ts.len(), 19);
    let b = ts.as_bytes();
    assert_eq!((b[4], b[7], b[10], b[13], b[16]), (b'-', b'-', b'_', b'-', b'-'));
}
