use tail_maker::ini_patches::{apply_key_ini_patches, apply_tail_ini_patches};
use tail_maker::ini_update::{update_key_image_in_ini, update_note_image_l_in_ini};
use tail_maker::key_finder::{find_keys_in_text, parse_mania_key_configs};
use tail_maker::skin_files::{
    directory_if_found, find_image_file, first_found, image_file_candidates, parse_skin_ini_text,
    record_if_missing, record_missing, search_directory, validate_skin_files, MissingFile,
};
use tail_maker::skin_ini::{
    count_leading_digits, group_key_image_d_by_stem, group_key_images_by_stem,
    group_note_image_l_by_stem, parse_mania_sections, sections_scan_is_safe, try_parse_key,
    unique_key_image_d_stems, unique_key_image_stems, unique_note_image_l_stems,
};
use tail_maker::text::split_lines;

const SKIN: &str = "[General]\nName: test\n\n[Mania]\nKeys: 4\nColumnWidth: 30,30,30,30\nKeyImage0: key1\nKeyImage0D: keyd1\nNoteImage0L: tail\nNoteImage1L: tail\n\n[Mania]\nkeys: 7\nColumnWidth: 40\nKeyImage2D : keyd1\nkeyimage3: key2\nNoteImage3L: tail2\n[Colours]\nKeys: 9\n";

fn sections() -> Vec<tail_maker::skin_ini::ManiaSection> {
    let lines = split_lines(SKIN);
    assert!(sections_scan_is_safe(&lines));
    parse_mania_sections(&lines)
}

#[test]
fn parses_mania_sections() {
    let secs = sections();
    assert_eq!(secs.len(), 2);
    assert_eq!(secs[0].keys, 4);
    assert_eq!(secs[0].column_width, 30);
    assert_eq!(secs[0].line_start, 3);
    assert_eq!(secs[0].line_end, 11);
    assert_eq!(secs[0].key_images.len(), 1);
    assert_eq!(secs[0].key_images[0].name, "key1");
    assert_eq!(secs[0].key_image_ds[0].name, "keyd1");
    assert_eq!(secs[0].note_image_ls.len(), 2);
    assert_eq!(secs[0].note_image_ls[1].column, 1);
    assert_eq!(secs[0].note_image_ls[1].line, 9);
    assert_eq!(secs[1].keys, 7);
    assert_eq!(secs[1].column_width, 40);
    assert_eq!(secs[1].key_image_ds[0].column, 2);
    assert_eq!(secs[1].key_images[0].name, "key2");
    assert_eq!(secs[1].line_end, 17);
}

#[test]
fn section_without_keys_is_dropped() {
    let lines = split_lines("[Mania]\nColumnWidth: 20\nNoteImage0L: x\n[Mania]\nKeys: 5\n");
    let secs = parse_mania_sections(&lines);
    assert_eq!(secs.len(), 1);
    assert_eq!(secs[0].keys, 5);
    assert_eq!(secs[0].column_width, 0);
    // references of a section without `Keys` end with that section
    assert!(secs[0].note_image_ls.is_empty());
}

#[test]
fn detects_the_slicing_input() {
    let lines = split_lines("[Mania]\nKeyImage1é: x\n");
    assert!(!sections_scan_is_safe(&lines));
    assert!(parse_skin_ini_text("skin/skin.ini", "[Mania]\nKeyImage1é: x\n").is_none());
}

#[test]
fn parses_skin_ini_text() {
    let ini = parse_skin_ini_text("skins/a/skin.ini", SKIN).unwrap();
    assert_eq!(ini.mania_sections.len(), 2);
    assert_eq!(ini.path, "skins/a/skin.ini");
    assert_eq!(ini.directory, "skins/a");
}

#[test]
fn reads_keys_and_digits() {
    assert_eq!(try_parse_key("  keys: 7 ", "Keys:"), None);
    assert_eq!(try_parse_key("keys: 7 ", "Keys:"), Some("7"));
    assert_eq!(try_parse_key("ColumnWidth:", "ColumnWidth:"), Some(""));
    assert_eq!(count_leading_digits("123abc"), 3);
    assert_eq!(count_leading_digits("x1"), 0);
}

#[test]
fn unique_stems_keep_first_occurrence() {
    let secs = sections();
    assert_eq!(unique_note_image_l_stems(&secs), vec!["tail".to_string(), "tail2".to_string()]);
    assert_eq!(unique_key_image_d_stems(&secs), vec!["keyd1".to_string()]);
    assert_eq!(unique_key_image_stems(&secs), vec!["key1".to_string(), "key2".to_string()]);
}

#[test]
fn groups_by_stem() {
    let secs = sections();
    let g = group_note_image_l_by_stem(&secs);
    assert_eq!(g, vec![("tail".to_string(), vec![(4, 30)]), ("tail2".to_string(), vec![(7, 40)])]);
    let d = group_key_image_d_by_stem(&secs);
    assert_eq!(d, vec![("keyd1".to_string(), vec![(4, 30), (7, 40)])]);
    let all = group_key_images_by_stem(&secs);
    assert_eq!(all.len(), 3);
    assert_eq!(all[0], ("keyd1".to_string(), vec![(4, 30), (7, 40)]));
    assert_eq!(all[1], ("key1".to_string(), vec![(4, 30)]));
    assert_eq!(all[2], ("key2".to_string(), vec![(7, 40)]));
}

#[test]
fn finds_key_counts() {
    let configs = parse_mania_key_configs(SKIN);
    assert_eq!(configs.len(), 2);
    assert_eq!(configs[0].keys, 4);
    assert_eq!(configs[0].line_start, 3);
    assert_eq!(configs[1].keys, 7);
    let r = find_keys_in_text("[Mania]\nKeys: 7\n[Mania]\nKeys: 4\n[Mania]\nKeys: 7\n");
    assert!(r.success);
    assert_eq!(r.keys, vec![4, 7]);
    assert_eq!(r.configs.len(), 3);
    assert_eq!(r.message, "找到 3 个 [Mania] 配置");
}

#[test]
fn rewrites_note_image_entry() {
    let r = update_note_image_l_in_ini("[Mania]\r\nKeys: 4\r\nNoteImage1L: old\r\n", 4, 1, "new").unwrap();
    assert_eq!(r, "[Mania]\nKeys: 4\nNoteImage1L: new");
    let e = update_note_image_l_in_ini("[Mania]\nKeys: 4\nNoteImage1L: old\n", 7, 1, "new");
    assert_eq!(e, Err("未在 7k 小节中找到 NoteImage1L 行".to_string()));
}

#[test]
fn rewrites_key_image_entries() {
    let text = "[Mania]\nKeys: 4\nKeyImage0: a\nKeyImage0D: b\n";
    assert_eq!(
        update_key_image_in_ini(text, 4, 0, false, "x").unwrap(),
        "[Mania]\nKeys: 4\nKeyImage0: x\nKeyImage0D: b"
    );
    assert_eq!(
        update_key_image_in_ini(text, 4, 0, true, "y").unwrap(),
        "[Mania]\nKeys: 4\nKeyImage0: a\nKeyImage0D: y"
    );
    assert_eq!(
        update_key_image_in_ini(text, 4, 5, true, "y"),
        Err("未在 4k 小节中找到 KeyImage#D5 行".to_string())
    );
}

#[test]
fn applies_tail_patches_and_reports() {
    let text = "[Mania]\nKeys: 7\nNoteImage0L: t\nNoteImage2L: t\n[Mania]\nKeys: 4\nNoteImage0L: t\n";
    let patches = vec![
        (7, 2, "t_cw40".to_string()),
        (4, 0, "t_cw40".to_string()),
        (5, 0, "t_cw50".to_string()),
        (7, 0, "t_cw40".to_string()),
    ];
    let (new_text, log) = apply_tail_ini_patches(text, &patches);
    assert_eq!(
        new_text,
        "[Mania]\nKeys: 7\nNoteImage0L: t_cw40\nNoteImage2L: t_cw40\n[Mania]\nKeys: 4\nNoteImage0L: t_cw40"
    );
    assert_eq!(
        log,
        vec![
            "⚠ 未在 5k 小节中找到 NoteImage0L 行".to_string(),
            "  已更新 4,7k [2,0,0] → t_cw40".to_string(),
        ]
    );
}

#[test]
fn applies_key_patches_and_reports() {
    let text = "[Mania]\nKeys: 4\nKeyImage0: k\nKeyImage1D: k\n";
    let patches = vec![(4, 1, true, "k_cw9".to_string()), (4, 0, false, "k_cw9".to_string())];
    let (new_text, log) = apply_key_ini_patches(text, &patches);
    assert_eq!(new_text, "[Mania]\nKeys: 4\nKeyImage0: k_cw9\nKeyImage1D: k_cw9");
    assert_eq!(log, vec!["  已更新 4k Key[0] KeyD[1] → k_cw9".to_string()]);
}

#[test]
fn lists_image_candidates() {
    assert_eq!(
        image_file_candidates("a"),
        vec!["a", "a@2x.png", "a@2x.jpg", "a@2x.jpeg", "a.png", "a.jpg", "a.jpeg"]
    );
    assert_eq!(find_image_file("/nonexistent-dir-for-test", "a"), None);
    assert_eq!(search_directory("/nonexistent-dir-for-test", "skin.ini"), None);
}

#[test]
fn merges_missing_files() {
    let mut missing: Vec<MissingFile> = Vec::new();
    record_missing(&mut missing, "a", "d", 4, "NoteImage#L");
    record_missing(&mut missing, "a", "d", 7, "NoteImage#L");
    record_missing(&mut missing, "a", "d", 4, "NoteImage#L");
    record_missing(&mut missing, "a", "d", 4, "KeyImage#");
    assert_eq!(missing.len(), 2);
    assert_eq!(missing[0].keys, vec![4, 7]);
    assert_eq!(missing[1].image_type, "KeyImage#");
    assert_eq!(missing[1].keys, vec![4]);
}

#[test]
fn directory_follows_the_answer() {
    assert_eq!(directory_if_found("skins/a", true), Some("skins/a".to_string()));
    assert_eq!(directory_if_found("skins/a", false), None);
}

#[test]
fn first_found_takes_the_earliest_hit() {
    let paths = vec!["p0".to_string(), "p1".to_string(), "p2".to_string()];
    assert_eq!(first_found(&paths, &vec![false, true, true]), Some("p1".to_string()));
    assert_eq!(first_found(&paths, &vec![true]), Some("p0".to_string()));
    assert_eq!(first_found(&paths, &vec![false, false, false]), None);
    assert_eq!(first_found(&paths, &vec![]), None);
    assert_eq!(first_found(&paths, &vec![false, false, false, true]), None);
}

#[test]
fn records_only_what_was_not_found() {
    let mut missing: Vec<MissingFile> = Vec::new();
    record_if_missing(&mut missing, true, "a", "d", 4, "NoteImage#L");
    assert!(missing.is_empty());
    record_if_missing(&mut missing, false, "a", "d", 4, "NoteImage#L");
    record_if_missing(&mut missing, false, "a", "d", 7, "NoteImage#L");
    assert_eq!(missing.len(), 1);
    assert_eq!(missing[0].stem, "a");
    assert_eq!(missing[0].directory, "d");
    assert_eq!(missing[0].keys, vec![4, 7]);
}

#[test]
fn validation_lists_missing_images_in_probe_order() {
    let ini = parse_skin_ini_text("/nonexistent-dir-for-test/skin.ini", SKIN).unwrap();
    let missing = validate_skin_files(&ini);
    let seen: Vec<(String, String, Vec<u32>)> =
        missing.iter().map(|m| (m.stem.clone(), m.image_type.clone(), m.keys.clone())).collect();
    assert_eq!(
        seen,
        vec![
            ("tail".to_string(), "NoteImage#L".to_string(), vec![4]),
            ("keyd1".to_string(), "KeyImage#D".to_string(), vec![4, 7]),
            ("key1".to_string(), "KeyImage#".to_string(), vec![4]),
            ("tail2".to_string(), "NoteImage#L".to_string(), vec![7]),
            ("key2".to_string(), "KeyImage#".to_string(), vec![7]),
        ]
    );
    assert!(missing.iter().all(|m| m.directory == ini.directory));
}

#[test]
fn kelvin_sign_lowercases_to_k() {
    let lines = split_lines("[Mania]\nKeys: 4\n\u{212A}eyImage0: foo\nKeyImage1\u{212A}: bar\n");
    assert!(sections_scan_is_safe(&lines));
    let secs = parse_mania_sections(&lines);
    assert_eq!(secs.len(), 1);
    assert_eq!(secs[0].key_images.len(), 1);
    assert_eq!(secs[0].key_images[0].name, "foo");
    assert_eq!(secs[0].key_images[0].column, 0);
}

#[test]
fn kelvin_keys_line_reads_no_number() {
    let lines = split_lines("[Mania]\nKeys: 4\n\u{212A}eys: 7\n");
    assert!(parse_mania_sections(&lines).is_empty());
    assert_eq!(try_parse_key("\u{212A}eys: 7", "Keys:"), Some("s: 7"));
}
