use std::collections::HashMap;

use tail_maker::config::{Preset, TailConfig};
use tail_maker::osk::{archive_name, is_directory_entry, is_left_out, nested_skin_dir};
use tail_maker::preset::{builtin_presets, default_body, default_effect, merge_presets, select_presets, tail_maker_builtin_presets};
use tail_maker::preset_image::{preset_source_from, resolve_preset_source};
use tail_maker::skin_files::find_root_near;
use tail_maker::skin_ini::{parse_mania_sections, ImageRef, ManiaSection};
use tail_maker::text::split_lines;
use tail_maker::throw_info::{fresh_cache_entry, sorted_stems, throw_info_entry, TailProbe, ThrowCacheEntry};
use tail_maker::toolbox::{
    lazer_throw_display, plan_preset_replacements, plan_throw_modification, plan_throw_tasks, throw_map_from, ThrowTask,
};

const SKIN: &str = "[Mania]\nKeys: 7\nColumnWidth: 40\nNoteImage0L: t\nNoteImage3L: t\nNoteImage1L: u\n[Mania]\nKeys: 4\nColumnWidth: 30\nNoteImage1L: s\nNoteImage2L: t\n[Mania]\nKeys: 7\nColumnWidth: 50\nNoteImage5L: t\nNoteImage3L: t\n[Mania]\nKeys: 5\nColumnWidth: 40\nNoteImage0L: t\n";

fn sections() -> Vec<ManiaSection> {
    parse_mania_sections(&split_lines(SKIN))
}

#[test]
fn later_throw_pairs_win() {
    let m = throw_map_from(&[(7, 100), (4, 80), (7, 120)]);
    assert_eq!(m.len(), 2);
    assert_eq!(m.get(&7), Some(&120));
    assert_eq!(m.get(&4), Some(&80));
}

#[test]
fn throw_tasks_copy_extra_widths() {
    let throw_map = throw_map_from(&[(7, 100), (4, 80), (7, 120)]);
    let tasks = plan_throw_tasks(&sections(), &throw_map);
    let described: Vec<String> = tasks
        .iter()
        .map(|t| match t {
            ThrowTask::InPlace { stem, keys, target, column_width } => format!("in {} {} {} {}", stem, keys, target, column_width),
            ThrowTask::Copy { stem, copy_stem, keys, target, column_width, columns } => {
                format!("copy {} {} {} {} {} {:?}", stem, copy_stem, keys, target, column_width, columns)
            }
        })
        .collect();
    assert_eq!(
        described,
        vec![
            "in t 7 120 40".to_string(),
            "in u 7 120 40".to_string(),
            "in s 4 80 30".to_string(),
            "copy t t_cw30 4 80 30 [2]".to_string(),
            "copy t t_cw50 7 120 50 [5, 3]".to_string(),
        ]
    );
}

#[test]
fn no_tasks_without_targets() {
    let tasks = plan_throw_tasks(&sections(), &HashMap::new());
    assert!(tasks.is_empty());
}

#[test]
fn throw_modification_once_per_stem() {
    let throw_map = throw_map_from(&[(7, 120), (4, 80)]);
    let mut widths = HashMap::new();
    widths.insert(7u32, 45u32);
    let plan = plan_throw_modification(&sections(), &throw_map, &widths);
    assert_eq!(
        plan,
        vec![("t".to_string(), 7, 120, 45), ("u".to_string(), 7, 120, 45), ("s".to_string(), 4, 80, 30)]
    );
}

#[test]
fn lazer_throws_scale_to_32800_rows() {
    assert_eq!(lazer_throw_display(100, 16400), 200);
    assert_eq!(lazer_throw_display(7, 0), 0);
    assert_eq!(lazer_throw_display(5, 3), 54666);
}

#[test]
fn preset_replacements_first_stem_last_preset() {
    let presets = vec![
        ("t".to_string(), "A".to_string()),
        ("s".to_string(), "B".to_string()),
        ("t".to_string(), "C".to_string()),
    ];
    let plan = plan_preset_replacements(&sections(), &presets);
    assert_eq!(plan, vec![("t".to_string(), "C".to_string()), ("s".to_string(), "B".to_string())]);
    assert!(plan_preset_replacements(&sections(), &[]).is_empty());
}

fn image_ref(column: u32, name: &str) -> ImageRef {
    ImageRef { column, name: name.to_string(), line: 0 }
}

#[test]
fn stems_sorted_and_distinct() {
    let refs = vec![image_ref(0, "u"), image_ref(1, "t"), image_ref(2, "u"), image_ref(3, "a"), image_ref(4, "Z")];
    assert_eq!(sorted_stems(&refs), vec!["Z".to_string(), "a".to_string(), "t".to_string(), "u".to_string()]);
    assert!(sorted_stems(&Vec::new()).is_empty());
}

#[test]
fn throw_info_entries() {
    let missing = throw_info_entry(4, "t".to_string(), 30, TailProbe::Missing);
    assert_eq!((missing.keys, missing.stem.as_str(), missing.column_width, missing.valid, missing.is_2x), (4, "t", 0, false, false));
    let unreadable = throw_info_entry(4, "t".to_string(), 30, TailProbe::Unreadable { is_2x: true });
    assert_eq!((unreadable.column_width, unreadable.current_throw, unreadable.is_2x), (0, 0, true));
    let cached = ThrowCacheEntry { stable_throw: 11, lazer_throw: 22 };
    let probe = TailProbe::Readable { is_2x: false, valid: true, height: 900, cached: Some(cached), measured_throw: 0 };
    let e = throw_info_entry(7, "t".to_string(), 40, probe);
    assert_eq!((e.column_width, e.current_throw, e.lazer_throw, e.height, e.valid), (40, 11, 22, 900, true));
    assert_eq!(fresh_cache_entry(&probe), None);
    let probe = TailProbe::Readable { is_2x: false, valid: false, height: 10, cached: None, measured_throw: 5 };
    let e = throw_info_entry(7, "t".to_string(), 40, probe);
    assert_eq!((e.current_throw, e.lazer_throw, e.valid), (5, 0, false));
    assert_eq!(fresh_cache_entry(&probe), Some(ThrowCacheEntry { stable_throw: 5, lazer_throw: 0 }));
    assert_eq!(fresh_cache_entry(&TailProbe::Missing), None);
}

#[test]
fn archive_entry_names() {
    assert!(is_directory_entry("Skin/"));
    assert!(is_directory_entry("Skin\\"));
    assert!(!is_directory_entry("Skin/skin.ini"));
    assert!(!is_directory_entry(""));
    assert_eq!(archive_name("mania\\notes\\t.png"), "mania/notes/t.png");
    assert_eq!(archive_name("skin.ini"), "skin.ini");
    assert!(is_left_out("_backup/20240101/t.png"));
    assert!(is_left_out("_backup"));
    assert!(!is_left_out("_backu"));
    assert!(!is_left_out("mania/_backup"));
}

#[test]
fn nested_skin_directory() {
    let entries = vec![("_tmp".to_string(), true), ("My Skin".to_string(), true), ("readme.txt".to_string(), false)];
    assert_eq!(nested_skin_dir(&entries), Some(1));
    let two = vec![("a".to_string(), true), ("b".to_string(), true)];
    assert_eq!(nested_skin_dir(&two), None);
    assert_eq!(nested_skin_dir(&Vec::new()), None);
}

fn user_preset(name: &str) -> Preset {
    Preset { name: name.to_string(), config: TailConfig::default_config(), builtin: false }
}

#[test]
fn presets_merged_and_selected() {
    let builtin = builtin_presets();
    let n = builtin.len();
    let first = builtin[0].name.clone();
    let all = merge_presets(builtin, vec![user_preset(&first), user_preset("mine")]);
    assert_eq!(all.len(), n + 1);
    assert!(all[0].builtin);
    assert_eq!(all[n].name, "mine");
    assert!(!all[n].builtin);
    let chosen = select_presets(all, &vec!["mine".to_string(), first.clone(), "absent".to_string()]);
    let names: Vec<&str> = chosen.iter().map(|p| p.name.as_str()).collect();
    assert_eq!(names, vec![first.as_str(), "mine"]);
}

#[test]
fn unresolved_preset_keeps_its_name() {
    assert_eq!(resolve_preset_source("/nonexistent-skin-dir", "Pink Ball"), "Pink Ball");
}

#[test]
fn standard_presets_listed() {
    let v = tail_maker_builtin_presets();
    let names: Vec<&str> = v.iter().map(|p| p.name.as_str()).collect();
    assert_eq!(names, vec!["球皮-标准", "菱形-标准", "渐变-标准", "渐变-边框", "球皮-暗化"]);
    assert!(v.iter().all(|p| p.builtin && p.config.margin == 8 && p.config.image.width == 100));
    assert_eq!(v[1].config.global_opacity, 179);
    assert_eq!(v[2].config.cap.scale, 150);
    assert!(v[3].config.body.border_enabled);
    assert_eq!(v[3].config.body.border_width, 5);
    assert_eq!(v[4].config.throw_length, 2);
    assert!(v[4].config.effect.cap_echo_enabled);
    assert_eq!(v[4].config.effect.echo_color.r, 193);
    let b = default_body();
    assert!(!b.border_enabled);
    assert_eq!(b.border_width, 1);
    let e = default_effect(v[0].config.global_color);
    assert_eq!((e.echo_opacity, e.echo_length, e.glow_opacity), (76, 50, 180));
}

#[test]
fn preset_source_is_first_hit_or_name() {
    let paths = vec!["a/presets/p.png".to_string(), "a/p.png".to_string(), "a/presets/p.jpg".to_string()];
    assert_eq!(preset_source_from("p", &paths, &vec![false, true]), "a/p.png");
    assert_eq!(preset_source_from("p", &paths, &vec![false, false, false]), "p");
    assert_eq!(preset_source_from("p", &paths, &vec![]), "p");
}

#[test]
fn distinct_names_keep_first_order() {
    let names: Vec<String> = ["b", "a", "b", "c", "a"].iter().map(|s| s.to_string()).collect();
    assert_eq!(tail_maker::toolbox::distinct_names(&names), vec!["b".to_string(), "a".to_string(), "c".to_string()]);
}

#[test]
fn no_root_near_a_missing_directory() {
    assert_eq!(find_root_near("/nonexistent-dir-for-test/sub", "skin.ini"), None);
}
