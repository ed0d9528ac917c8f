use tail_maker::config::{CapShape, TailConfig};
use tail_maker::glow_grid::{build_spatial_grid, compute_geometry, glow_scan_window, scan_edge_points};
use tail_maker::image::Image;
use tail_maker::image_utils::preset_thumbnail;
use tail_maker::osk::is_scripts_entry;
use tail_maker::png_rows::{row_is_visible, row_pixels, RowLayout};
use tail_maker::render_plan::{
    draw_border_overlay, echo_cap_opacity, echo_fill_alpha, merge_beneath, render_layout, scale_alpha, RenderLayout,
};
use tail_maker::skin_files::{missing_files_report, MissingFile};
use tail_maker::skin_ini::parse_mania_sections;
use tail_maker::text::split_lines;
use tail_maker::toolbox::distinct_tail_stems;

#[test]
fn visible_rows() {
    assert!(!row_is_visible(&[9, 9, 9, 0, 7, 7, 7, 0], true, 4));
    assert!(row_is_visible(&[0, 0, 0, 0, 0, 0, 0, 1], true, 4));
    assert!(!row_is_visible(&[0, 0, 0, 5, 0, 0, 0, 5], false, 4));
    assert!(row_is_visible(&[0, 0, 0, 0, 0, 3], false, 3));
    assert!(row_is_visible(&[0, 0, 4], false, 1));
    assert!(row_is_visible(&[0, 9], true, 2));
    assert!(!row_is_visible(&[], false, 2));
}

#[test]
fn row_layouts_to_rgba() {
    assert_eq!(row_pixels(&[1, 2, 3, 4, 5, 6, 7, 8], RowLayout::Rgba, 2), vec![[1, 2, 3, 4], [5, 6, 7, 8]]);
    assert_eq!(row_pixels(&[1, 2, 3, 4, 5, 6], RowLayout::Rgb, 2), vec![[1, 2, 3, 255], [4, 5, 6, 255]]);
    assert_eq!(row_pixels(&[7, 8], RowLayout::GrayAlpha, 1), vec![[7, 7, 7, 8]]);
    assert_eq!(row_pixels(&[7, 8, 9], RowLayout::Gray, 2), vec![[7, 7, 7, 255], [8, 8, 8, 255]]);
}

#[test]
fn missing_files_lines() {
    assert_eq!(missing_files_report(&Vec::new()), vec!["所有图片文件均存在 ✓".to_string()]);
    let missing = vec![
        MissingFile { stem: "t".to_string(), directory: "d".to_string(), keys: vec![4, 7], image_type: "NoteImage#L".to_string() },
        MissingFile { stem: "k".to_string(), directory: "d".to_string(), keys: vec![5], image_type: "KeyImage#".to_string() },
    ];
    assert_eq!(
        missing_files_report(&missing),
        vec![
            "发现 2 个缺失文件:".to_string(),
            "  ✗ [NoteImage#L] t (引用自: 4k, 7k)".to_string(),
            "  ✗ [KeyImage#] k (引用自: 5k)".to_string(),
        ]
    );
}

#[test]
fn tail_stems_in_first_order() {
    let text = "[Mania]\nKeys: 4\nNoteImage0L: b\nNoteImage1L: a\nNoteImage2L: b\n[Mania]\nKeys: 5\nNoteImage0L: c\nNoteImage1L: a\n";
    let secs = parse_mania_sections(&split_lines(text));
    assert_eq!(distinct_tail_stems(&secs), vec!["b".to_string(), "a".to_string(), "c".to_string()]);
}

#[test]
fn layout_of_default_config() {
    let c = TailConfig::default_config();
    let l = render_layout(&c);
    let cap_h = c.cap_height();
    assert_eq!((l.w, l.h, l.left, l.right), (100, 32800, 8, 92));
    assert_eq!(l.echo_start, 100);
    assert_eq!(l.cap_h, cap_h);
    assert_eq!(l.body_start, l.cap_end);
    assert_eq!(l.cap_end, l.cap_start + cap_h);
    assert_eq!(l.body_start + l.body_h, 32800);
}

#[test]
fn layout_with_echo() {
    let mut c = TailConfig::default_config();
    c.effect.cap_echo_enabled = true;
    c.effect.echo_length = 30;
    c.cap.shape = CapShape::Rect;
    c.cap.scale = 100;
    let l = render_layout(&c);
    // content width 100 - 16 = 84, cap height 84 * 100 / 200 = 42
    assert_eq!(
        l,
        RenderLayout {
            w: 100,
            h: 32800,
            left: 8,
            right: 92,
            cap_h: 42,
            echo_enabled: true,
            echo_start: 100,
            echo_cap_end: 142,
            cap_start: 172,
            cap_end: 214,
            body_start: 214,
            body_h: 32800 - 214,
        }
    );
    c.cap.shape = CapShape::Gradient;
    let l = render_layout(&c);
    assert!(!l.echo_enabled);
    assert_eq!((l.cap_h, l.echo_cap_end, l.cap_start), (84, 100, 100));
}

#[test]
fn opacities() {
    assert_eq!(scale_alpha(255, 255), 255);
    assert_eq!(scale_alpha(200, 128), 100);
    assert_eq!(scale_alpha(10, 0), 0);
    let mut c = TailConfig::default_config();
    c.effect.echo_color.a = 255;
    c.effect.echo_opacity = 128;
    c.global_opacity = 255;
    assert_eq!(echo_fill_alpha(&c), 128);
    assert_eq!(echo_cap_opacity(&c), 128);
    c.global_opacity = 100;
    assert_eq!(echo_fill_alpha(&c), 50);
    assert_eq!(echo_cap_opacity(&c), 50);
}

#[test]
fn border_overlay_marks_the_rim() {
    // a 5 × 5 buffer with a 3 × 3 opaque square in the middle
    let mut data = vec![0u8; 5 * 5 * 4];
    for y in 1..4 {
        for x in 1..4 {
            let i = (y * 5 + x) * 4;
            data[i..i + 4].copy_from_slice(&[10, 20, 30, 200]);
        }
    }
    let mut c = TailConfig::default_config();
    c.body.border_enabled = true;
    c.body.border_width = 1;
    c.body.border_match_body = false;
    c.body.border_color.r = 1;
    c.body.border_color.g = 2;
    c.body.border_color.b = 3;
    c.body.border_opacity_independent = false;
    let original = data.clone();
    draw_border_overlay(&mut data, 5, 5, &c);
    let centre = (2 * 5 + 2) * 4;
    assert_eq!(&data[centre..centre + 4], &[10, 20, 30, 200]);
    let rim = (1 * 5 + 1) * 4;
    assert_eq!(&data[rim..rim + 4], &[1, 2, 3, 200]);
    assert_eq!(&data[0..4], &[0, 0, 0, 0]);
    c.body.border_opacity_independent = true;
    c.body.border_opacity = 77;
    let mut data2 = original.clone();
    draw_border_overlay(&mut data2, 5, 5, &c);
    assert_eq!(&data2[rim..rim + 4], &[1, 2, 3, 77]);
    c.body.border_enabled = false;
    let mut data3 = original.clone();
    draw_border_overlay(&mut data3, 5, 5, &c);
    assert_eq!(data3, original);
}

#[test]
fn layer_merged_beneath() {
    let mut main = vec![0u8; 2 * 2 * 4];
    main[0..4].copy_from_slice(&[1, 1, 1, 255]);
    let layer = vec![5u8; 2 * 2 * 4];
    merge_beneath(&mut main, &layer, 2, 2, 0, 2, 0, 1);
    assert_eq!(main, vec![1, 1, 1, 255, 5, 5, 5, 5, 0, 0, 0, 0, 0, 0, 0, 0]);
}

#[test]
fn thumbnails_keep_rows_around_the_first_visible_one() {
    let mut img = Image::new(3, 400);
    img.put_pixel(1, 100, [9, 9, 9, 255]);
    let t = preset_thumbnail(&img);
    assert_eq!((t.width(), t.height()), (3, 250));
    assert_eq!(t.get_pixel(1, 50), [9, 9, 9, 255]);
    let empty = Image::new(4, 30);
    let t = preset_thumbnail(&empty);
    assert_eq!((t.width(), t.height()), (4, 30));
}

#[test]
fn scripts_entries() {
    assert!(is_scripts_entry("scripts/tail-maker-external.exe"));
    assert!(is_scripts_entry("scripts\\presets\\a.png"));
    assert!(!is_scripts_entry("scripts"));
    assert!(!is_scripts_entry("mania/scripts/x"));
}

#[test]
fn edge_pixels_of_a_square() {
    // 4 × 4 map with a 2 × 2 visible square at (1, 1)
    let mut alpha = vec![0u8; 16];
    for (x, y) in [(1usize, 1usize), (2, 1), (1, 2), (2, 2)] {
        alpha[y * 4 + x] = 255;
    }
    assert_eq!(scan_edge_points(&alpha, 4, 4, 0, 4, 0, 4), vec![(1, 1), (2, 1), (1, 2), (2, 2)]);
    assert_eq!(scan_edge_points(&alpha, 4, 4, 2, 4, 2, 4), vec![(2, 2)]);
    // a fully visible map has no edge
    let full = vec![9u8; 9];
    assert!(scan_edge_points(&full, 3, 3, 0, 3, 0, 3).is_empty());
}

#[test]
fn grid_finds_nearby_points() {
    let points = vec![(0usize, 0usize), (9, 9), (5, 4), (6, 4)];
    let grid = build_spatial_grid(&points, 10, 10, 4);
    assert_eq!((grid.grid_width, grid.grid_height, grid.cells.len()), (3, 3, 9));
    assert_eq!(grid.cells[0], vec![0]);
    assert_eq!(grid.cells[4], vec![2, 3]);
    assert_eq!(grid.cells[8], vec![1]);
    // around (5, 5) with radius 4: cells within one cell of (1, 1)
    assert_eq!(grid.query_nearby_cells(5, 5, 4), vec![0, 1, 2, 3, 4, 5, 6, 7, 8]);
    // around (0, 0) with radius 3: the corner block
    assert_eq!(grid.query_nearby_cells(0, 0, 3), vec![0, 1, 3, 4]);
}

#[test]
fn glow_geometry_and_window() {
    let c = TailConfig::default_config();
    let g = compute_geometry(&c);
    let l = render_layout(&c);
    assert_eq!((g.body_left, g.body_right), (8, 92));
    assert_eq!(g.body_bottom, 32800);
    assert_eq!(g.cap_top, l.cap_start as usize);
    let (x0, x1, y0, y1) = glow_scan_window(&g, 10, 100, 32800);
    assert_eq!((x0, x1, y1), (0, 100, 32800));
    let top = if g.echo_enabled { g.echo_cap_top } else { g.cap_top };
    assert_eq!(y0, top - 10);
}
