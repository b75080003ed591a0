//! The standalone picker: widths, theme, keys, geometry, pane and frames.

use lusty::listing::{has_exec_bit, Entry, FileKind, Options};
use lusty::score::Score;
use lusty::serve::{Pane, Sorting};
use lusty::tui::app::App;
use lusty::tui::draw::{prompt, Decor};
use lusty::tui::geometry::terminal_size;
use lusty::tui::highlight::query_match;
use lusty::tui::icons::{icon_exts, icon_for, ICON_DIR, ICON_FILE, ICON_LINK};
use lusty::tui::keys::{Key, Reaction};
use lusty::tui::normalize_query_char;
use lusty::tui::pane::{pane_rows, render_key, PaneEvent, Stamp};
use lusty::tui::path::parent_of;
use lusty::tui::probe::{parse_dsr, probe_is_over, read_probe, PROBE};
use lusty::tui::settings::{
    env_usize, history_file, history_text, icons_enabled, kitty_enabled, stored_query,
};
use lusty::tui::theme::{
    colour_cuts_a_char, has_whole_colours, hex3, parse_settings, sel_style, theme_default,
    theme_path, theme_with, Rgb, Theme,
};
use lusty::tui::width::{ansi_pad, char_width, str_width};

fn score_of(x: f64) -> Score {
    Score::from_bits(x.to_bits()).unwrap()
}

fn plain(label: &str, query: &str) -> Score {
    if label.to_lowercase().contains(&query.to_lowercase()) {
        score_of(0.5)
    } else {
        score_of(0.0)
    }
}

fn entry(rel: &str, kind: FileKind) -> Entry {
    let basename = rel.rsplit('/').next().unwrap().to_string();
    Entry {
        label: rel.to_string(),
        raw_basename: basename.as_bytes().to_vec(),
        path: format!("/r/{rel}").into_bytes(),
        name0: basename.as_bytes()[0].to_ascii_lowercase(),
        depth: rel.matches('/').count() + 1,
        basename,
        kind,
    }
}

fn options(depth: usize) -> Options {
    Options { depth, skip_dirs: vec![], follow_mounts: false, show_dots: false }
}

fn app_with(names: &[(&str, FileKind)]) -> App {
    let mut app = App::new(b"/r".to_vec(), options(1), String::new(), false, false);
    app.set_ui(Some(14), Some(80), None, None);
    app.compute_box(None);
    relist(&mut app, names);
    app
}

fn relist(app: &mut App, names: &[(&str, FileKind)]) {
    if app.needs_listing() {
        app.install_listing(names.iter().map(|(n, k)| entry(n, *k)).collect());
    }
    app.ensure_ranked(&plain);
}

fn files(n: usize) -> Vec<(String, FileKind)> {
    (0..n).map(|i| (format!("f{i:03}"), FileKind::File)).collect()
}

fn app_with_files(n: usize) -> App {
    let names = files(n);
    let refs: Vec<(&str, FileKind)> = names.iter().map(|(s, k)| (s.as_str(), *k)).collect();
    app_with(&refs)
}

#[test]
fn tui_ru_layout_maps_to_en() {
    assert_eq!(normalize_query_char('и'), Some('b'));
    assert_eq!(normalize_query_char('ю'), Some('.'));
    assert_eq!(normalize_query_char('б'), Some(','));
    assert_eq!(normalize_query_char('е'), Some('t'));
    // Uppercase RU (Shift) maps to uppercase EN.
    assert_eq!(normalize_query_char('И'), Some('B'));
    // EN letters pass through.
    assert_eq!(normalize_query_char('b'), Some('b'));
    assert_eq!(normalize_query_char('.'), Some('.'));
}

#[test]
fn tui_non_ascii_unmapped_is_dropped() {
    assert_eq!(normalize_query_char('ä'), None);
}

#[test]
fn ansi_pad_keeps_escapes() {
    let esc = char::from_u32(0x1b).unwrap();
    let mut s = format!("{}[48;2;0;95;175;1;38;2;209;229;255mdoc/{}[0m", esc, esc);
    let input = s.clone();
    println!("INPUT: {:?}", s);
    ansi_pad(&mut s, 22);
    println!("OUT: {:?}", s);
    println!("CHARS: {:?}", s.chars().collect::<Vec<_>>());
    assert_eq!(s, format!("{input}{}", " ".repeat(18)));
}

#[test]
fn history_round_trips_and_disables() {
    let file = "/state/history";
    assert_eq!(history_file(Some(file), None, None).as_deref(), Some(file));
    let content = history_text("sub/fi");
    assert_eq!(content, "sub/fi\n");
    assert_eq!(stored_query(Some(&content)), "sub/fi");
    // Missing file reads as an empty query.
    assert_eq!(stored_query(None), "");
    assert_eq!(stored_query(Some("")), "");
    // "0" disables the feature entirely.
    assert_eq!(history_file(Some("0"), Some("/x"), Some("/h")), None);
    assert_eq!(history_file(Some(" OFF "), Some("/x"), Some("/h")), None);
}

#[test]
fn history_falls_back_to_the_state_directory() {
    let some = |s: &str| Some(s.to_string());
    assert_eq!(history_file(None, Some("/x"), Some("/h")), some("/x/lusty/history"));
    assert_eq!(history_file(Some("  "), None, Some("/h")), some("/h/.local/state/lusty/history"));
    assert_eq!(history_file(None, Some("/x/"), None), some("/x/lusty/history"));
    assert_eq!(history_file(None, Some(""), None), some("lusty/history"));
    assert_eq!(history_file(None, None, None), None);
    assert_eq!(stored_query(Some("a\r\nb\n")), "a");
}

#[test]
fn async_preview_installs_a_pane() {
    let mut app = app_with(&[("note.txt", FileKind::File)]);
    app.preview_on = true;
    assert!(!app.ranked.is_empty(), "fixture listed");
    app.selected = 0;
    assert_eq!(app.preview_target(), Some(&b"/r/note.txt".to_vec()));
    let stamp = Some(Stamp { size: 20, mtime: -1, mtime_nsec: 5 });
    let job = app.refresh_pane(stamp).expect("render to start");
    assert!(app.rendering, "render spawned on a worker thread");
    assert_eq!(job.key, "/r/note.txt|26|11|false|20.-1.5");
    assert_eq!((job.path.as_slice(), job.is_dir), (&b"/r/note.txt"[..], false));
    assert_eq!((job.width, job.rows, job.kitty), (26, 11, false));
    // The same render is in flight.
    assert!(app.refresh_pane(stamp).is_none());
    assert!(!app.poll_pane(PaneEvent::Pending));
    assert!(app.rendering);

    let pane = Pane { dim: true, lines: vec!["hello async preview".to_string()] };
    let landed = app.poll_pane(PaneEvent::Ready { key: job.key, pane, kitty: None });
    assert!(landed, "preview result picked up");
    assert!(
        app.pane.iter().any(|l| l.contains("hello async preview")),
        "pane shows the file content: {:?}",
        app.pane
    );
    assert_eq!(app.pane.len(), 11);
    assert_eq!(app.pane[0], "\u{1b}[38;2;140;150;165mhello async preview       ");
    assert_eq!(app.pane[1], " ".repeat(26));
    assert_eq!(app.pane_kind, 1);
    // Another stamp asks for another render.
    assert!(app.refresh_pane(None).is_some());
}

#[test]
fn stale_renders_are_dropped() {
    let mut app = app_with(&[("a", FileKind::File), ("b", FileKind::File)]);
    app.preview_on = true;
    let first = app.refresh_pane(None).unwrap();
    app.move_sel(1);
    let second = app.refresh_pane(None).unwrap();
    assert_ne!(first.key, second.key);
    let pane = Pane { dim: false, lines: vec!["x".to_string()] };
    assert!(!app.poll_pane(PaneEvent::Ready { key: first.key, pane, kitty: None }));
    assert!(!app.rendering);
    assert!(app.pane.is_empty());
    app.pane_key = None;
    assert!(app.refresh_pane(None).is_some());
    assert!(!app.poll_pane(PaneEvent::Gone));
    assert!(!app.rendering);
}

#[test]
fn clear_pane_drops_the_pending_render() {
    let mut app = app_with(&[("note.txt", FileKind::File)]);
    app.preview_on = true;
    let job = app.refresh_pane(None).unwrap();
    app.clear_pane();
    assert!(!app.rendering, "receiver dropped");
    assert!(app.pane_key.is_none(), "key dropped");
    let pane = Pane { dim: false, lines: vec![] };
    let late = PaneEvent::Ready { key: job.key, pane, kitty: None };
    assert!(!app.poll_pane(late), "nothing to install");
}

#[test]
fn render_keys_tell_stamps_apart() {
    assert_eq!(render_key("/a", 1, 2, true, None), "/a|1|2|true|?");
    let s = |nsec: i64| Some(Stamp { size: 3, mtime: 4, mtime_nsec: nsec });
    assert_ne!(render_key("/a", 1, 2, false, s(0)), render_key("/a", 1, 2, false, s(1)));
}

#[test]
fn a_pane_is_clipped_to_its_rows() {
    let pane = Pane { dim: false, lines: vec!["abcdef".to_string(), "中中".to_string()] };
    assert_eq!(pane_rows(&pane, 3, 3), vec!["abc", "中 ", "   "]);
    assert_eq!(pane_rows(&pane, 3, 1), vec!["abc"]);
}

#[test]
fn kitty_env_override() {
    assert!(!kitty_enabled(Some("0"), true, Some("xterm-kitty")), "explicit off");
    assert!(kitty_enabled(Some("1"), false, None), "explicit on");
    assert!(kitty_enabled(Some("TRUE"), false, None));
    assert!(kitty_enabled(None, true, None));
    assert!(kitty_enabled(None, false, Some("xterm-kitty")));
    assert!(!kitty_enabled(None, false, Some("xterm")));
    assert!(!kitty_enabled(None, false, None));
}

#[test]
fn variables_with_numbers() {
    assert_eq!(env_usize(Some(" 42\n")), Some(42));
    assert_eq!(env_usize(Some("4 2")), None);
    assert_eq!(env_usize(Some("-1")), None);
    assert_eq!(env_usize(Some("18446744073709551616")), None);
    assert_eq!(env_usize(None), None);
    assert!(icons_enabled(Some("1")));
    assert!(!icons_enabled(Some("true")));
    assert!(!icons_enabled(None));
}

#[test]
fn display_width_counts_cells() {
    assert_eq!(str_width("abc"), 3);
    assert_eq!(str_width("中"), 2);
    assert_eq!(str_width("中文"), 4);
    assert_eq!(str_width("e\u{301}"), 1, "combining acute is zero-width");
    assert_eq!(str_width("🙂"), 2);
    assert_eq!(char_width('\u{200d}'), 0, "zero-width joiner");
}

#[test]
fn ansi_pad_uses_cells() {
    let mut s = String::from("中中");
    ansi_pad(&mut s, 3); // 4 cells: the second wide char does not fit
    assert_eq!(s, "中 ");
    let mut s = String::from("中");
    ansi_pad(&mut s, 4);
    assert_eq!(s, "中  ");
}

#[test]
fn padding_keeps_escapes_behind_the_cut() {
    let mut s = String::from("abc\u{1b}[0md");
    ansi_pad(&mut s, 2);
    assert_eq!(s, "ab\u{1b}[0m");
    let mut s = String::from("ae\u{301}x");
    ansi_pad(&mut s, 2);
    assert_eq!(s, "ae");
    let mut s = String::from("ab");
    ansi_pad(&mut s, 0);
    assert_eq!(s, "");
}

#[test]
fn query_match_handles_non_ascii() {
    let label = "суб/файл.txt";
    let (s, e) = query_match(label, "файл").expect("match in a non-ASCII label");
    assert_eq!(&label[s..e], "файл");

    let ascii = "café.txt";
    let (s, e) = query_match(ascii, "CAF").expect("ASCII case-insensitive");
    assert_eq!(&ascii[s..e], "caf");

    assert!(query_match("a/.hidden", ".").is_none(), "dot query ignored");
    assert!(query_match("abc", "zzz").is_none());
}

#[test]
fn only_the_basename_is_highlighted() {
    assert_eq!(query_match("ab/cab", "ab"), Some((4, 6)));
    assert_eq!(query_match("ab/c", "ab"), None);
    assert_eq!(query_match("abc", ""), None);
    assert_eq!(query_match("abc", "abcd"), None);
}

#[test]
fn dsr_replies_parse() {
    let s = "\x1b[7;3R\x1b[24;80R";
    let replies: Vec<(usize, usize)> =
        s.split('R').filter_map(parse_dsr).collect();
    assert_eq!(replies, vec![(7, 3), (24, 80)]);
}

#[test]
fn the_probe_reads_cursor_and_size() {
    assert_eq!(PROBE, "\x1b[6n\x1b[9999;9999H\x1b[6n");
    assert_eq!(read_probe(b"\x1b[7;3R\x1b[24;80R"), (Some(6), Some((80, 24))));
    assert_eq!(read_probe(b"\xff\x1b[0;3R"), (Some(0), None));
    assert_eq!(read_probe(b"\x1b[x;3R"), (None, None));
    assert_eq!(read_probe(b""), (None, None));
    assert!(!probe_is_over(b"\x1b[7;3R\x1b[24"));
    assert!(probe_is_over(b"\x1b[7;3R\x1b[24;80R"));
    assert!(probe_is_over(&[b'x'; 48]));
    assert!(!probe_is_over(&[b'x'; 47]));
    assert_eq!(terminal_size(Some((3, 2)), (80, 24)), (3, 2));
    assert_eq!(terminal_size(None, (80, 24)), (80, 24));
    assert_eq!(terminal_size(None, (10, 5)), (40, 10));
}

#[test]
fn theme_files_override_the_default() {
    let content = "# c\n[lusty.selection]\nbg = \"#102030\"\nfg=\"zz\"\n bold = false\nreverse = true\n[lusty.match]\nunderline = \"false\"\nbg = \"#ffffff\"\n[other]\nbold = true\n";
    let settings = parse_settings(content);
    assert_eq!(settings.len(), 7);
    assert_eq!(settings[0].section, "lusty.selection");
    assert_eq!(settings[0].key, "bg");
    assert_eq!(settings[0].val, "#102030");
    assert!(has_whole_colours(&settings));
    let t = theme_with(&settings);
    let want = Theme {
        sel_bg: Some(Rgb { r: 0x10, g: 0x20, b: 0x30 }),
        sel_fg: None,
        sel_bold: false,
        sel_reverse: true,
        match_underline: false,
    };
    assert_eq!(t, want);
    assert_eq!(sel_style(&t), "7;48;2;16;32;48");
    assert_eq!(theme_with(&parse_settings("")), theme_default());
}

#[test]
fn colours_parse_by_pairs() {
    let rgb = |r: u8, g: u8, b: u8| Some(Rgb { r, g, b });
    assert_eq!(hex3("#005fAF"), rgb(0, 0x5f, 0xaf));
    assert_eq!(hex3("##005faf"), rgb(0, 0x5f, 0xaf));
    assert_eq!(hex3("+1+2+f"), rgb(1, 2, 15));
    assert_eq!(hex3("-1+2+f"), None);
    assert_eq!(hex3("12345"), None);
    assert_eq!(hex3("1234567"), None);
    assert_eq!(hex3("xx3456"), None);
    assert_eq!(hex3("щщщ"), None);
    assert!(!colour_cuts_a_char("щщщ"));
    assert!(colour_cuts_a_char("1щ234"));
    assert!(colour_cuts_a_char("123щ4"));
    assert!(!colour_cuts_a_char("1x3щ4"));
    let bad = parse_settings("[lusty.selection]\nfg = \"1щ234\"\n");
    assert!(!has_whole_colours(&bad));
}

#[test]
fn selection_styles() {
    assert_eq!(sel_style(&theme_default()), "1;48;2;0;95;175;38;2;209;229;255");
    let none = Theme {
        sel_bg: None,
        sel_fg: None,
        sel_bold: false,
        sel_reverse: false,
        match_underline: true,
    };
    assert_eq!(sel_style(&none), sel_style(&theme_default()));
    assert_eq!(sel_style(&Theme { sel_bold: true, ..none }), "1");
    assert_eq!(theme_path(Some("/t"), Some("/h")), "/t");
    assert_eq!(theme_path(None, Some("/h")), "/h/.config/lusty/theme.toml");
    assert_eq!(theme_path(None, None), "");
}

#[test]
fn icons_follow_kind_and_extension() {
    assert_eq!(icon_for(&entry("d.rs", FileKind::Dir)), ICON_DIR);
    assert_eq!(icon_for(&entry("l.rs", FileKind::Link)), ICON_LINK);
    assert_eq!(icon_for(&entry("x.RS", FileKind::File)), "\u{e7a8}");
    assert_eq!(icon_for(&entry("x.tar.gz", FileKind::File)), "\u{f410}");
    assert_eq!(icon_for(&entry("x.txt", FileKind::File)), ICON_FILE);
    assert_eq!(icon_exts().len(), 20);
    for (suffix, icon) in icon_exts() {
        assert_eq!(icon_for(&entry(&format!("x{suffix}"), FileKind::File)), icon);
    }
    assert!(has_exec_bit(0o100755));
    assert!(has_exec_bit(0o001));
    assert!(!has_exec_bit(0o100644));
}

#[test]
fn setters() {
    let mut app = App::new(b"/r".to_vec(), options(2), "q".to_string(), true, true);
    assert_eq!((app.query.as_str(), app.icons, app.kitty), ("q", true, true));
    assert_eq!((app.box_w, app.box_h, app.cols_mask, app.preview_w), (78, 14, 15, 40));
    app.set_columns("size, time ,,what");
    assert_eq!(app.cols_mask, 12);
    app.set_columns("perm,user,perm");
    assert_eq!(app.cols_mask, 3);
    app.set_columns("nothing");
    assert_eq!(app.cols_mask, 3);
    app.set_long(true);
    assert!(app.long);
    app.set_ui(Some(9), None, Some("7"), Some(" 50 "));
    assert_eq!((app.ui_rows, app.ui_width), (Some(9), Some(50)));
    app.set_ui(None, None, Some("x"), None);
    assert_eq!((app.ui_rows, app.ui_width), (None, None));
    app.set_sort(true, false);
    assert_eq!(app.sorting(), Sorting::Reorder { dirs_first: false, reverse: true });
    app.set_sort_mode(2);
    assert_eq!(app.sorting(), Sorting::BySize);
}

#[test]
fn the_box_stays_inside_the_terminal() {
    let mut app = App::new(b"/r".to_vec(), options(1), String::new(), false, false);
    app.size = (120, 30);
    app.compute_box(None);
    assert_eq!((app.box_h, app.box_w, app.preview_w), (14, 118, 39));
    app.set_ui(Some(500), Some(3), None, None);
    app.compute_box(Some("1000"));
    assert_eq!((app.box_h, app.box_w, app.preview_w), (30, 8, 20));
    app.set_ui(Some(2), Some(90), None, None);
    app.compute_box(Some("1000"));
    assert_eq!((app.box_h, app.box_w, app.preview_w), (5, 88, 67));
    app.size = (0, 0);
    app.compute_box(None);
    assert_eq!((app.box_h, app.box_w, app.preview_w), (1, 0, 20));
    assert_eq!(app.list_rows(), 1);
}

#[test]
fn the_popup_is_placed_under_the_command_line() {
    let mut app = App::new(b"/r".to_vec(), options(1), String::new(), false, false);
    app.size = (80, 24);
    app.compute_box(None);
    app.cursor_row = Some(3);
    assert_eq!(app.place(true), 0);
    assert_eq!(app.pop_top, 3);
    app.cursor_row = Some(20);
    assert_eq!(app.place(true), 10);
    assert_eq!(app.pop_top, 10);
    assert_eq!(app.place(false), 0);
    assert_eq!(app.pop_top, 10);
    app.cursor_row = Some(99);
    assert_eq!(app.place(true), 13);
    assert_eq!(app.pop_top, 10);
    app.cursor_row = None;
    assert_eq!(app.place(false), 0);
    assert_eq!(app.pop_top, 10);
    app.resize(60, 12, None);
    assert_eq!((app.size, app.box_h, app.pop_top), ((60, 12), 12, 0));
    app.resize(60, 50, None);
    assert_eq!((app.box_h, app.pop_top), (14, 0));
    assert_eq!(app.park_cursor(), "\u{1b}[1;1H");
}

#[test]
fn the_grid_fits_its_columns() {
    let mut app = app_with_files(100);
    assert_eq!(app.list_rows(), 11);
    // Ten columns are needed for a hundred names; eight are the most.
    assert_eq!((app.content_w(), app.max_cols(), app.col_width()), (78, 8, 8));
    app.preview_on = true;
    assert_eq!((app.content_w(), app.max_cols(), app.col_width()), (51, 6, 6));
    assert!(6 * 6 + 2 * 5 <= app.content_w());
    let small = app_with_files(12);
    assert!(2 * small.col_width() + 2 <= small.content_w());
    assert_eq!((small.max_cols(), small.col_width()), (2, 38));
    let empty = app_with_files(0);
    assert_eq!((empty.max_cols(), empty.col_width(), empty.drawn_count()), (1, 78, 0));
    assert_eq!(small.drawn_count(), 12);
}

#[test]
fn the_selection_moves_around_the_end() {
    let mut app = app_with_files(5);
    app.move_sel(-1);
    assert_eq!(app.selected, 4);
    app.move_sel(1);
    assert_eq!(app.selected, 0);
    app.move_sel(-13);
    assert_eq!(app.selected, 2);
    app.move_sel(13);
    assert_eq!(app.selected, 0);
    let mut none = app_with_files(0);
    none.selected = 7;
    none.move_sel(1);
    assert_eq!(none.selected, 0);
}

#[test]
fn the_selection_moves_by_columns() {
    // Columns of four: 0..4, 4..8, 8..12, 12..14.
    let mut app = app_with_files(14);
    app.selected = 1;
    app.column_nav(1, 4);
    assert_eq!(app.selected, 5);
    app.column_nav(1, 4);
    assert_eq!(app.selected, 1);
    app.column_nav(-1, 4);
    assert_eq!(app.selected, 9);
    app.column_nav(1, 0);
    assert_eq!(app.selected, 0);
}

#[test]
fn scrolling_keeps_the_selection_drawn() {
    let mut app = app_with_files(30);
    for selected in [0, 5, 11, 29, 3, 17] {
        app.selected = selected;
        app.clamp_offset(6);
        assert!(app.offset <= selected && selected < app.offset + 6, "{selected}");
    }
    assert_eq!(app.offset, 12);
    app.offset = 29;
    app.selected = 29;
    app.clamp_offset(6);
    assert_eq!(app.offset, 24);
}

#[test]
fn typing_filters_and_erasing_unfilters() {
    let names = [("alpha", FileKind::File), ("beta", FileKind::File)];
    let mut app = app_with(&names);
    app.selected = 1;
    assert!(matches!(app.handle_key(Key::Char('и'), false), Reaction::Stay));
    assert_eq!((app.query.as_str(), app.selected, app.needs_rank), ("b", 0, true));
    relist(&mut app, &names);
    assert_eq!(app.ranked, vec![1]);
    assert_eq!(app.entry_at(0).label, "beta");
    app.handle_key(Key::Char('ä'), false);
    assert_eq!((app.query.as_str(), app.needs_rank), ("b", false));
    app.handle_key(Key::Backspace, false);
    assert_eq!((app.query.as_str(), app.needs_rank), ("", true));
    relist(&mut app, &names);
    assert_eq!(app.ranked_len(&plain), 2);
    app.handle_key(Key::Char('h'), true);
    assert!(!app.needs_rank);
}

#[test]
fn a_dot_switches_to_the_other_listing() {
    let names = [("alpha", FileKind::File)];
    let mut app = app_with(&names);
    assert!(!app.show_dots() && !app.needs_listing());
    app.handle_key(Key::Char('.'), false);
    assert!(app.show_dots() && app.needs_listing());
    relist(&mut app, &[(".hidden", FileKind::File), ("alpha", FileKind::File)]);
    assert_eq!(app.ranked.len(), 1);
    assert_eq!(app.entry_at(0).label, ".hidden");
    assert_eq!(app.maxw, 7);
    // Both listings are kept: the width goes back with the listing.
    app.handle_key(Key::Backspace, false);
    assert!(!app.needs_listing());
    assert_eq!(app.maxw, 5);
    relist(&mut app, &names);
    app.handle_key(Key::Char('.'), false);
    assert_eq!(app.maxw, 7);
}

#[test]
fn parents_are_those_of_std() {
    let paths = [
        "", "/", "//", "/.", "/./", ".", "./", "./.", "..", "../", "a", "a/", "a//", "a/.", "a/b",
        "a//b", "a/./b", "a/b/./", "./a", "./a/b", "././a", "/a", "/a/", "/a/.", "//a", "/./a",
        "/a/b", "/a/b/", "/a/./b", "/a/b/..", "../a", ".a", ".a/b", "...", "/a/..", "a/./.",
    ];
    for p in paths {
        let want = std::path::Path::new(p).parent().map(|q| q.to_str().unwrap().as_bytes().to_vec());
        assert_eq!(parent_of(&p.as_bytes().to_vec()), want, "{p:?}");
    }
}

#[test]
fn keys_cancel_and_pick() {
    let names = [("file", FileKind::File), ("sub", FileKind::Dir)];
    let mut app = app_with(&names);
    assert!(matches!(app.handle_key(Key::Esc, false), Reaction::Cancel));
    assert!(matches!(app.handle_key(Key::Char('c'), true), Reaction::Cancel));
    assert!(matches!(app.handle_key(Key::Char('g'), true), Reaction::Cancel));
    let picks = [
        (Key::Enter, false, "edit\t/r/file\n"),
        (Key::Tab, true, "edit\t/r/file\n"),
        (Key::Char('t'), true, "tabedit\t/r/file\n"),
        (Key::Char('o'), true, "split\t/r/file\n"),
        (Key::Char('v'), true, "vsplit\t/r/file\n"),
    ];
    for (key, ctrl, want) in picks {
        match app.handle_key(key, ctrl) {
            Reaction::Pick(line) => assert_eq!(line, want.as_bytes()),
            other => panic!("{other:?}"),
        }
    }
    app.handle_key(Key::Down, false);
    assert_eq!(app.selected, 1);
    assert!(matches!(app.handle_key(Key::Enter, false), Reaction::Stay));
    assert_eq!(app.root, b"/r/sub");
    assert!(app.needs_listing() && app.ranked.is_empty());
    let mut none = app_with(&[]);
    assert!(matches!(none.handle_key(Key::Enter, false), Reaction::Stay));
}

#[test]
fn movement_keys() {
    let mut app = app_with_files(30);
    let mut press = |key: Key, ctrl: bool| {
        app.handle_key(key, ctrl);
        app.selected
    };
    assert_eq!(press(Key::Down, false), 1);
    assert_eq!(press(Key::Char('n'), true), 2);
    assert_eq!(press(Key::Char('j'), true), 3);
    assert_eq!(press(Key::Up, false), 2);
    assert_eq!(press(Key::Char('p'), true), 1);
    assert_eq!(press(Key::Char('k'), true), 0);
    assert_eq!(press(Key::Right, false), 11);
    assert_eq!(press(Key::Char('b'), true), 0);
    assert_eq!(press(Key::Char('f'), true), 11);
    assert_eq!(press(Key::Left, false), 0);
    assert_eq!(press(Key::PageDown, false), 11);
    assert_eq!(press(Key::PageUp, false), 0);
    assert_eq!(press(Key::End, false), 29);
    assert_eq!(press(Key::PageDown, false), 29);
    assert_eq!(press(Key::Home, false), 0);
    assert_eq!(press(Key::Char('e'), true), 29);
    assert_eq!(press(Key::Char('a'), true), 0);
    assert_eq!(press(Key::Other, false), 0);
    assert_eq!(press(Key::Char('z'), true), 0);
    assert_eq!(app.offset, 0);
}

#[test]
fn word_erase_clears_and_then_goes_up() {
    let names = [("alpha", FileKind::File)];
    let mut app = app_with(&names);
    app.handle_key(Key::Char('a'), false);
    relist(&mut app, &names);
    assert!(matches!(app.handle_key(Key::Char('w'), true), Reaction::Stay));
    assert_eq!(app.query, "");
    relist(&mut app, &names);
    app.re_root(b"/r/sub".to_vec());
    relist(&mut app, &names);
    assert!(matches!(app.handle_key(Key::Char('w'), true), Reaction::Stay));
    assert_eq!((app.root.as_slice(), app.needs_listing()), (&b"/r"[..], true));
    relist(&mut app, &names);
    app.handle_key(Key::Char('w'), true);
    assert_eq!(app.root, b"/");
    relist(&mut app, &names);
    app.handle_key(Key::Char('w'), true);
    assert_eq!((app.root.as_slice(), app.needs_listing()), (&b"/"[..], false));
    app.handle_key(Key::Char('a'), false);
    relist(&mut app, &names);
    app.handle_key(Key::Char('u'), true);
    assert_eq!((app.query.as_str(), app.needs_rank), ("", true));
}

#[test]
fn sort_and_depth_cycle() {
    let names = [("alpha", FileKind::File)];
    let mut app = app_with(&names);
    let mut modes = Vec::new();
    let mut depths = Vec::new();
    for _ in 0..6 {
        app.handle_key(Key::Char('y'), true);
        modes.push(app.sort_mode);
        assert!(app.needs_listing());
        relist(&mut app, &names);
        app.handle_key(Key::Char('d'), true);
        depths.push(app.opts.depth);
        relist(&mut app, &names);
    }
    assert_eq!(modes, vec![1, 2, 3, 0, 1, 2]);
    assert_eq!(depths, vec![2, 3, 4, 5, 6, 1]);
    app.set_sort_mode(255);
    app.handle_key(Key::Char('y'), true);
    assert_eq!(app.sort_mode, 0);
}

#[test]
fn toggles() {
    let mut app = app_with(&[("alpha", FileKind::File)]);
    app.handle_key(Key::Char('l'), true);
    assert!(app.long);
    app.handle_key(Key::Char('P'), false);
    assert!(app.preview_on);
    app.refresh_pane(None);
    app.handle_key(Key::Char(' '), true);
    assert!(!app.preview_on && !app.rendering && app.pane_key.is_none());
    app.handle_key(Key::Char(' '), false);
    assert_eq!(app.query, " ");
}

#[test]
fn a_slash_enters_the_only_directory_it_names() {
    let names = [
        ("Docs", FileKind::Dir),
        ("dog", FileKind::File),
        ("docs2/x", FileKind::Dir),
        ("Dx", FileKind::Dir),
    ];
    let mut app = app_with(&names);
    for c in "do".chars() {
        app.handle_key(Key::Char(c), false);
        relist(&mut app, &names);
    }
    app.handle_key(Key::Char('/'), false);
    assert_eq!((app.root.as_slice(), app.query.as_str()), (&b"/r/Docs"[..], ""));

    let mut app = app_with(&names);
    app.handle_key(Key::Char('d'), false);
    relist(&mut app, &names);
    app.handle_key(Key::Char('/'), false);
    assert_eq!((app.root.as_slice(), app.query.as_str()), (&b"/r"[..], "d/"));

    // An exact name decides, though another directory shares the prefix.
    let named = [("src2", FileKind::Dir), ("Src", FileKind::Dir), ("srcs", FileKind::File)];
    let mut app = app_with(&named);
    for c in "src".chars() {
        app.handle_key(Key::Char(c), false);
        relist(&mut app, &named);
    }
    app.handle_key(Key::Char('/'), false);
    assert_eq!((app.root.as_slice(), app.query.as_str()), (&b"/r/Src"[..], ""));
    // Two directories of one name, case aside, are not told apart.
    let twice = [("src", FileKind::Dir), ("SRC", FileKind::Dir)];
    let mut app = app_with(&twice);
    app.handle_key(Key::Char('s'), false);
    relist(&mut app, &twice);
    app.handle_key(Key::Char('/'), false);
    assert_eq!((app.root.as_slice(), app.query.as_str()), (&b"/r"[..], "s/"));

    let mut app = app_with(&names);
    app.handle_key(Key::Char('/'), false);
    assert_eq!((app.root.as_slice(), app.needs_rank), (&b"/"[..], true));
    for top in ["/", "//", "/./", "/."] {
        let mut app = App::new(top.as_bytes().to_vec(), options(1), String::new(), false, false);
        relist(&mut app, &names);
        app.handle_key(Key::Char('/'), false);
        assert_eq!((app.root.as_slice(), app.needs_rank), (top.as_bytes(), false));
    }
}

#[test]
fn prompts_are_painted() {
    let grey = |s: &str| format!("\u{1b}[38;2;149;167;188m{s}");
    let blue = |s: &str| format!("\u{1b}[38;2;0;95;175m{s}");
    let tail = "\u{1b}[38;2;108;126;150m  d3\u{1b}[22;23;24;39m";
    let want = format!(
        "\u{1b}[38;2;40;115;115m~{}{}{}\u{1b}[1;38;2;255;255;255mq{tail}",
        blue("/"),
        grey("x"),
        blue(" \u{f105} ")
    );
    assert_eq!(prompt("/home/me/x", "q", 3, false, Some("/home/me")), want);
    let want = format!(
        "\u{1b}[38;2;108;126;150m{ICON_DIR} {}{}{}{}{tail}",
        blue("/"),
        grey("a"),
        blue("/"),
        blue(" \u{f105} ")
    );
    assert_eq!(prompt("/a/", "", 3, true, Some("/home")), want);
    assert_eq!(prompt("/a/", "", 3, true, None), want);
    let app = App::new(b"/\xff".to_vec(), options(3), String::new(), false, false);
    assert_eq!(app.prompt_line(None), prompt("/\u{fffd}", "", 3, false, None));
}

#[test]
fn a_whole_frame() {
    let names = [("ab", FileKind::File), ("abd", FileKind::Dir)];
    let mut app = app_with(&names);
    app.size = (12, 24);
    app.set_ui(Some(5), Some(12), None, None);
    app.compute_box(None);
    app.pop_top = 4;
    app.handle_key(Key::Char('b'), false);
    app.handle_key(Key::Backspace, false);
    relist(&mut app, &names);
    app.query = "b".to_string();
    let decor = vec![
        Decor { meta: None, code: Some("31".to_string()) },
        Decor { meta: Some("m".to_string()), code: Some("34".to_string()) },
    ];
    let e = "\u{1b}";
    let on = format!("{e}[48;2;0;0;0m{e}[38;2;108;126;150m");
    let border = format!("{e}[38;2;108;126;150m");
    let end = format!("{e}[0m{e}[K");
    let revert = format!("{e}[22;23;24;39;48;2;0;0;0m");
    let sel = format!("{e}[1;48;2;0;95;175;38;2;209;229;255m");
    let bar = "─".repeat(10);
    let first = format!("{sel}a{e}[4mb{e}[24m{revert}        ");
    let second = format!("{e}[34ma{e}[4mb{e}[24md/{revert}      ");
    let mut line = app.prompt_line(None);
    ansi_pad(&mut line, 10);
    let want = format!(
        "{e}[5;1H{on}┌{bar}┐{end}{e}[6;1H{on}│{first}{border}│{end}{e}[7;1H{on}│{second}{border}│{end}{e}[8;1H{on}│{line}{border}│{end}{e}[9;1H{on}└{bar}┘{end}"
    );
    assert_eq!(app.draw(&decor, &theme_default(), None), want);

    // The long view puts the metadata before the name; icons replace the slash.
    app.long = true;
    app.icons = true;
    let frame = app.draw(&decor, &theme_default(), None);
    let cell = format!(
        "{e}[38;2;108;126;150mm{revert} {e}[34m{ICON_DIR} a{e}[4mb{e}[24md{revert} "
    );
    assert!(frame.contains(&cell), "{frame:?}");
    let flat = Theme { match_underline: false, ..theme_default() };
    assert!(!app.draw(&decor, &flat, None).contains("\u{1b}[4m"));
}

/// What a terminal shows of a text.
fn shown(s: &str) -> String {
    let mut out = String::new();
    let mut in_esc = false;
    for c in s.chars() {
        if in_esc {
            in_esc = c == '[' || !('\x40'..='\x7e').contains(&c);
        } else if c == '\x1b' {
            in_esc = true;
        } else {
            out.push(c);
        }
    }
    out
}

#[test]
fn names_of_any_script_stay_aligned() {
    let mut app = app_with(&[
        ("中文文件", FileKind::File),
        ("latin", FileKind::File),
        ("e\u{301}te\u{301}", FileKind::Dir),
        ("🙂", FileKind::File),
        ("a-name-that-is-longer-than-its-column-by-far", FileKind::File),
    ]);
    app.size = (40, 8);
    app.set_ui(Some(6), Some(40), None, None);
    app.compute_box(None);
    let frame = app.draw(&Vec::new(), &theme_default(), None);
    for row in frame.split("\x1b[K").filter(|r| !r.is_empty()) {
        assert_eq!(str_width(&shown(row)), 40, "{row:?}");
    }
    assert_eq!(frame.split("\x1b[K").filter(|r| !r.is_empty()).count(), 6);
}

#[test]
fn the_pane_stands_behind_a_divider() {
    let mut app = app_with(&[("a", FileKind::File)]);
    app.preview_on = true;
    let job = app.refresh_pane(None).unwrap();
    let pane = Pane { dim: false, lines: vec!["row".to_string()] };
    assert!(app.poll_pane(PaneEvent::Ready { key: job.key, pane, kitty: None }));
    let frame = app.draw(&Vec::new(), &theme_default(), None);
    let e = "\u{1b}";
    let row = format!(
        "{e}[38;2;108;126;150m│{e}[0mrow{}{e}[48;2;0;0;0m{e}[38;2;108;126;150m│{e}[0m{e}[K",
        " ".repeat(23)
    );
    assert!(frame.contains(&row), "{frame:?}");
}

#[test]
fn images_are_placed_once_and_removed() {
    let delete = "\u{1b}_Ga=d\u{1b}\\";
    let mut app = app_with(&[("a.png", FileKind::File)]);
    app.preview_on = true;
    let job = app.refresh_pane(None).unwrap();
    let image = Some("IMAGE".to_string());
    let pane = Pane { dim: false, lines: vec!["art".to_string()] };
    assert!(app.poll_pane(PaneEvent::Ready { key: job.key, pane, kitty: image }));
    assert_eq!(app.pane, vec![" ".repeat(26); 11]);
    assert_eq!(app.pane_kind, 2);
    let first = app.draw(&Vec::new(), &theme_default(), None);
    assert!(first.ends_with("\u{1b}[2;54HIMAGE"), "{first:?}");
    assert!(!first.contains(delete));
    assert!(app.kitty_drawn);
    let second = app.draw(&Vec::new(), &theme_default(), None);
    assert!(!second.contains("IMAGE"));
    assert!(app.clear_panel().ends_with(delete));
    app.clear_pane();
    let third = app.draw(&Vec::new(), &theme_default(), None);
    assert!(third.ends_with(delete));
    assert!(!app.kitty_drawn);
}

#[test]
fn the_panel_is_cleared_row_by_row() {
    let mut app = app_with(&[]);
    app.size = (80, 2);
    app.compute_box(None);
    app.pop_top = 6;
    assert_eq!(app.clear_panel(), "\u{1b}[7;1H\u{1b}[K\u{1b}[8;1H\u{1b}[K");
}
