use flexfind::icons::{bgra_to_rgba, icon_data_url, png_from_bgra};
use flexfind::persist::{accept_payload, fnv1a, header_ok, index_file_name, is_stale_index_file, normalize_root, INDEX_VERSION};
use flexfind::types::{ArenaBuilder, IndexArena};
use flexfind::query::CalendarDate;
use flexfind::reindex::{parse_daily_time, reindex_start, reindex_tick};
use flexfind::shell::{dated_copy_candidate, dated_copy_name};
use flexfind::settings::{autostart_change, AutostartChange};
use flexfind::tray::{pause_item_label, tray_action, TrayAction};
use flexfind::windows::{exit_allowed, toggle_action, MainWindowAction};

#[test]
fn bgra_becomes_rgba_keeping_alpha() {
    let out = bgra_to_rgba(&[1, 2, 3, 4, 5, 6, 7, 0]);
    assert_eq!(out, vec![3, 2, 1, 4, 7, 6, 5, 0]);
}

#[test]
fn a_flat_icon_is_made_opaque() {
    let out = bgra_to_rgba(&[1, 2, 3, 0, 5, 6, 7, 0]);
    assert_eq!(out, vec![3, 2, 1, 255, 7, 6, 5, 255]);
}

#[test]
fn png_encoding_produces_a_png() {
    let png = png_from_bgra(1, 1, &[0, 0, 255, 255]).unwrap();
    assert_eq!(&png[..8], &[0x89, b'P', b'N', b'G', 0x0d, 0x0a, 0x1a, 0x0a]);
}

#[test]
fn data_url_carries_base64() {
    assert_eq!(icon_data_url(b"abc"), "data:image/png;base64,YWJj");
    assert_eq!(icon_data_url(b""), "data:image/png;base64,");
    assert_eq!(icon_data_url(b"ab"), "data:image/png;base64,YWI=");
}

#[test]
fn dated_copy_names_are_zero_padded() {
    assert_eq!(dated_copy_name("report", "20240131", 1, Some("docx")), "report_20240131_01.docx");
    assert_eq!(dated_copy_name("notes", "20240131", 42, None), "notes_20240131_42");
}

#[test]
fn hotkey_hides_only_a_visible_focused_window() {
    assert_eq!(toggle_action(true, true, false), MainWindowAction::Hide);
    assert_eq!(toggle_action(true, false, false), MainWindowAction::Show);
    assert_eq!(toggle_action(true, true, true), MainWindowAction::Show);
    assert_eq!(toggle_action(false, false, false), MainWindowAction::Show);
}

#[test]
fn index_file_names_are_sanitized_and_hashed() {
    assert_eq!(normalize_root("C:\\"), "c:");
    assert_eq!(fnv1a(""), 0x811c_9dc5);
    assert_eq!(fnv1a("a"), 0xe40c_292c);
    let name = index_file_name("C:");
    assert_eq!(name, format!("c__{:08x}.idx", fnv1a("c:")));
}

#[test]
fn header_must_be_the_current_magic() {
    assert!(header_ok(b"FFIDX2"));
    assert!(!header_ok(b"FFIDX1"));
    assert!(!header_ok(b"XXXXXX"));
    assert!(!header_ok(b"FFIDX"));
}

#[test]
fn only_unknown_idx_files_are_stale() {
    let known = vec![index_file_name("C:")];
    assert!(!is_stale_index_file(&known[0], &known));
    assert!(is_stale_index_file("d__12345678.idx", &known));
    assert!(!is_stale_index_file("d__12345678.idx.tmp", &known));
    assert!(!is_stale_index_file(".idx", &known));
    assert!(!is_stale_index_file("notes.txt", &known));
}

#[test]
fn daily_time_parses_hh_mm() {
    assert_eq!(parse_daily_time(" 03:00 "), Some(3 * 3600));
    assert_eq!(parse_daily_time("23:59"), Some(23 * 3600 + 59 * 60));
    assert_eq!(parse_daily_time("25:00"), None);
    assert_eq!(parse_daily_time("soon"), None);
}

#[test]
fn interval_schedule_waits_the_interval() {
    let today = CalendarDate { year: 2024, month: 5, day: 1 };
    let mut st = reindex_start(1_000, today, 0, "03:00");
    assert_eq!(st.last_daily_date, None);
    assert!(!reindex_tick(&mut st, false, false, "interval", 30, "03:00", 1_000 + 29 * 60, today, 0));
    assert!(reindex_tick(&mut st, false, false, "interval", 30, "03:00", 1_000 + 30 * 60, today, 0));
    assert_eq!(st.last_interval_scan, 1_000 + 30 * 60);
    assert!(!reindex_tick(&mut st, true, false, "interval", 0, "03:00", 1_000_000, today, 0));
    assert!(!reindex_tick(&mut st, false, true, "interval", 0, "03:00", 1_000_000, today, 0));
    assert!(reindex_tick(&mut st, false, false, "whatever", 0, "03:00", 1_000 + 31 * 60, today, 0));
}

#[test]
fn daily_schedule_walks_once_after_the_target_time() {
    let today = CalendarDate { year: 2024, month: 5, day: 1 };
    let tomorrow = CalendarDate { year: 2024, month: 5, day: 2 };
    let mut st = reindex_start(0, today, 4 * 3600, "03:00");
    assert_eq!(st.last_daily_date, Some(today));
    assert!(!reindex_tick(&mut st, false, false, "daily", 30, "03:00", 10, today, 5 * 3600));
    assert!(!reindex_tick(&mut st, false, false, "daily", 30, "03:00", 20, tomorrow, 2 * 3600));
    assert!(reindex_tick(&mut st, false, false, "daily", 30, "03:00", 30, tomorrow, 3 * 3600));
    assert_eq!(st.last_daily_date, Some(tomorrow));
    assert!(!reindex_tick(&mut st, false, false, "daily", 30, "03:00", 40, tomorrow, 4 * 3600));
    assert!(!reindex_tick(&mut st, false, false, "manual", 0, "03:00", 1_000_000, tomorrow, 4 * 3600));
    assert!(!reindex_tick(&mut st, false, false, "daily", 0, "garbage", 1_000_000, tomorrow, 4 * 3600));
}

#[test]
fn tray_items_map_to_their_actions() {
    assert_eq!(tray_action("open"), TrayAction::Open);
    assert_eq!(tray_action("toggle_pause"), TrayAction::TogglePause);
    assert_eq!(tray_action("settings"), TrayAction::Settings);
    assert_eq!(tray_action("quit"), TrayAction::Quit);
    assert_eq!(tray_action("Open"), TrayAction::Nothing);
    assert_eq!(tray_action(""), TrayAction::Nothing);
}

#[test]
fn pause_item_offers_the_opposite_state() {
    assert_eq!(pause_item_label(true), "索引を再開");
    assert_eq!(pause_item_label(false), "索引を一時停止");
}

#[test]
fn only_an_explicit_exit_goes_through() {
    assert!(!exit_allowed(None));
    assert!(exit_allowed(Some(0)));
    assert!(exit_allowed(Some(1)));
}

#[test]
fn autostart_entry_follows_the_setting() {
    assert_eq!(autostart_change(true, false), AutostartChange::Enable);
    assert_eq!(autostart_change(false, true), AutostartChange::Disable);
    assert_eq!(autostart_change(true, true), AutostartChange::Keep);
    assert_eq!(autostart_change(false, false), AutostartChange::Keep);
}

fn persisted_sample() -> IndexArena {
    let mut b = ArenaBuilder::new();
    b.push("C:\\Projects\\a.txt", false, 10, 100);
    b.push("C:\\Projects\\sub", true, 0, 200);
    b.finish()
}

#[test]
fn a_saved_payload_is_accepted_for_its_root() {
    let stored = normalize_root("C:");
    let loaded = accept_payload(INDEX_VERSION, &stored, "C:", persisted_sample()).unwrap();
    assert_eq!(loaded.len(), 2);
    assert_eq!(loaded.name(0), "a.txt");
    assert_eq!(loaded.ext(0), "txt");
    assert_eq!(loaded.size(0), 10);
    assert_eq!(loaded.dir(0), "C:\\Projects");
    assert_eq!(loaded.full_path(0), "C:\\Projects\\a.txt");
    assert!(loaded.folder(1));
    assert!(loaded.is_valid());
}

#[test]
fn a_payload_with_trailing_separator_root_is_accepted() {
    let stored = normalize_root("C:\\");
    assert_eq!(stored, "c:");
    assert!(accept_payload(INDEX_VERSION, &stored, "C:", persisted_sample()).is_some());
}

#[test]
fn an_older_format_version_is_rejected() {
    let stored = normalize_root("C:");
    assert!(accept_payload(1, &stored, "C:", persisted_sample()).is_none());
}

#[test]
fn a_payload_for_another_root_is_rejected() {
    let stored = normalize_root("D:");
    assert!(accept_payload(INDEX_VERSION, &stored, "C:", persisted_sample()).is_none());
}

#[test]
fn dated_copy_candidates_stop_after_the_daily_limit() {
    assert_eq!(dated_copy_candidate("report", "20240310", 1, Some("docx")).as_deref(), Some("report_20240310_01.docx"));
    assert_eq!(dated_copy_candidate("report", "20240310", 99, None).as_deref(), Some("report_20240310_99"));
    assert_eq!(dated_copy_candidate("report", "20240310", 100, None), None);
    assert_eq!(dated_copy_candidate("report", "20240310", 0, None), None);
}

#[test]
fn base64_uses_the_standard_alphabet_and_padding() {
    assert_eq!(icon_data_url(b"Man"), "data:image/png;base64,TWFu");
    assert_eq!(icon_data_url(b"M"), "data:image/png;base64,TQ==");
    assert_eq!(icon_data_url(&[0xff, 0xfe, 0x3f]), "data:image/png;base64,//4/");
    assert_eq!(icon_data_url(&[0xfb, 0xef]), "data:image/png;base64,++8=");
}
