use chrono::{Datelike, Local, TimeZone};
use flexfind::query::{
    date_range, date_range_at, day_span, inclusive_range, parse_date_filter, parse_query, parse_size_filter, parse_size_value, CalendarDate,
    CompiledQuery, DateModifiedFilter, PathPattern, SizeOp,
};
use flexfind::types::ArenaBuilder;

fn run(query: &str, path: &str, folder: bool, size: u64, modified: i64) -> Option<(usize, usize)> {
    run_at(query, path, folder, size, modified, Local::now().timestamp())
}

fn run_at(query: &str, path: &str, folder: bool, size: u64, modified: i64, now: i64) -> Option<(usize, usize)> {
    let mut b = ArenaBuilder::new();
    b.push(path, folder, size, modified);
    let arena = b.finish();
    let parsed = parse_query(query);
    let compiled = CompiledQuery::compile(&parsed, &arena, now);
    if compiled.matches_nothing() {
        return None;
    }
    compiled.matches(&arena, 0)
}

#[test]
fn bare_term_matches_case_insensitively() {
    assert_eq!(run("flex", "C:\\Projects\\FlexFind.exe", false, 100, 0), Some((0, 4)));
}

#[test]
fn ext_filter() {
    assert!(run("ext:png", "C:\\pics\\photo.png", false, 100, 0).is_some());
    assert!(run("ext:png", "C:\\pics\\photo.jpg", false, 100, 0).is_none());
}

#[test]
fn path_filter() {
    assert!(run("path:C:\\Projects", "C:\\Projects\\a.txt", false, 1, 0).is_some());
    assert!(run("path:C:\\Projects", "D:\\Other\\a.txt", false, 1, 0).is_none());
}

#[test]
fn path_filter_matches_across_the_separator() {
    assert!(run("path:projects\\rep", "C:\\Projects\\Report.docx", false, 1, 0).is_some());
    assert!(run("path:projects\\zzz", "C:\\Projects\\Report.docx", false, 1, 0).is_none());
}

#[test]
fn path_filter_matches_within_the_name_alone() {
    assert!(run("path:report", "C:\\Projects\\Report.docx", false, 1, 0).is_some());
}

#[test]
fn size_filter_with_operator() {
    assert!(run("size:>10mb", "C:\\big.bin", false, 20 * 1024 * 1024, 0).is_some());
    assert!(run("size:>10mb", "C:\\small.bin", false, 1024, 0).is_none());
}

#[test]
fn size_filter_bare_defaults_to_gte() {
    assert!(run("size:10mb", "C:\\x.bin", false, 10 * 1024 * 1024, 0).is_some());
}

#[test]
fn negation_excludes_by_name_or_path() {
    assert!(run("!node_modules", "C:\\src\\index.ts", false, 1, 0).is_some());
    assert!(run("!node_modules", "C:\\proj\\node_modules\\pkg\\index.js", false, 1, 0).is_none());
}

#[test]
fn negation_excludes_by_name_when_path_is_clean() {
    assert!(run("!draft", "C:\\docs\\draft-report.docx", false, 1, 0).is_none());
}

#[test]
fn quoted_phrase_kept_as_single_term() {
    let q = parse_query("\"Q2 report\"");
    assert_eq!(q.terms, vec!["q2 report".to_string()]);
    assert!(run("\"Q2 report\"", "C:\\docs\\Q2 report.docx", false, 1, 0).is_some());
    assert!(run("\"Q2 report\"", "C:\\docs\\report Q2 old.docx", false, 1, 0).is_none());
}

#[test]
fn date_modified_today() {
    let now = Local::now();
    assert!(run_at("dm:today", "C:\\a.txt", false, 1, now.timestamp(), now.timestamp()).is_some());
    assert!(run_at("dm:today", "C:\\b.txt", false, 1, now.timestamp() - 86400 * 3, now.timestamp()).is_none());
}

#[test]
fn date_modified_yesterday_and_thisweek() {
    let now = Local::now();
    let yesterday = now.timestamp() - 86400;
    assert!(run_at("dm:yesterday", "C:\\a.txt", false, 1, yesterday, now.timestamp()).is_some());
    assert!(run_at("dm:yesterday", "C:\\b.txt", false, 1, now.timestamp(), now.timestamp()).is_none());
    assert!(run_at("dm:thisweek", "C:\\c.txt", false, 1, now.timestamp(), now.timestamp()).is_some());
}

#[test]
fn combined_ext_and_bare_term_and_negation() {
    assert!(run("ext:png flex !archive", "C:\\pics\\flexbox-cheatsheet.png", false, 1, 0).is_some());
    assert!(run("ext:png flex !archive", "D:\\Backup\\archive_flex\\flex.png", false, 1, 0).is_none());
    assert!(run("ext:png flex !archive", "C:\\pics\\flex.jpg", false, 1, 0).is_none());
}

#[test]
fn blank_query_is_empty() {
    assert!(parse_query("").is_empty());
    assert!(parse_query("   ").is_empty());
    assert!(!parse_query("flex").is_empty());
    assert!(!parse_query("ext:png").is_empty());
}

#[test]
fn unknown_extension_short_circuits_the_whole_scan() {
    let mut b = ArenaBuilder::new();
    b.push("C:\\a\\x.png", false, 1, 0);
    let arena = b.finish();
    let parsed = parse_query("ext:xyz");
    let compiled = CompiledQuery::compile(&parsed, &arena, Local::now().timestamp());
    assert!(compiled.matches_nothing());
}

#[test]
fn match_offset_is_a_byte_offset_not_a_char_index() {
    let (start, len) = run("report", "C:\\docs\\レポートreport.docx", false, 1, 0).unwrap();
    assert_eq!(start, "レポート".len());
    assert_eq!(len, "report".len());
}

#[test]
fn parse_classifies_every_token_kind() {
    let q = parse_query("Flex ext:.PNG path:C:\\X size:<=2kb dm:2024-01-15 !Tmp");
    assert_eq!(q.terms, vec!["flex".to_string()]);
    assert_eq!(q.ext, Some("png".to_string()));
    assert_eq!(q.path_contains, Some("c:\\x".to_string()));
    assert_eq!(q.size_filter, Some((SizeOp::Lte, 2048)));
    assert_eq!(
        q.date_modified_filter,
        Some(DateModifiedFilter::Literal(CalendarDate { year: 2024, month: 1, day: 15 }))
    );
    assert_eq!(q.negations, vec!["tmp".to_string()]);
}

#[test]
fn empty_filter_values_are_ignored() {
    let q = parse_query("ext: path: ! size:abc dm:someday");
    assert!(q.is_empty());
}

#[test]
fn size_values_scale_by_unit() {
    assert_eq!(parse_size_value("10"), Some(10));
    assert_eq!(parse_size_value("10b"), Some(10));
    assert_eq!(parse_size_value("1k"), Some(1024));
    assert_eq!(parse_size_value("1.5kb"), Some(1536));
    assert_eq!(parse_size_value("2 mb"), Some(2 * 1024 * 1024));
    assert_eq!(parse_size_value("1gb"), Some(1024 * 1024 * 1024));
    assert_eq!(parse_size_value(""), None);
    assert_eq!(parse_size_value("10tb"), None);
    assert_eq!(parse_size_value("abc"), None);
}

#[test]
fn size_operators_parse() {
    assert_eq!(parse_size_filter(">1"), Some((SizeOp::Gt, 1)));
    assert_eq!(parse_size_filter("<1"), Some((SizeOp::Lt, 1)));
    assert_eq!(parse_size_filter(">=1"), Some((SizeOp::Gte, 1)));
    assert_eq!(parse_size_filter("<=1"), Some((SizeOp::Lte, 1)));
    assert_eq!(parse_size_filter("=1"), Some((SizeOp::Eq, 1)));
    assert_eq!(parse_size_filter("1"), Some((SizeOp::Gte, 1)));
    assert_eq!(parse_size_filter(">x"), None);
}

#[test]
fn date_words_and_literals_parse() {
    assert_eq!(parse_date_filter("today"), Some(DateModifiedFilter::Today));
    assert_eq!(parse_date_filter("yesterday"), Some(DateModifiedFilter::Yesterday));
    assert_eq!(parse_date_filter("thisweek"), Some(DateModifiedFilter::ThisWeek));
    assert_eq!(
        parse_date_filter("2023-12-31"),
        Some(DateModifiedFilter::Literal(CalendarDate { year: 2023, month: 12, day: 31 }))
    );
    assert_eq!(parse_date_filter("2023-02-30"), None);
}

#[test]
fn day_spans_follow_the_calendar() {
    let wed = CalendarDate { year: 2024, month: 1, day: 17 };
    assert_eq!(day_span(DateModifiedFilter::Today, wed), Some((wed, wed)));
    let tue = CalendarDate { year: 2024, month: 1, day: 16 };
    assert_eq!(day_span(DateModifiedFilter::Yesterday, wed), Some((tue, tue)));
    let mon = CalendarDate { year: 2024, month: 1, day: 15 };
    assert_eq!(day_span(DateModifiedFilter::ThisWeek, wed), Some((mon, wed)));
    let jan1 = CalendarDate { year: 2024, month: 1, day: 1 };
    let dec31 = CalendarDate { year: 2023, month: 12, day: 31 };
    assert_eq!(day_span(DateModifiedFilter::Yesterday, jan1), Some((dec31, dec31)));
    let bad = CalendarDate { year: 2024, month: 2, day: 30 };
    assert_eq!(day_span(DateModifiedFilter::Yesterday, bad), None);
}

#[test]
fn inclusive_range_ends_one_second_early() {
    assert_eq!(inclusive_range(Some(10), Some(20)), Some((10, 19)));
    assert_eq!(inclusive_range(None, Some(20)), None);
    assert_eq!(inclusive_range(Some(10), None), None);
    assert_eq!(inclusive_range(Some(10), Some(i64::MIN)), None);
}

#[test]
fn a_literal_day_covers_exactly_that_local_day() {
    let d = CalendarDate { year: 2024, month: 3, day: 10 };
    let (start, end) = date_range(DateModifiedFilter::Literal(d), d).unwrap();
    let midnight = Local.with_ymd_and_hms(2024, 3, 10, 0, 0, 0).earliest().unwrap().timestamp();
    let next = Local.with_ymd_and_hms(2024, 3, 11, 0, 0, 0).earliest().unwrap().timestamp();
    assert_eq!(start, midnight);
    assert_eq!(end, next - 1);
}

#[test]
fn path_pattern_straddles_only_at_its_own_separator() {
    let mut b = ArenaBuilder::new();
    b.push("C:\\Projects\\Report.docx", false, 1, 0);
    let arena = b.finish();
    let hit = PathPattern::compile("projects\\rep", &arena);
    assert!(hit.matches(&arena, 0, arena.name_lower(0)));
    let miss = PathPattern::compile("projectsrep", &arena);
    assert!(!miss.matches(&arena, 0, arena.name_lower(0)));
    let dir_only = PathPattern::compile("c:\\proj", &arena);
    assert!(dir_only.matches(&arena, 0, arena.name_lower(0)));
}

#[test]
fn many_backslashes_fall_back_to_the_full_path() {
    let deep: String = (0..40).map(|i| format!("d{i}\\")).collect::<String>() + "f.txt";
    let mut b = ArenaBuilder::new();
    b.push(&deep, false, 1, 0);
    let arena = b.finish();
    let pattern = deep.to_lowercase();
    let p = PathPattern::compile(&pattern, &arena);
    assert!(p.matches(&arena, 0, arena.name_lower(0)));
    let q = PathPattern::compile(&(pattern.clone() + "x"), &arena);
    assert!(!q.matches(&arena, 0, arena.name_lower(0)));
}

#[test]
fn date_filter_unresolvable_today_matches_nothing() {
    let mut b = ArenaBuilder::new();
    b.push("C:\\a.txt", false, 1, 0);
    let arena = b.finish();
    let parsed = parse_query("dm:today");
    let compiled = CompiledQuery::compile_resolved(&parsed, &arena, None);
    assert!(compiled.matches_nothing());
    let compiled = CompiledQuery::compile_resolved(&parsed, &arena, Some((0, 10)));
    assert!(!compiled.matches_nothing());
    assert_eq!(compiled.matches(&arena, 0), Some((0, 0)));
    let compiled = CompiledQuery::compile_resolved(&parsed, &arena, Some((1, 10)));
    assert_eq!(compiled.matches(&arena, 0), None);
    let _ = Local::now().year();
}

#[test]
fn a_literal_day_lies_within_a_day_of_its_utc_midnight() {
    // 2024-03-10 begins at unix second 1710028800 in UTC.
    let d = CalendarDate { year: 2024, month: 3, day: 10 };
    let (start, end) = date_range(DateModifiedFilter::Literal(d), d).unwrap();
    assert!(1_710_028_800 - 86_400 < start && start < 1_710_028_800 + 86_400);
    assert!(1_710_115_200 - 86_400 < end + 1 && end + 1 < 1_710_115_200 + 86_400);
}

#[test]
fn today_at_a_moment_covers_that_moment() {
    // 2024-03-10 12:00:00 UTC.
    let now = 1_710_072_000;
    let (start, end) = date_range_at(DateModifiedFilter::Today, now).unwrap();
    assert!(start <= now && now <= end);
    assert!(end - start + 1 >= 23 * 3600 && end - start + 1 <= 25 * 3600);
}

#[test]
fn a_moment_beyond_the_local_time_limit_resolves_no_range() {
    assert!(date_range_at(DateModifiedFilter::Today, i64::MAX).is_none());
    assert!(date_range_at(DateModifiedFilter::Today, i64::MIN).is_none());
    assert!(date_range_at(DateModifiedFilter::Today, 8_000_000_000_001).is_none());
    assert!(date_range_at(DateModifiedFilter::Today, 0).is_some());
}
