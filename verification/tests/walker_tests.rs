use flexfind::walker::{is_excluded, keep_entry, normalize_excludes, progress_due, unreachable_state, FilterOpts, PROGRESS_INTERVAL};
use flexfind::types::RootScanState;

#[test]
fn excludes_bare_folder_name() {
    let excludes = vec!["node_modules".to_string()];
    assert!(is_excluded("c:\\projects\\app\\node_modules", "node_modules", &excludes));
    assert!(!is_excluded("c:\\projects\\app\\src", "src", &excludes));
}

#[test]
fn excludes_absolute_path_prefix() {
    let excludes = vec!["c:\\windows".to_string()];
    assert!(is_excluded("c:\\windows\\system32", "system32", &excludes));
    assert!(!is_excluded("c:\\users\\hiro", "hiro", &excludes));
}

#[test]
fn path_prefix_exclusion_respects_separator_boundary() {
    let excludes = vec!["c:\\users\\hiro".to_string()];
    assert!(is_excluded("c:\\users\\hiro", "hiro", &excludes));
    assert!(is_excluded("c:\\users\\hiro\\docs", "docs", &excludes));
    assert!(!is_excluded("c:\\users\\hiroko", "hiroko", &excludes));
    assert!(!is_excluded("c:\\users\\hiroko\\docs", "docs", &excludes));
}

#[test]
fn excludes_are_trimmed_lowercased_and_blank_ones_dropped() {
    let raw = vec!["  Node_Modules ".to_string(), "   ".to_string(), "C:\\Windows".to_string()];
    let n = normalize_excludes(&raw);
    assert_eq!(n, vec!["node_modules".to_string(), "c:\\windows".to_string()]);
}

#[test]
fn forward_slash_pattern_is_path_like() {
    let excludes = vec!["c:/tmp".to_string()];
    assert!(is_excluded("c:/tmp/x", "x", &excludes));
    assert!(!is_excluded("c:/tmpx", "tmpx", &excludes));
}

#[test]
fn attribute_filters_drop_only_matching_entries() {
    let all = FilterOpts { exclude_hidden: true, exclude_system: true, exclude_shortcuts: true };
    assert!(!keep_entry(all, false, true, false, "C:\\a.txt"));
    assert!(!keep_entry(all, false, false, true, "C:\\a.txt"));
    assert!(!keep_entry(all, false, false, false, "C:\\link.LNK"));
    assert!(keep_entry(all, true, false, false, "C:\\folder.lnk"));
    assert!(keep_entry(all, false, false, false, "C:\\a.txt"));
    let none = FilterOpts::default();
    assert!(keep_entry(none, false, true, true, "C:\\link.lnk"));
}

#[test]
fn progress_is_reported_every_interval() {
    assert_eq!(PROGRESS_INTERVAL, 2000);
    assert!(progress_due(2000));
    assert!(progress_due(4000));
    assert!(!progress_due(1999));
}

#[test]
fn an_unreadable_root_is_skipped_or_offline() {
    assert_eq!(unreachable_state(true), RootScanState::SkippedNoAccess);
    assert_eq!(unreachable_state(false), RootScanState::Offline);
}
