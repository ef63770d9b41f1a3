use std::sync::Arc;

use flexfind::engine::{path_order, resolve_roots, select_top, Candidate, IndexEngine, ResolvedRoot, RootIndex, ScopeFilter};
use flexfind::order::Order;
use flexfind::settings::ScanRoot;
use flexfind::types::{ArenaBuilder, RootScanState, SortColumn, SortSpec};

fn engine_with(roots: &[(&str, &[(&str, bool, u64, i64)])]) -> IndexEngine {
    let mut e = IndexEngine::new();
    for (root, entries) in roots {
        let mut b = ArenaBuilder::new();
        for (p, folder, size, modified) in *entries {
            b.push(p, *folder, *size, *modified);
        }
        e.put_root((*root).to_string(), Arc::new(b.finish()));
    }
    e
}

fn single(entries: &[(&str, bool, u64, i64)]) -> IndexEngine {
    engine_with(&[("C:", entries)])
}

#[test]
fn plain_nested_root_is_deduped() {
    let roots = vec![
        ScanRoot { path: "C:".into(), enabled: true, is_drive: true },
        ScanRoot { path: "C:\\Projects".into(), enabled: true, is_drive: false },
    ];
    let resolved = resolve_roots(&roots, &[false, false]);
    assert_eq!(resolved.len(), 1);
    assert_eq!(resolved[0].root, "C:");
}

#[test]
fn a_disabled_root_is_never_resolved() {
    let roots = vec![ScanRoot { path: "C:".into(), enabled: false, is_drive: true }];
    assert!(resolve_roots(&roots, &[false]).is_empty());
}

#[test]
fn a_link_like_nested_root_is_kept() {
    let roots = vec![
        ScanRoot { path: "C:".into(), enabled: true, is_drive: true },
        ScanRoot { path: "C:\\Box\\".into(), enabled: true, is_drive: false },
    ];
    let resolved = resolve_roots(&roots, &[false, true]);
    assert_eq!(resolved.len(), 2);
    assert_eq!(resolved[0].walk_path, "C:\\");
    assert_eq!(resolved[0].label, "C:");
    assert_eq!(resolved[1].root, "C:\\Box");
    assert_eq!(resolved[1].walk_path, "C:\\Box");
    assert_eq!(resolved[1].label, "Box");
}

#[test]
fn scope_include_filters_results() {
    let e = engine_with(&[
        ("C:", &[("C:\\Projects\\a.txt", false, 1, 0)][..]),
        ("D:", &[("D:\\Other\\a.txt", false, 1, 0)][..]),
    ]);
    let includes = vec!["c:\\projects".to_string()];
    let res = e.search("a", 500, Some(&includes), None);
    assert_eq!(res.total_matched, 1);
    assert_eq!(res.hits[0].path, "C:\\Projects\\a.txt");
    assert_eq!(res.total_indexed, 2);
}

#[test]
fn scope_includes_the_scope_root_folder_itself() {
    let e = single(&[
        ("C:\\Users\\me\\Downloads", true, 0, 0),
        ("C:\\Users\\me\\Downloads\\a.txt", false, 1, 0),
        ("C:\\Users\\me\\Documents\\b.txt", false, 1, 0),
    ]);
    let includes = vec!["c:\\users\\me\\downloads".to_string()];
    let res = e.search("o", 500, Some(&includes), None);
    let paths: Vec<&str> = res.hits.iter().map(|h| h.path.as_str()).collect();
    assert!(paths.contains(&"C:\\Users\\me\\Downloads"));
    assert!(!paths.iter().any(|p| p.contains("Documents")));
}

#[test]
fn scope_on_another_drive_skips_this_root_entirely() {
    let e = single(&[("C:\\Projects\\a.txt", false, 1, 0)]);
    let includes = vec!["z:\\nowhere".to_string()];
    let res = e.search("a", 500, Some(&includes), None);
    assert_eq!(res.total_matched, 0);
}

#[test]
fn sort_by_size_desc_then_cap_is_global() {
    let e = single(&[
        ("C:\\a_small.bin", false, 10, 0),
        ("C:\\b_big.bin", false, 9000, 0),
        ("C:\\c_mid.bin", false, 500, 0),
    ]);
    let spec = SortSpec { column: SortColumn::Size, descending: true };
    let res = e.search("bin", 2, None, Some(spec));
    assert_eq!(res.total_matched, 3);
    assert_eq!(res.hits.len(), 2);
    assert_eq!(res.hits[0].size, 9000);
    assert_eq!(res.hits[1].size, 500);
}

#[test]
fn sort_by_name_asc() {
    let e = single(&[("C:\\Zebra.txt", false, 1, 0), ("C:\\alpha.txt", false, 1, 0)]);
    let spec = SortSpec { column: SortColumn::Name, descending: false };
    let res = e.search("txt", 500, None, Some(spec));
    assert_eq!(res.hits[0].name, "alpha.txt");
    assert_eq!(res.hits[1].name, "Zebra.txt");
}

#[test]
fn sort_by_path_orders_subdirectories_like_real_paths() {
    let e = single(&[("C:\\a\\zzz.txt", false, 1, 0), ("C:\\a\\b\\x.txt", false, 1, 0)]);
    let spec = SortSpec { column: SortColumn::Path, descending: false };
    let res = e.search("txt", 500, None, Some(spec));
    assert_eq!(res.hits[0].path, "C:\\a\\b\\x.txt");
    assert_eq!(res.hits[1].path, "C:\\a\\zzz.txt");
}

#[test]
fn zero_limit_returns_no_hits_on_either_path() {
    let e = single(&[("C:\\a.txt", false, 1, 0), ("C:\\b.txt", false, 2, 0)]);
    let unsorted = e.search("txt", 0, None, None);
    assert_eq!(unsorted.hits.len(), 0);
    assert_eq!(unsorted.total_matched, 2);
    let spec = SortSpec { column: SortColumn::Size, descending: false };
    let sorted = e.search("txt", 0, None, Some(spec));
    assert_eq!(sorted.hits.len(), 0);
    assert_eq!(sorted.total_matched, 2);
}

#[test]
fn no_sort_preserves_fast_path_count() {
    let e = single(&[("C:\\a.txt", false, 1, 0), ("C:\\b.txt", false, 1, 0)]);
    let res = e.search("txt", 1, None, None);
    assert_eq!(res.total_matched, 2);
    assert_eq!(res.hits.len(), 1);
}

#[test]
fn results_span_multiple_roots() {
    let e = engine_with(&[
        ("C:", &[("C:\\one.txt", false, 1, 0)][..]),
        ("D:", &[("D:\\two.txt", false, 1, 0)][..]),
    ]);
    let res = e.search("txt", 500, None, None);
    assert_eq!(res.total_matched, 2);
    assert_eq!(res.total_indexed, 2);
}

#[test]
fn highlight_span_is_converted_to_utf16_units() {
    let e = single(&[("C:\\docs\\レポートreport.docx", false, 1, 0)]);
    let res = e.search("report", 500, None, None);
    assert_eq!(res.hits.len(), 1);
    assert_eq!(res.hits[0].match_start, 4);
    assert_eq!(res.hits[0].match_len, 6);
}

#[test]
fn blank_query_returns_nothing_but_still_reports_index_size() {
    let e = single(&[("C:\\a.txt", false, 1, 0)]);
    let res = e.search("   ", 500, None, None);
    assert_eq!(res.total_matched, 0);
    assert_eq!(res.total_indexed, 1);
}

#[test]
fn astral_chars_count_two_utf16_units() {
    let e = single(&[("C:\\😀report.txt", false, 1, 0)]);
    let res = e.search("report", 500, None, None);
    assert_eq!(res.hits[0].match_start, 2);
    assert_eq!(res.hits[0].match_len, 6);
}

#[test]
fn unsorted_hits_come_in_root_then_index_order() {
    let e = engine_with(&[
        ("D:", &[("D:\\b.txt", false, 1, 0)][..]),
        ("C:", &[("C:\\a.txt", false, 1, 0), ("C:\\c.txt", false, 1, 0)][..]),
    ]);
    let res = e.search("txt", 500, None, None);
    let paths: Vec<&str> = res.hits.iter().map(|h| h.path.as_str()).collect();
    assert_eq!(paths, vec!["C:\\a.txt", "C:\\c.txt", "D:\\b.txt"]);
}

#[test]
fn put_root_replaces_by_lowercased_name() {
    let mut e = single(&[("C:\\old.txt", false, 1, 0)]);
    let mut b = ArenaBuilder::new();
    b.push("C:\\new.txt", false, 1, 0);
    e.put_root("c:".to_string(), Arc::new(b.finish()));
    let snap = e.snapshot();
    assert_eq!(snap.len(), 1);
    assert_eq!(snap[0].root, "c:");
    let res = e.search("txt", 500, None, None);
    assert_eq!(res.hits.len(), 1);
    assert_eq!(res.hits[0].name, "new.txt");
}

#[test]
fn select_top_keeps_the_best_in_order() {
    let mut b = ArenaBuilder::new();
    for (p, s) in [("C:\\a", 5u64), ("C:\\b", 1), ("C:\\c", 9), ("C:\\d", 3)] {
        b.push(p, false, s, 0);
    }
    let roots = vec![RootIndex { root: "C:".to_string(), arena: Arc::new(b.finish()) }];
    let cands: Vec<Candidate> =
        (0..4).map(|i| Candidate { root: 0, idx: i, span_start: 0, span_len: 0 }).collect();
    let spec = SortSpec { column: SortColumn::Size, descending: false };
    let top = select_top(&cands, 2, spec, &roots);
    let idx: Vec<u32> = top.iter().map(|c| c.idx).collect();
    assert_eq!(idx, vec![1, 3]);
}

#[test]
fn scope_filter_admits_none_on_another_drive() {
    let mut b = ArenaBuilder::new();
    b.push("C:\\x\\a.txt", false, 1, 0);
    let arena = b.finish();
    let inc = vec!["z:\\q".to_string()];
    let f = ScopeFilter::build(&arena, Some(&inc));
    assert!(f.matches_nothing());
    assert!(!f.allows(&arena, 0));
    let none = ScopeFilter::build(&arena, None);
    assert!(!none.matches_nothing());
    assert!(none.allows(&arena, 0));
}

fn resolved(root: &str) -> ResolvedRoot {
    ResolvedRoot { root: root.to_string(), walk_path: format!("{root}\\"), label: root.to_string(), is_drive: true }
}

#[test]
fn a_scan_lifecycle_updates_status_and_swaps_only_when_done() {
    let mut e = single(&[("C:\\old.txt", false, 1, 0)]);
    let gen = e.begin_scan(&vec![resolved("C:")]);
    assert_eq!(gen, 1);
    let st = e.status_snapshot();
    assert_eq!(st.len(), 1);
    assert_eq!(st[0].state, RootScanState::Pending);
    assert!(e.mark_scanning("C:", gen));
    assert!(e.any_scanning());
    e.record_progress("C:", gen, 42);
    assert_eq!(e.status_snapshot()[0].scanned_count, 42);

    let mut b = ArenaBuilder::new();
    b.push("C:\\new.txt", false, 1, 0);
    let arena = Arc::new(b.finish());
    // An offline walk keeps the old entries.
    assert!(!e.finish_scan("C:".to_string(), gen, RootScanState::Offline, arena.clone(), 0, Vec::new()));
    assert_eq!(e.search("txt", 500, None, None).hits[0].name, "old.txt");
    assert_eq!(e.status_snapshot()[0].state, RootScanState::Offline);
    // A superseded walk changes nothing.
    assert!(!e.finish_scan("C:".to_string(), gen + 1, RootScanState::Done, arena.clone(), 0, Vec::new()));
    assert_eq!(e.search("txt", 500, None, None).hits[0].name, "old.txt");
    // The current, complete walk swaps in its arena.
    assert!(e.finish_scan("C:".to_string(), gen, RootScanState::Done, arena, 3, vec!["C:\\x".to_string()]));
    assert_eq!(e.search("txt", 500, None, None).hits[0].name, "new.txt");
    let st = e.status_snapshot();
    assert_eq!(st[0].state, RootScanState::Done);
    assert_eq!(st[0].skipped_dirs, 3);
    assert!(!st[0].loaded_from_disk);
    assert!(!e.any_scanning());
}

#[test]
fn stale_progress_is_ignored_and_disabled_roots_are_dropped() {
    let mut e = engine_with(&[
        ("C:", &[("C:\\a.txt", false, 1, 0)][..]),
        ("D:", &[("D:\\b.txt", false, 1, 0)][..]),
    ]);
    let gen = e.begin_scan(&vec![resolved("D:")]);
    assert_eq!(e.snapshot().len(), 1);
    assert_eq!(e.snapshot()[0].root, "D:");
    assert!(!e.mark_scanning("D:", gen + 7));
    e.record_progress("D:", gen + 7, 99);
    assert_eq!(e.status_snapshot()[0].scanned_count, 0);
    assert_eq!(e.status_snapshot()[0].state, RootScanState::Pending);
}

#[test]
fn loaded_indexes_are_served_and_reported() {
    let mut e = IndexEngine::new();
    let mut b = ArenaBuilder::new();
    b.push("D:\\x.txt", false, 1, 0);
    b.push("D:\\y.txt", false, 1, 0);
    let loaded = vec![RootIndex { root: "D:".to_string(), arena: Arc::new(b.finish()) }];
    e.install_loaded(&vec![resolved("C:"), resolved("D:")], loaded);
    let st = e.status_snapshot();
    assert_eq!(st.len(), 2);
    assert_eq!(st[0].root, "C:");
    assert_eq!(st[0].state, RootScanState::Pending);
    assert_eq!(st[1].state, RootScanState::Done);
    assert_eq!(st[1].scanned_count, 2);
    assert!(st[1].loaded_from_disk);
    assert_eq!(e.search("txt", 500, None, None).total_matched, 2);
}

#[test]
fn pause_flag_round_trips() {
    let mut e = IndexEngine::new();
    assert!(!e.is_paused());
    e.set_paused(true);
    assert!(e.is_paused());
}

#[test]
fn a_rescan_supersedes_the_scan_in_flight() {
    let mut e = single(&[("C:\\old.txt", false, 1, 0)]);
    let first = e.begin_scan(&vec![resolved("C:")]);
    assert!(e.mark_scanning("C:", first));
    let second = e.begin_scan(&vec![resolved("C:")]);
    assert_ne!(first, second);
    assert_eq!(e.current_generation_value(), second);
    let mut b = ArenaBuilder::new();
    b.push("C:\\stale.txt", false, 1, 0);
    assert!(!e.finish_scan("C:".to_string(), first, RootScanState::Done, Arc::new(b.finish()), 0, Vec::new()));
    assert_eq!(e.search("txt", 500, None, None).hits[0].name, "old.txt");
    assert_eq!(e.status_snapshot()[0].state, RootScanState::Pending);
}

#[test]
fn hits_are_capped_at_the_limit_or_the_match_count() {
    let e = single(&[("C:\\a.txt", false, 1, 0), ("C:\\b.txt", false, 2, 0), ("C:\\c.txt", false, 3, 0)]);
    let capped = e.search("txt", 2, None, None);
    assert_eq!(capped.hits.len(), 2);
    assert_eq!(capped.total_matched, 3);
    let all = e.search("txt", 10, None, Some(SortSpec { column: SortColumn::Size, descending: false }));
    assert_eq!(all.hits.len(), 3);
    assert_eq!(all.total_matched, capped.total_matched);
    assert_eq!(all.total_indexed, capped.total_indexed);
}

#[test]
fn loaded_roots_differing_only_in_case_keep_the_last() {
    let mut e = IndexEngine::new();
    let mut b1 = ArenaBuilder::new();
    b1.push("C:\\x.txt", false, 1, 0);
    let mut b2 = ArenaBuilder::new();
    b2.push("c:\\y.txt", false, 1, 0);
    b2.push("c:\\z.txt", false, 1, 0);
    let loaded = vec![
        RootIndex { root: "C:".to_string(), arena: Arc::new(b1.finish()) },
        RootIndex { root: "c:".to_string(), arena: Arc::new(b2.finish()) },
    ];
    e.install_loaded(&vec![resolved("C:"), resolved("c:")], loaded);
    let roots = e.snapshot();
    assert_eq!(roots.len(), 1);
    assert_eq!(roots[0].root, "c:");
    assert_eq!(e.search("txt", 500, None, None).total_matched, 2);
}

#[test]
fn a_filter_without_includes_never_matches_nothing() {
    let mut b = ArenaBuilder::new();
    b.push("C:\\Projects\\a.txt", false, 1, 0);
    let arena = b.finish();
    assert!(!ScopeFilter::build(&arena, None).matches_nothing());
    assert!(!ScopeFilter::build(&arena, Some(&[])).matches_nothing());
    let elsewhere = vec!["z:\\nowhere".to_string()];
    assert!(ScopeFilter::build(&arena, Some(&elsewhere)).matches_nothing());
}

#[test]
fn full_paths_compare_as_joined_bytes() {
    assert_eq!(path_order(b"C:\\a", b"zzz", b"C:\\a\\b", b"x"), Order::Greater);
    assert_eq!(path_order(b"C:\\a", b"b", b"C:\\a", b"b"), Order::Equal);
    assert_eq!(path_order(b"C:", b"a", b"C:", b"b"), Order::Less);
}
