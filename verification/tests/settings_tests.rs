use flexfind::settings::{default_columns, default_exclude_paths, normalize_columns, reconcile_roots, ColumnConfig, ScanRoot, Settings};

fn drives() -> Vec<(String, String)> {
    vec![("C:".into(), "Windows".into()), ("D:".into(), "Data".into())]
}

#[test]
fn migrates_legacy_enabled_drives() {
    let s = Settings { enabled_drives: vec!["C:".into()], ..Default::default() };
    let out = reconcile_roots(s, &drives());
    assert_eq!(out.scan_roots.len(), 2);
    let c = out.scan_roots.iter().find(|r| r.path == "C:").unwrap();
    let d = out.scan_roots.iter().find(|r| r.path == "D:").unwrap();
    assert!(c.enabled && c.is_drive);
    assert!(!d.enabled);
    assert!(out.enabled_drives.is_empty());
}

#[test]
fn fresh_install_enables_all_drives() {
    let out = reconcile_roots(Settings::default(), &drives());
    assert_eq!(out.scan_roots.len(), 2);
    assert!(out.scan_roots.iter().all(|r| r.enabled && r.is_drive));
}

#[test]
fn adds_new_drive_and_keeps_custom_root() {
    let s = Settings {
        scan_roots: vec![
            ScanRoot { path: "C:".into(), enabled: true, is_drive: true },
            ScanRoot { path: "\\\\nas\\share".into(), enabled: true, is_drive: false },
        ],
        ..Default::default()
    };
    let out = reconcile_roots(s, &drives());
    assert!(out.scan_roots.iter().any(|r| r.path == "D:" && r.enabled && r.is_drive));
    assert!(out.scan_roots.iter().any(|r| r.path == "\\\\nas\\share" && !r.is_drive));
    assert_eq!(out.scan_roots.iter().filter(|r| r.path == "C:").count(), 1);
}

#[test]
fn an_absent_known_drive_is_kept() {
    let s = Settings {
        scan_roots: vec![ScanRoot { path: "E:".into(), enabled: false, is_drive: true }],
        ..Default::default()
    };
    let out = reconcile_roots(s, &drives());
    assert_eq!(out.scan_roots.len(), 3);
    assert_eq!(out.scan_roots[0].path, "E:");
    assert!(!out.scan_roots[0].enabled);
}

#[test]
fn defaults_are_the_documented_ones() {
    let s = Settings::default();
    assert_eq!(s.theme, "flex-light");
    assert_eq!(s.hotkey, "Ctrl+Space");
    assert_eq!(s.reindex_mode, "interval");
    assert_eq!(s.reindex_interval_minutes, 30);
    assert_eq!(s.reindex_daily_time, "03:00");
    assert!(s.exclude_shortcuts && !s.exclude_hidden && !s.exclude_system);
    assert_eq!(s.exclude_paths, default_exclude_paths());
    assert_eq!(s.columns.len(), default_columns().len());
}

#[test]
fn unknown_columns_are_dropped_and_missing_ones_restored() {
    let cols = vec![
        ColumnConfig { id: "size".into(), width: 111 },
        ColumnConfig { id: "bogus".into(), width: 5 },
    ];
    let out = normalize_columns(cols);
    assert_eq!(out.len(), default_columns().len());
    assert_eq!(out[0].id, "size");
    assert_eq!(out[0].width, 111);
    assert!(out.iter().all(|c| c.id != "bogus"));
}
