use flexfind::types::{ArenaBuilder, IndexArena};

fn build(paths: &[(&str, bool)]) -> IndexArena {
    let mut b = ArenaBuilder::new();
    for (p, folder) in paths {
        b.push(p, *folder, 10, 100);
    }
    b.finish()
}

#[test]
fn derives_name_dir_ext_like_the_old_entry_layout() {
    let a = build(&[("C:\\Projects\\Report.docx", false)]);
    assert_eq!(a.name(0), "Report.docx");
    assert_eq!(a.name_lower(0), "report.docx");
    assert_eq!(a.dir(0), "C:\\Projects");
    assert_eq!(a.ext(0), "docx");
    assert_eq!(a.size(0), 10);
    assert_eq!(a.full_path(0), "C:\\Projects\\Report.docx");
}

#[test]
fn folder_has_no_ext_and_dotfile_has_no_ext() {
    let a = build(&[("C:\\p\\node_modules", true), ("C:\\p\\.gitignore", false)]);
    assert_eq!(a.ext(0), "");
    assert!(a.folder(0));
    assert_eq!(a.ext(1), "");
}

#[test]
fn directories_are_interned_not_repeated() {
    let a = build(&[
        ("C:\\same\\a.txt", false),
        ("C:\\same\\b.txt", false),
        ("C:\\other\\c.txt", false),
    ]);
    assert_eq!(a.dir_count(), 2);
    assert_eq!(a.dir_id(0), a.dir_id(1));
    assert_ne!(a.dir_id(0), a.dir_id(2));
    assert_eq!(a.dir_lower_by_id(a.dir_id(0)), "c:\\same");
}

#[test]
fn interning_survives_alternating_directories() {
    let a = build(&[
        ("C:\\x\\1.txt", false),
        ("C:\\y\\2.txt", false),
        ("C:\\x\\3.txt", false),
    ]);
    assert_eq!(a.dir_count(), 2);
    assert_eq!(a.dir_id(0), a.dir_id(2));
}

#[test]
fn extensions_are_interned_and_resolvable() {
    let a = build(&[("C:\\a\\x.png", false), ("C:\\a\\y.PNG", false)]);
    assert_eq!(a.ext_id(0), a.ext_id(1));
    assert_eq!(a.find_ext_id("png"), Some(a.ext_id(0)));
    assert_eq!(a.find_ext_id("jpg"), None);
}

#[test]
fn full_path_round_trips_unc_roots() {
    let a = build(&[("\\\\nas\\share\\docs\\a.txt", false)]);
    assert_eq!(a.dir(0), "\\\\nas\\share\\docs");
    assert_eq!(a.full_path(0), "\\\\nas\\share\\docs\\a.txt");
    assert_eq!(a.full_path_lower(0), "\\\\nas\\share\\docs\\a.txt");
}

#[test]
fn handles_multibyte_names() {
    let a = build(&[("C:\\docs\\レポート.docx", false), ("C:\\docs\\next.txt", false)]);
    assert_eq!(a.name(0), "レポート.docx");
    assert_eq!(a.name(1), "next.txt");
    assert_eq!(a.ext(0), "docx");
}

#[test]
fn freshly_built_arena_is_valid() {
    let a = build(&[("C:\\a\\x.png", false), ("C:\\b\\y", true)]);
    assert!(a.is_valid());
    assert!(IndexArena::default().is_valid());
}

#[test]
fn truncated_arena_is_rejected() {
    let a = build(&[("C:\\a\\x.png", false), ("C:\\a\\y.png", false)]);
    let (nl, nlo, n, no, d, dl, e, di, ei, mut size, m, f) = a.into_raw_parts();
    size.pop();
    let a = IndexArena::from_raw_parts(nl, nlo, n, no, d, dl, e, di, ei, size, m, f);
    assert!(!a.is_valid());
}

#[test]
fn raw_parts_round_trip_keeps_every_entry() {
    let a = build(&[("C:\\a\\x.png", false), ("D:\\b\\Y.txt", true)]);
    let (nl, nlo, n, no, d, dl, e, di, ei, size, m, f) = a.into_raw_parts();
    let b = IndexArena::from_raw_parts(nl, nlo, n, no, d, dl, e, di, ei, size, m, f);
    assert!(b.is_valid());
    assert_eq!(b.len(), 2);
    assert_eq!(b.full_path(1), "D:\\b\\Y.txt");
    assert_eq!(b.name_lower(1), "y.txt");
    assert!(b.folder(1));
    assert_eq!(b.ext(1), "");
}

#[test]
fn root_level_entry_has_an_empty_directory() {
    let a = build(&[("a.txt", false)]);
    assert_eq!(a.dir(0), "");
    assert_eq!(a.full_path(0), "a.txt");
}

#[test]
fn modified_and_folder_columns_are_kept() {
    let mut b = ArenaBuilder::with_capacity(4);
    assert!(b.push("C:\\x\\f.bin", false, 7, -5));
    let a = b.finish();
    assert_eq!(a.size(0), 7);
    assert_eq!(a.modified(0), -5);
    assert!(!a.folder(0));
}

#[test]
fn memory_accounting_is_exact() {
    let a = build(&[("C:\\ab\\c.d", false)]);
    let m = a.memory();
    assert_eq!(m.entries, 1);
    assert_eq!(m.dirs, 1);
    assert_eq!(m.exts, 1);
    assert_eq!(m.names_lower_bytes, 3 + 8);
    assert_eq!(m.names_bytes, 3 + 8);
    assert_eq!(m.column_bytes, 25);
    assert_eq!(m.scanned_bytes, m.names_lower_bytes);
    assert_eq!(
        m.total_bytes,
        m.names_lower_bytes + m.names_bytes + m.dir_bytes + m.ext_bytes + m.column_bytes
    );
}

#[test]
fn memory_counts_every_name_and_offset() {
    let a = build(&[("C:\\p\\Alpha.txt", false), ("C:\\p\\beta", true)]);
    let m = a.memory();
    assert_eq!(m.entries, 2);
    assert_eq!(m.names_lower_bytes, ("alpha.txt".len() + "beta".len() + 4 * 3) as u64);
    assert_eq!(m.names_bytes, ("Alpha.txt".len() + "beta".len() + 4 * 3) as u64);
    assert_eq!(m.column_bytes, 50);
    assert_eq!(m.scanned_bytes, m.names_lower_bytes);
    assert_eq!(m.total_bytes, m.names_lower_bytes + m.names_bytes + m.dir_bytes + m.ext_bytes + m.column_bytes);
}
