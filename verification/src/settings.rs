//! The settings model: indexing roots, saved search scopes, result-table
//! columns and preferences, with their defaults, and the reconciliation of
//! configured roots against the drives actually present. Reading and
//! writing `settings.json` lives with the application.

use vstd::prelude::*;
use vstd::string::StringSliceAdditionalSpecFns;
use crate::text::{utf8, str_eq, eq_ignore_ascii_case, eq_ignore_ascii_case_spec, to_lower, lower, trim_end_seps, trim_end_separators};
use crate::order::lex;
use vstd::utf8::decode_utf8;

verus! {

/// One indexing root: a drive (`"C:"`), a local folder (`"D:\\Data"`), or a
/// UNC file-server path (`"\\\\nas\\share"`).
pub struct ScanRoot {
    pub path: String,
    pub enabled: bool,
    /// Auto-detected drive (reconciled against live drives on load; not
    /// user-removable in the UI). Custom folder/UNC roots have `false`.
    pub is_drive: bool,
}

impl View for ScanRoot {
    type V = (Seq<char>, bool, bool);

    open spec fn view(&self) -> (Seq<char>, bool, bool) {
        (self.path@, self.enabled, self.is_drive)
    }
}

impl Clone for ScanRoot {
    fn clone(&self) -> (r: Self)
        ensures
            r@ == self@,
    {
        ScanRoot { path: self.path.clone(), enabled: self.enabled, is_drive: self.is_drive }
    }
}

impl Default for ScanRoot {
    fn default() -> (r: Self)
        ensures
            r@ == (Seq::<char>::empty(), true, false),
    {
        ScanRoot { path: String::new(), enabled: true, is_drive: false }
    }
}

/// A named, saved search scope: a search restricted to entries under one of
/// `include_paths`. Distinct from scan roots (what gets indexed) — a scope
/// filters within the already-built index.
pub struct SearchScope {
    pub id: String,
    pub name: String,
    pub include_paths: Vec<String>,
}

impl Default for SearchScope {
    fn default() -> (r: Self)
        ensures
            r.id@ == Seq::<char>::empty(),
            r.name@ == Seq::<char>::empty(),
            r.include_paths@.len() == 0,
    {
        SearchScope { id: String::new(), name: String::new(), include_paths: Vec::new() }
    }
}

/// One result-table column's persisted layout. `id` is one of
/// "name"/"path"/"size"/"modified"; order in the `Vec` is the column order.
pub struct ColumnConfig {
    pub id: String,
    pub width: u32,
}

impl View for ColumnConfig {
    type V = (Seq<char>, u32);

    open spec fn view(&self) -> (Seq<char>, u32) {
        (self.id@, self.width)
    }
}

impl Clone for ColumnConfig {
    fn clone(&self) -> (r: Self)
        ensures
            r@ == self@,
    {
        ColumnConfig { id: self.id.clone(), width: self.width }
    }
}

impl Default for ColumnConfig {
    fn default() -> (r: Self)
        ensures
            r@ == (Seq::<char>::empty(), 160u32),
    {
        ColumnConfig { id: String::new(), width: 160 }
    }
}

/// The four columns in their default order and widths.
pub open spec fn default_columns_spec() -> Seq<(Seq<char>, u32)> {
    seq![("name"@, 240u32), ("path"@, 320u32), ("size"@, 84u32), ("modified"@, 132u32)]
}

/// The default column layout.
pub fn default_columns() -> (r: Vec<ColumnConfig>)
    ensures
        r@.map_values(|c: ColumnConfig| c@) == default_columns_spec(),
{
    let r = vec![
        ColumnConfig { id: "name".to_owned(), width: 240 },
        ColumnConfig { id: "path".to_owned(), width: 320 },
        ColumnConfig { id: "size".to_owned(), width: 84 },
        ColumnConfig { id: "modified".to_owned(), width: 132 },
    ];
    assert(r@.map_values(|c: ColumnConfig| c@) =~= default_columns_spec());
    r
}

/// A known column id.
pub open spec fn valid_column_id(id: Seq<char>) -> bool {
    id == "name"@ || id == "path"@ || id == "size"@ || id == "modified"@
}

/// The columns whose id is known, in their saved order.
pub open spec fn known_columns(cols: Seq<(Seq<char>, u32)>) -> Seq<(Seq<char>, u32)>
    decreases cols.len(),
{
    if cols.len() == 0 {
        Seq::empty()
    } else if valid_column_id(cols.last().0) {
        known_columns(cols.drop_last()).push(cols.last())
    } else {
        known_columns(cols.drop_last())
    }
}

/// Appends each default column whose id is not present yet, in default
/// order.
pub open spec fn with_missing_defaults(cols: Seq<(Seq<char>, u32)>, defaults: Seq<(Seq<char>, u32)>) -> Seq<(Seq<char>, u32)>
    decreases defaults.len(),
{
    if defaults.len() == 0 {
        cols
    } else {
        let d = defaults[0];
        let next = if exists|i: int| 0 <= i < cols.len() && cols[i].0 == d.0 {
            cols
        } else {
            cols.push(d)
        };
        with_missing_defaults(next, defaults.drop_first())
    }
}

/// Fill in any missing default columns and drop unknown ids, preserving the
/// user's saved order/width for the ones that are valid — so a config that
/// predates a column (or has junk) still yields all four in a sane state.
pub fn normalize_columns(cols: Vec<ColumnConfig>) -> (r: Vec<ColumnConfig>)
    ensures
        r@.map_values(|c: ColumnConfig| c@) == with_missing_defaults(
            known_columns(cols@.map_values(|c: ColumnConfig| c@)),
            default_columns_spec(),
        ),
{
    let mut out: Vec<ColumnConfig> = Vec::new();
    let mut k: usize = 0;
    while k < cols.len()
        invariant
            k <= cols@.len(),
            out@.map_values(|c: ColumnConfig| c@) == known_columns(cols@.subrange(0, k as int).map_values(|c: ColumnConfig| c@)),
        decreases cols.len() - k,
    {
        let id = cols[k].id.as_str();
        let keep = str_eq(id, "name") || str_eq(id, "path") || str_eq(id, "size") || str_eq(id, "modified");
        let ghost before = cols@.subrange(0, k as int).map_values(|c: ColumnConfig| c@);
        let ghost after = cols@.subrange(0, k + 1).map_values(|c: ColumnConfig| c@);
        assert(after.drop_last() =~= before);
        assert(after.last() == cols@[k as int]@);
        if keep {
            out.push(cols[k].clone());
            assert(out@.map_values(|c: ColumnConfig| c@) =~= known_columns(before).push(cols@[k as int]@));
        }
        k = k + 1;
    }
    assert(cols@.subrange(0, cols@.len() as int) =~= cols@);
    let defaults = default_columns();
    assert(default_columns_spec().subrange(0, 4) =~= default_columns_spec());
    let mut j: usize = 0;
    while j < defaults.len()
        invariant
            j <= defaults@.len(),
            defaults@.map_values(|c: ColumnConfig| c@) == default_columns_spec(),
            with_missing_defaults(out@.map_values(|c: ColumnConfig| c@), default_columns_spec().subrange(j as int, 4))
                == with_missing_defaults(
                known_columns(cols@.map_values(|c: ColumnConfig| c@)),
                default_columns_spec(),
            ),
        decreases defaults.len() - j,
    {
        let ghost cur = out@.map_values(|c: ColumnConfig| c@);
        let ghost rest = default_columns_spec().subrange(j as int, 4);
        assert(rest[0] == defaults@[j as int]@);
        assert(rest.drop_first() =~= default_columns_spec().subrange(j + 1, 4));
        let mut present = false;
        let mut i: usize = 0;
        while i < out.len()
            invariant
                j < defaults@.len(),
                i <= out@.len(),
                cur == out@.map_values(|c: ColumnConfig| c@),
                present == exists|m: int| 0 <= m < i && cur[m].0 == defaults@[j as int].id@,
            decreases out.len() - i,
        {
            if str_eq(out[i].id.as_str(), defaults[j].id.as_str()) {
                present = true;
            }
            assert(cur[i as int] == out@[i as int]@);
            i = i + 1;
        }
        if !present {
            out.push(defaults[j].clone());
            assert(out@.map_values(|c: ColumnConfig| c@) =~= cur.push(defaults@[j as int]@));
        }
        j = j + 1;
    }
    assert(default_columns_spec().subrange(4, 4) =~= Seq::<(Seq<char>, u32)>::empty());
    out
}

/// The default exclude patterns.
pub open spec fn default_exclude_paths_spec() -> Seq<Seq<char>> {
    seq!["node_modules"@, ".git"@, "$recycle.bin"@, "system volume information"@]
}

/// `node_modules`, `.git`, `$recycle.bin` and `system volume information`.
pub fn default_exclude_paths() -> (r: Vec<String>)
    ensures
        r@.map_values(|s: String| s@) == default_exclude_paths_spec(),
{
    let r = vec![
        "node_modules".to_owned(),
        ".git".to_owned(),
        "$recycle.bin".to_owned(),
        "system volume information".to_owned(),
    ];
    assert(r@.map_values(|s: String| s@) =~= default_exclude_paths_spec());
    r
}

pub struct Settings {
    pub theme: String,
    /// Legacy v1 field (drive letters enabled for indexing). Read only to
    /// migrate into `scan_roots`; dropped on the next save.
    pub enabled_drives: Vec<String>,
    /// Indexing roots (drives + custom folders/UNC paths).
    pub scan_roots: Vec<ScanRoot>,
    /// Saved named search scopes.
    pub scopes: Vec<SearchScope>,
    /// Absolute path prefixes (e.g. "C:\\Windows") or bare folder-name
    /// patterns (e.g. "node_modules"), both case-insensitive — see
    /// `walker::is_excluded`.
    pub exclude_paths: Vec<String>,
    /// Everything-style result filters, checked per entry during the walk.
    pub exclude_hidden: bool,
    pub exclude_system: bool,
    /// Hides `.lnk` shortcut files from results.
    pub exclude_shortcuts: bool,
    /// Global-hotkey accelerator string, e.g. "Ctrl+Space".
    pub hotkey: String,
    pub launch_at_login: bool,
    pub start_minimized_to_tray: bool,
    pub auto_check_updates: bool,
    /// Background index-refresh schedule: `"interval"`, `"daily"` or
    /// `"manual"`.
    pub reindex_mode: String,
    /// Minutes between refreshes when `reindex_mode == "interval"`.
    pub reindex_interval_minutes: u32,
    /// Local wall-clock time ("HH:MM", 24h) for the daily refresh.
    pub reindex_daily_time: String,
    /// Result-table column order + widths.
    pub columns: Vec<ColumnConfig>,
}

impl Default for Settings {
    fn default() -> (r: Self)
        ensures
            r.theme@ == "flex-light"@,
            r.enabled_drives@.len() == 0,
            r.scan_roots@.len() == 0,
            r.scopes@.len() == 0,
            r.exclude_paths@.map_values(|s: String| s@) == default_exclude_paths_spec(),
            !r.exclude_hidden,
            !r.exclude_system,
            r.exclude_shortcuts,
            r.hotkey@ == "Ctrl+Space"@,
            r.launch_at_login,
            r.start_minimized_to_tray,
            !r.auto_check_updates,
            r.reindex_mode@ == "interval"@,
            r.reindex_interval_minutes == 30,
            r.reindex_daily_time@ == "03:00"@,
            r.columns@.map_values(|c: ColumnConfig| c@) == default_columns_spec(),
    {
        Settings {
            theme: "flex-light".to_owned(),
            enabled_drives: Vec::new(),
            scan_roots: Vec::new(),
            scopes: Vec::new(),
            exclude_paths: default_exclude_paths(),
            exclude_hidden: false,
            exclude_system: false,
            // On by default: shortcuts are rarely what someone is searching
            // for by name, and their presence alongside the real target is
            // the complaint this option exists to fix.
            exclude_shortcuts: true,
            hotkey: "Ctrl+Space".to_owned(),
            launch_at_login: true,
            start_minimized_to_tray: true,
            auto_check_updates: false,
            reindex_mode: "interval".to_owned(),
            reindex_interval_minutes: 30,
            reindex_daily_time: "03:00".to_owned(),
            columns: default_columns(),
        }
    }
}

/// A drive root for a detected drive letter, enabled as given.
pub open spec fn drive_root(letter: Seq<char>, enabled: bool) -> (Seq<char>, bool, bool) {
    (letter, enabled, true)
}

/// `roots` already has a root for `letter` (ASCII case-insensitively).
pub open spec fn knows_drive(roots: Seq<(Seq<char>, bool, bool)>, letter: Seq<char>) -> bool {
    exists|i: int| 0 <= i < roots.len() && eq_ignore_ascii_case_spec(utf8(roots[i].0), utf8(letter))
}

/// Appends an enabled drive root for each detected letter not known yet,
/// in detection order; existing roots pass through untouched.
pub open spec fn add_new_drives(roots: Seq<(Seq<char>, bool, bool)>, letters: Seq<Seq<char>>) -> Seq<(Seq<char>, bool, bool)>
    decreases letters.len(),
{
    if letters.len() == 0 {
        roots
    } else {
        let next = if knows_drive(roots, letters[0]) {
            roots
        } else {
            roots.push(drive_root(letters[0], true))
        };
        add_new_drives(next, letters.drop_first())
    }
}

/// The roots a first load synthesizes: one drive root per detected letter,
/// all enabled on a fresh install (no legacy list), otherwise enabled iff
/// the legacy list names the letter (ASCII case-insensitively).
pub open spec fn synthesized_roots(letters: Seq<Seq<char>>, legacy: Seq<Seq<char>>) -> Seq<(Seq<char>, bool, bool)> {
    Seq::new(
        letters.len(),
        |i: int|
            drive_root(
                letters[i],
                legacy.len() == 0 || exists|j: int| 0 <= j < legacy.len() && eq_ignore_ascii_case_spec(utf8(legacy[j]), utf8(letters[i])),
            ),
    )
}

/// The letters of a detected-drive list.
pub open spec fn letters_of(detected: Seq<(String, String)>) -> Seq<Seq<char>> {
    detected.map_values(|d: (String, String)| d.0@)
}

/// Reconcile `scan_roots` against the live set of `detected` drives, and
/// migrate the legacy `enabled_drives` field.
///
/// - No roots yet: synthesize one drive root per detected drive, enabled iff
///   the legacy list contained it — or all of them on a fresh install.
/// - Otherwise: add newly-detected drives (enabled); keep existing entries
///   even for drives that are momentarily absent; custom roots pass through.
///
/// Either way the legacy field ends up empty and everything else is kept.
pub fn reconcile_roots(s: Settings, detected: &[(String, String)]) -> (r: Settings)
    ensures
        r.enabled_drives@.len() == 0,
        r.scan_roots@.map_values(|x: ScanRoot| x@) == if s.scan_roots@.len() == 0 {
            synthesized_roots(letters_of(detected@), s.enabled_drives@.map_values(|d: String| d@))
        } else {
            add_new_drives(s.scan_roots@.map_values(|x: ScanRoot| x@), letters_of(detected@))
        },
        r.theme == s.theme,
        r.scopes == s.scopes,
        r.exclude_paths == s.exclude_paths,
        r.exclude_hidden == s.exclude_hidden,
        r.exclude_system == s.exclude_system,
        r.exclude_shortcuts == s.exclude_shortcuts,
        r.hotkey == s.hotkey,
        r.launch_at_login == s.launch_at_login,
        r.start_minimized_to_tray == s.start_minimized_to_tray,
        r.auto_check_updates == s.auto_check_updates,
        r.reindex_mode == s.reindex_mode,
        r.reindex_interval_minutes == s.reindex_interval_minutes,
        r.reindex_daily_time == s.reindex_daily_time,
        r.columns == s.columns,
{
    let mut s = s;
    let ghost s0 = s;
    let ghost letters = letters_of(detected@);
    if s.scan_roots.len() == 0 {
        let mut legacy: Vec<String> = Vec::new();
        std::mem::swap(&mut legacy, &mut s.enabled_drives);
        let enable_all = legacy.len() == 0;
        let ghost lv = legacy@.map_values(|d: String| d@);
        let mut roots: Vec<ScanRoot> = Vec::new();
        let mut k: usize = 0;
        while k < detected.len()
            invariant
                k <= detected@.len(),
                letters == letters_of(detected@),
                lv == legacy@.map_values(|d: String| d@),
                enable_all == (legacy@.len() == 0),
                roots@.map_values(|x: ScanRoot| x@) == synthesized_roots(letters, lv).subrange(0, k as int),
            decreases detected.len() - k,
        {
            let letter = detected[k].0.as_str();
            let mut listed = false;
            let mut j: usize = 0;
            while j < legacy.len()
                invariant
                    j <= legacy@.len(),
                    lv == legacy@.map_values(|d: String| d@),
                    listed == exists|m: int| 0 <= m < j && eq_ignore_ascii_case_spec(utf8(lv[m]), utf8(letter@)),
                decreases legacy.len() - j,
            {
                if eq_ignore_ascii_case(legacy[j].as_str(), letter) {
                    listed = true;
                }
                assert(lv[j as int] == legacy@[j as int]@);
                j = j + 1;
            }
            let ghost before = roots@.map_values(|x: ScanRoot| x@);
            let root = ScanRoot { path: letter.to_owned(), enabled: enable_all || listed, is_drive: true };
            assert(root@ == drive_root(letter@, enable_all || listed));
            roots.push(root);
            proof {
                assert(roots@.map_values(|x: ScanRoot| x@) =~= before.push(root@));
                assert(letters[k as int] == detected@[k as int].0@);
                assert(synthesized_roots(letters, lv)[k as int] == drive_root(letter@, enable_all || listed));
                assert(roots@.map_values(|x: ScanRoot| x@) =~= synthesized_roots(letters, lv).subrange(0, k + 1));
            }
            k = k + 1;
        }
        assert(synthesized_roots(letters, lv).subrange(0, detected@.len() as int) =~= synthesized_roots(letters, lv));
        s.scan_roots = roots;
    } else {
        assert(letters.subrange(0, letters.len() as int) =~= letters);
        let mut k: usize = 0;
        while k < detected.len()
            invariant
                k <= detected@.len(),
                letters == letters_of(detected@),
                s.theme == s0.theme,
                add_new_drives(s.scan_roots@.map_values(|x: ScanRoot| x@), letters.subrange(k as int, letters.len() as int))
                    == add_new_drives(s0.scan_roots@.map_values(|x: ScanRoot| x@), letters),
                s.enabled_drives == s0.enabled_drives,
                s.scopes == s0.scopes,
                s.exclude_paths == s0.exclude_paths,
                s.exclude_hidden == s0.exclude_hidden,
                s.exclude_system == s0.exclude_system,
                s.exclude_shortcuts == s0.exclude_shortcuts,
                s.hotkey == s0.hotkey,
                s.launch_at_login == s0.launch_at_login,
                s.start_minimized_to_tray == s0.start_minimized_to_tray,
                s.auto_check_updates == s0.auto_check_updates,
                s.reindex_mode == s0.reindex_mode,
                s.reindex_interval_minutes == s0.reindex_interval_minutes,
                s.reindex_daily_time == s0.reindex_daily_time,
                s.columns == s0.columns,
            decreases detected.len() - k,
        {
            let letter = detected[k].0.as_str();
            let ghost cur = s.scan_roots@.map_values(|x: ScanRoot| x@);
            let ghost rest = letters.subrange(k as int, letters.len() as int);
            assert(rest[0] == letter@);
            assert(rest.drop_first() =~= letters.subrange(k + 1, letters.len() as int));
            let mut known = false;
            let mut i: usize = 0;
            while i < s.scan_roots.len()
                invariant
                    i <= s.scan_roots@.len(),
                    cur == s.scan_roots@.map_values(|x: ScanRoot| x@),
                    known == exists|m: int| 0 <= m < i && eq_ignore_ascii_case_spec(utf8(cur[m].0), utf8(letter@)),
                decreases s.scan_roots.len() - i,
            {
                if eq_ignore_ascii_case(s.scan_roots[i].path.as_str(), letter) {
                    known = true;
                }
                assert(cur[i as int] == s.scan_roots@[i as int]@);
                i = i + 1;
            }
            if !known {
                s.scan_roots.push(ScanRoot { path: letter.to_owned(), enabled: true, is_drive: true });
                assert(s.scan_roots@.map_values(|x: ScanRoot| x@) =~= cur.push(drive_root(letter@, true)));
            }
            k = k + 1;
        }
        assert(letters.subrange(detected@.len() as int, letters.len() as int) =~= Seq::<Seq<char>>::empty());
        s.enabled_drives.clear();
    }
    s
}


proof fn lemma_knows_prefix(roots: Seq<(Seq<char>, bool, bool)>, more: Seq<(Seq<char>, bool, bool)>, l: Seq<char>)
    requires
        knows_drive(roots, l),
        more.len() >= roots.len(),
        more.subrange(0, roots.len() as int) == roots,
    ensures
        knows_drive(more, l),
{
    let i = choose|i: int| 0 <= i < roots.len() && eq_ignore_ascii_case_spec(utf8(roots[i].0), utf8(l));
    assert(more[i] == more.subrange(0, roots.len() as int)[i]);
}

/// Reconciling with newly detected drives keeps every existing root, in
/// place and unchanged (a momentarily absent drive is not dropped), only
/// appends enabled drive roots, and leaves every detected drive known.
pub proof fn lemma_add_new_drives(roots: Seq<(Seq<char>, bool, bool)>, letters: Seq<Seq<char>>)
    ensures
        add_new_drives(roots, letters).len() >= roots.len(),
        add_new_drives(roots, letters).subrange(0, roots.len() as int) == roots,
        forall|i: int| roots.len() <= i < add_new_drives(roots, letters).len() ==> (#[trigger] add_new_drives(roots, letters)[i]).1
            && add_new_drives(roots, letters)[i].2,
        forall|k: int| 0 <= k < letters.len() ==> knows_drive(add_new_drives(roots, letters), #[trigger] letters[k]),
    decreases letters.len(),
{
    if letters.len() > 0 {
        let l = letters[0];
        let next = if knows_drive(roots, l) {
            roots
        } else {
            roots.push(drive_root(l, true))
        };
        if !knows_drive(roots, l) {
            assert(eq_ignore_ascii_case_spec(utf8(l), utf8(l)));
            assert(next[roots.len() as int].0 == l);
            assert(knows_drive(next, l));
        }
        lemma_add_new_drives(next, letters.drop_first());
        let out = add_new_drives(next, letters.drop_first());
        assert(out == add_new_drives(roots, letters));
        assert(out.subrange(0, roots.len() as int) =~= next.subrange(0, roots.len() as int)) by {
            assert forall|i: int| 0 <= i < roots.len() implies out[i] == next[i] by {
                assert(out.subrange(0, next.len() as int)[i] == next[i]);
            }
        }
        assert(next.subrange(0, roots.len() as int) =~= roots);
        assert forall|i: int| roots.len() <= i < out.len() implies (#[trigger] out[i]).1 && out[i].2 by {
            if i < next.len() {
                assert(out[i] == out.subrange(0, next.len() as int)[i]);
            }
        }
        assert forall|k: int| 0 <= k < letters.len() implies knows_drive(out, #[trigger] letters[k]) by {
            if k == 0 {
                lemma_knows_prefix(next, out, l);
            } else {
                assert(letters[k] == letters.drop_first()[k - 1]);
            }
        }
    }
}

/// Adding drives that are all known already changes nothing.
proof fn lemma_add_known_drives(roots: Seq<(Seq<char>, bool, bool)>, letters: Seq<Seq<char>>)
    requires
        forall|k: int| 0 <= k < letters.len() ==> knows_drive(roots, #[trigger] letters[k]),
    ensures
        add_new_drives(roots, letters) == roots,
    decreases letters.len(),
{
    if letters.len() > 0 {
        assert(knows_drive(roots, letters[0]));
        assert forall|k: int| 0 <= k < letters.drop_first().len() implies knows_drive(roots, #[trigger] letters.drop_first()[k]) by {
            assert(letters.drop_first()[k] == letters[k + 1]);
        }
        lemma_add_known_drives(roots, letters.drop_first());
    }
}

/// Reconciling a second time against the same detected drives adds
/// nothing more.
pub proof fn lemma_add_new_drives_idempotent(roots: Seq<(Seq<char>, bool, bool)>, letters: Seq<Seq<char>>)
    ensures
        add_new_drives(add_new_drives(roots, letters), letters) == add_new_drives(roots, letters),
{
    lemma_add_new_drives(roots, letters);
    lemma_add_known_drives(add_new_drives(roots, letters), letters);
}


// ---------------------------------------------------------------------
// Detected drives

/// A detected drive as (letter, label).
pub type DriveView = (Seq<char>, Seq<char>);

/// The sort key of a drive letter: its lowercase form, as bytes.
pub open spec fn drive_key(letter: Seq<char>) -> Seq<u8> {
    utf8(lower(letter))
}

/// `s` with `d` inserted after every entry whose key sorts no later than
/// `d`'s (a stable insertion).
pub open spec fn insert_drive(s: Seq<DriveView>, d: DriveView) -> Seq<DriveView>
    decreases s.len(),
{
    if s.len() == 0 || lex(drive_key(d.0), drive_key(s.last().0)) >= 0 {
        s.push(d)
    } else {
        insert_drive(s.drop_last(), d).push(s.last())
    }
}

/// `ds` stably sorted by lowercased letter.
pub open spec fn sort_drives(ds: Seq<DriveView>) -> Seq<DriveView>
    decreases ds.len(),
{
    if ds.len() == 0 {
        Seq::empty()
    } else {
        insert_drive(sort_drives(ds.drop_last()), ds.last())
    }
}

/// `ds` with every entry whose letter equals the previous kept one's,
/// ASCII case-insensitively, dropped.
pub open spec fn dedup_drives(ds: Seq<DriveView>) -> Seq<DriveView>
    decreases ds.len(),
{
    if ds.len() == 0 {
        Seq::empty()
    } else {
        let d = dedup_drives(ds.drop_last());
        if d.len() > 0 && eq_ignore_ascii_case_spec(utf8(d.last().0), utf8(ds.last().0)) {
            d
        } else {
            d.push(ds.last())
        }
    }
}

/// Mount points as drive letters: trailing separators trimmed, empty ones
/// dropped.
pub open spec fn drive_letters(raw: Seq<DriveView>) -> Seq<DriveView>
    decreases raw.len(),
{
    if raw.len() == 0 {
        Seq::empty()
    } else {
        let t = decode_utf8(trim_end_seps(utf8(raw.last().0)));
        drive_letters(raw.drop_last()) + if t.len() > 0 {
            seq![(t, raw.last().1)]
        } else {
            Seq::empty()
        }
    }
}

/// The drives as values.
pub open spec fn drive_views(v: Seq<(String, String)>) -> Seq<DriveView> {
    v.map_values(|d: (String, String)| (d.0@, d.1@))
}

proof fn lemma_insert_drive_at(s: Seq<DriveView>, d: DriveView, pos: int)
    requires
        0 <= pos <= s.len(),
        forall|q: int| pos <= q < s.len() ==> lex(drive_key(d.0), drive_key((#[trigger] s[q]).0)) < 0,
        pos > 0 ==> lex(drive_key(d.0), drive_key(s[pos - 1].0)) >= 0,
    ensures
        insert_drive(s, d) == s.insert(pos, d),
    decreases s.len(),
{
    if s.len() == pos {
        assert(s.push(d) =~= s.insert(pos, d));
    } else {
        let t = s.drop_last();
        assert forall|q: int| pos <= q < t.len() implies lex(drive_key(d.0), drive_key((#[trigger] t[q]).0)) < 0 by {
            assert(t[q] == s[q]);
        }
        if pos > 0 {
            assert(t[pos - 1] == s[pos - 1]);
        }
        lemma_insert_drive_at(t, d, pos);
        assert(insert_drive(t, d).push(s.last()) =~= s.insert(pos, d));
    }
}

/// Normalizes the drives the system reports: each mount point's trailing
/// separators trimmed (`"C:\"` becomes `"C:"`), empty ones dropped, sorted
/// by lowercased letter (stably), and later duplicates (ASCII
/// case-insensitively equal letters) dropped.
pub fn normalize_drives(raw: Vec<(String, String)>) -> (r: Vec<(String, String)>)
    ensures
        drive_views(r@) == dedup_drives(sort_drives(drive_letters(drive_views(raw@)))),
{
    let ghost rv = drive_views(raw@);
    let mut sorted: Vec<(String, String)> = Vec::new();
    let mut keys: Vec<String> = Vec::new();
    let mut k: usize = 0;
    while k < raw.len()
        invariant
            rv == drive_views(raw@),
            k <= raw@.len(),
            keys@.len() == sorted@.len(),
            forall|p: int| 0 <= p < keys@.len() ==> utf8((#[trigger] keys@[p])@) == drive_key(sorted@[p].0@),
            drive_views(sorted@) == sort_drives(drive_letters(rv.subrange(0, k as int))),
        decreases raw.len() - k,
    {
        proof {
            assert(rv.subrange(0, k + 1).drop_last() =~= rv.subrange(0, k as int));
            assert(rv.subrange(0, k + 1).last() == (raw@[k as int].0@, raw@[k as int].1@));
        }
        let t = trim_end_separators(raw[k].0.as_str());
        proof {
            crate::text::lemma_decode_bytes(t);
        }
        if t.as_bytes().len() == 0 {
            proof {
                assert(t@.len() == 0);
                assert(drive_letters(rv.subrange(0, k + 1)) =~= drive_letters(rv.subrange(0, k as int)));
            }
        } else {
            let letter = t.to_owned();
            let label = raw[k].1.clone();
            let key = to_lower(letter.as_str());
            let ghost item = (letter@, label@);
            let ghost sv = drive_views(sorted@);
            let ghost kv = keys@;
            proof {
                let l0 = drive_letters(rv.subrange(0, k as int));
                assert(drive_letters(rv.subrange(0, k + 1)) =~= l0.push(item));
                assert(l0.push(item).drop_last() =~= l0);
                assert(l0.push(item).last() == item);
                assert(sort_drives(l0.push(item)) == insert_drive(sort_drives(l0), item));
            }
            let mut pos = sorted.len();
            while pos > 0
                invariant
                    drive_views(sorted@) == sv,
                    keys@ == kv,
                    kv.len() == sv.len(),
                    forall|p: int| 0 <= p < kv.len() ==> utf8((#[trigger] kv[p])@) == drive_key(sv[p].0),
                    utf8(key@) == drive_key(item.0),
                    pos <= sv.len(),
                    forall|q: int| pos <= q < sv.len() ==> lex(drive_key(item.0), drive_key((#[trigger] sv[q]).0)) < 0,
                ensures
                    pos <= sv.len(),
                    forall|q: int| pos <= q < sv.len() ==> lex(drive_key(item.0), drive_key((#[trigger] sv[q]).0)) < 0,
                    pos > 0 ==> lex(drive_key(item.0), drive_key(sv[pos - 1].0)) >= 0,
                decreases pos,
            {
                assert(utf8(keys@[pos - 1]@) == drive_key(sv[pos - 1].0));
                match crate::order::lex_bytes(key.as_str().as_bytes(), keys[pos - 1].as_str().as_bytes()) {
                    crate::order::Order::Less => {
                        pos = pos - 1;
                    },
                    _ => {
                        break;
                    },
                }
            }
            proof {
                lemma_insert_drive_at(sv, item, pos as int);
            }
            sorted.insert(pos, (letter, label));
            keys.insert(pos, key);
            proof {
                assert(drive_views(sorted@) =~= sv.insert(pos as int, item));
                assert forall|p: int| 0 <= p < keys@.len() implies utf8((#[trigger] keys@[p])@) == drive_key(sorted@[p].0@) by {
                    if p < pos {
                        assert(keys@[p] == kv[p]);
                        assert(sorted@[p].0@ == sv[p].0);
                    } else if p > pos {
                        assert(keys@[p] == kv[p - 1]);
                        assert(sorted@[p].0@ == sv[p - 1].0);
                    }
                }
            }
        }
        k = k + 1;
    }
    proof {
        assert(rv.subrange(0, k as int) =~= rv);
    }
    let ghost sv = drive_views(sorted@);
    let mut out: Vec<(String, String)> = Vec::new();
    let mut i: usize = 0;
    while i < sorted.len()
        invariant
            sv == drive_views(sorted@),
            i <= sorted@.len(),
            drive_views(out@) == dedup_drives(sv.subrange(0, i as int)),
        decreases sorted.len() - i,
    {
        proof {
            assert(sv.subrange(0, i + 1).drop_last() =~= sv.subrange(0, i as int));
            assert(sv.subrange(0, i + 1).last() == sv[i as int]);
        }
        let dup = out.len() > 0 && eq_ignore_ascii_case(out[out.len() - 1].0.as_str(), sorted[i].0.as_str());
        if !dup {
            let ghost before = out@;
            out.push((sorted[i].0.clone(), sorted[i].1.clone()));
            proof {
                assert(drive_views(out@) =~= drive_views(before).push(sv[i as int]));
            }
        }
        i = i + 1;
    }
    proof {
        assert(sv.subrange(0, i as int) =~= sv);
    }
    out
}


// ---------------------------------------------------------------------
// Loading

/// Every field but the columns, the roots and the legacy list has its
/// default value.
pub open spec fn default_rest(r: Settings) -> bool {
    &&& r.theme@ == "flex-light"@
    &&& r.scopes@.len() == 0
    &&& r.exclude_paths@.map_values(|s: String| s@) == default_exclude_paths_spec()
    &&& !r.exclude_hidden
    &&& !r.exclude_system
    &&& r.exclude_shortcuts
    &&& r.hotkey@ == "Ctrl+Space"@
    &&& r.launch_at_login
    &&& r.start_minimized_to_tray
    &&& !r.auto_check_updates
    &&& r.reindex_mode@ == "interval"@
    &&& r.reindex_interval_minutes == 30
    &&& r.reindex_daily_time@ == "03:00"@
}

/// Every field but the columns, the roots and the legacy list is the same
/// in `r` and `s`.
pub open spec fn same_rest(r: Settings, s: Settings) -> bool {
    &&& r.theme == s.theme
    &&& r.scopes == s.scopes
    &&& r.exclude_paths == s.exclude_paths
    &&& r.exclude_hidden == s.exclude_hidden
    &&& r.exclude_system == s.exclude_system
    &&& r.exclude_shortcuts == s.exclude_shortcuts
    &&& r.hotkey == s.hotkey
    &&& r.launch_at_login == s.launch_at_login
    &&& r.start_minimized_to_tray == s.start_minimized_to_tray
    &&& r.auto_check_updates == s.auto_check_updates
    &&& r.reindex_mode == s.reindex_mode
    &&& r.reindex_interval_minutes == s.reindex_interval_minutes
    &&& r.reindex_daily_time == s.reindex_daily_time
}

/// The settings a load yields from what was stored (`None` when nothing
/// could be read or parsed, which falls back to the defaults): the column
/// layout normalized, and the scan roots reconciled against the drives
/// detected now.
pub fn settings_after_load(stored: Option<Settings>, detected: &[(String, String)]) -> (r: Settings)
    ensures
        r.enabled_drives@.len() == 0,
        r.columns@.map_values(|c: ColumnConfig| c@) == with_missing_defaults(
            known_columns(
                match stored {
                    Some(s) => s.columns@.map_values(|c: ColumnConfig| c@),
                    None => default_columns_spec(),
                },
            ),
            default_columns_spec(),
        ),
        r.scan_roots@.map_values(|x: ScanRoot| x@) == (match stored {
            Some(s) => if s.scan_roots@.len() == 0 {
                synthesized_roots(letters_of(detected@), s.enabled_drives@.map_values(|d: String| d@))
            } else {
                add_new_drives(s.scan_roots@.map_values(|x: ScanRoot| x@), letters_of(detected@))
            },
            None => synthesized_roots(letters_of(detected@), Seq::empty()),
        }),
        stored matches Some(s) ==> same_rest(r, s),
        stored is None ==> default_rest(r),
{
    let mut s = match stored {
        Some(s) => s,
        None => Settings::default(),
    };
    let ghost s0 = s;
    let mut cols: Vec<ColumnConfig> = Vec::new();
    std::mem::swap(&mut cols, &mut s.columns);
    s.columns = normalize_columns(cols);
    proof {
        if stored is None {
            assert(s0.enabled_drives@.map_values(|d: String| d@) =~= Seq::<Seq<char>>::empty());
        }
    }
    reconcile_roots(s, detected)
}

/// What start-up does to the system's launch-at-login entry.
#[derive(Debug, Clone, Copy, PartialEq, Eq, Structural)]
pub enum AutostartChange {
    Enable,
    Disable,
    Keep,
}

/// Whether the launch-at-login entry is present after `change` is applied
/// to a system where it was `enabled`.
pub open spec fn autostart_after(change: AutostartChange, enabled: bool) -> bool {
    match change {
        AutostartChange::Enable => true,
        AutostartChange::Disable => false,
        AutostartChange::Keep => enabled,
    }
}

/// The settings file is the single source of truth for launch-at-login:
/// on every start the system entry is created when the setting is on and
/// the entry is missing, removed when the setting is off and the entry
/// exists, and left alone otherwise — so that afterwards the entry is
/// present exactly when the setting says so.
pub fn autostart_change(launch_at_login: bool, currently_enabled: bool) -> (r: AutostartChange)
    ensures
        r == (if launch_at_login && !currently_enabled {
            AutostartChange::Enable
        } else if !launch_at_login && currently_enabled {
            AutostartChange::Disable
        } else {
            AutostartChange::Keep
        }),
        autostart_after(r, currently_enabled) == launch_at_login,
{
    if launch_at_login && !currently_enabled {
        AutostartChange::Enable
    } else if !launch_at_login && currently_enabled {
        AutostartChange::Disable
    } else {
        AutostartChange::Keep
    }
}

} // verus!
