//! The decisions of the per-root directory walk: which subtrees are pruned
//! by the exclude list and which entries the attribute filters drop. The
//! walk itself, which reads the filesystem, lives with the application.

use vstd::prelude::*;
use vstd::string::StringSliceAdditionalSpecFns;
use crate::text::{utf8, to_lower, trim_string, lower, trim, str_eq, ascii_lower, lower_byte};
use crate::pathmatch::{has_path_prefix, path_has_prefix};
use crate::types::RootScanState;

verus! {

/// An exclude pattern looks like a path (and is matched as a path prefix)
/// when it contains `:`, `\` or `/`; otherwise it is a bare folder name.
pub open spec fn is_path_like(ex: Seq<u8>) -> bool {
    exists|i: int| 0 <= i < ex.len() && (ex[i] == 0x3a || ex[i] == 0x5c || ex[i] == 0x2f)
}

/// One exclude pattern prunes an entry: a path-like pattern when it is a
/// separator-bounded prefix of the path, a bare name when it equals the
/// entry's name.
pub open spec fn excluded_by(path_lower: Seq<u8>, name_lower: Seq<u8>, ex: Seq<u8>) -> bool {
    if is_path_like(ex) {
        has_path_prefix(path_lower, ex)
    } else {
        name_lower == ex
    }
}

/// Whether `ex` contains `:`, `\` or `/`.
fn path_like(ex: &str) -> (r: bool)
    ensures
        r == is_path_like(ex.spec_bytes()),
{
    let b = ex.as_bytes();
    let mut i: usize = 0;
    while i < b.len()
        invariant
            b@ == ex.spec_bytes(),
            i <= b@.len(),
            forall|j: int| 0 <= j < i ==> !(b@[j] == 0x3a || b@[j] == 0x5c || b@[j] == 0x2f),
        decreases b.len() - i,
    {
        if b[i] == 0x3a || b[i] == 0x5c || b[i] == 0x2f {
            assert(ex.spec_bytes()[i as int] == b@[i as int]);
            return true;
        }
        i = i + 1;
    }
    false
}

/// Returns true if this entry (by its full lowercased path or bare name)
/// should be pruned from the walk. `excludes_lower` entries are either
/// absolute path prefixes (matched via boundary-aware prefix, e.g.
/// `c:\windows`) or bare folder-name patterns (matched via exact name
/// equality, e.g. `node_modules`) — distinguished by whether the pattern
/// looks path-like.
pub fn is_excluded(path_lower: &str, name_lower: &str, excludes_lower: &[String]) -> (r: bool)
    ensures
        r == exists|k: int| 0 <= k < excludes_lower@.len()
            && excluded_by(path_lower.spec_bytes(), name_lower.spec_bytes(), utf8(#[trigger] excludes_lower@[k]@)),
{
    let mut k: usize = 0;
    while k < excludes_lower.len()
        invariant
            k <= excludes_lower@.len(),
            forall|j: int| 0 <= j < k ==> !excluded_by(path_lower.spec_bytes(), name_lower.spec_bytes(), utf8(#[trigger] excludes_lower@[j]@)),
        decreases excludes_lower.len() - k,
    {
        let ex = excludes_lower[k].as_str();
        let hit = if path_like(ex) {
            path_has_prefix(path_lower, ex)
        } else {
            str_eq(name_lower, ex)
        };
        if hit {
            return true;
        }
        k = k + 1;
    }
    false
}

/// The exclude list as the walk matches it: each pattern trimmed and
/// lowercased, blank ones dropped, order kept.
pub open spec fn normalized_excludes(excludes: Seq<Seq<char>>) -> Seq<Seq<char>>
    decreases excludes.len(),
{
    if excludes.len() == 0 {
        Seq::empty()
    } else {
        let rest = normalized_excludes(excludes.drop_last());
        let e = lower(trim(excludes.last()));
        if e.len() == 0 {
            rest
        } else {
            rest.push(e)
        }
    }
}

/// Trims and lowercases the configured exclude patterns, dropping blanks.
pub fn normalize_excludes(excludes: &[String]) -> (r: Vec<String>)
    ensures
        r@.map_values(|s: String| s@) == normalized_excludes(excludes@.map_values(|s: String| s@)),
{
    let mut out: Vec<String> = Vec::new();
    let mut k: usize = 0;
    while k < excludes.len()
        invariant
            k <= excludes@.len(),
            out@.map_values(|s: String| s@) == normalized_excludes(excludes@.subrange(0, k as int).map_values(|s: String| s@)),
        decreases excludes.len() - k,
    {
        let t = trim_string(excludes[k].as_str());
        let e = to_lower(t.as_str());
        let ghost before = excludes@.subrange(0, k as int).map_values(|s: String| s@);
        let ghost after = excludes@.subrange(0, k + 1).map_values(|s: String| s@);
        assert(after.drop_last() =~= before);
        assert(after.last() == excludes@[k as int]@);
        if e.as_str().unicode_len() != 0 {
            out.push(e);
            proof {
                assert(out@.map_values(|s: String| s@) =~= normalized_excludes(before).push(lower(trim(excludes@[k as int]@))));
            }
        }
        k = k + 1;
    }
    assert(excludes@.subrange(0, excludes@.len() as int) =~= excludes@);
    out
}

/// Per-entry attribute/extension filters: an Everything-style "hide these
/// kinds of results" set, distinct from the exclude list (which prunes
/// whole subtrees by location). A hidden/system folder can still contain
/// ordinary files a user wants to find, so only matching entries are
/// dropped, never the branch under them.
#[derive(Clone, Copy, Default)]
pub struct FilterOpts {
    pub exclude_hidden: bool,
    pub exclude_system: bool,
    pub exclude_shortcuts: bool,
}

/// The path ends with `.lnk`, ASCII case-insensitively.
pub open spec fn is_shortcut_path(path: Seq<u8>) -> bool {
    &&& path.len() >= 4
    &&& ascii_lower(path[path.len() - 4]) == 0x2e
    &&& ascii_lower(path[path.len() - 3]) == 0x6c
    &&& ascii_lower(path[path.len() - 2]) == 0x6e
    &&& ascii_lower(path[path.len() - 1]) == 0x6b
}

/// Whether a walked entry is kept under `filters`: hidden and system
/// entries go when their filter is on, and `.lnk` files (not folders) go
/// when shortcuts are excluded.
pub open spec fn keeps(filters: FilterOpts, folder: bool, hidden: bool, system: bool, path: Seq<u8>) -> bool {
    &&& !(filters.exclude_hidden && hidden)
    &&& !(filters.exclude_system && system)
    &&& !(filters.exclude_shortcuts && !folder && is_shortcut_path(path))
}

/// Decides whether the walk keeps an entry with these attributes.
pub fn keep_entry(filters: FilterOpts, folder: bool, hidden: bool, system: bool, path: &str) -> (r: bool)
    ensures
        r == keeps(filters, folder, hidden, system, path.spec_bytes()),
{
    if (filters.exclude_hidden && hidden) || (filters.exclude_system && system) {
        return false;
    }
    if filters.exclude_shortcuts && !folder {
        let b = path.as_bytes();
        let n = b.len();
        if n >= 4 && lower_byte(b[n - 4]) == 0x2e && lower_byte(b[n - 3]) == 0x6c && lower_byte(
            b[n - 2],
        ) == 0x6e && lower_byte(b[n - 1]) == 0x6b {
            return false;
        }
    }
    true
}


/// How many entries between progress-counter updates and pause
/// checkpoints.
pub const PROGRESS_INTERVAL: u64 = 2000;

/// After `count` entries, the walk reports progress and honors a pause
/// (every `PROGRESS_INTERVAL` entries).
pub fn progress_due(count: u64) -> (r: bool)
    ensures
        r == (count % PROGRESS_INTERVAL == 0),
{
    count % PROGRESS_INTERVAL == 0
}

/// The state of a root whose top folder cannot be read at all: a drive
/// needs permissions (elevation); any other root (a custom folder or a
/// file server) is offline, and its persisted entries keep serving.
pub fn unreachable_state(is_drive: bool) -> (r: RootScanState)
    ensures
        r == (if is_drive {
            RootScanState::SkippedNoAccess
        } else {
            RootScanState::Offline
        }),
{
    if is_drive {
        RootScanState::SkippedNoAccess
    } else {
        RootScanState::Offline
    }
}

} // verus!
