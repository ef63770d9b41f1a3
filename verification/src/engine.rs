//! The in-memory index and its search: one packed `IndexArena` per scan
//! root, searched by a linear scan. Scope and path predicates are resolved
//! per directory before the scan, filters run cheapest first, and full
//! paths are rebuilt only for the hits actually returned.

use vstd::prelude::*;
use std::sync::Arc;
use std::time::{SystemTime, UNIX_EPOCH};
use vstd::string::StringSliceAdditionalSpecFns;
use crate::text::{utf8, lemma_decode_bytes, ends_with_head, to_chars, lower, to_lower, trim_end_seps, trim_end_separators, push_char, lemma_utf8_concat, lemma_utf8_ascii_char, is_sep_byte};
use vstd::utf8::{encode_scalar, decode_utf8};
use crate::pathmatch::{has_path_prefix, path_has_prefix};
use crate::settings::ScanRoot;
use crate::types::{IndexArena, SortColumn, SortSpec, SearchHit, HitView, SearchResponse, RootIndexStatus, RootScanState, StatusView, clone_strings, last_sep, dir_part, name_part, split_path, lemma_last_index_of2};
use crate::query::{ParsedQuery, QueryView, CompiledQuery, query_match, empty_query, parse_query, parse_query_spec, date_range_at, spans_days, CalendarDate, lemma_compiled_match_is_query_match, lemma_matches_nothing_is_sound};
use crate::order::{Order, sign, lex, int_order, lex_bytes, order_u64, order_i64, lemma_lex_basics, lemma_lex_transitive};

verus! {

/// The system clock's reading, std's `SystemTime`; opaque here.
#[verifier::external_type_specification]
#[verifier::external_body]
pub struct ExSystemTime(SystemTime);

// ---------------------------------------------------------------------
// Search scope

/// `inc` names a folder whose parent directory is `dir` and whose own name
/// is `name`: the folder entry that *is* the scope root.
pub open spec fn is_scope_root(inc: Seq<u8>, dir: Seq<u8>, name: Seq<u8>) -> bool {
    last_sep(inc) >= 0 && dir == dir_part(inc) && name == name_part(inc)
}

/// An entry with lowercased directory `dir` and name `name` is inside the
/// scope given by the lowercased include paths `incs`: no includes at all,
/// its directory is (under) an include, or it is an include's own folder.
pub open spec fn in_scope(incs: Seq<Seq<u8>>, dir: Seq<u8>, name: Seq<u8>) -> bool {
    ||| incs.len() == 0
    ||| exists|k: int| 0 <= k < incs.len() && has_path_prefix(dir, #[trigger] incs[k])
    ||| exists|k: int| 0 <= k < incs.len() && is_scope_root(#[trigger] incs[k], dir, name)
}

/// Entry `i` of `arena` is inside the scope `incs` (`None`: no scope set).
pub open spec fn scope_allows(incs: Option<Seq<Seq<u8>>>, arena: IndexArena, i: int) -> bool {
    match incs {
        None => true,
        Some(l) => in_scope(l, arena.dir_lower_at(i), arena.name_lower_at(i)),
    }
}

/// Some include of `incs` is a path prefix of `dir`.
pub open spec fn dir_in_scope(incs: Seq<Seq<u8>>, dir: Seq<u8>) -> bool {
    exists|k: int| 0 <= k < incs.len() && has_path_prefix(dir, #[trigger] incs[k])
}

/// The bytes of a list of strings.
pub open spec fn strings_bytes(l: Seq<String>) -> Seq<Seq<u8>> {
    l.map_values(|s: String| utf8(s@))
}


/// Some of the lowercased includes `list` is a path prefix of `d`.
fn dir_matches_any(d: &str, list: &[String]) -> (r: bool)
    ensures
        r == dir_in_scope(strings_bytes(list@), d.spec_bytes()),
{
    let ghost incs = strings_bytes(list@);
    let mut k: usize = 0;
    while k < list.len()
        invariant
            incs == strings_bytes(list@),
            k <= list@.len(),
            forall|j: int| 0 <= j < k ==> !has_path_prefix(d.spec_bytes(), #[trigger] incs[j]),
        decreases list.len() - k,
    {
        assert(incs[k as int] == utf8(list@[k as int]@));
        if path_has_prefix(d, list[k].as_str()) {
            return true;
        }
        k = k + 1;
    }
    false
}

/// The leaf name of `inc` when `inc` is the scope root of an entry in the
/// directory `d`: `inc` has a separator and its parent is `d`.
fn scope_root_leaf(inc: &str, d: &str) -> (r: Option<String>)
    ensures
        r is Some <==> (last_sep(inc.spec_bytes()) >= 0 && d.spec_bytes() == dir_part(inc.spec_bytes())),
        r matches Some(leaf) ==> utf8(leaf@) == name_part(inc.spec_bytes()),
{
    let ib = inc.as_bytes();
    let has_sep = crate::types::rfind2(ib, 0x5c, 0x2f).is_some();
    proof {
        lemma_last_index_of2(inc.spec_bytes(), 0x5c, 0x2f);
    }
    if !has_sep {
        return None;
    }
    let (parent, leaf) = split_path(inc);
    let pb = parent.as_bytes();
    let db = d.as_bytes();
    if db.len() != pb.len() {
        return None;
    }
    let same = ends_with_head(db, pb, pb.len());
    proof {
        assert(pb@.subrange(0, pb@.len() as int) =~= pb@);
        assert(db@.subrange(0, db@.len() as int) =~= db@);
    }
    if same {
        Some(leaf.to_owned())
    } else {
        None
    }
}

/// Appends `(id, leaf)` for every include of `list` that is the scope root
/// of an entry in the directory `d`.
#[verifier::spinoff_prover]
fn push_scope_roots(d: &str, id: u32, list: &[String], exact: &mut Vec<(u32, String)>)
    ensures
        final(exact)@.len() >= old(exact)@.len(),
        forall|p: int| 0 <= p < old(exact)@.len() ==> final(exact)@[p] == old(exact)@[p],
        forall|p: int| old(exact)@.len() <= p < final(exact)@.len() ==> (#[trigger] final(exact)@[p]).0 == id
            && exists|k: int| 0 <= k < list@.len() && is_scope_root(#[trigger] strings_bytes(list@)[k], d.spec_bytes(), utf8(final(exact)@[p].1@)),
        forall|k: int| 0 <= k < list@.len() && last_sep(#[trigger] strings_bytes(list@)[k]) >= 0 && d.spec_bytes() == dir_part(
            strings_bytes(list@)[k],
        ) ==> exists|p: int| old(exact)@.len() <= p < final(exact)@.len() && utf8((#[trigger] final(exact)@[p]).1@) == name_part(
            strings_bytes(list@)[k],
        ),
{
    let ghost start = exact@;
    let mut k: usize = 0;
    while k < list.len()
        invariant
            k <= list@.len(),
            exact@.len() >= start.len(),
            forall|p: int| 0 <= p < start.len() ==> exact@[p] == start[p],
            forall|p: int| start.len() <= p < exact@.len() ==> (#[trigger] exact@[p]).0 == id && exists|j: int|
                0 <= j < list@.len() && is_scope_root(#[trigger] strings_bytes(list@)[j], d.spec_bytes(), utf8(exact@[p].1@)),
            forall|j: int| 0 <= j < k && last_sep(#[trigger] strings_bytes(list@)[j]) >= 0 && d.spec_bytes() == dir_part(strings_bytes(list@)[j]) ==> exists|p: int|
                start.len() <= p < exact@.len() && utf8((#[trigger] exact@[p]).1@) == name_part(strings_bytes(list@)[j]),
        decreases list.len() - k,
    {
        assert(strings_bytes(list@)[k as int] == utf8(list@[k as int]@));
        let ghost prev = exact@;
        if let Some(leaf) = scope_root_leaf(list[k].as_str(), d) {
            exact.push((id, leaf));
            proof {
                let q = exact@.len() - 1;
                assert(is_scope_root(strings_bytes(list@)[k as int], d.spec_bytes(), utf8(exact@[q].1@)));
                assert(utf8(exact@[q].1@) == name_part(strings_bytes(list@)[k as int]));
            }
        }
        proof {
            assert forall|j: int| 0 <= j < k + 1 && last_sep(#[trigger] strings_bytes(list@)[j]) >= 0 && d.spec_bytes() == dir_part(strings_bytes(list@)[j]) implies exists|p: int|
                start.len() <= p < exact@.len() && utf8((#[trigger] exact@[p]).1@) == name_part(strings_bytes(list@)[j]) by {
                if j < k {
                    let p = choose|p: int| start.len() <= p < prev.len() && utf8((#[trigger] prev[p]).1@) == name_part(strings_bytes(list@)[j]);
                    assert(exact@[p] == prev[p]);
                } else {
                    let q = exact@.len() - 1;
                    assert(utf8(exact@[q].1@) == name_part(strings_bytes(list@)[j]));
                }
            }
        }
        k = k + 1;
    }
}


/// The scope-root table over directories `0..id`, before a directory's
/// entries are appended.
pub open spec fn exact_table_ok(arena: IndexArena, incs: Seq<Seq<u8>>, exact: Seq<(u32, String)>, id: int) -> bool {
    &&& forall|p: int| 0 <= p < exact.len() ==> {
        let (d, leaf) = #[trigger] exact[p];
        &&& (d as int) < id
        &&& exists|k: int| 0 <= k < incs.len() && is_scope_root(#[trigger] incs[k], arena.dir_lower_by_id_spec(d as int), utf8(leaf@))
    }
    &&& forall|d: int, k: int| 0 <= d < id && 0 <= k < incs.len() && last_sep(#[trigger] incs[k]) >= 0
        && #[trigger] arena.dir_lower_by_id_spec(d) == dir_part(incs[k]) ==> exists|p: int| 0 <= p < exact.len()
        && #[trigger] exact[p].0 == d && utf8(exact[p].1@) == name_part(incs[k])
}

proof fn lemma_exact_extend(arena: IndexArena, incs: Seq<Seq<u8>>, before: Seq<(u32, String)>, after: Seq<(u32, String)>, id: int)
    requires
        exact_table_ok(arena, incs, before, id),
        after.len() >= before.len(),
        forall|p: int| 0 <= p < before.len() ==> after[p] == before[p],
        forall|p: int| before.len() <= p < after.len() ==> (#[trigger] after[p]).0 == id && exists|k: int|
            0 <= k < incs.len() && is_scope_root(#[trigger] incs[k], arena.dir_lower_by_id_spec(id), utf8(after[p].1@)),
        forall|k: int| 0 <= k < incs.len() && last_sep(#[trigger] incs[k]) >= 0 && arena.dir_lower_by_id_spec(id) == dir_part(incs[k])
            ==> exists|p: int| before.len() <= p < after.len() && utf8((#[trigger] after[p]).1@) == name_part(incs[k]),
    ensures
        exact_table_ok(arena, incs, after, id + 1),
{
    assert forall|d2: int, k: int| 0 <= d2 < id + 1 && 0 <= k < incs.len() && last_sep(#[trigger] incs[k]) >= 0
        && #[trigger] arena.dir_lower_by_id_spec(d2) == dir_part(incs[k]) implies exists|p: int| 0 <= p < after.len()
        && #[trigger] after[p].0 == d2 && utf8(after[p].1@) == name_part(incs[k]) by {
        if d2 < id {
            let p = choose|p: int| 0 <= p < before.len() && #[trigger] before[p].0 == d2 && utf8(before[p].1@) == name_part(incs[k]);
            assert(after[p] == before[p]);
        } else {
            let p = choose|p: int| before.len() <= p < after.len() && utf8((#[trigger] after[p]).1@) == name_part(incs[k]);
            assert(after[p].0 == d2);
        }
    }
    assert forall|p: int| 0 <= p < after.len() implies {
        let (d, leaf) = #[trigger] after[p];
        &&& (d as int) < id + 1
        &&& exists|k: int| 0 <= k < incs.len() && is_scope_root(#[trigger] incs[k], arena.dir_lower_by_id_spec(d as int), utf8(leaf@))
    } by {
        if p < before.len() {
            assert(after[p] == before[p]);
        }
    }
}


/// Some `(id, leaf)` of `exact` has id `did` and leaf `name`.
fn has_exact(exact: &Vec<(u32, String)>, did: u32, name: &str) -> (r: bool)
    ensures
        r == exists|q: int| 0 <= q < exact@.len() && (#[trigger] exact@[q]).0 == did && utf8(exact@[q].1@) == name.spec_bytes(),
{
    let mut p: usize = 0;
    while p < exact.len()
        invariant
            p <= exact@.len(),
            forall|q: int| 0 <= q < p ==> !((#[trigger] exact@[q]).0 == did && utf8(exact@[q].1@) == name.spec_bytes()),
        decreases exact.len() - p,
    {
        let (pid, leaf) = &exact[p];
        if *pid == did && crate::text::str_eq(name, leaf.as_str()) {
            assert(exact@[p as int] == (*pid, *leaf));
            return true;
        }
        p = p + 1;
    }
    false
}

/// Which entries a search scope admits, resolved once per search per root.
pub struct ScopeFilter {
    /// `None`: no scope set, everything is in scope. Otherwise one flag per
    /// interned directory: some include is a path prefix of it.
    dir_bits: Option<Vec<bool>>,
    /// The scope roots themselves, as (parent directory id, lowercased leaf
    /// name): a folder entry that *is* the scope root lives in the scope's
    /// parent directory, so `dir_bits` does not cover it.
    exact: Vec<(u32, String)>,
    /// The lowercased include paths.
    incs: Ghost<Option<Seq<Seq<u8>>>>,
}

impl ScopeFilter {
    /// The lowercased include paths this filter admits.
    pub closed spec fn scope(&self) -> Option<Seq<Seq<u8>>> {
        self.incs@
    }

    /// The tables let no entry through: a scope is set, no directory is under
    /// it and no scope root was found.
    pub closed spec fn admits_none(&self) -> bool {
        self.dir_bits matches Some(bits) && self.exact@.len() == 0 && forall|d: int| 0 <= d < bits@.len() ==> !#[trigger] bits@[d]
    }

    /// The filter's tables describe its scope over `arena`'s directories.
    pub closed spec fn built_for(&self, arena: &IndexArena) -> bool {
        match self.incs@ {
            None => self.dir_bits is None,
            Some(l) => if l.len() == 0 {
                self.dir_bits is None
            } else {
                &&& self.dir_bits matches Some(bits) && bits@.len() == arena.dir_count_spec()
                    && forall|d: int| 0 <= d < arena.dir_count_spec() ==> #[trigger] bits@[d] == dir_in_scope(l, arena.dir_lower_by_id_spec(d))
                &&& exact_table_ok(*arena, l, self.exact@, arena.dir_count_spec() as int)
            },
        }
    }

    /// Resolves the lowercased include paths against `arena`'s directories.
    /// Without includes, or with an empty list, everything is in scope, so
    /// the filter never reports that it matches nothing.
    pub fn build(arena: &IndexArena, includes_lower: Option<&[String]>) -> (r: Self)
        requires
            arena.wf(),
        ensures
            r.scope() == match includes_lower {
                Some(l) => Some(strings_bytes(l@)),
                None => None,
            },
            r.built_for(arena),
            match includes_lower {
                Some(l) => l@.len() == 0 ==> !r.admits_none(),
                None => !r.admits_none(),
            },
    {
        let list = match includes_lower {
            None => {
                return ScopeFilter { dir_bits: None, exact: Vec::new(), incs: Ghost(None) };
            },
            Some(l) => l,
        };
        let ghost incs = strings_bytes(list@);
        if list.len() == 0 {
            return ScopeFilter { dir_bits: None, exact: Vec::new(), incs: Ghost(Some(incs)) };
        }
        let n = arena.dir_count();
        let mut dir_bits: Vec<bool> = Vec::new();
        let mut exact: Vec<(u32, String)> = Vec::new();
        let mut id: usize = 0;
        while id < n
            invariant
                arena.wf(),
                n == arena.dir_count_spec(),
                n <= u32::MAX,
                incs == strings_bytes(list@),
                incs.len() > 0,
                id <= n,
                dir_bits@.len() == id,
                forall|d: int| 0 <= d < id ==> #[trigger] dir_bits@[d] == dir_in_scope(incs, arena.dir_lower_by_id_spec(d)),
                exact_table_ok(*arena, incs, exact@, id as int),
            decreases n - id,
        {
            let d = arena.dir_lower_by_id(id as u32);
            dir_bits.push(dir_matches_any(d, list));
            let ghost before = exact@;
            push_scope_roots(d, id as u32, list, &mut exact);
            proof {
                lemma_exact_extend(*arena, incs, before, exact@, id as int);
            }
            id = id + 1;
        }
        ScopeFilter { dir_bits: Some(dir_bits), exact, incs: Ghost(Some(incs)) }
    }

    /// No entry of the root can be in scope (a scope pinned to another
    /// drive, say), so its scan can be skipped outright.
    pub fn matches_nothing(&self) -> (r: bool)
        ensures
            r == self.admits_none(),
    {
        match &self.dir_bits {
            None => false,
            Some(bits) => {
                if self.exact.len() != 0 {
                    return false;
                }
                let mut d: usize = 0;
                while d < bits.len()
                    invariant
                        self.dir_bits == Some(*bits),
                        self.exact@.len() == 0,
                        d <= bits@.len(),
                        forall|e: int| 0 <= e < d ==> !#[trigger] bits@[e],
                    decreases bits.len() - d,
                {
                    if bits[d] {
                        assert(!self.admits_none()) by {
                            assert(self.dir_bits->0@[d as int]);
                        }
                        return false;
                    }
                    d = d + 1;
                }
                true
            },
        }
    }

    /// Entry `i` of `arena` is in scope.
    pub fn allows(&self, arena: &IndexArena, i: usize) -> (r: bool)
        requires
            arena.wf(),
            self.built_for(arena),
            i < arena.spec_len(),
        ensures
            r == scope_allows(self.scope(), *arena, i as int),
    {
        proof {
            arena.lemma_ids_in_range(i as int);
        }
        let bits = match &self.dir_bits {
            None => {
                return true;
            },
            Some(b) => b,
        };
        let did = arena.dir_id(i);
        let ghost l = self.incs@->0;
        let ghost dir = arena.dir_lower_at(i as int);
        let ghost name = arena.name_lower_at(i as int);
        if bits[did as usize] {
            proof {
                let k = choose|k: int| 0 <= k < l.len() && has_path_prefix(dir, #[trigger] l[k]);
            }
            return true;
        }
        if self.exact.len() == 0 {
            proof {
                if exists|k: int| 0 <= k < l.len() && is_scope_root(#[trigger] l[k], dir, name) {
                    let k = choose|k: int| 0 <= k < l.len() && is_scope_root(#[trigger] l[k], dir, name);
                    assert(arena.dir_lower_by_id_spec(did as int) == dir_part(l[k]));
                }
            }
            return false;
        }
        let name_lower = arena.name_lower(i);
        if has_exact(&self.exact, did, name_lower) {
            proof {
                let q = choose|q: int| 0 <= q < self.exact@.len() && (#[trigger] self.exact@[q]).0 == did && utf8(self.exact@[q].1@) == name;
                let k = choose|k: int| 0 <= k < l.len() && is_scope_root(#[trigger] l[k], arena.dir_lower_by_id_spec(did as int), utf8(self.exact@[q].1@));
                assert(is_scope_root(l[k], dir, name));
            }
            return true;
        }
        proof {
            if exists|k: int| 0 <= k < l.len() && is_scope_root(#[trigger] l[k], dir, name) {
                let k = choose|k: int| 0 <= k < l.len() && is_scope_root(#[trigger] l[k], dir, name);
                assert(arena.dir_lower_by_id_spec(did as int) == dir_part(l[k]));
                let q = choose|q: int| 0 <= q < self.exact@.len() && #[trigger] self.exact@[q].0 == did as int && utf8(self.exact@[q].1@)
                    == name_part(l[k]);
            }
        }
        false
    }
}

/// A scope filter without includes, or with an empty list, admits every
/// entry, so it never reports that it matches nothing.
pub proof fn lemma_unscoped_filter_matches_something(f: ScopeFilter, arena: IndexArena)
    requires
        f.built_for(&arena),
        f.scope() matches Some(l) ==> l.len() == 0,
    ensures
        !f.admits_none(),
{
}

/// A scope filter that matches nothing admits no entry of its arena.
pub proof fn lemma_scope_matches_nothing(f: ScopeFilter, arena: IndexArena, i: int)
    requires
        arena.wf(),
        f.built_for(&arena),
        0 <= i < arena.spec_len(),
        f.admits_none(),
    ensures
        !scope_allows(f.scope(), arena, i),
{
    arena.lemma_ids_in_range(i);
    let l = f.incs@->0;
    let did = arena.dir_id_at(i) as int;
    let bits = f.dir_bits->0;
    assert(!bits@[did]);
    if exists|k: int| 0 <= k < l.len() && is_scope_root(#[trigger] l[k], arena.dir_lower_at(i), arena.name_lower_at(i)) {
        let k = choose|k: int| 0 <= k < l.len() && is_scope_root(#[trigger] l[k], arena.dir_lower_at(i), arena.name_lower_at(i));
        assert(arena.dir_lower_by_id_spec(did) == dir_part(l[k]));
    }
}


// ---------------------------------------------------------------------
// Result order

/// An entry's full path for ordering: directory, `\`, name. Comparing
/// these byte-wise orders entries as their full paths do.
pub open spec fn path_key(a: IndexArena, i: int) -> Seq<u8> {
    a.dir_at(i) + seq![0x5cu8] + a.name_at(i)
}

/// The sort column's own order of two entries (none for `Path`).
pub open spec fn column_order(col: SortColumn, ax: IndexArena, xi: int, ay: IndexArena, yi: int) -> int {
    match col {
        SortColumn::Name => lex(ax.name_lower_at(xi), ay.name_lower_at(yi)),
        SortColumn::Path => 0,
        SortColumn::Size => int_order(ax.size_at(xi) as int, ay.size_at(yi) as int),
        SortColumn::Modified => int_order(ax.modified_at(xi) as int, ay.modified_at(yi) as int),
    }
}

/// How two entries sort under `spec`: by the column, ties broken by the
/// full path, the whole reversed when descending.
pub open spec fn entry_order(spec: SortSpec, ax: IndexArena, xi: int, ay: IndexArena, yi: int) -> int {
    let p = column_order(spec.column, ax, xi, ay, yi);
    let o = if p != 0 {
        p
    } else {
        lex(path_key(ax, xi), path_key(ay, yi))
    };
    if spec.descending {
        -o
    } else {
        o
    }
}

proof fn lemma_column_order(col: SortColumn, a1: IndexArena, i1: int, a2: IndexArena, i2: int, a3: IndexArena, i3: int)
    ensures
        -1 <= column_order(col, a1, i1, a2, i2) <= 1,
        column_order(col, a1, i1, a2, i2) == -column_order(col, a2, i2, a1, i1),
        column_order(col, a1, i1, a2, i2) <= 0 && column_order(col, a2, i2, a3, i3) <= 0 ==> column_order(col, a1, i1, a3, i3) <= 0,
        column_order(col, a1, i1, a2, i2) <= 0 && column_order(col, a2, i2, a3, i3) <= 0 && (column_order(col, a1, i1, a2, i2) < 0
            || column_order(col, a2, i2, a3, i3) < 0) ==> column_order(col, a1, i1, a3, i3) < 0,
        column_order(col, a1, i1, a2, i2) == 0 && column_order(col, a2, i2, a3, i3) == 0 ==> column_order(col, a1, i1, a3, i3) == 0,
{
    let (n1, n2, n3) = (a1.name_lower_at(i1), a2.name_lower_at(i2), a3.name_lower_at(i3));
    lemma_lex_basics(n1, n2);
    lemma_lex_basics(n2, n3);
    lemma_lex_basics(n1, n3);
    if lex(n1, n2) <= 0 && lex(n2, n3) <= 0 {
        lemma_lex_transitive(n1, n2, n3);
    }
}

/// The ascending order of two entries under `col`.
pub open spec fn asc_order(col: SortColumn, ax: IndexArena, xi: int, ay: IndexArena, yi: int) -> int {
    entry_order(SortSpec { column: col, descending: false }, ax, xi, ay, yi)
}

proof fn lemma_asc_order(col: SortColumn, a1: IndexArena, i1: int, a2: IndexArena, i2: int, a3: IndexArena, i3: int)
    ensures
        -1 <= asc_order(col, a1, i1, a2, i2) <= 1,
        asc_order(col, a1, i1, a2, i2) == -asc_order(col, a2, i2, a1, i1),
        asc_order(col, a1, i1, a2, i2) <= 0 && asc_order(col, a2, i2, a3, i3) <= 0 ==> asc_order(col, a1, i1, a3, i3) <= 0,
{
    lemma_column_order(col, a1, i1, a2, i2, a3, i3);
    let (k1, k2, k3) = (path_key(a1, i1), path_key(a2, i2), path_key(a3, i3));
    lemma_lex_basics(k1, k2);
    lemma_lex_basics(k2, k3);
    lemma_lex_basics(k1, k3);
    if lex(k1, k2) <= 0 && lex(k2, k3) <= 0 {
        lemma_lex_transitive(k1, k2, k3);
    }
}

/// What each sort column means. Entry x sorts before entry y when
/// `entry_order` is negative; in ascending order:
/// - by `Size`, a smaller size comes first; by `Modified`, an older
///   modification time comes first; by `Name`, a lowercased name earlier in
///   byte order comes first;
/// - when the column's keys are equal, and always for `Path`, the full path
///   `dir\name` earlier in byte order comes first.
/// Descending order is exactly the reverse.
pub proof fn lemma_sort_columns(spec: SortSpec, ax: IndexArena, xi: int, ay: IndexArena, yi: int)
    ensures
        spec.column == SortColumn::Size && ax.size_at(xi) < ay.size_at(yi) ==> (if spec.descending {
            entry_order(spec, ax, xi, ay, yi) == 1
        } else {
            entry_order(spec, ax, xi, ay, yi) == -1
        }),
        spec.column == SortColumn::Modified && ax.modified_at(xi) < ay.modified_at(yi) ==> (if spec.descending {
            entry_order(spec, ax, xi, ay, yi) == 1
        } else {
            entry_order(spec, ax, xi, ay, yi) == -1
        }),
        spec.column == SortColumn::Name && lex(ax.name_lower_at(xi), ay.name_lower_at(yi)) < 0 ==> (if spec.descending {
            entry_order(spec, ax, xi, ay, yi) == 1
        } else {
            entry_order(spec, ax, xi, ay, yi) == -1
        }),
        ({
            let same_key = match spec.column {
                SortColumn::Size => ax.size_at(xi) == ay.size_at(yi),
                SortColumn::Modified => ax.modified_at(xi) == ay.modified_at(yi),
                SortColumn::Name => ax.name_lower_at(xi) == ay.name_lower_at(yi),
                SortColumn::Path => true,
            };
            let by_path = lex(ax.dir_at(xi) + seq![0x5cu8] + ax.name_at(xi), ay.dir_at(yi) + seq![0x5cu8] + ay.name_at(yi));
            same_key ==> entry_order(spec, ax, xi, ay, yi) == (if spec.descending { -by_path } else { by_path })
        }),
{
    lemma_lex_basics(ax.name_lower_at(xi), ay.name_lower_at(yi));
}

/// `entry_order` is an order: it flips when its entries swap, and "sorts
/// no later than" is transitive.
pub proof fn lemma_entry_order(spec: SortSpec, a1: IndexArena, i1: int, a2: IndexArena, i2: int, a3: IndexArena, i3: int)
    ensures
        -1 <= entry_order(spec, a1, i1, a2, i2) <= 1,
        entry_order(spec, a1, i1, a2, i2) == -entry_order(spec, a2, i2, a1, i1),
        entry_order(spec, a1, i1, a2, i2) <= 0 && entry_order(spec, a2, i2, a3, i3) <= 0 ==> entry_order(spec, a1, i1, a3, i3) <= 0,
{
    let col = spec.column;
    lemma_asc_order(col, a1, i1, a2, i2, a3, i3);
    lemma_asc_order(col, a3, i3, a2, i2, a1, i1);
    lemma_asc_order(col, a1, i1, a3, i3, a2, i2);
    assert(entry_order(spec, a1, i1, a2, i2) == if spec.descending {
        -asc_order(col, a1, i1, a2, i2)
    } else {
        asc_order(col, a1, i1, a2, i2)
    });
    assert(entry_order(spec, a2, i2, a3, i3) == if spec.descending {
        -asc_order(col, a2, i2, a3, i3)
    } else {
        asc_order(col, a2, i2, a3, i3)
    });
    assert(entry_order(spec, a1, i1, a3, i3) == if spec.descending {
        -asc_order(col, a1, i1, a3, i3)
    } else {
        asc_order(col, a1, i1, a3, i3)
    });
    assert(entry_order(spec, a2, i2, a1, i1) == if spec.descending {
        -asc_order(col, a2, i2, a1, i1)
    } else {
        asc_order(col, a2, i2, a1, i1)
    });
}

/// Byte `k` of `d`, `\`, `n`.
fn joined_byte(d: &[u8], n: &[u8], k: u64) -> (r: u8)
    requires
        d@.len() <= u32::MAX,
        n@.len() <= u32::MAX,
        k < d@.len() + 1 + n@.len(),
    ensures
        r == (d@ + seq![0x5cu8] + n@)[k as int],
{
    let dl = d.len() as u64;
    if k < dl {
        d[k as usize]
    } else if k == dl {
        0x5c
    } else {
        n[(k - dl - 1) as usize]
    }
}

/// Lexicographic order of `ad\an` and `bd\bn`, without building either:
/// the byte order of the two joined full paths. Comparing `(dir, name)` as
/// a tuple would differ: `C:\a` + `zzz` sorts before `C:\a\b` + `x` as a
/// tuple, but after it as a path.
pub fn path_order(ad: &[u8], an: &[u8], bd: &[u8], bn: &[u8]) -> (r: Order)
    requires
        ad@.len() <= u32::MAX,
        an@.len() <= u32::MAX,
        bd@.len() <= u32::MAX,
        bn@.len() <= u32::MAX,
    ensures
        sign(r) == lex(ad@ + seq![0x5cu8] + an@, bd@ + seq![0x5cu8] + bn@),
{
    let ghost a = ad@ + seq![0x5cu8] + an@;
    let ghost b = bd@ + seq![0x5cu8] + bn@;
    let la = ad.len() as u64 + 1 + an.len() as u64;
    let lb = bd.len() as u64 + 1 + bn.len() as u64;
    let n = if la < lb {
        la
    } else {
        lb
    };
    let mut k: u64 = 0;
    while k < n
        invariant
            ad@.len() <= u32::MAX,
            an@.len() <= u32::MAX,
            bd@.len() <= u32::MAX,
            bn@.len() <= u32::MAX,
            a == ad@ + seq![0x5cu8] + an@,
            b == bd@ + seq![0x5cu8] + bn@,
            la == a.len(),
            lb == b.len(),
            n <= la,
            n <= lb,
            k <= n,
            a.subrange(0, k as int) == b.subrange(0, k as int),
        decreases n - k,
    {
        let x = joined_byte(ad, an, k);
        let y = joined_byte(bd, bn, k);
        if x != y {
            proof {
                crate::order::lemma_lex_skip(a, b, k as int);
            }
            if x < y {
                return Order::Less;
            } else {
                return Order::Greater;
            }
        }
        assert(a.subrange(0, k + 1) =~= a.subrange(0, k as int).push(a[k as int]));
        assert(b.subrange(0, k + 1) =~= b.subrange(0, k as int).push(b[k as int]));
        k = k + 1;
    }
    proof {
        crate::order::lemma_lex_skip(a, b, k as int);
    }
    if la < lb {
        Order::Less
    } else if la > lb {
        Order::Greater
    } else {
        Order::Equal
    }
}

/// How entry `xi` of `ax` and entry `yi` of `ay` sort under `spec`.
pub fn entry_compare(spec: SortSpec, ax: &IndexArena, xi: usize, ay: &IndexArena, yi: usize) -> (r: Order)
    requires
        ax.wf(),
        ay.wf(),
        xi < ax.spec_len(),
        yi < ay.spec_len(),
    ensures
        sign(r) == entry_order(spec, *ax, xi as int, *ay, yi as int),
{
    proof {
        ax.lemma_name_lens(xi as int);
        ay.lemma_name_lens(yi as int);
    }
    let p = match spec.column {
        SortColumn::Name => lex_bytes(ax.name_lower(xi).as_bytes(), ay.name_lower(yi).as_bytes()),
        SortColumn::Path => Order::Equal,
        SortColumn::Size => order_u64(ax.size(xi), ay.size(yi)),
        SortColumn::Modified => order_i64(ax.modified(xi), ay.modified(yi)),
    };
    let o = match p {
        Order::Equal => path_order(ax.dir(xi).as_bytes(), ax.name(xi).as_bytes(), ay.dir(yi).as_bytes(), ay.name(yi).as_bytes()),
        _ => p,
    };
    if spec.descending {
        match o {
            Order::Less => Order::Greater,
            Order::Equal => Order::Equal,
            Order::Greater => Order::Less,
        }
    } else {
        o
    }
}


// ---------------------------------------------------------------------
// Candidates and top-k selection

/// One root's packed index. `Arc` so a search can take a cheap snapshot
/// and scan without holding a lock.
#[derive(Clone)]
pub struct RootIndex {
    pub root: String,
    pub arena: Arc<IndexArena>,
}

/// The arenas of a list of roots.
pub open spec fn arenas_of(roots: Seq<RootIndex>) -> Seq<IndexArena> {
    roots.map_values(|r: RootIndex| *r.arena)
}

/// Every arena is well formed.
pub open spec fn arenas_wf(arenas: Seq<IndexArena>) -> bool {
    forall|r: int| 0 <= r < arenas.len() ==> (#[trigger] arenas[r]).wf()
}

/// A match, identified by which root's arena it came from and the byte
/// span to highlight. 16 bytes, so even a very broad match set stays cheap
/// to collect before selection.
#[derive(Clone, Copy)]
pub struct Candidate {
    pub root: u32,
    pub idx: u32,
    pub span_start: u32,
    pub span_len: u32,
}

/// The candidate names an existing entry.
pub open spec fn cand_valid(arenas: Seq<IndexArena>, c: Candidate) -> bool {
    &&& (c.root as int) < arenas.len()
    &&& (c.idx as int) < arenas[c.root as int].spec_len()
}

/// The candidate names an existing entry and its span fits a `u32`.
pub open spec fn cand_ok(arenas: Seq<IndexArena>, c: Candidate) -> bool {
    cand_valid(arenas, c) && c.span_start + c.span_len <= u32::MAX
}

/// How two candidates sort under `spec`.
pub open spec fn cand_order(arenas: Seq<IndexArena>, spec: SortSpec, x: Candidate, y: Candidate) -> int {
    entry_order(spec, arenas[x.root as int], x.idx as int, arenas[y.root as int], y.idx as int)
}

/// `src` maps each chosen candidate to a distinct position of `all` that
/// holds it.
pub open spec fn picks(all: Seq<Candidate>, chosen: Seq<Candidate>, src: Seq<int>) -> bool {
    &&& src.len() == chosen.len()
    &&& forall|p: int| 0 <= p < src.len() ==> 0 <= #[trigger] src[p] < all.len() && all[src[p]] == chosen[p]
    &&& forall|p: int, q: int| 0 <= p < q < src.len() ==> #[trigger] src[p] != #[trigger] src[q]
}

/// `chosen` is sorted under `spec`.
pub open spec fn sorted_by(arenas: Seq<IndexArena>, spec: SortSpec, chosen: Seq<Candidate>) -> bool {
    forall|a: int, b: int| 0 <= a < b < chosen.len() ==> cand_order(arenas, spec, #[trigger] chosen[a], #[trigger] chosen[b]) <= 0
}

/// Position `j` is one of `src`.
pub open spec fn picked(src: Seq<int>, j: int) -> bool {
    exists|p: int| 0 <= p < src.len() && src[p] == j
}

/// Every candidate of `all` that `src` did not pick sorts no earlier than
/// any chosen one.
pub open spec fn rest_no_better(arenas: Seq<IndexArena>, spec: SortSpec, all: Seq<Candidate>, chosen: Seq<Candidate>, src: Seq<int>) -> bool {
    forall|j: int, p: int|
        0 <= j < all.len() && 0 <= p < chosen.len() && !picked(src, j) ==> cand_order(arenas, spec, #[trigger] all[j], #[trigger] chosen[p]) >= 0
}

/// `chosen` is the best `limit` of `all` under `spec`, in order: as many as
/// there are (up to `limit`), sorted, each a distinct candidate of `all`,
/// and no candidate left out sorts before any chosen one. Candidates that
/// sort equal may be picked either way.
pub open spec fn is_top(arenas: Seq<IndexArena>, spec: SortSpec, all: Seq<Candidate>, limit: int, chosen: Seq<Candidate>) -> bool {
    &&& chosen.len() == (if limit < all.len() { limit } else { all.len() as int })
    &&& sorted_by(arenas, spec, chosen)
    &&& exists|src: Seq<int>| picks(all, chosen, src) && rest_no_better(arenas, spec, all, chosen, src)
}


proof fn lemma_cand_order(arenas: Seq<IndexArena>, spec: SortSpec, x: Candidate, y: Candidate, z: Candidate)
    ensures
        cand_order(arenas, spec, x, y) == -cand_order(arenas, spec, y, x),
        cand_order(arenas, spec, x, y) <= 0 && cand_order(arenas, spec, y, z) <= 0 ==> cand_order(arenas, spec, x, z) <= 0,
{
    lemma_entry_order(
        spec,
        arenas[x.root as int],
        x.idx as int,
        arenas[y.root as int],
        y.idx as int,
        arenas[z.root as int],
        z.idx as int,
    );
}

/// Inserting `c` at `pos` keeps a sorted list sorted when everything from
/// `pos` on sorts after `c` and what precedes `pos` does not.
proof fn lemma_insert_sorted(arenas: Seq<IndexArena>, spec: SortSpec, kept: Seq<Candidate>, c: Candidate, pos: int)
    requires
        sorted_by(arenas, spec, kept),
        0 <= pos <= kept.len(),
        forall|q: int| pos <= q < kept.len() ==> cand_order(arenas, spec, c, #[trigger] kept[q]) < 0,
        pos > 0 ==> cand_order(arenas, spec, c, kept[pos - 1]) >= 0,
    ensures
        sorted_by(arenas, spec, kept.insert(pos, c)),
{
    let s = kept.insert(pos, c);
    assert forall|a: int, b: int| 0 <= a < b < s.len() implies cand_order(arenas, spec, #[trigger] s[a], #[trigger] s[b]) <= 0 by {
        if b < pos {
            assert(s[a] == kept[a] && s[b] == kept[b]);
        } else if b == pos {
            assert(s[a] == kept[a]);
            lemma_cand_order(arenas, spec, c, kept[pos - 1], c);
            if a < pos - 1 {
                assert(cand_order(arenas, spec, kept[a], kept[pos - 1]) <= 0);
                lemma_cand_order(arenas, spec, kept[a], kept[pos - 1], c);
            }
        } else if a == pos {
            assert(s[b] == kept[b - 1]);
        } else if a < pos {
            assert(s[a] == kept[a] && s[b] == kept[b - 1]);
        } else {
            assert(s[a] == kept[a - 1] && s[b] == kept[b - 1]);
        }
    }
}

/// A candidate that does not sort before the last of a sorted list sorts
/// no earlier than any of it.
proof fn lemma_not_before_last(arenas: Seq<IndexArena>, spec: SortSpec, best: Seq<Candidate>, c: Candidate)
    requires
        sorted_by(arenas, spec, best),
        best.len() > 0,
        cand_order(arenas, spec, c, best.last()) >= 0,
    ensures
        forall|p: int| 0 <= p < best.len() ==> cand_order(arenas, spec, c, #[trigger] best[p]) >= 0,
{
    assert forall|p: int| 0 <= p < best.len() implies cand_order(arenas, spec, c, #[trigger] best[p]) >= 0 by {
        lemma_cand_order(arenas, spec, best[p], best.last(), c);
        lemma_cand_order(arenas, spec, c, best.last(), best[p]);
        lemma_cand_order(arenas, spec, c, best[p], c);
        if p < best.len() - 1 {
            assert(cand_order(arenas, spec, best[p], best[best.len() - 1]) <= 0);
        } else {
            assert(best[p] == best.last());
        }
    }
}

/// The step of `select_top` that drops `c`.
proof fn lemma_step_skip(arenas: Seq<IndexArena>, spec: SortSpec, all: Seq<Candidate>, best: Seq<Candidate>, src: Seq<int>, k: int)
    requires
        0 <= k < all.len(),
        sorted_by(arenas, spec, best),
        best.len() > 0,
        forall|p: int| 0 <= p < src.len() ==> #[trigger] src[p] < k,
        rest_no_better(arenas, spec, all.subrange(0, k), best, src),
        cand_order(arenas, spec, all[k], best.last()) >= 0,
    ensures
        rest_no_better(arenas, spec, all.subrange(0, k + 1), best, src),
{
    lemma_not_before_last(arenas, spec, best, all[k]);
    let a0 = all.subrange(0, k);
    let a1 = all.subrange(0, k + 1);
    assert forall|j: int, p: int| 0 <= j < a1.len() && 0 <= p < best.len() && !picked(src, j) implies cand_order(
        arenas,
        spec,
        #[trigger] a1[j],
        #[trigger] best[p],
    ) >= 0 by {
        if j < k {
            assert(a1[j] == a0[j]);
        }
    }
}

/// The step of `select_top` that inserts `c` into a buffer that is not
/// full: every candidate so far is picked.
proof fn lemma_step_grow(arenas: Seq<IndexArena>, spec: SortSpec, all: Seq<Candidate>, best: Seq<Candidate>, src: Seq<int>, k: int, pos: int)
    requires
        0 <= k < all.len(),
        0 <= pos <= src.len(),
        forall|j: int| 0 <= j < k ==> #[trigger] picked(src, j),
    ensures
        forall|j: int| 0 <= j < k + 1 ==> #[trigger] picked(src.insert(pos, k), j),
        rest_no_better(arenas, spec, all.subrange(0, k + 1), best, src.insert(pos, k)),
{
    let s2 = src.insert(pos, k);
    assert forall|j: int| 0 <= j < k + 1 implies #[trigger] picked(s2, j) by {
        if j < k {
            assert(picked(src, j));
            let p = choose|p: int| 0 <= p < src.len() && src[p] == j;
            if p < pos {
                assert(s2[p] == j);
            } else {
                assert(s2[p + 1] == j);
            }
        } else {
            assert(s2[pos] == k);
        }
    }
}

/// The step of `select_top` that evicts the last of a full buffer and
/// inserts `c` at `pos`.
proof fn lemma_step_evict(
    arenas: Seq<IndexArena>,
    spec: SortSpec,
    all: Seq<Candidate>,
    best: Seq<Candidate>,
    src: Seq<int>,
    k: int,
    pos: int,
)
    requires
        0 <= k < all.len(),
        sorted_by(arenas, spec, best),
        best.len() > 0,
        picks(all, best, src),
        forall|p: int| 0 <= p < src.len() ==> #[trigger] src[p] < k,
        rest_no_better(arenas, spec, all.subrange(0, k), best, src),
        cand_order(arenas, spec, all[k], best.last()) < 0,
        0 <= pos < best.len(),
    ensures
        rest_no_better(arenas, spec, all.subrange(0, k + 1), best.drop_last().insert(pos, all[k]), src.drop_last().insert(pos, k)),
{
    let c = all[k];
    let last = best.last();
    let nb = best.drop_last().insert(pos, c);
    let ns = src.drop_last().insert(pos, k);
    let a0 = all.subrange(0, k);
    let a1 = all.subrange(0, k + 1);
    let e = src.last();
    assert forall|j: int, p: int| 0 <= j < a1.len() && 0 <= p < nb.len() && !picked(ns, j) implies cand_order(
        arenas,
        spec,
        #[trigger] a1[j],
        #[trigger] nb[p],
    ) >= 0 by {
        assert(j != k) by {
            assert(ns[pos] == k);
        }
        assert(a1[j] == all[j]);
        let x = nb[p];
        let is_c = p == pos;
        if is_c {
            assert(x == c);
        } else {
            let q = if p < pos { p } else { p - 1 };
            assert(x == best[q]);
            assert(q < best.len() - 1);
            assert(cand_order(arenas, spec, best[q], last) <= 0);
        }
        if j == e {
            assert(all[j] == last);
            lemma_cand_order(arenas, spec, c, last, c);
            if !is_c {
                let q = if p < pos { p } else { p - 1 };
                lemma_cand_order(arenas, spec, best[q], last, c);
            }
        } else {
            assert(!picked(src, j)) by {
                if picked(src, j) {
                    let w = choose|w: int| 0 <= w < src.len() && src[w] == j;
                    assert(w != src.len() - 1);
                    if w < pos {
                        assert(ns[w] == j);
                    } else {
                        assert(ns[w + 1] == j);
                    }
                }
            }
            assert(a0[j] == all[j]);
            assert(cand_order(arenas, spec, a0[j], best[best.len() - 1]) >= 0);
            lemma_cand_order(arenas, spec, c, last, all[j]);
            lemma_cand_order(arenas, spec, all[j], last, c);
            lemma_cand_order(arenas, spec, all[j], c, c);
            if !is_c {
                let q = if p < pos { p } else { p - 1 };
                assert(cand_order(arenas, spec, a0[j], best[q]) >= 0);
            }
        }
    }
}

/// How candidates `x` and `y` sort under `spec`.
fn cand_compare(spec: SortSpec, roots: &Vec<RootIndex>, x: Candidate, y: Candidate) -> (r: Order)
    requires
        arenas_wf(arenas_of(roots@)),
        cand_valid(arenas_of(roots@), x),
        cand_valid(arenas_of(roots@), y),
    ensures
        sign(r) == cand_order(arenas_of(roots@), spec, x, y),
{
    let ghost arenas = arenas_of(roots@);
    assert(arenas[x.root as int].wf());
    assert(arenas[y.root as int].wf());
    let ax: &IndexArena = &roots[x.root as usize].arena;
    let ay: &IndexArena = &roots[y.root as usize].arena;
    entry_compare(spec, ax, x.idx as usize, ay, y.idx as usize)
}

/// Picks the `limit` best candidates under `spec` and returns them sorted.
/// Each candidate either joins a sorted buffer of at most `limit` or is
/// dropped, so only the survivors are ever ordered.
pub fn select_top(matched: &Vec<Candidate>, limit: usize, spec: SortSpec, roots: &Vec<RootIndex>) -> (r: Vec<Candidate>)
    requires
        arenas_wf(arenas_of(roots@)),
        forall|k: int| 0 <= k < matched@.len() ==> cand_valid(arenas_of(roots@), #[trigger] matched@[k]),
    ensures
        is_top(arenas_of(roots@), spec, matched@, limit as int, r@),
{
    let ghost arenas = arenas_of(roots@);
    let ghost all = matched@;
    let mut best: Vec<Candidate> = Vec::new();
    let ghost mut src: Seq<int> = Seq::empty();
    if limit == 0 {
        assert(picks(all, best@, src));
        return best;
    }
    let mut k: usize = 0;
    while k < matched.len()
        invariant
            arenas == arenas_of(roots@),
            arenas_wf(arenas),
            all == matched@,
            forall|j: int| 0 <= j < all.len() ==> cand_valid(arenas, #[trigger] all[j]),
            limit > 0,
            k <= all.len(),
            best@.len() == (if (limit as int) < k { limit as int } else { k as int }),
            sorted_by(arenas, spec, best@),
            forall|p: int| 0 <= p < best@.len() ==> cand_valid(arenas, #[trigger] best@[p]),
            picks(all, best@, src),
            forall|p: int| 0 <= p < src.len() ==> #[trigger] src[p] < k,
            best@.len() < limit ==> forall|j: int| 0 <= j < k ==> #[trigger] picked(src, j),
            rest_no_better(arenas, spec, all.subrange(0, k as int), best@, src),
        decreases matched.len() - k,
    {
        let c = matched[k];
        let ghost old_best = best@;
        let ghost old_src = src;
        let full = best.len() == limit;
        let mut take = true;
        if full {
            let last = best[best.len() - 1];
            take = match cand_compare(spec, roots, c, last) {
                Order::Less => true,
                _ => false,
            };
        }
        if take {
            if full {
                best.pop();
                proof {
                    src = src.drop_last();
                }
            }
            let ghost kept = best@;
            let mut pos = best.len();
            while pos > 0
                invariant
                    arenas == arenas_of(roots@),
                    arenas_wf(arenas),
                    cand_valid(arenas, c),
                    forall|p: int| 0 <= p < kept.len() ==> cand_valid(arenas, #[trigger] kept[p]),
                    best@ == kept,
                    pos <= kept.len(),
                    forall|q: int| pos <= q < kept.len() ==> cand_order(arenas, spec, c, #[trigger] kept[q]) < 0,
                ensures
                    pos <= kept.len(),
                    forall|q: int| pos <= q < kept.len() ==> cand_order(arenas, spec, c, #[trigger] kept[q]) < 0,
                    pos > 0 ==> cand_order(arenas, spec, c, kept[pos - 1]) >= 0,
                decreases pos,
            {
                match cand_compare(spec, roots, c, best[pos - 1]) {
                    Order::Less => {
                        pos = pos - 1;
                    },
                    _ => {
                        break;
                    },
                }
            }
            proof {
                lemma_insert_sorted(arenas, spec, kept, c, pos as int);
                if full {
                    lemma_step_evict(arenas, spec, all, old_best, old_src, k as int, pos as int);
                } else {
                    lemma_step_grow(arenas, spec, all, old_best, old_src, k as int, pos as int);
                }
            }
            best.insert(pos, c);
            proof {
                src = src.insert(pos as int, k as int);
            }
        } else {
            proof {
                lemma_step_skip(arenas, spec, all, old_best, old_src, k as int);
            }
        }
        k = k + 1;
    }
    proof {
        assert(all.subrange(0, k as int) =~= all);
    }
    best
}


// ---------------------------------------------------------------------
// Hits

/// UTF-16 code units of `c`.
pub open spec fn utf16_units(c: char) -> int {
    if (c as u32) < 0x10000 {
        1
    } else {
        2
    }
}

/// UTF-16 code units of the chars of `cs` whose UTF-8 encoding lies within
/// its first `b` bytes: at a char boundary `b`, the UTF-16 offset of byte
/// offset `b`.
pub open spec fn utf16_within(cs: Seq<char>, b: int) -> int
    decreases cs.len(),
{
    if cs.len() == 0 {
        0
    } else {
        let w = encode_scalar(cs[0] as u32).len() as int;
        if w > b {
            0
        } else {
            utf16_units(cs[0]) + utf16_within(cs.drop_first(), b - w)
        }
    }
}

/// The number of chars of `s` at U+10000 or above: those outside the Basic
/// Multilingual Plane, which UTF-16 writes as a surrogate pair.
pub open spec fn supplementary_count(s: Seq<char>) -> int
    decreases s.len(),
{
    if s.len() == 0 {
        0
    } else {
        (if (s[0] as u32) >= 0x10000 { 1int } else { 0int }) + supplementary_count(s.drop_first())
    }
}

/// The UTF-16 offset of the byte offset where char `k` of `cs` begins is
/// the length of `cs[..k]` in UTF-16: one unit per char, and a second for
/// each char at U+10000 or above. Every char below U+10000 (CJK included)
/// counts one unit.
pub proof fn lemma_utf16_offset_counts_units(cs: Seq<char>, k: int)
    requires
        0 <= k <= cs.len(),
    ensures
        utf16_within(cs, utf8(cs.subrange(0, k)).len() as int) == k + supplementary_count(cs.subrange(0, k)),
    decreases k,
{
    let sub = cs.subrange(0, k);
    if k == 0 {
        assert(sub =~= Seq::<char>::empty());
        assert(utf8(sub) =~= Seq::<u8>::empty());
        if cs.len() > 0 {
            vstd::utf8::char_is_scalar(cs[0]);
            assert(encode_scalar(cs[0] as u32).len() >= 1);
        }
    } else {
        let rest = cs.drop_first();
        assert(sub[0] == cs[0]);
        assert(sub.drop_first() =~= rest.subrange(0, k - 1));
        lemma_utf16_offset_counts_units(rest, k - 1);
        assert(utf8(sub) == encode_scalar(sub[0] as u32) + utf8(sub.drop_first()));
    }
}

proof fn lemma_supplementary_count_concat(a: Seq<char>, b: Seq<char>)
    ensures
        supplementary_count(a + b) == supplementary_count(a) + supplementary_count(b),
    decreases a.len(),
{
    if a.len() == 0 {
        assert(a + b =~= b);
    } else {
        assert((a + b).drop_first() =~= a.drop_first() + b);
        assert((a + b)[0] == a[0]);
        lemma_supplementary_count_concat(a.drop_first(), b);
    }
}

/// The highlight of a hit in UTF-16 units: when the match covers chars
/// `k..k + m` of a name (`m > 0`), it starts at the UTF-16 length of the
/// first `k` chars and is as long as the UTF-16 length of the matched chars
/// (one unit each, two for a char at U+10000 or above).
pub proof fn lemma_utf16_span_counts_units(cs: Seq<char>, k: int, m: int)
    requires
        0 <= k,
        0 < m,
        k + m <= cs.len(),
    ensures
        utf16_span(utf8(cs), utf8(cs.subrange(0, k)).len() as int, utf8(cs.subrange(k, k + m)).len() as int) == (
            k + supplementary_count(cs.subrange(0, k)),
            m + supplementary_count(cs.subrange(k, k + m)),
        ),
{
    crate::text::lemma_decode_utf8(cs);
    let a = cs.subrange(0, k);
    let b = cs.subrange(k, k + m);
    assert(cs.subrange(0, k + m) =~= a + b);
    lemma_utf8_concat(a, b);
    lemma_supplementary_count_concat(a, b);
    vstd::utf8::char_is_scalar(b[0]);
    assert(utf8(b) == encode_scalar(b[0] as u32) + utf8(b.drop_first()));
    lemma_utf16_offset_counts_units(cs, k);
    lemma_utf16_offset_counts_units(cs, k + m);
}

proof fn lemma_utf16_within_bounds(cs: Seq<char>, b: int)
    requires
        b >= 0,
    ensures
        0 <= utf16_within(cs, b) <= b,
    decreases cs.len(),
{
    if cs.len() > 0 {
        vstd::utf8::char_is_scalar(cs[0]);
        let w = encode_scalar(cs[0] as u32).len() as int;
        if w <= b {
            lemma_utf16_within_bounds(cs.drop_first(), b - w);
        }
    }
}

/// UTF-8 width of `c`.
fn utf8_width(c: char) -> (r: usize)
    ensures
        r == encode_scalar(c as u32).len(),
        1 <= r <= 4,
        utf16_units(c) <= r,
{
    proof {
        vstd::utf8::char_is_scalar(c);
    }
    let v = c as u32;
    if v < 0x80 {
        1
    } else if v < 0x800 {
        2
    } else if v < 0x10000 {
        3
    } else {
        4
    }
}

/// The UTF-16 offset of byte offset `b` into the chars `cs`.
fn utf16_offset(cs: &Vec<char>, b: usize) -> (r: usize)
    ensures
        r == utf16_within(cs@, b as int),
{
    let n = cs.len();
    let mut i: usize = 0;
    let mut pos: usize = 0;
    let mut acc: usize = 0;
    assert(cs@.subrange(0, n as int) =~= cs@);
    while i < n
        invariant
            n == cs@.len(),
            i <= n,
            pos <= b,
            acc <= pos,
            utf16_within(cs@, b as int) == acc + utf16_within(cs@.subrange(i as int, n as int), b - pos),
        decreases n - i,
    {
        let c = cs[i];
        let w = utf8_width(c);
        let ghost rest = cs@.subrange(i as int, n as int);
        assert(rest[0] == c);
        assert(rest.drop_first() =~= cs@.subrange(i + 1, n as int));
        if w > b - pos {
            return acc;
        }
        acc = acc + if (c as u32) < 0x10000 {
            1
        } else {
            2
        };
        pos = pos + w;
        i = i + 1;
    }
    acc
}

/// The highlight span in UTF-16 units of the name: the byte span `(s, l)`
/// into the lowercased name `lower`, converted; `(0, 0)` with nothing to
/// highlight.
pub open spec fn utf16_span(lower: Seq<u8>, s: int, l: int) -> (int, int) {
    if l > 0 {
        let cs = decode_utf8(lower);
        (utf16_within(cs, s), utf16_within(cs, s + l) - utf16_within(cs, s))
    } else {
        (0, 0)
    }
}

/// The hit for entry `i` of `arena` with byte span `(s, l)` into its
/// lowercased name.
pub open spec fn hit_spec(arena: IndexArena, i: int, s: int, l: int) -> HitView {
    let (s16, l16) = utf16_span(arena.name_lower_at(i), s, l);
    (
        arena.name_at(i),
        arena.full_path_at(i),
        arena.dir_at(i),
        arena.folder_at(i),
        arena.ext_at(i),
        arena.size_at(i),
        arena.modified_at(i),
        s16 as usize,
        l16 as usize,
    )
}

/// Builds the hit for entry `i`, turning the byte span into the lowercased
/// name into UTF-16 units, which is how the frontend slices `name`.
pub fn build_hit(arena: &IndexArena, i: usize, span: (usize, usize)) -> (r: SearchHit)
    requires
        arena.wf(),
        i < arena.spec_len(),
        span.0 + span.1 <= usize::MAX,
    ensures
        r@ == hit_spec(*arena, i as int, span.0 as int, span.1 as int),
{
    let (match_start, match_len) = span;
    let (s16, l16) = if match_len > 0 {
        let name_lower = arena.name_lower(i);
        proof {
            lemma_decode_bytes(name_lower);
            lemma_utf16_within_bounds(name_lower@, match_start as int);
            lemma_utf16_within_bounds(name_lower@, (match_start + match_len) as int);
        }
        let cs = to_chars(name_lower);
        let a = utf16_offset(&cs, match_start);
        let b = utf16_offset(&cs, match_start + match_len);
        proof {
            crate::order::lemma_lex_basics(Seq::empty(), Seq::empty());
            assert(a <= b) by {
                lemma_utf16_within_monotone(cs@, match_start as int, (match_start + match_len) as int);
            }
        }
        (a, b - a)
    } else {
        (0, 0)
    };
    SearchHit {
        name: arena.name(i).to_owned(),
        path: arena.full_path(i),
        dir: arena.dir(i).to_owned(),
        folder: arena.folder(i),
        ext: arena.ext(i).to_owned(),
        size: arena.size(i),
        modified: arena.modified(i),
        match_start: s16,
        match_len: l16,
    }
}

proof fn lemma_utf16_within_monotone(cs: Seq<char>, a: int, b: int)
    requires
        0 <= a <= b,
    ensures
        utf16_within(cs, a) <= utf16_within(cs, b),
    decreases cs.len(),
{
    if cs.len() > 0 {
        let w = encode_scalar(cs[0] as u32).len() as int;
        if w <= a {
            lemma_utf16_within_monotone(cs.drop_first(), a - w, b - w);
        } else if w <= b {
            vstd::utf8::char_is_scalar(cs[0]);
            lemma_utf16_within_bounds(cs.drop_first(), b - w);
        }
    }
}


// ---------------------------------------------------------------------
// Search

/// The scope include path `p` as the search uses it: trailing separators
/// trimmed, then lowercased.
pub open spec fn scope_path_bytes(p: Seq<char>) -> Seq<u8> {
    utf8(lower(decode_utf8(trim_end_seps(utf8(p)))))
}

/// The scope include paths `ps` as the search uses them, empty ones dropped.
pub open spec fn includes_spec(ps: Seq<Seq<char>>) -> Seq<Seq<u8>>
    decreases ps.len(),
{
    if ps.len() == 0 {
        Seq::empty()
    } else {
        includes_spec(ps.drop_last()) + if scope_path_bytes(ps.last()).len() > 0 {
            seq![scope_path_bytes(ps.last())]
        } else {
            Seq::empty()
        }
    }
}

/// An optional list of strings as a sequence.
pub open spec fn slice_view(o: Option<&[String]>) -> Option<Seq<String>> {
    match o {
        Some(l) => Some(l@),
        None => None,
    }
}

/// The bytes of an optional list of strings.
pub open spec fn opt_strings_bytes(o: Option<Vec<String>>) -> Option<Seq<Seq<u8>>> {
    match o {
        Some(v) => Some(strings_bytes(v@)),
        None => None,
    }
}

/// The scope of a search given its optional include paths.
pub open spec fn scope_of(include_paths: Option<Seq<String>>) -> Option<Seq<Seq<u8>>> {
    match include_paths {
        Some(l) => Some(includes_spec(l.map_values(|s: String| s@))),
        None => None,
    }
}

proof fn lemma_includes_congruent(ps: Seq<Seq<char>>, qs: Seq<Seq<char>>)
    requires
        ps.len() == qs.len(),
        forall|j: int| 0 <= j < ps.len() ==> scope_path_bytes(#[trigger] ps[j]) == scope_path_bytes(qs[j]),
    ensures
        includes_spec(ps) == includes_spec(qs),
    decreases ps.len(),
{
    if ps.len() > 0 {
        assert(scope_path_bytes(ps.last()) == scope_path_bytes(qs.last())) by {
            assert(ps.last() == ps[ps.len() - 1]);
        }
        assert forall|j: int| 0 <= j < ps.drop_last().len() implies scope_path_bytes(#[trigger] ps.drop_last()[j]) == scope_path_bytes(
            qs.drop_last()[j],
        ) by {
            assert(ps.drop_last()[j] == ps[j]);
            assert(qs.drop_last()[j] == qs[j]);
        }
        lemma_includes_congruent(ps.drop_last(), qs.drop_last());
    }
}

/// A trailing `\` or `/` on an include path changes nothing: the include
/// path `p` and `p` followed by a separator give the same scope, so an
/// entry under the folder is in scope either way.
pub proof fn lemma_include_trailing_separator(ps: Seq<Seq<char>>, k: int, sep: char)
    requires
        0 <= k < ps.len(),
        sep == '\\' || sep == '/',
    ensures
        includes_spec(ps.update(k, ps[k].push(sep))) == includes_spec(ps),
{
    let p = ps[k];
    assert(p.push(sep) =~= p + seq![sep]);
    lemma_utf8_concat(p, seq![sep]);
    lemma_utf8_ascii_char(sep);
    let b = utf8(p);
    assert(utf8(p.push(sep)) =~= b.push((sep as u32) as u8));
    assert(b.push((sep as u32) as u8).drop_last() =~= b);
    assert(trim_end_seps(utf8(p.push(sep))) == trim_end_seps(b));
    assert(scope_path_bytes(p.push(sep)) == scope_path_bytes(p));
    let qs = ps.update(k, p.push(sep));
    assert forall|j: int| 0 <= j < qs.len() implies scope_path_bytes(#[trigger] qs[j]) == scope_path_bytes(ps[j]) by {
        if j == k {
        } else {
            assert(qs[j] == ps[j]);
        }
    }
    lemma_includes_congruent(qs, ps);
}

/// An entry whose lowercased directory is the lowercased include folder `p`
/// (given without a trailing separator), or lies under it, is in the
/// scope of `p`, and of `p` written with a trailing `\`.
pub proof fn lemma_entry_under_include_in_scope(p: Seq<char>, arena: IndexArena, i: int)
    requires
        utf8(p).len() > 0,
        !is_sep_byte(utf8(p).last()),
        has_path_prefix(arena.dir_lower_at(i), utf8(lower(p))),
    ensures
        scope_allows(Some(includes_spec(seq![p])), arena, i),
        scope_allows(Some(includes_spec(seq![p.push('\\')])), arena, i),
{
    let b = utf8(p);
    assert(trim_end_seps(b) == b);
    crate::text::lemma_decode_utf8(p);
    assert(scope_path_bytes(p) == utf8(lower(p)));
    let one = seq![p];
    assert(one.drop_last() =~= Seq::<Seq<char>>::empty());
    assert(one.last() == p);
    assert(includes_spec(Seq::<Seq<char>>::empty()) =~= Seq::<Seq<u8>>::empty());
    assert(includes_spec(one.drop_last()) =~= Seq::<Seq<u8>>::empty());
    let incs = includes_spec(one);
    if utf8(lower(p)).len() > 0 {
        assert(incs =~= seq![utf8(lower(p))]);
        assert(has_path_prefix(arena.dir_lower_at(i), incs[0]));
    } else {
        assert(incs =~= Seq::<Seq<u8>>::empty());
    }
    lemma_include_trailing_separator(one, 0, '\\');
    assert(one.update(0, p.push('\\')) =~= seq![p.push('\\')]);
}

/// Lowercases the include paths once per search, trailing separators
/// trimmed and empty ones dropped.
fn normalize_includes(include_paths: Option<&[String]>) -> (r: Option<Vec<String>>)
    ensures
        match r {
            Some(v) => scope_of(slice_view(include_paths)) == Some(strings_bytes(v@)),
            None => include_paths is None,
        },
{
    let ps = match include_paths {
        None => return None,
        Some(ps) => ps,
    };
    let ghost views = ps@.map_values(|s: String| s@);
    let mut out: Vec<String> = Vec::new();
    let mut k: usize = 0;
    while k < ps.len()
        invariant
            views == ps@.map_values(|s: String| s@),
            k <= ps@.len(),
            strings_bytes(out@) == includes_spec(views.subrange(0, k as int)),
        decreases ps.len() - k,
    {
        let t = trim_end_separators(ps[k].as_str());
        let low = to_lower(t);
        proof {
            lemma_decode_bytes(t);
            assert(views.subrange(0, k + 1).drop_last() =~= views.subrange(0, k as int));
            assert(views.subrange(0, k + 1).last() == ps@[k as int]@);
        }
        if low.as_str().as_bytes().len() > 0 {
            let ghost before = out@;
            out.push(low);
            proof {
                assert(strings_bytes(out@) =~= strings_bytes(before) + seq![utf8(out@.last()@)]);
            }
        }
        k = k + 1;
    }
    proof {
        assert(views.subrange(0, k as int) =~= views);
    }
    Some(out)
}

/// What entry `i` of `arena` answers for the query `q` (its `dm:` filter
/// resolved to `range`) within the scope `incs`.
pub open spec fn entry_hit(q: QueryView, range: Option<(i64, i64)>, incs: Option<Seq<Seq<u8>>>, arena: IndexArena, i: int) -> Option<(int, int)> {
    if scope_allows(incs, arena, i) {
        query_match(q, range, arena, i)
    } else {
        None
    }
}

/// The matches among the first `n` entries of root `r`, in index order.
pub open spec fn root_hits(q: QueryView, range: Option<(i64, i64)>, incs: Option<Seq<Seq<u8>>>, arenas: Seq<IndexArena>, r: int, n: int) -> Seq<Candidate>
    decreases n,
{
    if n <= 0 {
        Seq::empty()
    } else {
        root_hits(q, range, incs, arenas, r, n - 1) + match entry_hit(q, range, incs, arenas[r], n - 1) {
            Some((s, l)) => seq![Candidate { root: r as u32, idx: (n - 1) as u32, span_start: s as u32, span_len: l as u32 }],
            None => Seq::empty(),
        }
    }
}

/// The matches in the first `r` roots, root by root, each in index order.
pub open spec fn all_hits(q: QueryView, range: Option<(i64, i64)>, incs: Option<Seq<Seq<u8>>>, arenas: Seq<IndexArena>, r: int) -> Seq<Candidate>
    decreases r,
{
    if r <= 0 {
        Seq::empty()
    } else {
        all_hits(q, range, incs, arenas, r - 1) + root_hits(q, range, incs, arenas, r - 1, arenas[r - 1].spec_len() as int)
    }
}

/// The number of entries in the first `r` arenas.
pub open spec fn total_len(arenas: Seq<IndexArena>, r: int) -> int
    decreases r,
{
    if r <= 0 {
        0
    } else {
        total_len(arenas, r - 1) + arenas[r - 1].spec_len()
    }
}

/// The hit a candidate stands for.
pub open spec fn hit_of(arenas: Seq<IndexArena>, c: Candidate) -> HitView {
    hit_spec(arenas[c.root as int], c.idx as int, c.span_start as int, c.span_len as int)
}

/// The hits of a response, as values.
pub open spec fn hits_view(hs: Seq<SearchHit>) -> Seq<HitView> {
    hs.map_values(|h: SearchHit| h@)
}

/// The first `limit` of `m`.
pub open spec fn first_n(m: Seq<Candidate>, limit: int) -> Seq<Candidate> {
    if limit < m.len() {
        m.subrange(0, limit)
    } else {
        m
    }
}

/// `chosen` is what a search returns out of the matches `m`: the first
/// `limit` in index order when unsorted, the best `limit` under `sort`
/// otherwise.
pub open spec fn chosen_ok(arenas: Seq<IndexArena>, sort: Option<SortSpec>, m: Seq<Candidate>, limit: int, chosen: Seq<Candidate>) -> bool {
    match sort {
        None => chosen == first_n(m, limit),
        Some(spec) => is_top(arenas, spec, m, limit, chosen),
    }
}

/// What a search of `arenas` answers for the query `q` with its `dm:`
/// filter resolved to `range`, within the scope `incs`.
pub open spec fn response_ok(
    r: SearchResponse,
    arenas: Seq<IndexArena>,
    q: QueryView,
    range: Option<(i64, i64)>,
    incs: Option<Seq<Seq<u8>>>,
    limit: int,
    sort: Option<SortSpec>,
) -> bool {
    let m = all_hits(q, range, incs, arenas, arenas.len() as int);
    &&& r.total_indexed == total_len(arenas, arenas.len() as int)
    &&& q == empty_query() ==> r.total_matched == 0 && r.hits@.len() == 0
    &&& q != empty_query() ==> {
        &&& r.total_matched == m.len()
        &&& exists|chosen: Seq<Candidate>| chosen_ok(arenas, sort, m, limit, chosen) && hits_view(r.hits@) == chosen.map_values(
            |c: Candidate| hit_of(arenas, c),
        )
    }
}

/// A search returns as many hits as its cap allows: the cap or the number
/// of matches, whichever is smaller (none for a blank query).
pub proof fn lemma_hit_count(
    r: SearchResponse,
    arenas: Seq<IndexArena>,
    q: QueryView,
    range: Option<(i64, i64)>,
    incs: Option<Seq<Seq<u8>>>,
    limit: int,
    sort: Option<SortSpec>,
)
    requires
        response_ok(r, arenas, q, range, incs, limit, sort),
        limit >= 0,
    ensures
        r.hits@.len() == (if q == empty_query() {
            0
        } else if limit < r.total_matched {
            limit
        } else {
            r.total_matched as int
        }),
{
    if q != empty_query() {
        let m = all_hits(q, range, incs, arenas, arenas.len() as int);
        let chosen = choose|chosen: Seq<Candidate>| chosen_ok(arenas, sort, m, limit, chosen) && hits_view(r.hits@) == chosen.map_values(
            |c: Candidate| hit_of(arenas, c),
        );
        assert(hits_view(r.hits@).len() == r.hits@.len());
    }
}

/// The match count and the index size depend on the query, its date range
/// and its scope alone: searching the same index with another cap or
/// another sort order reports the same totals.
pub proof fn lemma_totals_ignore_cap_and_sort(
    r1: SearchResponse,
    r2: SearchResponse,
    arenas: Seq<IndexArena>,
    q: QueryView,
    range: Option<(i64, i64)>,
    incs: Option<Seq<Seq<u8>>>,
    limit1: int,
    limit2: int,
    sort1: Option<SortSpec>,
    sort2: Option<SortSpec>,
)
    requires
        response_ok(r1, arenas, q, range, incs, limit1, sort1),
        response_ok(r2, arenas, q, range, incs, limit2, sort2),
    ensures
        r1.total_matched == r2.total_matched,
        r1.total_indexed == r2.total_indexed,
{
}

proof fn lemma_total_len_bound(arenas: Seq<IndexArena>, r: int)
    requires
        0 <= r <= arenas.len(),
        arenas_wf(arenas),
    ensures
        0 <= total_len(arenas, r) <= r * (u32::MAX as int),
    decreases r,
{
    if r > 0 {
        lemma_total_len_bound(arenas, r - 1);
        assert(arenas[r - 1].wf());
        arenas[r - 1].lemma_len_bound();
        assert((r - 1) * (u32::MAX as int) + (u32::MAX as int) == r * (u32::MAX as int)) by (nonlinear_arith);
    }
}

proof fn lemma_root_hits_len(q: QueryView, range: Option<(i64, i64)>, incs: Option<Seq<Seq<u8>>>, arenas: Seq<IndexArena>, r: int, n: int)
    requires
        n >= 0,
    ensures
        root_hits(q, range, incs, arenas, r, n).len() <= n,
    decreases n,
{
    if n > 0 {
        lemma_root_hits_len(q, range, incs, arenas, r, n - 1);
    }
}

proof fn lemma_all_hits_len(q: QueryView, range: Option<(i64, i64)>, incs: Option<Seq<Seq<u8>>>, arenas: Seq<IndexArena>, r: int)
    requires
        0 <= r <= arenas.len(),
        arenas_wf(arenas),
    ensures
        all_hits(q, range, incs, arenas, r).len() <= total_len(arenas, r),
    decreases r,
{
    if r > 0 {
        lemma_all_hits_len(q, range, incs, arenas, r - 1);
        lemma_root_hits_len(q, range, incs, arenas, r - 1, arenas[r - 1].spec_len() as int);
    }
}

/// A root none of whose entries can hit contributes no matches.
proof fn lemma_root_hits_none(q: QueryView, range: Option<(i64, i64)>, incs: Option<Seq<Seq<u8>>>, arenas: Seq<IndexArena>, r: int, n: int)
    requires
        0 <= n <= arenas[r].spec_len(),
        forall|i: int| 0 <= i < arenas[r].spec_len() ==> #[trigger] entry_hit(q, range, incs, arenas[r], i) is None,
    ensures
        root_hits(q, range, incs, arenas, r, n) == Seq::<Candidate>::empty(),
    decreases n,
{
    if n > 0 {
        lemma_root_hits_none(q, range, incs, arenas, r, n - 1);
        assert(entry_hit(q, range, incs, arenas[r], n - 1) is None);
        assert(root_hits(q, range, incs, arenas, r, n) =~= Seq::<Candidate>::empty());
    }
}

/// What entry `i` answers: in scope and matched, with its byte span.
fn entry_result(
    compiled: &CompiledQuery,
    scope: &ScopeFilter,
    arena: &IndexArena,
    i: usize,
    Ghost(q): Ghost<QueryView>,
    Ghost(range): Ghost<Option<(i64, i64)>>,
) -> (r: Option<(usize, usize)>)
    requires
        arena.wf(),
        i < arena.spec_len(),
        compiled.compiled_for(arena),
        CompiledQuery::compiled_from(compiled@, q, *arena, range),
        !compiled@.6,
        scope.built_for(arena),
    ensures
        r == match entry_hit(q, range, scope.scope(), *arena, i as int) {
            Some((s, l)) => Some((s as usize, l as usize)),
            None => None,
        },
        r matches Some((s, l)) ==> s + l <= u32::MAX,
        entry_hit(q, range, scope.scope(), *arena, i as int) matches Some((s, l)) ==> 0 <= s && 0 <= l && s + l <= u32::MAX,
{
    if !scope.allows(arena, i) {
        return None;
    }
    proof {
        lemma_compiled_match_is_query_match(compiled@, q, *arena, range, i as int);
        arena.lemma_name_lens(i as int);
    }
    compiled.matches(arena, i)
}

/// The matches of one root, in index order.
fn scan_root(
    parsed: &ParsedQuery,
    range: Option<(i64, i64)>,
    includes: &Option<Vec<String>>,
    roots: &Vec<RootIndex>,
    r: usize,
    total: &mut u64,
    collect_all: bool,
    limit: usize,
    collected: &mut Vec<Candidate>,
)
    requires
        arenas_wf(arenas_of(roots@)),
        r < roots@.len(),
        roots@.len() < u32::MAX,
        *old(total) == old(collected)@.len() || !collect_all,
        *old(total) + arenas_of(roots@)[r as int].spec_len() <= u64::MAX,
        !collect_all ==> old(collected)@.len() <= limit,
        forall|k: int| 0 <= k < old(collected)@.len() ==> cand_ok(arenas_of(roots@), #[trigger] old(collected)@[k]),
    ensures
        forall|k: int| 0 <= k < final(collected)@.len() ==> cand_ok(arenas_of(roots@), #[trigger] final(collected)@[k]),
        ({
            let arenas = arenas_of(roots@);
            let incs = opt_strings_bytes(*includes);
            let h = root_hits(parsed@, range, incs, arenas, r as int, arenas[r as int].spec_len() as int);
            &&& *final(total) == *old(total) + h.len()
            &&& collect_all ==> final(collected)@ == old(collected)@ + h
            &&& !collect_all ==> final(collected)@ == first_n(old(collected)@ + h, limit as int)
        }),
{
    let ghost arenas = arenas_of(roots@);
    let ghost incs = opt_strings_bytes(*includes);
    let ghost q = parsed@;
    let ghost start = collected@;
    let ghost total0 = *total;
    assert(arenas[r as int].wf());
    let arena: &IndexArena = &roots[r].arena;
    let n = arena.len();
    let compiled = CompiledQuery::compile_resolved(parsed, arena, range);
    if compiled.matches_nothing() {
        proof {
            assert forall|i: int| 0 <= i < arenas[r as int].spec_len() implies #[trigger] entry_hit(q, range, incs, arenas[r as int], i) is None by {
                lemma_matches_nothing_is_sound(compiled@, q, *arena, range, i);
            }
            lemma_root_hits_none(q, range, incs, arenas, r as int, n as int);
            assert(start + Seq::<Candidate>::empty() =~= start);
        }
        return;
    }
    let scope = ScopeFilter::build(arena, match includes {
        Some(v) => Some(v.as_slice()),
        None => None,
    });
    if scope.matches_nothing() {
        proof {
            assert forall|i: int| 0 <= i < arenas[r as int].spec_len() implies #[trigger] entry_hit(q, range, incs, arenas[r as int], i) is None by {
                lemma_scope_matches_nothing(scope, *arena, i);
            }
            lemma_root_hits_none(q, range, incs, arenas, r as int, n as int);
            assert(start + Seq::<Candidate>::empty() =~= start);
        }
        return;
    }
    let mut i: usize = 0;
    while i < n
        invariant
            arenas == arenas_of(roots@),
            arena.wf(),
            *arena == arenas[r as int],
            n == arena.spec_len(),
            r < roots@.len(),
            roots@.len() < u32::MAX,
            compiled.compiled_for(arena),
            CompiledQuery::compiled_from(compiled@, q, *arena, range),
            !compiled@.6,
            scope.built_for(arena),
            scope.scope() == incs,
            i <= n,
            *total == total0 + root_hits(q, range, incs, arenas, r as int, i as int).len(),
            total0 + n <= u64::MAX,
            collect_all ==> collected@ == start + root_hits(q, range, incs, arenas, r as int, i as int),
            !collect_all ==> collected@ == first_n(start + root_hits(q, range, incs, arenas, r as int, i as int), limit as int),
            !collect_all ==> start.len() <= limit,
            forall|k: int| 0 <= k < collected@.len() ==> cand_ok(arenas, #[trigger] collected@[k]),
        decreases n - i,
    {
        proof {
            lemma_root_hits_len(q, range, incs, arenas, r as int, i as int);
        }
        let ghost before = root_hits(q, range, incs, arenas, r as int, i as int);
        if let Some((s, l)) = entry_result(&compiled, &scope, arena, i, Ghost(q), Ghost(range)) {
            *total = *total + 1;
            let c = Candidate { root: r as u32, idx: i as u32, span_start: s as u32, span_len: l as u32 };
            proof {
                assert(root_hits(q, range, incs, arenas, r as int, i + 1) == before + seq![c]);
                assert(cand_ok(arenas, c));
            }
            if collect_all {
                collected.push(c);
            } else if collected.len() < limit {
                collected.push(c);
                proof {
                    assert(first_n(start + before, limit as int) =~= start + before);
                    assert(collected@ =~= first_n(start + before + seq![c], limit as int));
                }
            } else {
                proof {
                    assert(first_n(start + before + seq![c], limit as int) =~= first_n(start + before, limit as int));
                }
            }
            proof {
                assert(start + before + seq![c] =~= start + (before + seq![c]));
            }
        } else {
            proof {
                assert(root_hits(q, range, incs, arenas, r as int, i + 1) =~= before);
            }
        }
        i = i + 1;
    }
}


proof fn lemma_first_n_concat(a: Seq<Candidate>, h: Seq<Candidate>, limit: int)
    requires
        limit >= 0,
    ensures
        first_n(first_n(a, limit) + h, limit) == first_n(a + h, limit),
{
    if limit < a.len() {
        assert(first_n(a, limit) + h =~= a.subrange(0, limit) + h);
        assert(first_n(a.subrange(0, limit) + h, limit) =~= (a + h).subrange(0, limit));
    } else {
        assert(first_n(a, limit) =~= a);
    }
}

/// Calls `std::time::SystemTime::now`: the system clock's reading. It
/// depends on the clock, so nothing is claimed about it.
#[verifier::external_body]
fn system_now() -> (r: SystemTime) {
    SystemTime::now()
}

/// Calls `SystemTime::duration_since(UNIX_EPOCH)` on `t`: its whole seconds
/// since 1970-01-01 UTC, or `None` when `t` reads earlier (the `Err` that
/// std documents for a time before the epoch). `t` is opaque here, so
/// nothing more is claimed.
#[verifier::external_body]
fn seconds_since_epoch(t: &SystemTime) -> (r: Option<u64>) {
    match t.duration_since(UNIX_EPOCH) {
        Ok(d) => Some(d.as_secs()),
        Err(_) => None,
    }
}

/// The current unix second, when the clock reads one at or after the epoch
/// that fits an `i64`; `None` otherwise (a clock set before 1970), where a
/// search resolves no `dm:` range instead of failing.
fn local_now() -> (r: Option<i64>) {
    match seconds_since_epoch(&system_now()) {
        Some(secs) => if secs <= i64::MAX as u64 {
            Some(secs as i64)
        } else {
            None
        },
        None => None,
    }
}


/// Calls `Arc::clone`: a new handle to the same value.
#[verifier::external_body]
fn arc_clone(a: &Arc<IndexArena>) -> (r: Arc<IndexArena>)
    ensures
        r == *a,
{
    Arc::clone(a)
}

/// A copy of a root entry: the same name, a new handle to the same arena.
fn clone_root(ri: &RootIndex) -> (r: RootIndex)
    ensures
        r == *ri,
{
    RootIndex { root: ri.root.clone(), arena: arc_clone(&ri.arena) }
}

/// `roots` without the entries whose lowercased name is `key`, in order.
pub open spec fn without_key(roots: Seq<RootIndex>, key: Seq<u8>) -> Seq<RootIndex>
    decreases roots.len(),
{
    if roots.len() == 0 {
        Seq::empty()
    } else {
        without_key(roots.drop_last(), key) + if root_key(roots.last().root@) != key {
            seq![roots.last()]
        } else {
            Seq::empty()
        }
    }
}

proof fn lemma_without_key_sub(roots: Seq<RootIndex>, key: Seq<u8>)
    ensures
        forall|p: int| 0 <= p < without_key(roots, key).len() ==> exists|q: int| 0 <= q < roots.len() && roots[q] == #[trigger] without_key(roots, key)[p],
        forall|p: int| 0 <= p < without_key(roots, key).len() ==> root_key((#[trigger] without_key(roots, key)[p]).root@) != key,
    decreases roots.len(),
{
    if roots.len() > 0 {
        let w = without_key(roots.drop_last(), key);
        lemma_without_key_sub(roots.drop_last(), key);
        assert forall|p: int| 0 <= p < without_key(roots, key).len() implies exists|q: int| 0 <= q < roots.len() && roots[q] == #[trigger] without_key(roots, key)[p] by {
            if p < w.len() {
                let q = choose|q: int| 0 <= q < roots.drop_last().len() && roots.drop_last()[q] == #[trigger] w[p];
                assert(roots[q] == roots.drop_last()[q]);
            } else {
                assert(roots[roots.len() - 1] == without_key(roots, key)[p]);
            }
        }
    }
}

/// A sorted list stays sorted when entries are dropped.
proof fn lemma_without_key_sorted(roots: Seq<RootIndex>, key: Seq<u8>)
    requires
        roots_sorted(roots),
    ensures
        roots_sorted(without_key(roots, key)),
    decreases roots.len(),
{
    lemma_without_key_sub(roots, key);
    if roots.len() > 0 {
        let d = roots.drop_last();
        assert(roots_sorted(d));
        lemma_without_key_sorted(d, key);
        lemma_without_key_sub(d, key);
        let w = without_key(d, key);
        let last = roots.last();
        assert forall|a: int, b: int| 0 <= a < b < without_key(roots, key).len() implies lex(
            root_key((#[trigger] without_key(roots, key)[a]).root@),
            root_key((#[trigger] without_key(roots, key)[b]).root@),
        ) < 0 by {
            let s2 = without_key(roots, key);
            if b < w.len() {
                assert(s2[a] == w[a] && s2[b] == w[b]);
            } else {
                assert(s2[b] == last);
                assert(s2[a] == w[a]);
                let q = choose|q: int| 0 <= q < d.len() && d[q] == #[trigger] w[a];
                assert(roots[q] == d[q]);
                assert(lex(root_key(roots[q].root@), root_key(roots[roots.len() - 1].root@)) < 0);
            }
        }
    }
}

/// The in-memory index: one arena per root, kept sorted by lowercased root
/// so result order is stable across rescans; one status per root; the
/// pause flag; and the scan generation, bumped on every (re)scan so a
/// superseded scan stops writing. Cloning is cheap (the arenas are
/// shared), so a search can run on a snapshot.
#[derive(Clone)]
pub struct IndexEngine {
    roots: Vec<RootIndex>,
    status: Vec<RootIndexStatus>,
    paused: bool,
    generation: u64,
}

/// The sort key of a root name: its lowercase form, as bytes.
pub open spec fn root_key(root: Seq<char>) -> Seq<u8> {
    utf8(lower(root))
}

/// `roots` is sorted strictly by lowercased root name.
pub open spec fn roots_sorted(roots: Seq<RootIndex>) -> bool {
    forall|a: int, b: int| 0 <= a < b < roots.len() ==> lex(root_key((#[trigger] roots[a]).root@), root_key((#[trigger] roots[b]).root@)) < 0
}

impl IndexEngine {
    /// The roots, in order.
    pub closed spec fn roots_seq(&self) -> Seq<RootIndex> {
        self.roots@
    }

    /// The arenas, in root order.
    pub open spec fn arenas(&self) -> Seq<IndexArena> {
        arenas_of(self.roots_seq())
    }

    /// The root names, in root order.
    pub open spec fn root_names(&self) -> Seq<Seq<char>> {
        self.roots_seq().map_values(|r: RootIndex| r.root@)
    }

    /// The root statuses, as values.
    pub closed spec fn statuses(&self) -> Seq<StatusView> {
        status_views(self.status@)
    }

    /// Whether scanning is paused.
    pub closed spec fn paused_flag(&self) -> bool {
        self.paused
    }

    /// The current scan generation.
    pub closed spec fn current_generation(&self) -> u64 {
        self.generation
    }

    /// Every arena is well formed, there are fewer than `u32::MAX` roots,
    /// the roots are sorted strictly by lowercased name, and no two
    /// statuses share a root.
    pub closed spec fn wf(&self) -> bool {
        &&& arenas_wf(arenas_of(self.roots@))
        &&& self.roots@.len() < u32::MAX
        &&& roots_sorted(self.roots@)
        &&& distinct_roots(status_views(self.status@))
    }

    /// The roots of a well-formed engine are sorted strictly by lowercased
    /// name, so no two share one.
    pub proof fn lemma_roots_sorted(&self)
        requires
            self.wf(),
        ensures
            roots_sorted(self.roots_seq()),
    {
    }

    /// An engine with no roots, no statuses, not paused, generation 0.
    pub fn new() -> (r: Self)
        ensures
            r.wf(),
            r.arenas().len() == 0,
            r.statuses().len() == 0,
            !r.paused_flag(),
            r.current_generation() == 0,
    {
        IndexEngine { roots: Vec::new(), status: Vec::new(), paused: false, generation: 0 }
    }

    /// Whether scanning is paused.
    pub fn is_paused(&self) -> (r: bool)
        ensures
            r == self.paused_flag(),
    {
        self.paused
    }

    /// The current scan generation; a scan started under an older one has
    /// been superseded and stops.
    pub fn current_generation_value(&self) -> (r: u64)
        ensures
            r == self.current_generation(),
    {
        self.generation
    }

    /// Pauses or resumes scanning; nothing else changes.
    pub fn set_paused(&mut self, paused: bool)
        ensures
            final(self).paused_flag() == paused,
            final(self).arenas() == old(self).arenas(),
            final(self).root_names() == old(self).root_names(),
            final(self).statuses() == old(self).statuses(),
            final(self).current_generation() == old(self).current_generation(),
            old(self).wf() ==> final(self).wf(),
    {
        self.paused = paused;
    }

    /// Searches every root for `parsed`, its `dm:` filter resolved to
    /// `range`, within the scope of `include_paths`: the full match count,
    /// the index size, and up to `limit` hits — the first in root and index
    /// order, or the best under `sort`.
    pub fn search_parsed(
        &self,
        parsed: &ParsedQuery,
        range: Option<(i64, i64)>,
        limit: usize,
        include_paths: Option<&[String]>,
        sort: Option<SortSpec>,
    ) -> (r: SearchResponse)
        requires
            self.wf(),
        ensures
            response_ok(r, self.arenas(), parsed@, range, scope_of(slice_view(include_paths)), limit as int, sort),
    {
        let ghost arenas = arenas_of(self.roots@);
        let nroots = self.roots.len();
        let mut total_indexed: u64 = 0;
        let mut r: usize = 0;
        while r < nroots
            invariant
                arenas == arenas_of(self.roots@),
                arenas_wf(arenas),
                nroots == self.roots@.len(),
                nroots < u32::MAX,
                r <= nroots,
                total_indexed == total_len(arenas, r as int),
            decreases nroots - r,
        {
            proof {
                lemma_total_len_bound(arenas, r + 1);
                assert((r + 1) * (u32::MAX as int) <= (u32::MAX as int) * (u32::MAX as int)) by (nonlinear_arith)
                    requires
                        r + 1 <= u32::MAX,
                ;
                assert(arenas[r as int] == *self.roots@[r as int].arena);
            }
            let len = self.roots[r].arena.len();
            total_indexed = total_indexed + len as u64;
            r = r + 1;
        }
        if parsed.is_empty() {
            return SearchResponse { hits: Vec::new(), total_matched: 0, total_indexed };
        }
        let includes = normalize_includes(include_paths);
        let ghost incs = opt_strings_bytes(includes);
        assert(incs == scope_of(slice_view(include_paths)));
        let collect_all = sort.is_some();
        let mut total: u64 = 0;
        let mut collected: Vec<Candidate> = Vec::new();
        let mut r: usize = 0;
        while r < nroots
            invariant
                arenas == arenas_of(self.roots@),
                arenas_wf(arenas),
                nroots == self.roots@.len(),
                nroots < u32::MAX,
                r <= nroots,
                incs == opt_strings_bytes(includes),
                collect_all == sort.is_some(),
                total == all_hits(parsed@, range, incs, arenas, r as int).len(),
                collect_all ==> collected@ == all_hits(parsed@, range, incs, arenas, r as int),
                !collect_all ==> collected@ == first_n(all_hits(parsed@, range, incs, arenas, r as int), limit as int),
                forall|k: int| 0 <= k < collected@.len() ==> cand_ok(arenas, #[trigger] collected@[k]),
            decreases nroots - r,
        {
            let ghost before = all_hits(parsed@, range, incs, arenas, r as int);
            proof {
                lemma_all_hits_len(parsed@, range, incs, arenas, r as int);
                lemma_total_len_bound(arenas, r + 1);
                assert((r + 1) * (u32::MAX as int) <= (u32::MAX as int) * (u32::MAX as int)) by (nonlinear_arith)
                    requires
                        r + 1 <= u32::MAX,
                ;
            }
            scan_root(parsed, range, &includes, &self.roots, r, &mut total, collect_all, limit, &mut collected);
            proof {
                let h = root_hits(parsed@, range, incs, arenas, r as int, arenas[r as int].spec_len() as int);
                assert(all_hits(parsed@, range, incs, arenas, r + 1) == before + h);
                if !collect_all {
                    lemma_first_n_concat(before, h, limit as int);
                }
            }
            r = r + 1;
        }
        let ghost m = all_hits(parsed@, range, incs, arenas, nroots as int);
        let chosen = match sort {
            None => collected,
            Some(spec) => {
                select_top(&collected, limit, spec, &self.roots)
            },
        };
        proof {
            if let Some(spec) = sort {
                let src = choose|src: Seq<int>| picks(m, chosen@, src) && rest_no_better(arenas, spec, m, chosen@, src);
                assert forall|p: int| 0 <= p < chosen@.len() implies cand_ok(arenas, #[trigger] chosen@[p]) by {
                    assert(chosen@[p] == m[src[p]]);
                }
            }
        }
        let mut hits: Vec<SearchHit> = Vec::new();
        let mut p: usize = 0;
        while p < chosen.len()
            invariant
                arenas == arenas_of(self.roots@),
                arenas_wf(arenas),
                forall|k: int| 0 <= k < chosen@.len() ==> cand_ok(arenas, #[trigger] chosen@[k]),
                p <= chosen@.len(),
                hits_view(hits@) == chosen@.subrange(0, p as int).map_values(|c: Candidate| hit_of(arenas, c)),
            decreases chosen.len() - p,
        {
            let c = chosen[p];
            assert(cand_ok(arenas, c));
            assert(arenas[c.root as int].wf());
            let arena: &IndexArena = &self.roots[c.root as usize].arena;
            let h = build_hit(arena, c.idx as usize, (c.span_start as usize, c.span_len as usize));
            let ghost prev = hits@;
            hits.push(h);
            proof {
                assert(*arena == arenas[c.root as int]);
                assert(h@ == hit_of(arenas, c));
                assert(chosen@.subrange(0, p + 1) =~= chosen@.subrange(0, p as int).push(c));
                assert(hits@ =~= prev.push(h));
                assert(hits_view(hits@) =~= hits_view(prev).push(h@));
                assert(hits_view(hits@) =~= chosen@.subrange(0, p + 1).map_values(|c: Candidate| hit_of(arenas, c)));
            }
            p = p + 1;
        }
        let resp = SearchResponse { hits, total_matched: total, total_indexed };
        proof {
            assert(chosen@.subrange(0, p as int) =~= chosen@);
            assert(chosen_ok(arenas, sort, m, limit as int, chosen@));
            assert(hits_view(resp.hits@) == chosen@.map_values(|c: Candidate| hit_of(arenas, c)));
            assert(parsed@ != empty_query());
            assert(resp.total_matched == m.len());
            assert(arenas == self.arenas());
        }
        resp
    }

    /// Searches every root for `raw_query` within the scope of
    /// `include_paths`, resolving a `dm:` filter against the current local
    /// date: the full match count, the index size, and up to `limit` hits.
    /// Without a `dm:` filter the response is fixed by the query and the
    /// index alone. With one, the response is that for the range the filter
    /// resolves to: one that spans the filter's days seen from some date,
    /// each bound within a day of UTC midnight (the clock and the machine's
    /// time zone decide the date, the exact bounds, and whether a range
    /// exists at all; a clock that reads before 1970 resolves none).
    pub fn search(&self, raw_query: &str, limit: usize, include_paths: Option<&[String]>, sort: Option<SortSpec>) -> (r: SearchResponse)
        requires
            self.wf(),
        ensures
            parse_query_spec(raw_query@).5 is None ==> response_ok(
                r,
                self.arenas(),
                parse_query_spec(raw_query@),
                None,
                scope_of(slice_view(include_paths)),
                limit as int,
                sort,
            ),
            exists|range: Option<(i64, i64)>|
                {
                    &&& response_ok(r, self.arenas(), parse_query_spec(raw_query@), range, scope_of(slice_view(include_paths)), limit as int, sort)
                    &&& (range matches Some((s, e)) ==> (parse_query_spec(raw_query@).5 matches Some(f) && exists|today: CalendarDate|
                        #[trigger] spans_days(f, today, s, e)))
                },
    {
        let parsed = parse_query(raw_query);
        let range = match parsed.date_modified_filter {
            Some(f) => match local_now() {
                Some(now) => date_range_at(f, now),
                None => None,
            },
            None => None,
        };
        self.search_parsed(&parsed, range, limit, include_paths, sort)
    }
}


/// Putting a root (as `put_root` does: every root of that lowercased name
/// removed, the new one inserted) leaves exactly one root of that name, the
/// new one; every other root stays, unchanged, and nothing else appears.
pub proof fn lemma_put_root_replaces(before: Seq<RootIndex>, after: Seq<RootIndex>, item: RootIndex, p: int)
    requires
        0 <= p <= without_key(before, root_key(item.root@)).len(),
        after == without_key(before, root_key(item.root@)).insert(p, item),
    ensures
        after[p] == item,
        forall|x: int| 0 <= x < after.len() && x != p ==> root_key((#[trigger] after[x]).root@) != root_key(item.root@),
        forall|q: int| 0 <= q < before.len() && root_key((#[trigger] before[q]).root@) != root_key(item.root@) ==> exists|x: int|
            0 <= x < after.len() && after[x] == before[q],
        forall|x: int| 0 <= x < after.len() && x != p ==> exists|q: int| 0 <= q < before.len() && before[q] == #[trigger] after[x],
{
    let k = root_key(item.root@);
    let w = without_key(before, k);
    lemma_without_key_sub(before, k);
    assert forall|x: int| 0 <= x < after.len() && x != p implies root_key((#[trigger] after[x]).root@) != k by {
        let y = if x < p { x } else { x - 1 };
        assert(after[x] == w[y]);
    }
    assert forall|x: int| 0 <= x < after.len() && x != p implies exists|q: int| 0 <= q < before.len() && before[q] == #[trigger] after[x] by {
        let y = if x < p { x } else { x - 1 };
        assert(after[x] == w[y]);
    }
    assert forall|q: int| 0 <= q < before.len() && root_key((#[trigger] before[q]).root@) != k implies exists|x: int|
        0 <= x < after.len() && after[x] == before[q] by {
        lemma_without_key_keeps(before, k, q);
        let y = choose|y: int| 0 <= y < w.len() && w[y] == before[q];
        if y < p {
            assert(after[y] == w[y]);
        } else {
            assert(after[y + 1] == w[y]);
        }
    }
}

impl IndexEngine {
    /// Replaces the arena of the root named `root` (compared lowercased),
    /// keeping the roots sorted by lowercased name.
    #[verifier::spinoff_prover]
    #[verifier::rlimit(40)]
    pub fn put_root(&mut self, root: String, arena: Arc<IndexArena>)
        requires
            old(self).wf(),
            arena.wf(),
            old(self).roots_seq().len() + 1 < u32::MAX,
        ensures
            final(self).wf(),
            exists|p: int| 0 <= p <= without_key(old(self).roots_seq(), root_key(root@)).len() && final(self).roots_seq() == without_key(
                old(self).roots_seq(),
                root_key(root@),
            ).insert(p, RootIndex { root, arena }),
            final(self).statuses() == old(self).statuses(),
            final(self).paused_flag() == old(self).paused_flag(),
            final(self).current_generation() == old(self).current_generation(),
    {
        let ghost old_self = *self;
        let key = to_lower(root.as_str());
        let ghost k = root_key(root@);
        assert(utf8(key@) == k);
        let mut old_roots: Vec<RootIndex> = Vec::new();
        std::mem::swap(&mut old_roots, &mut self.roots);
        let mut kept: Vec<RootIndex> = Vec::new();
        let mut i: usize = 0;
        while i < old_roots.len()
            invariant
                utf8(key@) == k,
                i <= old_roots@.len(),
                kept@ == without_key(old_roots@.subrange(0, i as int), k),
            decreases old_roots.len() - i,
        {
            let k2 = to_lower(old_roots[i].root.as_str());
            proof {
                assert(old_roots@.subrange(0, i + 1).drop_last() =~= old_roots@.subrange(0, i as int));
                assert(old_roots@.subrange(0, i + 1).last() == old_roots@[i as int]);
            }
            if !crate::text::str_eq(k2.as_str(), key.as_str()) {
                kept.push(clone_root(&old_roots[i]));
            } else {
                assert(without_key(old_roots@.subrange(0, i + 1), k) =~= kept@);
            }
            i = i + 1;
        }
        proof {
            assert(old_roots@.subrange(0, i as int) =~= old_roots@);
            lemma_without_key_sorted(old_roots@, k);
            lemma_without_key_sub(old_roots@, k);
        }
        let ghost w = kept@;
        let mut pos: usize = 0;
        while pos < kept.len()
            invariant
                utf8(key@) == k,
                kept@ == w,
                pos <= w.len(),
                forall|j: int| 0 <= j < pos ==> lex(root_key((#[trigger] w[j]).root@), k) < 0,
            ensures
                pos <= w.len(),
                forall|j: int| 0 <= j < pos ==> lex(root_key((#[trigger] w[j]).root@), k) < 0,
                pos < w.len() ==> lex(root_key(w[pos as int].root@), k) >= 0,
            decreases kept.len() - pos,
        {
            let kj = to_lower(kept[pos].root.as_str());
            match crate::order::lex_bytes(kj.as_str().as_bytes(), key.as_str().as_bytes()) {
                Order::Less => {
                    pos = pos + 1;
                },
                _ => {
                    break;
                },
            }
        }
        let ghost item = RootIndex { root, arena };
        proof {
            assert forall|j: int| pos <= j < w.len() implies lex(k, root_key((#[trigger] w[j]).root@)) < 0 by {
                lemma_lex_basics(root_key(w[j].root@), k);
                if pos < w.len() {
                    lemma_lex_basics(root_key(w[pos as int].root@), k);
                    if j > pos {
                        assert(lex(root_key(w[pos as int].root@), root_key(w[j].root@)) < 0);
                        lemma_lex_transitive(k, root_key(w[pos as int].root@), root_key(w[j].root@));
                    }
                }
            }
        }
        kept.insert(pos, RootIndex { root, arena });
        proof {
            let n = kept@;
            assert(n == w.insert(pos as int, item));
            assert forall|a: int, b: int| 0 <= a < b < n.len() implies lex(root_key((#[trigger] n[a]).root@), root_key((#[trigger] n[b]).root@)) < 0 by {
                if b < pos {
                    assert(n[a] == w[a] && n[b] == w[b]);
                } else if b == pos {
                    assert(n[a] == w[a]);
                } else if a == pos {
                    assert(n[b] == w[b - 1]);
                } else if a < pos {
                    assert(n[a] == w[a] && n[b] == w[b - 1]);
                    lemma_lex_transitive(root_key(w[a].root@), k, root_key(w[b - 1].root@));
                } else {
                    assert(n[a] == w[a - 1] && n[b] == w[b - 1]);
                }
            }
            assert forall|r: int| 0 <= r < n.len() implies (#[trigger] arenas_of(n)[r]).wf() by {
                if r < pos {
                    assert(n[r] == w[r]);
                    let q = choose|q: int| 0 <= q < old_roots@.len() && old_roots@[q] == #[trigger] w[r];
                    assert(arenas_of(old_roots@)[q].wf());
                } else if r > pos {
                    assert(n[r] == w[r - 1]);
                    let q = choose|q: int| 0 <= q < old_roots@.len() && old_roots@[q] == #[trigger] w[r - 1];
                    assert(arenas_of(old_roots@)[q].wf());
                }
            }
            lemma_without_key_len(old_roots@, k);
        }
        self.roots = kept;
    }
}

proof fn lemma_without_key_len(roots: Seq<RootIndex>, key: Seq<u8>)
    ensures
        without_key(roots, key).len() <= roots.len(),
    decreases roots.len(),
{
    if roots.len() > 0 {
        lemma_without_key_len(roots.drop_last(), key);
    }
}


// ---------------------------------------------------------------------
// Scan targets

/// A resolved scan target: its canonical root (`"C:"` or the full path),
/// the path to walk, its label, and whether it is a drive.
pub struct ResolvedRoot {
    pub root: String,
    pub walk_path: String,
    pub label: String,
    pub is_drive: bool,
}

/// A resolved root as values: root, walk path and label as bytes, then
/// the drive flag.
pub type ResolvedView = (Seq<u8>, Seq<u8>, Seq<u8>, bool);

impl View for ResolvedRoot {
    type V = ResolvedView;

    open spec fn view(&self) -> ResolvedView {
        (utf8(self.root@), utf8(self.walk_path@), utf8(self.label@), self.is_drive)
    }
}

/// A root path in canonical form: trailing separators trimmed.
pub open spec fn canon_bytes(path: Seq<char>) -> Seq<u8> {
    trim_end_seps(utf8(path))
}

/// A canonical root path, lowercased.
pub open spec fn canon_lower(path: Seq<char>) -> Seq<u8> {
    utf8(lower(decode_utf8(canon_bytes(path))))
}

/// The enabled root `k` of `roots` lies under another enabled root (with a
/// different lowercased path) whose walk reaches it: it is not link-like
/// (`links[k]`, a symlink, junction or mount point, which the outer walk
/// steps over).
pub open spec fn nested_root(roots: Seq<(Seq<char>, bool, bool)>, links: Seq<bool>, k: int) -> bool {
    &&& !links[k]
    &&& exists|j: int|
        0 <= j < roots.len() && (#[trigger] roots[j]).1 && canon_lower(roots[j].0) != canon_lower(roots[k].0) && has_path_prefix(
            canon_lower(roots[k].0),
            canon_lower(roots[j].0),
        )
}

/// The walk target of a root: a drive (or any root ending in `:`) gets a
/// trailing `\`; other roots are walked as they are.
pub open spec fn walk_bytes(canon: Seq<u8>, is_drive: bool) -> Seq<u8> {
    if is_drive || (canon.len() > 0 && canon.last() == 0x3a) {
        canon + seq![0x5cu8]
    } else {
        canon
    }
}

/// The label of a root: the path itself for a drive, else its last
/// component (the whole path when that is empty).
pub open spec fn label_bytes(canon: Seq<u8>, is_drive: bool) -> Seq<u8> {
    if is_drive || name_part(canon).len() == 0 {
        canon
    } else {
        name_part(canon)
    }
}

/// The resolved form of a root.
pub open spec fn resolved_of(r: (Seq<char>, bool, bool)) -> ResolvedView {
    let canon = canon_bytes(r.0);
    (canon, walk_bytes(canon, r.2), label_bytes(canon, r.2), r.2)
}

/// The scan targets among the first `n` roots: the enabled ones that are
/// not nested under another enabled root, in order.
pub open spec fn resolved_spec(roots: Seq<(Seq<char>, bool, bool)>, links: Seq<bool>, n: int) -> Seq<ResolvedView>
    decreases n,
{
    if n <= 0 {
        Seq::empty()
    } else {
        resolved_spec(roots, links, n - 1) + if roots[n - 1].1 && !nested_root(roots, links, n - 1) {
            seq![resolved_of(roots[n - 1])]
        } else {
            Seq::empty()
        }
    }
}

/// A root path in canonical form: trailing separators trimmed.
pub fn canonical_root(path: &str) -> (r: String)
    ensures
        utf8(r@) == canon_bytes(path@),
{
    trim_end_separators(path).to_owned()
}

/// `path` with trailing separators trimmed, lowercased.
fn canonical_lower(path: &str) -> (r: String)
    ensures
        utf8(r@) == canon_lower(path@),
{
    let t = trim_end_separators(path);
    proof {
        lemma_decode_bytes(t);
    }
    to_lower(t)
}

/// The root `k` is nested under another enabled root.
fn is_nested(scan_roots: &[ScanRoot], link_like: &[bool], k: usize) -> (r: bool)
    requires
        k < scan_roots@.len(),
        link_like@.len() == scan_roots@.len(),
    ensures
        r == nested_root(scan_roots@.map_values(|s: ScanRoot| s@), link_like@, k as int),
{
    let ghost views = scan_roots@.map_values(|s: ScanRoot| s@);
    if link_like[k] {
        return false;
    }
    let mine = canonical_lower(scan_roots[k].path.as_str());
    let mut j: usize = 0;
    while j < scan_roots.len()
        invariant
            views == scan_roots@.map_values(|s: ScanRoot| s@),
            k < views.len(),
            link_like@.len() == scan_roots@.len(),
            !link_like@[k as int],
            utf8(mine@) == canon_lower(views[k as int].0),
            j <= scan_roots@.len(),
            forall|i: int| 0 <= i < j ==> !((#[trigger] views[i]).1 && canon_lower(views[i].0) != canon_lower(views[k as int].0)
                && has_path_prefix(canon_lower(views[k as int].0), canon_lower(views[i].0))),
        decreases scan_roots.len() - j,
    {
        assert(views[j as int] == scan_roots@[j as int]@);
        if scan_roots[j].enabled {
            let other = canonical_lower(scan_roots[j].path.as_str());
            if !crate::text::str_eq(other.as_str(), mine.as_str()) && path_has_prefix(mine.as_str(), other.as_str()) {
                proof {
                    assert(views[j as int].1);
                    assert(canon_lower(views[j as int].0) == utf8(other@));
                    assert(canon_lower(views[j as int].0) != canon_lower(views[k as int].0));
                    assert(has_path_prefix(canon_lower(views[k as int].0), canon_lower(views[j as int].0)));
                }
                return true;
            }
        }
        j = j + 1;
    }
    false
}

/// The resolved form of one root.
fn resolve_one(r: &ScanRoot) -> (out: ResolvedRoot)
    ensures
        out@ == resolved_of(r@),
{
    let canon_str = trim_end_separators(r.path.as_str());
    let cb = canon_str.as_bytes();
    let n = cb.len();
    let colon = n > 0 && cb[n - 1] == 0x3a;
    let canon = canon_str.to_owned();
    let walk_path = if r.is_drive || colon {
        let mut w = canon_str.to_owned();
        push_char(&mut w, '\\');
        proof {
            lemma_utf8_concat(canon_str@, seq!['\\']);
            lemma_utf8_ascii_char('\\');
            assert(canon_str@.push('\\') =~= canon_str@ + seq!['\\']);
        }
        w
    } else {
        canon_str.to_owned()
    };
    let label = if r.is_drive {
        canon_str.to_owned()
    } else {
        let (_, last) = split_path(canon_str);
        if last.as_bytes().len() == 0 {
            canon_str.to_owned()
        } else {
            last.to_owned()
        }
    };
    ResolvedRoot { root: canon, walk_path, label, is_drive: r.is_drive }
}

/// The scan targets: the enabled roots, minus any nested under another
/// enabled root whose walk reaches it (so overlapping roots neither index
/// twice nor race). `link_like[k]` says whether root `k`'s canonical path
/// is a symlink, junction or mount point, which the outer walk steps over.
pub fn resolve_roots(scan_roots: &[ScanRoot], link_like: &[bool]) -> (r: Vec<ResolvedRoot>)
    requires
        link_like@.len() == scan_roots@.len(),
    ensures
        r@.map_values(|x: ResolvedRoot| x@) == resolved_spec(scan_roots@.map_values(|s: ScanRoot| s@), link_like@, scan_roots@.len() as int),
{
    let ghost views = scan_roots@.map_values(|s: ScanRoot| s@);
    let mut out: Vec<ResolvedRoot> = Vec::new();
    let mut k: usize = 0;
    while k < scan_roots.len()
        invariant
            views == scan_roots@.map_values(|s: ScanRoot| s@),
            link_like@.len() == scan_roots@.len(),
            k <= scan_roots@.len(),
            out@.map_values(|x: ResolvedRoot| x@) == resolved_spec(views, link_like@, k as int),
        decreases scan_roots.len() - k,
    {
        assert(views[k as int] == scan_roots@[k as int]@);
        let ghost before = out@;
        if scan_roots[k].enabled && !is_nested(scan_roots, link_like, k) {
            let item = resolve_one(&scan_roots[k]);
            out.push(item);
            proof {
                assert(out@.map_values(|x: ResolvedRoot| x@) =~= before.map_values(|x: ResolvedRoot| x@).push(item@));
            }
        }
        k = k + 1;
    }
    out
}


// ---------------------------------------------------------------------
// Root statuses and the scan lifecycle

/// Where the status for `root` sits in `s` (the last one, if several),
/// or -1.
pub open spec fn status_index(s: Seq<StatusView>, root: Seq<char>) -> int
    decreases s.len(),
{
    if s.len() == 0 {
        -1
    } else if s.last().0 == root {
        s.len() - 1
    } else {
        status_index(s.drop_last(), root)
    }
}

/// `s` with `v` in place of the status for the same root, or appended.
pub open spec fn upsert(s: Seq<StatusView>, v: StatusView) -> Seq<StatusView> {
    let i = status_index(s, v.0);
    if i >= 0 {
        s.update(i, v)
    } else {
        s.push(v)
    }
}

/// No two statuses share a root.
pub open spec fn distinct_roots(s: Seq<StatusView>) -> bool {
    forall|a: int, b: int| 0 <= a < b < s.len() ==> (#[trigger] s[a]).0 != (#[trigger] s[b]).0
}

proof fn lemma_status_index(s: Seq<StatusView>, root: Seq<char>)
    ensures
        -1 <= status_index(s, root) < s.len(),
        status_index(s, root) >= 0 ==> s[status_index(s, root)].0 == root,
        status_index(s, root) < 0 ==> forall|i: int| 0 <= i < s.len() ==> (#[trigger] s[i]).0 != root,
    decreases s.len(),
{
    if s.len() > 0 {
        lemma_status_index(s.drop_last(), root);
        if s.last().0 != root {
            assert forall|i: int| 0 <= i < s.len() - 1 implies s[i] == s.drop_last()[i] by {}
        }
    }
}

proof fn lemma_upsert(s: Seq<StatusView>, v: StatusView)
    requires
        distinct_roots(s),
    ensures
        distinct_roots(upsert(s, v)),
{
    lemma_status_index(s, v.0);
}

/// The statuses as values.
pub open spec fn status_views(s: Seq<RootIndexStatus>) -> Seq<StatusView> {
    s.map_values(|st: RootIndexStatus| st@)
}

/// The position of the status for `root`, if any.
fn find_status(status: &Vec<RootIndexStatus>, root: &str) -> (r: Option<usize>)
    ensures
        match r {
            Some(i) => i as int == status_index(status_views(status@), root@),
            None => status_index(status_views(status@), root@) == -1,
        },
{
    let ghost sv = status_views(status@);
    let mut i = status.len();
    assert(sv.subrange(0, i as int) =~= sv);
    while i > 0
        invariant
            sv == status_views(status@),
            i <= status@.len(),
            status_index(sv, root@) == status_index(sv.subrange(0, i as int), root@),
        decreases i,
    {
        let ghost pre = sv.subrange(0, i as int);
        assert(pre.drop_last() =~= sv.subrange(0, i - 1));
        assert(pre.last() == status@[i - 1]@);
        if crate::text::str_eq(status[i - 1].root.as_str(), root) {
            return Some(i - 1);
        }
        i = i - 1;
    }
    assert(sv.subrange(0, 0) =~= Seq::<StatusView>::empty());
    None
}

/// Replaces the status at `i`.
fn put_status(status: &mut Vec<RootIndexStatus>, i: usize, st: RootIndexStatus)
    requires
        i < old(status)@.len(),
    ensures
        status_views(final(status)@) == status_views(old(status)@).update(i as int, st@),
{
    status.remove(i);
    status.insert(i, st);
    proof {
        assert(status_views(status@) =~= status_views(old(status)@).update(i as int, st@));
    }
}

/// Sets the status for `root` in `status` (by root; appended if new).
fn upsert_status(status: &mut Vec<RootIndexStatus>, st: RootIndexStatus)
    ensures
        status_views(final(status)@) == upsert(status_views(old(status)@), st@),
{
    match find_status(status, st.root.as_str()) {
        Some(i) => {
            proof {
                lemma_status_index(status_views(status@), st.root@);
            }
            put_status(status, i, st);
        },
        None => {
            let ghost before = status@;
            status.push(st);
            proof {
                assert(status_views(status@) =~= status_views(before).push(st@));
            }
        },
    }
}

/// The status a fresh scan of `r` starts from, given the previous
/// statuses: pending, keeping the previous count, the loaded-from-disk
/// flag and the skip report so the UI does not blink.
pub open spec fn fresh_status(prev: Seq<StatusView>, r: ResolvedView) -> StatusView {
    let root = decode_utf8(r.0);
    let i = status_index(prev, root);
    if i >= 0 {
        (root, decode_utf8(r.2), RootScanState::Pending, prev[i].3, r.3, prev[i].5, prev[i].6, prev[i].7)
    } else {
        (root, decode_utf8(r.2), RootScanState::Pending, 0, r.3, false, 0, Seq::empty())
    }
}

/// The statuses after a fresh scan of the first `n` resolved roots starts.
pub open spec fn fresh_statuses(prev: Seq<StatusView>, rs: Seq<ResolvedView>, n: int) -> Seq<StatusView>
    decreases n,
{
    if n <= 0 {
        Seq::empty()
    } else {
        upsert(fresh_statuses(prev, rs, n - 1), fresh_status(prev, rs[n - 1]))
    }
}

/// `roots` with only the roots whose lowercased name is one of `keys`.
pub open spec fn keep_roots(roots: Seq<RootIndex>, keys: Seq<Seq<u8>>) -> Seq<RootIndex>
    decreases roots.len(),
{
    if roots.len() == 0 {
        Seq::empty()
    } else {
        keep_roots(roots.drop_last(), keys) + if keys.contains(root_key(roots.last().root@)) {
            seq![roots.last()]
        } else {
            Seq::empty()
        }
    }
}

proof fn lemma_keep_roots(roots: Seq<RootIndex>, keys: Seq<Seq<u8>>)
    requires
        roots_sorted(roots),
    ensures
        roots_sorted(keep_roots(roots, keys)),
        keep_roots(roots, keys).len() <= roots.len(),
        forall|p: int| 0 <= p < keep_roots(roots, keys).len() ==> exists|q: int| 0 <= q < roots.len() && roots[q] == #[trigger] keep_roots(roots, keys)[p],
    decreases roots.len(),
{
    if roots.len() > 0 {
        let d = roots.drop_last();
        assert(roots_sorted(d));
        lemma_keep_roots(d, keys);
        let w = keep_roots(d, keys);
        let s2 = keep_roots(roots, keys);
        assert forall|p: int| 0 <= p < s2.len() implies exists|q: int| 0 <= q < roots.len() && roots[q] == #[trigger] s2[p] by {
            if p < w.len() {
                let q = choose|q: int| 0 <= q < d.len() && d[q] == #[trigger] w[p];
                assert(roots[q] == d[q]);
            } else {
                assert(roots[roots.len() - 1] == s2[p]);
            }
        }
        assert forall|a: int, b: int| 0 <= a < b < s2.len() implies lex(root_key((#[trigger] s2[a]).root@), root_key((#[trigger] s2[b]).root@)) < 0 by {
            if b < w.len() {
                assert(s2[a] == w[a] && s2[b] == w[b]);
            } else {
                assert(s2[a] == w[a]);
                let q = choose|q: int| 0 <= q < d.len() && d[q] == #[trigger] w[a];
                assert(roots[q] == d[q]);
                assert(lex(root_key(roots[q].root@), root_key(roots[roots.len() - 1].root@)) < 0);
            }
        }
    }
}

/// The lowercased roots of resolved scan targets.
pub open spec fn resolved_keys(rs: Seq<ResolvedView>) -> Seq<Seq<u8>> {
    rs.map_values(|r: ResolvedView| root_key(decode_utf8(r.0)))
}

impl IndexEngine {
    /// Whether any root is mid-walk — a periodic refresh skips its tick
    /// rather than supersede (and waste) a walk still running.
    pub fn any_scanning(&self) -> (r: bool)
        ensures
            r == exists|i: int| 0 <= i < self.statuses().len() && (#[trigger] self.statuses()[i]).2 == RootScanState::Scanning,
    {
        let mut i: usize = 0;
        while i < self.status.len()
            invariant
                i <= self.status@.len(),
                forall|j: int| 0 <= j < i ==> (#[trigger] self.status@[j]).state != RootScanState::Scanning,
            decreases self.status.len() - i,
        {
            if self.status[i].state == RootScanState::Scanning {
                assert(self.statuses()[i as int].2 == RootScanState::Scanning);
                return true;
            }
            i = i + 1;
        }
        assert forall|j: int| 0 <= j < self.statuses().len() implies (#[trigger] self.statuses()[j]).2 != RootScanState::Scanning by {
            assert(self.statuses()[j] == self.status@[j]@);
        }
        false
    }

    /// A cheap snapshot of the per-root arenas (new handles, same data), so
    /// a search can run without holding the engine's lock.
    pub fn snapshot(&self) -> (r: Vec<RootIndex>)
        ensures
            r@ == self.roots_seq(),
    {
        let mut out: Vec<RootIndex> = Vec::new();
        let mut i: usize = 0;
        while i < self.roots.len()
            invariant
                i <= self.roots@.len(),
                out@ == self.roots@.subrange(0, i as int),
            decreases self.roots.len() - i,
        {
            out.push(clone_root(&self.roots[i]));
            proof {
                assert(out@ =~= self.roots@.subrange(0, i + 1));
            }
            i = i + 1;
        }
        proof {
            assert(self.roots@.subrange(0, i as int) =~= self.roots@);
        }
        out
    }

    /// A rescan supersedes the scan in flight: the generation `begin_scan`
    /// hands out is never the one before it, so the older scan's
    /// `mark_scanning`, `record_progress` and `finish_scan` change nothing.
    pub proof fn lemma_rescan_supersedes(g: u64)
        ensures
            g.wrapping_add(1) != g,
    {
    }

    /// Starts a (re)scan of `resolved`: bumps the generation (returned),
    /// rebuilds the statuses as pending — keeping each root's previous
    /// count, loaded-from-disk flag and skip report — and drops the arenas
    /// of roots no longer enabled. Other roots keep serving their entries.
    pub fn begin_scan(&mut self, resolved: &Vec<ResolvedRoot>) -> (r: u64)
        requires
            old(self).wf(),
        ensures
            final(self).wf(),
            r == final(self).current_generation(),
            r == old(self).current_generation().wrapping_add(1),
            final(self).statuses() == fresh_statuses(
                old(self).statuses(),
                resolved@.map_values(|x: ResolvedRoot| x@),
                resolved@.len() as int,
            ),
            final(self).roots_seq() == keep_roots(old(self).roots_seq(), resolved_keys(resolved@.map_values(|x: ResolvedRoot| x@))),
            final(self).paused_flag() == old(self).paused_flag(),
    {
        let ghost rv = resolved@.map_values(|x: ResolvedRoot| x@);
        let ghost prev = status_views(self.status@);
        self.generation = self.generation.wrapping_add(1);
        let mut fresh: Vec<RootIndexStatus> = Vec::new();
        let mut k: usize = 0;
        while k < resolved.len()
            invariant
                rv == resolved@.map_values(|x: ResolvedRoot| x@),
                prev == status_views(self.status@),
                k <= resolved@.len(),
                status_views(fresh@) == fresh_statuses(prev, rv, k as int),
                distinct_roots(status_views(fresh@)),
            decreases resolved.len() - k,
        {
            let r = &resolved[k];
            assert(rv[k as int] == r@);
            proof {
                crate::text::lemma_decode_utf8(r.root@);
                crate::text::lemma_decode_utf8(r.label@);
            }
            proof {
                lemma_status_index(prev, r.root@);
            }
            let st = match find_status(&self.status, r.root.as_str()) {
                Some(i) => {
                    let p = &self.status[i];
                    assert(prev[i as int] == p@);
                    RootIndexStatus {
                        root: r.root.clone(),
                        label: r.label.clone(),
                        state: RootScanState::Pending,
                        scanned_count: p.scanned_count,
                        is_drive: r.is_drive,
                        loaded_from_disk: p.loaded_from_disk,
                        skipped_dirs: p.skipped_dirs,
                        skipped_samples: clone_strings(&p.skipped_samples),
                    }
                },
                None => RootIndexStatus {
                    root: r.root.clone(),
                    label: r.label.clone(),
                    state: RootScanState::Pending,
                    scanned_count: 0,
                    is_drive: r.is_drive,
                    loaded_from_disk: false,
                    skipped_dirs: 0,
                    skipped_samples: Vec::new(),
                },
            };
            proof {
                assert(st@.7 =~= fresh_status(prev, rv[k as int]).7);
                assert(st@ == fresh_status(prev, rv[k as int]));
                lemma_upsert(status_views(fresh@), st@);
            }
            upsert_status(&mut fresh, st);
            k = k + 1;
        }
        self.status = fresh;
        let mut keys: Vec<String> = Vec::new();
        let mut k: usize = 0;
        while k < resolved.len()
            invariant
                rv == resolved@.map_values(|x: ResolvedRoot| x@),
                k <= resolved@.len(),
                strings_bytes(keys@) == resolved_keys(rv).subrange(0, k as int),
            decreases resolved.len() - k,
        {
            proof {
                crate::text::lemma_decode_utf8(resolved@[k as int].root@);
            }
            let low = to_lower(resolved[k].root.as_str());
            assert(rv[k as int] == resolved@[k as int]@);
            assert(utf8(low@) == resolved_keys(rv)[k as int]);
            let ghost before = keys@;
            keys.push(low);
            proof {
                assert(strings_bytes(keys@) =~= strings_bytes(before).push(utf8(low@)));
                assert(resolved_keys(rv).subrange(0, k + 1) =~= resolved_keys(rv).subrange(0, k as int).push(resolved_keys(rv)[k as int]));
            }
            k = k + 1;
        }
        proof {
            assert(resolved_keys(rv).subrange(0, k as int) =~= resolved_keys(rv));
        }
        self.retain_roots(&keys);
        self.generation
    }

    /// Drops the roots whose lowercased name is not one of `keys`.
    fn retain_roots(&mut self, keys: &Vec<String>)
        requires
            old(self).wf(),
        ensures
            final(self).wf(),
            final(self).roots_seq() == keep_roots(old(self).roots_seq(), strings_bytes(keys@)),
            final(self).statuses() == old(self).statuses(),
            final(self).paused_flag() == old(self).paused_flag(),
            final(self).current_generation() == old(self).current_generation(),
    {
        let ghost kb = strings_bytes(keys@);
        let mut old_roots: Vec<RootIndex> = Vec::new();
        std::mem::swap(&mut old_roots, &mut self.roots);
        let mut kept: Vec<RootIndex> = Vec::new();
        let mut i: usize = 0;
        while i < old_roots.len()
            invariant
                kb == strings_bytes(keys@),
                i <= old_roots@.len(),
                kept@ == keep_roots(old_roots@.subrange(0, i as int), kb),
            decreases old_roots.len() - i,
        {
            let low = to_lower(old_roots[i].root.as_str());
            proof {
                assert(old_roots@.subrange(0, i + 1).drop_last() =~= old_roots@.subrange(0, i as int));
                assert(old_roots@.subrange(0, i + 1).last() == old_roots@[i as int]);
            }
            let mut found = false;
            let mut j: usize = 0;
            while j < keys.len()
                invariant
                    kb == strings_bytes(keys@),
                    j <= keys@.len(),
                    found == exists|q: int| 0 <= q < j && kb[q] == utf8(low@),
                decreases keys.len() - j,
            {
                assert(kb[j as int] == utf8(keys@[j as int]@));
                if crate::text::str_eq(keys[j].as_str(), low.as_str()) {
                    found = true;
                }
                j = j + 1;
            }
            proof {
                if found {
                    let q = choose|q: int| 0 <= q < keys@.len() && kb[q] == utf8(low@);
                    assert(kb.contains(utf8(low@)));
                } else {
                    assert(!kb.contains(utf8(low@)));
                }
            }
            if found {
                kept.push(clone_root(&old_roots[i]));
            } else {
                assert(keep_roots(old_roots@.subrange(0, i + 1), kb) =~= kept@);
            }
            i = i + 1;
        }
        proof {
            assert(old_roots@.subrange(0, i as int) =~= old_roots@);
            lemma_keep_roots(old_roots@, kb);
            let n = kept@;
            assert forall|r: int| 0 <= r < n.len() implies (#[trigger] arenas_of(n)[r]).wf() by {
                let q = choose|q: int| 0 <= q < old_roots@.len() && old_roots@[q] == #[trigger] n[r];
                assert(arenas_of(old_roots@)[q].wf());
            }
        }
        self.roots = kept;
    }
}


/// `st` in state `state`.
pub open spec fn with_state(st: StatusView, state: RootScanState) -> StatusView {
    (st.0, st.1, state, st.3, st.4, st.5, st.6, st.7)
}

/// `st` with count `count`.
pub open spec fn with_count(st: StatusView, count: u64) -> StatusView {
    (st.0, st.1, st.2, count, st.4, st.5, st.6, st.7)
}

/// `st` after a finished live walk: done, no longer serving a disk-loaded
/// index, with the walk's skip report.
pub open spec fn finished(st: StatusView, skipped_dirs: u64, samples: Seq<Seq<char>>) -> StatusView {
    (st.0, st.1, RootScanState::Done, st.3, st.4, false, skipped_dirs, samples)
}

/// `s` with the status for `root` (if any) in state `state`.
pub open spec fn set_state(s: Seq<StatusView>, root: Seq<char>, state: RootScanState) -> Seq<StatusView> {
    let i = status_index(s, root);
    if i >= 0 {
        s.update(i, with_state(s[i], state))
    } else {
        s
    }
}

/// `s` with the status for `root` (if any) counting `count`.
pub open spec fn set_count(s: Seq<StatusView>, root: Seq<char>, count: u64) -> Seq<StatusView> {
    let i = status_index(s, root);
    if i >= 0 {
        s.update(i, with_count(s[i], count))
    } else {
        s
    }
}

/// `s` with the status for `root` (if any) finished.
pub open spec fn set_finished(s: Seq<StatusView>, root: Seq<char>, skipped_dirs: u64, samples: Seq<Seq<char>>) -> Seq<StatusView> {
    let i = status_index(s, root);
    if i >= 0 {
        s.update(i, finished(s[i], skipped_dirs, samples))
    } else {
        s
    }
}

proof fn lemma_update_keeps_distinct(s: Seq<StatusView>, i: int, v: StatusView)
    requires
        distinct_roots(s),
        0 <= i < s.len(),
        v.0 == s[i].0,
    ensures
        distinct_roots(s.update(i, v)),
{
    let t = s.update(i, v);
    assert forall|a: int, b: int| 0 <= a < b < t.len() implies (#[trigger] t[a]).0 != (#[trigger] t[b]).0 by {
        assert(t[a].0 == s[a].0 && t[b].0 == s[b].0);
    }
}

impl IndexEngine {
    /// A scan thread of `generation` starts walking `root`: unless a newer
    /// scan superseded it (`false`, nothing changes), the root is marked
    /// scanning.
    pub fn mark_scanning(&mut self, root: &str, generation: u64) -> (r: bool)
        requires
            old(self).wf(),
        ensures
            final(self).wf(),
            r == (generation == old(self).current_generation()),
            final(self).statuses() == (if r {
                set_state(old(self).statuses(), root@, RootScanState::Scanning)
            } else {
                old(self).statuses()
            }),
            final(self).roots_seq() == old(self).roots_seq(),
            final(self).paused_flag() == old(self).paused_flag(),
            final(self).current_generation() == old(self).current_generation(),
    {
        if self.generation != generation {
            return false;
        }
        self.set_status_state(root, RootScanState::Scanning);
        true
    }

    fn set_status_state(&mut self, root: &str, state: RootScanState)
        requires
            old(self).wf(),
        ensures
            final(self).wf(),
            final(self).statuses() == set_state(old(self).statuses(), root@, state),
            final(self).roots_seq() == old(self).roots_seq(),
            final(self).paused_flag() == old(self).paused_flag(),
            final(self).current_generation() == old(self).current_generation(),
    {
        proof {
            lemma_status_index(status_views(self.status@), root@);
        }
        if let Some(i) = find_status(&self.status, root) {
            let mut st = self.status.remove(i);
            st.state = state;
            let ghost before = self.status@;
            self.status.insert(i, st);
            proof {
                assert(status_views(self.status@) =~= status_views(old(self).status@).update(i as int, st@));
                lemma_update_keeps_distinct(status_views(old(self).status@), i as int, st@);
            }
        }
    }

    /// A scan thread of `generation` reports `count` entries walked so far
    /// under `root`; a superseded scan changes nothing.
    pub fn record_progress(&mut self, root: &str, generation: u64, count: u64)
        requires
            old(self).wf(),
        ensures
            final(self).wf(),
            final(self).statuses() == (if generation == old(self).current_generation() {
                set_count(old(self).statuses(), root@, count)
            } else {
                old(self).statuses()
            }),
            final(self).roots_seq() == old(self).roots_seq(),
            final(self).paused_flag() == old(self).paused_flag(),
            final(self).current_generation() == old(self).current_generation(),
    {
        if self.generation != generation {
            return;
        }
        proof {
            lemma_status_index(status_views(self.status@), root@);
        }
        if let Some(i) = find_status(&self.status, root) {
            let mut st = self.status.remove(i);
            st.scanned_count = count;
            self.status.insert(i, st);
            proof {
                assert(status_views(self.status@) =~= status_views(old(self).status@).update(i as int, st@));
                lemma_update_keeps_distinct(status_views(old(self).status@), i as int, st@);
            }
        }
    }

    /// A scan thread of `generation` finished walking `root` in `state`.
    /// Only a complete walk (`Done`) of the current generation replaces the
    /// root's arena (`true`); an offline or inaccessible root keeps serving
    /// its previous entries and only its status changes; a superseded scan
    /// changes nothing at all.
    pub fn finish_scan(
        &mut self,
        root: String,
        generation: u64,
        state: RootScanState,
        arena: Arc<IndexArena>,
        skipped_dirs: u64,
        skipped_samples: Vec<String>,
    ) -> (r: bool)
        requires
            old(self).wf(),
            arena.wf(),
            old(self).roots_seq().len() + 1 < u32::MAX,
        ensures
            final(self).wf(),
            r == (state == RootScanState::Done && generation == old(self).current_generation()),
            state != RootScanState::Done ==> final(self).roots_seq() == old(self).roots_seq(),
            generation != old(self).current_generation() ==> final(self).roots_seq() == old(self).roots_seq()
                && final(self).statuses() == old(self).statuses(),
            state != RootScanState::Done && generation == old(self).current_generation() ==> final(self).statuses() == set_state(
                old(self).statuses(),
                root@,
                state,
            ),
            r ==> exists|p: int| 0 <= p <= without_key(old(self).roots_seq(), root_key(root@)).len() && final(self).roots_seq()
                == without_key(old(self).roots_seq(), root_key(root@)).insert(p, RootIndex { root, arena }),
            r ==> final(self).statuses() == set_finished(
                old(self).statuses(),
                root@,
                skipped_dirs,
                skipped_samples@.map_values(|s: String| s@),
            ),
            final(self).paused_flag() == old(self).paused_flag(),
            final(self).current_generation() == old(self).current_generation(),
    {
        if state != RootScanState::Done {
            if self.generation == generation {
                self.set_status_state(root.as_str(), state);
            }
            return false;
        }
        if self.generation != generation {
            return false;
        }
        let name = root.clone();
        self.put_root(root, arena);
        proof {
            lemma_status_index(status_views(self.status@), name@);
        }
        if let Some(i) = find_status(&self.status, name.as_str()) {
            let ghost mid = status_views(self.status@);
            let mut st = self.status.remove(i);
            st.state = RootScanState::Done;
            st.loaded_from_disk = false;
            st.skipped_dirs = skipped_dirs;
            st.skipped_samples = skipped_samples;
            self.status.insert(i, st);
            proof {
                assert(status_views(self.status@) =~= mid.update(i as int, st@));
                lemma_update_keeps_distinct(mid, i as int, st@);
            }
        }
        true
    }
}


/// `s` is sorted by lowercased root.
pub open spec fn sorted_by_root(s: Seq<StatusView>) -> bool {
    forall|a: int, b: int| 0 <= a < b < s.len() ==> lex(root_key((#[trigger] s[a]).0), root_key((#[trigger] s[b]).0)) <= 0
}

/// `r` holds the elements of `s`, each once, in the order `perm` gives.
pub open spec fn reorders(r: Seq<StatusView>, s: Seq<StatusView>, perm: Seq<int>) -> bool {
    &&& perm.len() == r.len()
    &&& r.len() == s.len()
    &&& forall|p: int| 0 <= p < perm.len() ==> 0 <= #[trigger] perm[p] < s.len() && r[p] == s[perm[p]]
    &&& forall|p: int, q: int| 0 <= p < q < perm.len() ==> #[trigger] perm[p] != #[trigger] perm[q]
}

proof fn lemma_insert_by_root(s: Seq<StatusView>, v: StatusView, pos: int)
    requires
        sorted_by_root(s),
        0 <= pos <= s.len(),
        forall|q: int| pos <= q < s.len() ==> lex(root_key(v.0), root_key((#[trigger] s[q]).0)) < 0,
        pos > 0 ==> lex(root_key(v.0), root_key(s[pos - 1].0)) >= 0,
    ensures
        sorted_by_root(s.insert(pos, v)),
{
    let t = s.insert(pos, v);
    let kv = root_key(v.0);
    assert forall|a: int, b: int| 0 <= a < b < t.len() implies lex(root_key((#[trigger] t[a]).0), root_key((#[trigger] t[b]).0)) <= 0 by {
        if b < pos {
            assert(t[a] == s[a] && t[b] == s[b]);
        } else if b == pos {
            assert(t[a] == s[a]);
            let kp = root_key(s[pos - 1].0);
            lemma_lex_basics(kv, kp);
            if a < pos - 1 {
                assert(lex(root_key(s[a].0), kp) <= 0);
                lemma_lex_transitive(root_key(s[a].0), kp, kv);
            }
        } else if a == pos {
            assert(t[b] == s[b - 1]);
        } else if a < pos {
            assert(t[a] == s[a] && t[b] == s[b - 1]);
        } else {
            assert(t[a] == s[a - 1] && t[b] == s[b - 1]);
        }
    }
}

impl IndexEngine {
    /// Every root's status, sorted by lowercased root.
    pub fn status_snapshot(&self) -> (r: Vec<RootIndexStatus>)
        ensures
            sorted_by_root(status_views(r@)),
            exists|perm: Seq<int>| reorders(status_views(r@), self.statuses(), perm),
    {
        let ghost sv = status_views(self.status@);
        let mut out: Vec<RootIndexStatus> = Vec::new();
        let mut keys: Vec<String> = Vec::new();
        let ghost mut perm: Seq<int> = Seq::empty();
        let mut i: usize = 0;
        while i < self.status.len()
            invariant
                sv == status_views(self.status@),
                i <= sv.len(),
                keys@.len() == out@.len(),
                forall|p: int| 0 <= p < keys@.len() ==> utf8((#[trigger] keys@[p])@) == root_key(out@[p].root@),
                sorted_by_root(status_views(out@)),
                perm.len() == out@.len(),
                out@.len() == i,
                forall|p: int| 0 <= p < perm.len() ==> 0 <= #[trigger] perm[p] < i && status_views(out@)[p] == sv[perm[p]],
                forall|p: int, q: int| 0 <= p < q < perm.len() ==> #[trigger] perm[p] != #[trigger] perm[q],
            decreases self.status.len() - i,
        {
            let st = self.status[i].clone();
            let key = to_lower(st.root.as_str());
            let ghost ov = status_views(out@);
            let ghost ok = keys@;
            let mut pos = out.len();
            while pos > 0
                invariant
                    keys@ == ok,
                    status_views(out@) == ov,
                    keys@.len() == out@.len(),
                    forall|p: int| 0 <= p < keys@.len() ==> utf8((#[trigger] keys@[p])@) == root_key(out@[p].root@),
                    utf8(key@) == root_key(st@.0),
                    pos <= ov.len(),
                    forall|q: int| pos <= q < ov.len() ==> lex(root_key(st@.0), root_key((#[trigger] ov[q]).0)) < 0,
                ensures
                    pos <= ov.len(),
                    forall|q: int| pos <= q < ov.len() ==> lex(root_key(st@.0), root_key((#[trigger] ov[q]).0)) < 0,
                    pos > 0 ==> lex(root_key(st@.0), root_key(ov[pos - 1].0)) >= 0,
                decreases pos,
            {
                assert(ov[pos - 1] == out@[pos - 1]@);
                match crate::order::lex_bytes(key.as_str().as_bytes(), keys[pos - 1].as_str().as_bytes()) {
                    Order::Less => {
                        pos = pos - 1;
                    },
                    _ => {
                        break;
                    },
                }
            }
            proof {
                lemma_insert_by_root(ov, st@, pos as int);
            }
            out.insert(pos, st);
            keys.insert(pos, key);
            proof {
                assert(status_views(out@) =~= ov.insert(pos as int, st@));
                let np = perm.insert(pos as int, i as int);
                assert forall|p: int| 0 <= p < np.len() implies 0 <= #[trigger] np[p] < i + 1 && status_views(out@)[p] == sv[np[p]] by {
                    if p < pos {
                        assert(np[p] == perm[p]);
                    } else if p > pos {
                        assert(np[p] == perm[p - 1]);
                    }
                }
                assert forall|p: int, q: int| 0 <= p < q < np.len() implies #[trigger] np[p] != #[trigger] np[q] by {
                    if p < pos && q > pos {
                        assert(np[p] == perm[p] && np[q] == perm[q - 1]);
                    } else if p > pos {
                        assert(np[p] == perm[p - 1] && np[q] == perm[q - 1]);
                    } else if q < pos {
                        assert(np[p] == perm[p] && np[q] == perm[q]);
                    }
                }
                perm = np;
            }
            i = i + 1;
        }
        assert(reorders(status_views(out@), sv, perm));
        assert(self.statuses() == sv);
        out
    }
}


/// Where the last root named exactly `root` sits in `ls`, or -1.
pub open spec fn loaded_index(ls: Seq<RootIndex>, root: Seq<char>) -> int
    decreases ls.len(),
{
    if ls.len() == 0 {
        -1
    } else if ls.last().root@ == root {
        ls.len() - 1
    } else {
        loaded_index(ls.drop_last(), root)
    }
}

proof fn lemma_loaded_index(ls: Seq<RootIndex>, root: Seq<char>)
    ensures
        -1 <= loaded_index(ls, root) < ls.len(),
        loaded_index(ls, root) >= 0 ==> ls[loaded_index(ls, root)].root@ == root,
    decreases ls.len(),
{
    if ls.len() > 0 {
        lemma_loaded_index(ls.drop_last(), root);
    }
}

/// The status of resolved root `r` once the persisted indexes `ls` are
/// loaded: done and counting the loaded entries when one was loaded for
/// it, pending otherwise; nothing skipped yet this session.
pub open spec fn loaded_status(ls: Seq<RootIndex>, r: ResolvedView) -> StatusView {
    let root = decode_utf8(r.0);
    let i = loaded_index(ls, root);
    if i >= 0 {
        (root, decode_utf8(r.2), RootScanState::Done, ls[i].arena.spec_len() as u64, r.3, true, 0, Seq::empty())
    } else {
        (root, decode_utf8(r.2), RootScanState::Pending, 0, r.3, false, 0, Seq::empty())
    }
}

/// The statuses after loading, over the first `n` resolved roots.
pub open spec fn loaded_statuses(prev: Seq<StatusView>, ls: Seq<RootIndex>, rs: Seq<ResolvedView>, n: int) -> Seq<StatusView>
    decreases n,
{
    if n <= 0 {
        prev
    } else {
        upsert(loaded_statuses(prev, ls, rs, n - 1), loaded_status(ls, rs[n - 1]))
    }
}

proof fn lemma_without_key_keeps(roots: Seq<RootIndex>, key: Seq<u8>, q: int)
    requires
        0 <= q < roots.len(),
        root_key(roots[q].root@) != key,
    ensures
        exists|p: int| 0 <= p < without_key(roots, key).len() && without_key(roots, key)[p] == roots[q],
    decreases roots.len(),
{
    let w = without_key(roots.drop_last(), key);
    if q < roots.len() - 1 {
        lemma_without_key_keeps(roots.drop_last(), key, q);
        let p = choose|p: int| 0 <= p < w.len() && w[p] == roots.drop_last()[q];
        assert(without_key(roots, key)[p] == roots[q]);
    } else {
        assert(without_key(roots, key)[w.len() as int] == roots[q]);
    }
}


/// Every root of `roots` is one of `lv[..j]`.
pub open spec fn roots_from(roots: Seq<RootIndex>, lv: Seq<RootIndex>, j: int) -> bool {
    forall|p: int| 0 <= p < roots.len() ==> exists|q: int| 0 <= q < j && lv[q] == #[trigger] roots[p]
}

/// Every one of `lv[..j]` has a root of the same lowercased name in `roots`.
pub open spec fn keys_covered(roots: Seq<RootIndex>, lv: Seq<RootIndex>, j: int) -> bool {
    forall|q: int| 0 <= q < j ==> exists|p: int| 0 <= p < roots.len() && root_key((#[trigger] roots[p]).root@) == root_key(
        (#[trigger] lv[q]).root@,
    )
}

/// Every root of `roots` is one of `lv[..j]`, and every one of `lv[..j]`
/// has a root of the same lowercased name in `roots`.
pub open spec fn roots_cover(roots: Seq<RootIndex>, lv: Seq<RootIndex>, j: int) -> bool {
    roots_from(roots, lv, j) && keys_covered(roots, lv, j)
}

/// Every root of `w` is one of `before`.
pub open spec fn members_of(w: Seq<RootIndex>, before: Seq<RootIndex>) -> bool {
    forall|p: int| 0 <= p < w.len() ==> exists|q: int| 0 <= q < before.len() && before[q] == #[trigger] w[p]
}

/// `w` keeps every root of `before` whose lowercased name is not `k`.
pub open spec fn keeps_others(before: Seq<RootIndex>, w: Seq<RootIndex>, k: Seq<u8>) -> bool {
    forall|q: int| 0 <= q < before.len() && root_key((#[trigger] before[q]).root@) != k ==> exists|p: int| 0 <= p < w.len() && w[p] == before[q]
}

proof fn lemma_without_key_filtered(before: Seq<RootIndex>, k: Seq<u8>)
    ensures
        members_of(without_key(before, k), before),
        keeps_others(before, without_key(before, k), k),
{
    lemma_without_key_sub(before, k);
    assert forall|q: int| 0 <= q < before.len() && root_key((#[trigger] before[q]).root@) != k implies exists|p: int|
        0 <= p < without_key(before, k).len() && without_key(before, k)[p] == before[q] by {
        lemma_without_key_keeps(before, k, q);
    }
}

/// Every root of `roots` is the last of `lv[..j]` with its lowercased name.
#[verifier::opaque]
pub open spec fn roots_latest(roots: Seq<RootIndex>, lv: Seq<RootIndex>, j: int) -> bool {
    forall|p: int|
        0 <= p < roots.len() ==> exists|q: int|
            0 <= q < j && lv[q] == #[trigger] roots[p] && forall|q2: int| q < q2 < j ==> root_key((#[trigger] lv[q2]).root@) != root_key(
                lv[q].root@,
            )
}

proof fn lemma_put_latest(before: Seq<RootIndex>, w: Seq<RootIndex>, after: Seq<RootIndex>, lv: Seq<RootIndex>, j: int, pp: int)
    requires
        0 <= j < lv.len(),
        roots_latest(before, lv, j),
        members_of(w, before),
        forall|p: int| 0 <= p < w.len() ==> root_key((#[trigger] w[p]).root@) != root_key(lv[j].root@),
        0 <= pp <= w.len(),
        after == w.insert(pp, lv[j]),
    ensures
        roots_latest(after, lv, j + 1),
{
    reveal(roots_latest);
    assert forall|p: int| 0 <= p < after.len() implies exists|q: int|
        0 <= q < j + 1 && lv[q] == #[trigger] after[p] && forall|q2: int| q < q2 < j + 1 ==> root_key((#[trigger] lv[q2]).root@) != root_key(
            lv[q].root@,
        ) by {
        if p == pp {
            assert(lv[j] == after[p]);
        } else {
            let x = if p < pp {
                p
            } else {
                p - 1
            };
            assert(after[p] == w[x]);
            let y = choose|y: int| 0 <= y < before.len() && before[y] == #[trigger] w[x];
            let q = choose|q: int|
                0 <= q < j && lv[q] == #[trigger] before[y] && forall|q2: int| q < q2 < j ==> root_key((#[trigger] lv[q2]).root@) != root_key(
                    lv[q].root@,
                );
            assert(lv[q] == after[p]);
            assert(root_key(w[x].root@) != root_key(lv[j].root@));
            assert forall|q2: int| q < q2 < j + 1 implies root_key((#[trigger] lv[q2]).root@) != root_key(lv[q].root@) by {
                if q2 < j {
                } else {
                    assert(q2 == j);
                }
            }
        }
    }
}

proof fn lemma_install_step(before: Seq<RootIndex>, after: Seq<RootIndex>, lv: Seq<RootIndex>, j: int, pp: int)
    requires
        0 <= j < lv.len(),
        roots_cover(before, lv, j),
        roots_latest(before, lv, j),
        0 <= pp <= without_key(before, root_key(lv[j].root@)).len(),
        after == without_key(before, root_key(lv[j].root@)).insert(pp, lv[j]),
    ensures
        roots_cover(after, lv, j + 1),
        roots_latest(after, lv, j + 1),
{
    let k = root_key(lv[j].root@);
    let w = without_key(before, k);
    lemma_without_key_filtered(before, k);
    lemma_without_key_sub(before, k);
    lemma_put_members(before, w, after, lv, j, pp);
    lemma_put_keys(before, w, after, lv, j, pp);
    lemma_put_latest(before, w, after, lv, j, pp);
}

proof fn lemma_put_members(before: Seq<RootIndex>, w: Seq<RootIndex>, after: Seq<RootIndex>, lv: Seq<RootIndex>, j: int, pp: int)
    requires
        0 <= j < lv.len(),
        roots_from(before, lv, j),
        members_of(w, before),
        0 <= pp <= w.len(),
        after == w.insert(pp, lv[j]),
    ensures
        roots_from(after, lv, j + 1),
{
    assert forall|p: int| 0 <= p < after.len() implies exists|q: int| 0 <= q < j + 1 && lv[q] == #[trigger] after[p] by {
        if p == pp {
            assert(lv[j] == after[p]);
        } else {
            let x = if p < pp {
                p
            } else {
                p - 1
            };
            assert(after[p] == w[x]);
            let y = choose|y: int| 0 <= y < before.len() && before[y] == #[trigger] w[x];
            let q = choose|q: int| 0 <= q < j && lv[q] == #[trigger] before[y];
            assert(lv[q] == after[p]);
        }
    }
}

proof fn lemma_put_keys(before: Seq<RootIndex>, w: Seq<RootIndex>, after: Seq<RootIndex>, lv: Seq<RootIndex>, j: int, pp: int)
    requires
        0 <= j < lv.len(),
        keys_covered(before, lv, j),
        keeps_others(before, w, root_key(lv[j].root@)),
        0 <= pp <= w.len(),
        after == w.insert(pp, lv[j]),
    ensures
        keys_covered(after, lv, j + 1),
{
    let k = root_key(lv[j].root@);
    assert forall|q: int| 0 <= q < j + 1 implies exists|p: int| 0 <= p < after.len() && root_key((#[trigger] after[p]).root@) == root_key(
        (#[trigger] lv[q]).root@,
    ) by {
        if q == j || root_key(lv[q].root@) == k {
            assert(after[pp] == lv[j]);
        } else {
            let y = choose|y: int| 0 <= y < before.len() && root_key((#[trigger] before[y]).root@) == root_key(lv[q].root@);
            let x = choose|x: int| 0 <= x < w.len() && w[x] == before[y];
            if x < pp {
                assert(after[x] == w[x]);
            } else {
                assert(after[x + 1] == w[x]);
            }
        }
    }
}

/// Where the last root named exactly `root` sits in `loaded`.
fn last_loaded(loaded: &Vec<RootIndex>, root: &str) -> (r: Option<usize>)
    ensures
        match r {
            Some(i) => i as int == loaded_index(loaded@, root@),
            None => loaded_index(loaded@, root@) == -1,
        },
{
    let mut q: usize = loaded.len();
    assert(loaded@.subrange(0, q as int) =~= loaded@);
    while q > 0
        invariant
            q <= loaded@.len(),
            loaded_index(loaded@, root@) == loaded_index(loaded@.subrange(0, q as int), root@),
        decreases q,
    {
        let ghost pre = loaded@.subrange(0, q as int);
        assert(pre.drop_last() =~= loaded@.subrange(0, q - 1));
        assert(pre.last() == loaded@[q - 1]);
        if crate::text::str_eq(loaded[q - 1].root.as_str(), root) {
            return Some(q - 1);
        }
        q = q - 1;
    }
    assert(loaded@.subrange(0, 0) =~= Seq::<RootIndex>::empty());
    None
}

impl IndexEngine {
    /// Sets each resolved root's status from what was loaded.
    fn apply_loaded_statuses(&mut self, resolved: &Vec<ResolvedRoot>, loaded: &Vec<RootIndex>)
        requires
            old(self).wf(),
            forall|q: int| 0 <= q < loaded@.len() ==> (#[trigger] loaded@[q]).arena.wf(),
        ensures
            final(self).wf(),
            final(self).statuses() == loaded_statuses(
                old(self).statuses(),
                loaded@,
                resolved@.map_values(|x: ResolvedRoot| x@),
                resolved@.len() as int,
            ),
            final(self).roots_seq() == old(self).roots_seq(),
            final(self).paused_flag() == old(self).paused_flag(),
            final(self).current_generation() == old(self).current_generation(),
    {
        let ghost rv = resolved@.map_values(|x: ResolvedRoot| x@);
        let ghost prev = status_views(self.status@);
        let mut k: usize = 0;
        while k < resolved.len()
            invariant
                self.wf(),
                rv == resolved@.map_values(|x: ResolvedRoot| x@),
                forall|q: int| 0 <= q < loaded@.len() ==> (#[trigger] loaded@[q]).arena.wf(),
                k <= resolved@.len(),
                status_views(self.status@) == loaded_statuses(prev, loaded@, rv, k as int),
                self.roots_seq() == old(self).roots_seq(),
                self.paused_flag() == old(self).paused_flag(),
                self.current_generation() == old(self).current_generation(),
            decreases resolved.len() - k,
        {
            let r = &resolved[k];
            assert(rv[k as int] == r@);
            proof {
                crate::text::lemma_decode_utf8(r.root@);
                crate::text::lemma_decode_utf8(r.label@);
                lemma_loaded_index(loaded@, r.root@);
            }
            let st = match last_loaded(loaded, r.root.as_str()) {
                Some(i) => {
                    assert(loaded@[i as int].arena.wf());
                    let a: &IndexArena = &loaded[i].arena;
                    proof {
                        a.lemma_len_bound();
                    }
                    RootIndexStatus {
                        root: r.root.clone(),
                        label: r.label.clone(),
                        state: RootScanState::Done,
                        scanned_count: a.len() as u64,
                        is_drive: r.is_drive,
                        loaded_from_disk: true,
                        skipped_dirs: 0,
                        skipped_samples: Vec::new(),
                    }
                },
                None => RootIndexStatus {
                    root: r.root.clone(),
                    label: r.label.clone(),
                    state: RootScanState::Pending,
                    scanned_count: 0,
                    is_drive: r.is_drive,
                    loaded_from_disk: false,
                    skipped_dirs: 0,
                    skipped_samples: Vec::new(),
                },
            };
            proof {
                assert(st@.7 =~= loaded_status(loaded@, rv[k as int]).7);
                assert(st@ == loaded_status(loaded@, rv[k as int]));
                lemma_upsert(status_views(self.status@), st@);
            }
            upsert_status(&mut self.status, st);
            k = k + 1;
        }
    }

    /// Makes `items` the roots, sorted and one per lowercased name.
    fn install_roots(&mut self, items: Vec<RootIndex>)
        requires
            old(self).wf(),
            forall|q: int| 0 <= q < items@.len() ==> (#[trigger] items@[q]).arena.wf(),
            items@.len() + 1 < u32::MAX,
        ensures
            final(self).wf(),
            roots_cover(final(self).roots_seq(), items@, items@.len() as int),
            roots_latest(final(self).roots_seq(), items@, items@.len() as int),
            final(self).statuses() == old(self).statuses(),
            final(self).paused_flag() == old(self).paused_flag(),
            final(self).current_generation() == old(self).current_generation(),
    {
        let mut empty: Vec<RootIndex> = Vec::new();
        std::mem::swap(&mut empty, &mut self.roots);
        let ghost lv = items@;
        let mut j: usize = 0;
        proof {
            reveal(roots_latest);
        }
        while j < items.len()
            invariant
                self.wf(),
                items@ == lv,
                forall|q: int| 0 <= q < lv.len() ==> (#[trigger] lv[q]).arena.wf(),
                lv.len() + 1 < u32::MAX,
                j <= lv.len(),
                self.roots_seq().len() <= j,
                self.statuses() == old(self).statuses(),
                self.paused_flag() == old(self).paused_flag(),
                self.current_generation() == old(self).current_generation(),
                roots_cover(self.roots_seq(), lv, j as int),
                roots_latest(self.roots_seq(), lv, j as int),
            decreases items.len() - j,
        {
            let item = clone_root(&items[j]);
            let ghost before = self.roots_seq();
            proof {
                lemma_without_key_len(before, root_key(item.root@));
                lemma_without_key_filtered(before, root_key(item.root@));
            }
            self.put_root(item.root, item.arena);
            proof {
                let pp = choose|pp: int| 0 <= pp <= without_key(before, root_key(lv[j as int].root@)).len() && self.roots_seq() == without_key(
                    before,
                    root_key(lv[j as int].root@),
                ).insert(pp, RootIndex { root: item.root, arena: item.arena });
                assert(RootIndex { root: item.root, arena: item.arena } == lv[j as int]);
                lemma_install_step(before, self.roots_seq(), lv, j as int, pp);
            }
            j = j + 1;
        }
    }

    /// Serves the persisted indexes `loaded` (one per resolved root that
    /// had one) before the first live scan: they become the roots, sorted
    /// by lowercased name, and each resolved root's status says whether it
    /// was loaded and how many entries it holds. With nothing loaded,
    /// nothing changes. The engine holds one arena per lowercased root
    /// name, as `put_root` keeps it, so of loaded indexes whose roots differ
    /// only in case the last one is served.
    pub fn install_loaded(&mut self, resolved: &Vec<ResolvedRoot>, loaded: Vec<RootIndex>)
        requires
            old(self).wf(),
            forall|q: int| 0 <= q < loaded@.len() ==> (#[trigger] loaded@[q]).arena.wf(),
            loaded@.len() + 1 < u32::MAX,
        ensures
            final(self).wf(),
            loaded@.len() == 0 ==> final(self).roots_seq() == old(self).roots_seq() && final(self).statuses() == old(self).statuses(),
            loaded@.len() > 0 ==> roots_latest(final(self).roots_seq(), loaded@, loaded@.len() as int),
            loaded@.len() > 0 ==> roots_cover(final(self).roots_seq(), loaded@, loaded@.len() as int) && final(self).statuses()
                == loaded_statuses(
                old(self).statuses(),
                loaded@,
                resolved@.map_values(|x: ResolvedRoot| x@),
                resolved@.len() as int,
            ),
            final(self).paused_flag() == old(self).paused_flag(),
            final(self).current_generation() == old(self).current_generation(),
    {
        if loaded.len() == 0 {
            return;
        }
        self.apply_loaded_statuses(resolved, &loaded);
        self.install_roots(loaded);
    }
}

} // verus!
