//! FlexFind's query syntax — the only parser in the app; the frontend sends
//! the raw string and renders highlight spans from the result.
//!
//! Grammar:
//!   ext:png            — extension filter (case-insensitive, no dot)
//!   path:C:\Projects   — substring filter against the full path
//!   size:>10mb         — comparison (>, <, >=, <=, =), units b/kb/mb/gb
//!   dm:today           — date-modified (today/yesterday/thisweek/YYYY-MM-DD)
//!   "exact phrase"     — quoted phrase kept as one AND-term
//!   !term              — negation: excluded if found in name OR full path
//!   bare term          — space-separated, ANDed, matched against the name
//!
//! `ParsedQuery` is the grammar. `CompiledQuery` is that query bound to one
//! `IndexArena`, with `ext:` resolved to an interned id, `dm:` to a
//! unix-second range and the path predicates to per-directory bit tables.

use vstd::prelude::*;
use vstd::string::StringSliceAdditionalSpecFns;
use crate::text::{utf8, lower, to_lower, to_chars, string_of, is_ws, trim, char_is_whitespace, push_char, trim_string, contains, starts_with, ends_with, occurs_at, first_occurrence, is_first_occurrence, find_bytes, ends_with_head, starts_with_tail};
use crate::types::{IndexArena, join_path};
use chrono::Datelike;

verus! {

/// A `size:` comparison.
#[derive(Debug, Clone, Copy, PartialEq, Eq, Structural)]
pub enum SizeOp {
    Gt,
    Lt,
    Gte,
    Lte,
    Eq,
}

/// A calendar date (proleptic Gregorian), as chrono's `NaiveDate` holds it.
#[derive(Debug, Clone, Copy, PartialEq, Eq, Structural)]
pub struct CalendarDate {
    pub year: i32,
    pub month: u32,
    pub day: u32,
}

/// A `dm:` filter.
#[derive(Debug, Clone, Copy, PartialEq, Eq, Structural)]
pub enum DateModifiedFilter {
    Today,
    Yesterday,
    ThisWeek,
    Literal(CalendarDate),
}

/// The parsed form of a query.
pub struct ParsedQuery {
    pub terms: Vec<String>,
    pub negations: Vec<String>,
    pub ext: Option<String>,
    pub path_contains: Option<String>,
    pub size_filter: Option<(SizeOp, u64)>,
    pub date_modified_filter: Option<DateModifiedFilter>,
}

/// A parsed query as values: terms, negations, extension, path substring,
/// size filter, date filter.
pub type QueryView = (
    Seq<Seq<char>>,
    Seq<Seq<char>>,
    Option<Seq<char>>,
    Option<Seq<char>>,
    Option<(SizeOp, u64)>,
    Option<DateModifiedFilter>,
);

/// The query with nothing in it.
pub open spec fn empty_query() -> QueryView {
    (Seq::empty(), Seq::empty(), None, None, None, None)
}

/// The view of an optional string.
pub open spec fn opt_view(o: Option<String>) -> Option<Seq<char>> {
    match o {
        Some(s) => Some(s@),
        None => None,
    }
}

impl View for ParsedQuery {
    type V = QueryView;

    open spec fn view(&self) -> QueryView {
        (
            self.terms@.map_values(|s: String| s@),
            self.negations@.map_values(|s: String| s@),
            opt_view(self.ext),
            opt_view(self.path_contains),
            self.size_filter,
            self.date_modified_filter,
        )
    }
}

impl Default for ParsedQuery {
    fn default() -> (r: Self)
        ensures
            r@ == empty_query(),
    {
        let r = ParsedQuery {
            terms: Vec::new(),
            negations: Vec::new(),
            ext: None,
            path_contains: None,
            size_filter: None,
            date_modified_filter: None,
        };
        assert(r@.0 =~= Seq::<Seq<char>>::empty());
        assert(r@.1 =~= Seq::<Seq<char>>::empty());
        r
    }
}

impl ParsedQuery {
    /// True when the query has no filters/terms at all (blank/whitespace
    /// input). Matching every entry in this case isn't useful, so callers
    /// short-circuit rather than returning an arbitrary slice of the index.
    pub fn is_empty(&self) -> (r: bool)
        ensures
            r == (self@ == empty_query()),
    {
        let r = self.terms.len() == 0 && self.negations.len() == 0 && self.ext.is_none()
            && self.path_contains.is_none() && self.size_filter.is_none()
            && self.date_modified_filter.is_none();
        proof {
            if r {
                assert(self@.0 =~= Seq::<Seq<char>>::empty());
                assert(self@.1 =~= Seq::<Seq<char>>::empty());
            } else {
                assert(self@.0.len() == self.terms@.len());
                assert(self@.1.len() == self.negations@.len());
                assert(self.ext is Some ==> opt_view(self.ext) is Some);
                assert(self.path_contains is Some ==> opt_view(self.path_contains) is Some);
            }
        }
        r
    }
}

// ---------------------------------------------------------------------
// Tokenizing

/// The tokenizer's state after some prefix: tokens so far, the token being
/// built, and whether a double quote is open.
pub type TokState = (Seq<Seq<char>>, Seq<char>, bool);

/// One char of tokenizing: a `"` toggles quoting and is dropped; unquoted
/// whitespace ends the current token (if any); anything else extends it.
pub open spec fn tok_step(st: TokState, c: char) -> TokState {
    let (tokens, cur, inq) = st;
    if c == '"' {
        (tokens, cur, !inq)
    } else if is_ws(c) && !inq {
        if cur.len() > 0 {
            (tokens.push(cur), Seq::empty(), inq)
        } else {
            (tokens, cur, inq)
        }
    } else {
        (tokens, cur.push(c), inq)
    }
}

/// The tokenizer's state after reading `s`.
pub open spec fn tok_run(s: Seq<char>) -> TokState
    decreases s.len(),
{
    if s.len() == 0 {
        (Seq::empty(), Seq::empty(), false)
    } else {
        tok_step(tok_run(s.drop_last()), s.last())
    }
}

/// The tokens of `s`: split on whitespace, but double-quoted phrases (which
/// may contain spaces) stay one token; quote characters are stripped.
pub open spec fn tokens_of(s: Seq<char>) -> Seq<Seq<char>> {
    let (tokens, cur, _) = tok_run(s);
    if cur.len() > 0 {
        tokens.push(cur)
    } else {
        tokens
    }
}

/// Splits on whitespace, but keeps double-quoted phrases (which may contain
/// spaces) as a single token. Quote characters themselves are stripped.
pub fn tokenize(raw: &str) -> (r: Vec<String>)
    ensures
        r@.map_values(|s: String| s@) == tokens_of(raw@),
{
    let cs = to_chars(raw);
    let mut tokens: Vec<String> = Vec::new();
    let mut current = String::new();
    let mut in_quotes = false;
    let mut i: usize = 0;
    while i < cs.len()
        invariant
            cs@ == raw@,
            i <= cs@.len(),
            tok_run(cs@.subrange(0, i as int)) == (tokens@.map_values(|s: String| s@), current@, in_quotes),
        decreases cs.len() - i,
    {
        let c = cs[i];
        let ghost before = tokens@.map_values(|s: String| s@);
        proof {
            assert(cs@.subrange(0, i + 1).drop_last() =~= cs@.subrange(0, i as int));
        }
        if c == '"' {
            in_quotes = !in_quotes;
        } else if char_is_whitespace(c) && !in_quotes {
            if current.as_str().unicode_len() != 0 {
                let mut t = String::new();
                std::mem::swap(&mut t, &mut current);
                tokens.push(t);
                assert(tokens@.map_values(|s: String| s@) =~= before.push(t@));
                assert(current@ =~= Seq::<char>::empty());
            }
        } else {
            push_char(&mut current, c);
        }
        i = i + 1;
    }
    assert(cs@.subrange(0, cs@.len() as int) =~= raw@);
    if current.as_str().unicode_len() != 0 {
        let ghost before = tokens@.map_values(|s: String| s@);
        tokens.push(current);
        assert(tokens@.map_values(|s: String| s@) =~= before.push(current@));
    }
    tokens
}

// ---------------------------------------------------------------------
// Sizes

/// The numeric value of a digit char.
pub open spec fn digit_value(c: char) -> nat {
    ((c as u32) - 0x30) as nat
}

/// An ASCII digit.
pub open spec fn is_digit(c: char) -> bool {
    0x30 <= (c as u32) <= 0x39
}

/// The number written by a run of digits.
pub open spec fn digits_value(ds: Seq<char>) -> nat
    decreases ds.len(),
{
    if ds.len() == 0 {
        0
    } else {
        digits_value(ds.drop_last()) * 10 + digit_value(ds.last())
    }
}

/// `floor(m × 0.d1d2…)` for the fraction digits `ds`, digit by digit from
/// the last one.
pub open spec fn frac_floor(m: nat, ds: Seq<char>) -> nat
    decreases ds.len(),
{
    if ds.len() == 0 {
        0
    } else {
        (m * digit_value(ds[0]) + frac_floor(m, ds.drop_first())) / 10
    }
}

/// Index of the first `.` in `s`, or `s.len()`.
pub open spec fn dot_index(s: Seq<char>) -> int
    decreases s.len(),
{
    if s.len() == 0 {
        0
    } else if s[0] == '.' {
        0
    } else {
        1 + dot_index(s.drop_first())
    }
}

/// What `f64` parsing accepts of a run of digits and dots: at most one dot
/// and at least one digit.
pub open spec fn valid_decimal(s: Seq<char>) -> bool {
    let k = dot_index(s);
    &&& (forall|i: int| 0 <= i < s.len() ==> is_digit(s[i]) || s[i] == '.')
    &&& (forall|i: int| k < i < s.len() ==> s[i] != '.')
    &&& (exists|i: int| 0 <= i < s.len() && is_digit(s[i]))
}

/// `floor(decimal × m)`, saturated at `u64::MAX`.
pub open spec fn scaled_decimal(s: Seq<char>, m: nat) -> u64 {
    let k = dot_index(s);
    let int_part = s.subrange(0, k);
    let frac_part = if k < s.len() { s.subrange(k + 1, s.len() as int) } else { Seq::empty() };
    let v = digits_value(int_part) * m + frac_floor(m, frac_part);
    if v > u64::MAX { u64::MAX } else { v as u64 }
}

/// The byte multiplier of a size unit: none or `b`, `k`/`kb`, `m`/`mb`,
/// `g`/`gb`.
pub open spec fn unit_multiplier(u: Seq<char>) -> Option<nat> {
    if u == Seq::<char>::empty() || u == seq!['b'] {
        Some(1)
    } else if u == seq!['k'] || u == seq!['k', 'b'] {
        Some(1024)
    } else if u == seq!['m'] || u == seq!['m', 'b'] {
        Some(1048576)
    } else if u == seq!['g'] || u == seq!['g', 'b'] {
        Some(1073741824)
    } else {
        None
    }
}

/// Index of the first char that is neither a digit nor `.`, or `s.len()`.
pub open spec fn number_end(s: Seq<char>) -> int
    decreases s.len(),
{
    if s.len() == 0 {
        0
    } else if !(is_digit(s[0]) || s[0] == '.') {
        0
    } else {
        1 + number_end(s.drop_first())
    }
}

/// A `size:` value: trimmed, split into a number and a unit, the number
/// scaled by the unit and rounded down.
pub open spec fn size_value_spec(s: Seq<char>) -> Option<u64> {
    let t = trim(s);
    let k = number_end(t);
    let num = t.subrange(0, k);
    let unit = trim(t.subrange(k, t.len() as int));
    if t.len() == 0 {
        None
    } else if !valid_decimal(num) {
        None
    } else {
        match unit_multiplier(unit) {
            Some(m) => Some(scaled_decimal(num, m)),
            None => None,
        }
    }
}

/// `v` bytes, saturated at `u64::MAX`.
pub open spec fn saturated(v: nat) -> u64 {
    if v > u64::MAX { u64::MAX } else { v as u64 }
}

proof fn lemma_whole_number_with_unit(d: Seq<char>, u: Seq<char>, m: nat)
    requires
        d.len() > 0,
        forall|j: int| 0 <= j < d.len() ==> is_digit(#[trigger] d[j]),
        u.len() <= 2,
        forall|j: int| 0 <= j < u.len() ==> 0x61 <= (#[trigger] u[j] as u32) <= 0x7a,
        unit_multiplier(u) == Some(m),
    ensures
        size_value_spec(d + u) == Some(saturated(digits_value(d) * m)),
{
    let s = d + u;
    assert(s[0] == d[0]);
    assert(!is_ws(s[0]));
    assert(crate::text::trim_start(s) == s);
    assert(!is_ws(s.last())) by {
        if u.len() > 0 {
            assert(s.last() == u[u.len() - 1]);
        } else {
            assert(s.last() == d[d.len() - 1]);
        }
    }
    assert(crate::text::trim_end(s) == s);
    assert(trim(s) == s);
    assert forall|j: int| 0 <= j < d.len() implies is_digit(#[trigger] s[j]) || s[j] == '.' by {
        assert(s[j] == d[j]);
    }
    if u.len() > 0 {
        assert(s[d.len() as int] == u[0]);
    }
    lemma_number_end(s, d.len() as int);
    assert(s.subrange(0, d.len() as int) =~= d);
    assert(s.subrange(d.len() as int, s.len() as int) =~= u);
    if u.len() > 0 {
        assert(!is_ws(u[0]));
        assert(crate::text::trim_start(u) == u);
        assert(!is_ws(u.last()));
        assert(crate::text::trim_end(u) == u);
    } else {
        assert(crate::text::trim_start(u) == u);
        assert(crate::text::trim_end(u) == u);
    }
    assert(trim(u) == u);
    assert forall|j: int| 0 <= j < d.len() implies #[trigger] d[j] != '.' by {
        assert(is_digit(d[j]));
    }
    lemma_dot_index(d, d.len() as int);
    assert(is_digit(d[0]));
    assert(valid_decimal(d));
    assert(d.subrange(0, d.len() as int) =~= d);
    assert(frac_floor(m, Seq::<char>::empty()) == 0);
}

/// What a `size:` value means for a whole number `d` with a unit: bytes for
/// no unit or `b`, kibibytes for `k` or `kb` (1024), mebibytes for `m` or
/// `mb` (1024 × 1024) and gibibytes for `g` or `gb` (1024 × 1024 × 1024);
/// the one-letter unit and the unit with `b` are the same.
pub proof fn lemma_size_units(d: Seq<char>)
    requires
        d.len() > 0,
        forall|j: int| 0 <= j < d.len() ==> is_digit(#[trigger] d[j]),
    ensures
        size_value_spec(d) == Some(saturated(digits_value(d))),
        size_value_spec(d + seq!['b']) == Some(saturated(digits_value(d))),
        size_value_spec(d + seq!['k']) == Some(saturated(digits_value(d) * 1024)),
        size_value_spec(d + seq!['k', 'b']) == Some(saturated(digits_value(d) * 1024)),
        size_value_spec(d + seq!['m']) == Some(saturated(digits_value(d) * 1048576)),
        size_value_spec(d + seq!['m', 'b']) == Some(saturated(digits_value(d) * 1048576)),
        size_value_spec(d + seq!['g']) == Some(saturated(digits_value(d) * 1073741824)),
        size_value_spec(d + seq!['g', 'b']) == Some(saturated(digits_value(d) * 1073741824)),
{
    assert(d + Seq::<char>::empty() =~= d);
    lemma_whole_number_with_unit(d, Seq::<char>::empty(), 1);
    lemma_whole_number_with_unit(d, seq!['b'], 1);
    lemma_whole_number_with_unit(d, seq!['k'], 1024);
    lemma_whole_number_with_unit(d, seq!['k', 'b'], 1024);
    lemma_whole_number_with_unit(d, seq!['m'], 1048576);
    lemma_whole_number_with_unit(d, seq!['m', 'b'], 1048576);
    lemma_whole_number_with_unit(d, seq!['g'], 1073741824);
    lemma_whole_number_with_unit(d, seq!['g', 'b'], 1073741824);
}

proof fn lemma_number_end(s: Seq<char>, k: int)
    requires
        0 <= k <= s.len(),
        forall|j: int| 0 <= j < k ==> is_digit(#[trigger] s[j]) || s[j] == '.',
        k == s.len() || !(is_digit(s[k]) || s[k] == '.'),
    ensures
        number_end(s) == k,
    decreases k,
{
    if k > 0 {
        let t = s.drop_first();
        assert forall|j: int| 0 <= j < k - 1 implies is_digit(#[trigger] t[j]) || t[j] == '.' by {
            assert(t[j] == s[j + 1]);
        }
        if k < s.len() {
            assert(t[k - 1] == s[k]);
        }
        lemma_number_end(t, k - 1);
    }
}

proof fn lemma_dot_index(s: Seq<char>, k: int)
    requires
        0 <= k <= s.len(),
        forall|j: int| 0 <= j < k ==> #[trigger] s[j] != '.',
        k == s.len() || s[k] == '.',
    ensures
        dot_index(s) == k,
    decreases k,
{
    if k > 0 {
        let t = s.drop_first();
        assert forall|j: int| 0 <= j < k - 1 implies #[trigger] t[j] != '.' by {
            assert(t[j] == s[j + 1]);
        }
        if k < s.len() {
            assert(t[k - 1] == s[k]);
        }
        lemma_dot_index(t, k - 1);
    }
}

proof fn lemma_digits_value_mono(ds: Seq<char>, c: char)
    requires
        is_digit(c),
    ensures
        digits_value(ds.push(c)) >= digits_value(ds),
        digits_value(ds.push(c)) == digits_value(ds) * 10 + digit_value(c),
{
    assert(ds.push(c).drop_last() =~= ds);
}

/// `floor(decimal × m)` for a valid decimal `num` (digits and at most one
/// dot) whose first dot is at `dot`.
fn scale_decimal(num: &Vec<char>, dot: usize, m: u64) -> (r: u64)
    requires
        dot <= num@.len(),
        dot == dot_index(num@),
        forall|i: int| 0 <= i < num@.len() ==> is_digit(num@[i]) || num@[i] == '.',
        forall|i: int| dot < i < num@.len() ==> num@[i] != '.',
        1 <= m <= 1073741824,
    ensures
        r == scaled_decimal(num@, m as nat),
{
    let n = num.len();
    let ghost int_part = num@.subrange(0, dot as int);
    let mut big = false;
    let mut iv: u64 = 0;
    let mut j: usize = 0;
    while j < dot
        invariant
            dot <= n == num@.len(),
            int_part == num@.subrange(0, dot as int),
            forall|i: int| 0 <= i < n ==> is_digit(num@[i]) || num@[i] == '.',
            dot == dot_index(num@),
            j <= dot,
            big ==> digits_value(num@.subrange(0, j as int)) > u64::MAX,
            !big ==> iv == digits_value(num@.subrange(0, j as int)),
        decreases dot - j,
    {
        proof {
            lemma_dot_index_props(num@);
            assert(num@[j as int] != '.');
            assert(num@.subrange(0, j + 1) =~= num@.subrange(0, j as int).push(num@[j as int]));
            lemma_digits_value_mono(num@.subrange(0, j as int), num@[j as int]);
        }
        let d = (num[j] as u32 - 0x30) as u64;
        if !big {
            if iv > (0xffff_ffff_ffff_ffffu64 - d) / 10 {
                big = true;
            } else {
                iv = iv * 10 + d;
            }
        }
        j = j + 1;
    }
    let mut acc: u64 = 0;
    let mut idx: usize = n;
    let lo: usize = if dot < n { dot + 1 } else { n };
    let ghost frac = if dot < n { num@.subrange(dot + 1, n as int) } else { Seq::<char>::empty() };
    while idx > lo
        invariant
            lo <= idx <= n,
            dot < n ==> lo == dot + 1,
            dot >= n ==> lo == n,
            dot >= n ==> acc == 0,
            n == num@.len(),
            dot < n ==> frac == num@.subrange(dot + 1, n as int),
            forall|i: int| dot < i < n ==> is_digit(num@[i]),
            1 <= m <= 1073741824,
            acc <= m,
            dot < n ==> acc == frac_floor(m as nat, num@.subrange(idx as int, n as int)),
        decreases idx,
    {
        let d = (num[idx - 1] as u32 - 0x30) as u64;
        proof {
            let t = num@.subrange(idx - 1, n as int);
            assert(t.drop_first() =~= num@.subrange(idx as int, n as int));
            assert(t[0] == num@[idx - 1]);
        }
        assert(m * d <= 9 * m) by (nonlinear_arith)
            requires
                d <= 9,
        ;
        acc = (m * d + acc) / 10;
        idx = idx - 1;
    }
    proof {
        if dot < n {
            assert(num@.subrange(idx as int, n as int) =~= frac);
        } else {
            assert(frac =~= Seq::<char>::empty());
        }
        assert(int_part =~= num@.subrange(0, dot as int));
    }
    if big {
        proof {
            assert(digits_value(int_part) * (m as nat) >= digits_value(int_part)) by (nonlinear_arith)
                requires
                    m >= 1,
            ;
        }
        return 0xffff_ffff_ffff_ffff;
    }
    assert((iv as u128) * (m as u128) <= 0xffff_ffff_ffff_ffffu128 * 1073741824u128) by (nonlinear_arith)
        requires
            m <= 1073741824,
    ;
    let v: u128 = (iv as u128) * (m as u128) + (acc as u128);
    proof {
        assert(iv == digits_value(int_part));
        assert(acc == frac_floor(m as nat, frac));
        assert(v == digits_value(int_part) * (m as nat) + frac_floor(m as nat, frac));
    }
    if v > 0xffff_ffff_ffff_ffffu128 {
        0xffff_ffff_ffff_ffff
    } else {
        v as u64
    }
}

proof fn lemma_dot_index_props(s: Seq<char>)
    ensures
        0 <= dot_index(s) <= s.len(),
        forall|j: int| 0 <= j < dot_index(s) ==> #[trigger] s[j] != '.',
        dot_index(s) < s.len() ==> s[dot_index(s)] == '.',
    decreases s.len(),
{
    if s.len() > 0 && s[0] != '.' {
        lemma_dot_index_props(s.drop_first());
        assert forall|j: int| 0 <= j < dot_index(s) implies #[trigger] s[j] != '.' by {
            if j > 0 {
                assert(s[j] == s.drop_first()[j - 1]);
            }
        }
    }
}

fn char_is_digit(c: char) -> (r: bool)
    ensures
        r == is_digit(c),
{
    let v = c as u32;
    0x30 <= v && v <= 0x39
}

/// The multiplier of a unit, as `unit_multiplier` defines it.
fn unit_mult(u: &Vec<char>) -> (r: Option<u64>)
    ensures
        match r {
            Some(m) => unit_multiplier(u@) == Some(m as nat) && 1 <= m <= 1073741824,
            None => unit_multiplier(u@) is None,
        },
{
    let n = u.len();
    if n == 0 {
        assert(u@ =~= Seq::<char>::empty());
        return Some(1);
    }
    if n > 2 {
        return None;
    }
    let c0 = u[0];
    if n == 1 {
        if c0 == 'b' {
            assert(u@ =~= seq!['b']);
            return Some(1);
        } else if c0 == 'k' {
            assert(u@ =~= seq!['k']);
            return Some(1024);
        } else if c0 == 'm' {
            assert(u@ =~= seq!['m']);
            return Some(1048576);
        } else if c0 == 'g' {
            assert(u@ =~= seq!['g']);
            return Some(1073741824);
        }
        return None;
    }
    if u[1] != 'b' {
        return None;
    }
    if c0 == 'k' {
        assert(u@ =~= seq!['k', 'b']);
        Some(1024)
    } else if c0 == 'm' {
        assert(u@ =~= seq!['m', 'b']);
        Some(1048576)
    } else if c0 == 'g' {
        assert(u@ =~= seq!['g', 'b']);
        Some(1073741824)
    } else {
        None
    }
}

/// The number of bytes a `size:` value stands for: trimmed, split at the
/// first char that is neither a digit nor `.`, the number (digits with at
/// most one dot) scaled by the unit (none/`b`, `k`/`kb`, `m`/`mb`,
/// `g`/`gb`) and rounded down, saturating at `u64::MAX`. `None` for an
/// empty value, a malformed number or an unknown unit.
pub fn parse_size_value(s: &str) -> (r: Option<u64>)
    ensures
        r == size_value_spec(s@),
{
    let t = trim_string(s);
    let cs = to_chars(t.as_str());
    let n = cs.len();
    if n == 0 {
        return None;
    }
    let mut k: usize = 0;
    while k < n && (char_is_digit(cs[k]) || cs[k] == '.')
        invariant
            n == cs@.len(),
            k <= n,
            forall|j: int| 0 <= j < k ==> is_digit(#[trigger] cs@[j]) || cs@[j] == '.',
        decreases n - k,
    {
        k = k + 1;
    }
    proof {
        lemma_number_end(cs@, k as int);
    }
    let mut num: Vec<char> = Vec::new();
    let mut dot: usize = k;
    let mut dots: usize = 0;
    let mut any_digit = false;
    let mut i: usize = 0;
    while i < k
        invariant
            k <= n == cs@.len(),
            forall|j: int| 0 <= j < k ==> is_digit(#[trigger] cs@[j]) || cs@[j] == '.',
            i <= k,
            num@ == cs@.subrange(0, i as int),
            dots <= i,
            dots == 0 ==> dot == k && forall|j: int| 0 <= j < i ==> #[trigger] cs@[j] != '.',
            dots >= 1 ==> dot < i && cs@[dot as int] == '.' && forall|j: int| 0 <= j < dot ==> #[trigger] cs@[j] != '.',
            dots == 1 ==> forall|j: int| dot < j < i ==> #[trigger] cs@[j] != '.',
            dots >= 2 ==> exists|j: int| dot < j < i && #[trigger] cs@[j] == '.',
            any_digit == exists|j: int| 0 <= j < i && is_digit(#[trigger] cs@[j]),
        decreases k - i,
    {
        let c = cs[i];
        if c == '.' {
            if dots == 0 {
                dot = i;
            }
            dots = dots + 1;
        } else {
            any_digit = true;
        }
        num.push(c);
        i = i + 1;
        assert(num@ =~= cs@.subrange(0, i as int));
    }
    let unit_str = string_of(&cs, k, n);
    let unit_t = trim_string(unit_str.as_str());
    let unit = to_chars(unit_t.as_str());
    let mult = unit_mult(&unit);
    let ghost numv = cs@.subrange(0, k as int);
    proof {
        if dots == 0 {
            lemma_dot_index(numv, k as int);
        } else {
            lemma_dot_index(numv, dot as int);
        }
        assert(forall|j: int| 0 <= j < numv.len() ==> numv[j] == cs@[j]);
        if dots >= 2 {
            let j = choose|j: int| dot < j < i && #[trigger] cs@[j] == '.';
            assert(numv[j] == '.');
        }
        if any_digit {
            let j = choose|j: int| 0 <= j < i && is_digit(#[trigger] cs@[j]);
            assert(is_digit(numv[j]));
        }
    }
    if dots > 1 || !any_digit {
        return None;
    }
    match mult {
        None => None,
        Some(m) => Some(scale_decimal(&num, dot, m)),
    }
}

/// A `size:` filter: an optional comparison (`>=`, `<=`, `>`, `<`, `=`,
/// none meaning `>=`) and a size value.
pub open spec fn size_filter_spec(v: Seq<char>) -> Option<(SizeOp, u64)> {
    let (op, rest) = if v.len() >= 2 && v[0] == '>' && v[1] == '=' {
        (SizeOp::Gte, v.subrange(2, v.len() as int))
    } else if v.len() >= 2 && v[0] == '<' && v[1] == '=' {
        (SizeOp::Lte, v.subrange(2, v.len() as int))
    } else if v.len() >= 1 && v[0] == '>' {
        (SizeOp::Gt, v.subrange(1, v.len() as int))
    } else if v.len() >= 1 && v[0] == '<' {
        (SizeOp::Lt, v.subrange(1, v.len() as int))
    } else if v.len() >= 1 && v[0] == '=' {
        (SizeOp::Eq, v.subrange(1, v.len() as int))
    } else {
        (SizeOp::Gte, v)
    };
    match size_value_spec(rest) {
        Some(b) => Some((op, b)),
        None => None,
    }
}

/// What the comparison of a `size:` filter means: `>` more than, `<` less
/// than, `>=` at least, `<=` at most, `=` exactly, and no operator at
/// least; the value after it is read as `size_value_spec` reads it.
pub proof fn lemma_size_operators(v: Seq<char>)
    requires
        v.len() > 0,
        is_digit(v[0]),
    ensures
        size_filter_spec(seq!['>'] + v) == (match size_value_spec(v) {
            Some(b) => Some((SizeOp::Gt, b)),
            None => None,
        }),
        size_filter_spec(seq!['<'] + v) == (match size_value_spec(v) {
            Some(b) => Some((SizeOp::Lt, b)),
            None => None,
        }),
        size_filter_spec(seq!['>', '='] + v) == (match size_value_spec(v) {
            Some(b) => Some((SizeOp::Gte, b)),
            None => None,
        }),
        size_filter_spec(seq!['<', '='] + v) == (match size_value_spec(v) {
            Some(b) => Some((SizeOp::Lte, b)),
            None => None,
        }),
        size_filter_spec(seq!['='] + v) == (match size_value_spec(v) {
            Some(b) => Some((SizeOp::Eq, b)),
            None => None,
        }),
        size_filter_spec(v) == (match size_value_spec(v) {
            Some(b) => Some((SizeOp::Gte, b)),
            None => None,
        }),
{
    let one = seq!['>'] + v;
    assert(one.subrange(1, one.len() as int) =~= v);
    assert(one[1] == v[0]);
    let lt = seq!['<'] + v;
    assert(lt.subrange(1, lt.len() as int) =~= v);
    assert(lt[1] == v[0]);
    let ge = seq!['>', '='] + v;
    assert(ge.subrange(2, ge.len() as int) =~= v);
    let le = seq!['<', '='] + v;
    assert(le.subrange(2, le.len() as int) =~= v);
    let eq = seq!['='] + v;
    assert(eq.subrange(1, eq.len() as int) =~= v);
}

/// No explicit operator (bare `size:10mb`) defaults to "at least" (`Gte`) —
/// the most useful reading for a search box ("find big files").
pub fn parse_size_filter(v: &str) -> (r: Option<(SizeOp, u64)>)
    ensures
        r == size_filter_spec(v@),
{
    let cs = to_chars(v);
    let n = cs.len();
    let (op, skip) = if n >= 2 && cs[0] == '>' && cs[1] == '=' {
        (SizeOp::Gte, 2)
    } else if n >= 2 && cs[0] == '<' && cs[1] == '=' {
        (SizeOp::Lte, 2)
    } else if n >= 1 && cs[0] == '>' {
        (SizeOp::Gt, 1)
    } else if n >= 1 && cs[0] == '<' {
        (SizeOp::Lt, 1)
    } else if n >= 1 && cs[0] == '=' {
        (SizeOp::Eq, 1)
    } else {
        (SizeOp::Gte, 0)
    };
    let rest = string_of(&cs, skip, n);
    assert(cs@.subrange(0, n as int) =~= v@);
    match parse_size_value(rest.as_str()) {
        Some(b) => Some((op, b)),
        None => None,
    }
}

/// What chrono's `NaiveDate::parse_from_str(s, "%Y-%m-%d")` yields for `s`,
/// as (year, month, day).
pub uninterp spec fn ymd_of_str(s: Seq<char>) -> Option<(i32, u32, u32)>;

/// The date a `YYYY-MM-DD` string names, per `ymd_of_str`.
pub open spec fn parsed_date(s: Seq<char>) -> Option<CalendarDate> {
    match ymd_of_str(s) {
        Some((y, m, d)) => Some(CalendarDate { year: y, month: m, day: d }),
        None => None,
    }
}

/// Calls chrono's `NaiveDate::parse_from_str(s, "%Y-%m-%d")` and hands the
/// date back as (year, month, day). Its result is named `ymd_of_str`;
/// nothing more is claimed about it.
#[verifier::external_body]
fn parse_ymd(s: &str) -> (r: Option<CalendarDate>)
    ensures
        r == match ymd_of_str(s@) {
            Some((y, m, d)) => Some(CalendarDate { year: y, month: m, day: d }),
            None => None,
        },
{
    match chrono::NaiveDate::parse_from_str(s, "%Y-%m-%d") {
        Ok(d) => Some(CalendarDate { year: d.year(), month: d.month(), day: d.day() }),
        Err(_) => None,
    }
}

/// A `dm:` value: `today`, `yesterday`, `thisweek`, or a `YYYY-MM-DD` date.
pub open spec fn date_filter_spec(v: Seq<char>) -> Option<DateModifiedFilter> {
    if v == seq!['t', 'o', 'd', 'a', 'y'] {
        Some(DateModifiedFilter::Today)
    } else if v == seq!['y', 'e', 's', 't', 'e', 'r', 'd', 'a', 'y'] {
        Some(DateModifiedFilter::Yesterday)
    } else if v == seq!['t', 'h', 'i', 's', 'w', 'e', 'e', 'k'] {
        Some(DateModifiedFilter::ThisWeek)
    } else {
        match parsed_date(v) {
            Some(d) => Some(DateModifiedFilter::Literal(d)),
            None => None,
        }
    }
}

/// `cs` is exactly the chars of `word`.
fn chars_are(cs: &Vec<char>, word: &[char]) -> (r: bool)
    ensures
        r == (cs@ == word@),
{
    if cs.len() != word.len() {
        return false;
    }
    let mut i: usize = 0;
    while i < cs.len()
        invariant
            cs@.len() == word@.len(),
            i <= cs@.len(),
            forall|j: int| 0 <= j < i ==> cs@[j] == word@[j],
        decreases cs.len() - i,
    {
        if cs[i] != word[i] {
            return false;
        }
        i = i + 1;
    }
    assert(cs@ =~= word@);
    true
}

/// Parses a `dm:` value.
pub fn parse_date_filter(v: &str) -> (r: Option<DateModifiedFilter>)
    ensures
        r == date_filter_spec(v@),
{
    let cs = to_chars(v);
    let today = ['t', 'o', 'd', 'a', 'y'];
    let yesterday = ['y', 'e', 's', 't', 'e', 'r', 'd', 'a', 'y'];
    let thisweek = ['t', 'h', 'i', 's', 'w', 'e', 'e', 'k'];
    assert(today@ =~= seq!['t', 'o', 'd', 'a', 'y']);
    assert(yesterday@ =~= seq!['y', 'e', 's', 't', 'e', 'r', 'd', 'a', 'y']);
    assert(thisweek@ =~= seq!['t', 'h', 'i', 's', 'w', 'e', 'e', 'k']);
    if chars_are(&cs, &today) {
        Some(DateModifiedFilter::Today)
    } else if chars_are(&cs, &yesterday) {
        Some(DateModifiedFilter::Yesterday)
    } else if chars_are(&cs, &thisweek) {
        Some(DateModifiedFilter::ThisWeek)
    } else {
        match parse_ymd(v) {
            Some(d) => Some(DateModifiedFilter::Literal(d)),
            None => None,
        }
    }
}

/// `s` without its leading dots.
pub open spec fn trim_start_dots(s: Seq<char>) -> Seq<char>
    decreases s.len(),
{
    if s.len() > 0 && s[0] == '.' {
        trim_start_dots(s.drop_first())
    } else {
        s
    }
}

/// `s` starts with the chars `p`.
pub open spec fn starts_with_chars(s: Seq<char>, p: Seq<char>) -> bool {
    p.len() <= s.len() && s.subrange(0, p.len() as int) == p
}

/// One token's contribution to a query, read from its lowercased form: a
/// leading `!` makes a negation, the `ext:`, `path:`, `size:` and `dm:`
/// prefixes set their filter (a later one replaces an earlier one), and
/// anything else is a bare term. Empty or unparsable values are ignored.
pub open spec fn classify(q: QueryView, token: Seq<char>) -> QueryView {
    let l = lower(token);
    if l.len() > 0 && l[0] == '!' {
        let rest = l.drop_first();
        if rest.len() > 0 {
            (q.0, q.1.push(rest), q.2, q.3, q.4, q.5)
        } else {
            q
        }
    } else if starts_with_chars(l, seq!['e', 'x', 't', ':']) {
        let v = trim_start_dots(l.subrange(4, l.len() as int));
        if v.len() > 0 {
            (q.0, q.1, Some(v), q.3, q.4, q.5)
        } else {
            q
        }
    } else if starts_with_chars(l, seq!['p', 'a', 't', 'h', ':']) {
        let v = l.subrange(5, l.len() as int);
        if v.len() > 0 {
            (q.0, q.1, q.2, Some(v), q.4, q.5)
        } else {
            q
        }
    } else if starts_with_chars(l, seq!['s', 'i', 'z', 'e', ':']) {
        match size_filter_spec(l.subrange(5, l.len() as int)) {
            Some(f) => (q.0, q.1, q.2, q.3, Some(f), q.5),
            None => q,
        }
    } else if starts_with_chars(l, seq!['d', 'm', ':']) {
        match date_filter_spec(l.subrange(3, l.len() as int)) {
            Some(f) => (q.0, q.1, q.2, q.3, q.4, Some(f)),
            None => q,
        }
    } else if l.len() > 0 {
        (q.0.push(l), q.1, q.2, q.3, q.4, q.5)
    } else {
        q
    }
}

/// The query built from `tokens`, classified in order.
pub open spec fn classify_all(tokens: Seq<Seq<char>>) -> QueryView
    decreases tokens.len(),
{
    if tokens.len() == 0 {
        empty_query()
    } else {
        classify(classify_all(tokens.drop_last()), tokens.last())
    }
}

/// The parse of a raw query string.
pub open spec fn parse_query_spec(raw: Seq<char>) -> QueryView {
    classify_all(tokens_of(raw))
}

/// `cs` starts with the chars of `p`.
fn has_prefix(cs: &Vec<char>, p: &[char]) -> (r: bool)
    ensures
        r == starts_with_chars(cs@, p@),
{
    if p.len() > cs.len() {
        return false;
    }
    let mut i: usize = 0;
    while i < p.len()
        invariant
            p@.len() <= cs@.len(),
            i <= p@.len(),
            forall|j: int| 0 <= j < i ==> cs@[j] == p@[j],
        decreases p.len() - i,
    {
        if cs[i] != p[i] {
            assert(cs@.subrange(0, p@.len() as int)[i as int] != p@[i as int]);
            return false;
        }
        i = i + 1;
    }
    assert(cs@.subrange(0, p@.len() as int) =~= p@);
    true
}

proof fn lemma_trim_start_dots(s: Seq<char>, k: int)
    requires
        0 <= k <= s.len(),
        forall|j: int| 0 <= j < k ==> #[trigger] s[j] == '.',
        k == s.len() || s[k] != '.',
    ensures
        trim_start_dots(s) == s.subrange(k, s.len() as int),
    decreases k,
{
    if k == 0 {
        assert(s.subrange(0, s.len() as int) =~= s);
    } else {
        let t = s.drop_first();
        assert forall|j: int| 0 <= j < k - 1 implies #[trigger] t[j] == '.' by {
            assert(t[j] == s[j + 1]);
        }
        if k < s.len() {
            assert(t[k - 1] == s[k]);
        }
        lemma_trim_start_dots(t, k - 1);
        assert(t.subrange(k - 1, t.len() as int) =~= s.subrange(k, s.len() as int));
    }
}

/// Adds one token to the query being parsed.
fn classify_token(token: &str, q: &mut ParsedQuery)
    ensures
        final(q)@ == classify(old(q)@, token@),
{
    let lower = to_lower(token);
    let cs = to_chars(lower.as_str());
    let n = cs.len();
    let ghost q0 = q@;
    if n > 0 && cs[0] == '!' {
        if n > 1 {
            let rest = string_of(&cs, 1, n);
            let ghost before = q.negations@.map_values(|s: String| s@);
            q.negations.push(rest);
            assert(cs@.drop_first() =~= cs@.subrange(1, n as int));
            assert(q.negations@.map_values(|s: String| s@) =~= before.push(rest@));
        }
        return;
    }
    let ext_p = ['e', 'x', 't', ':'];
    let path_p = ['p', 'a', 't', 'h', ':'];
    let size_p = ['s', 'i', 'z', 'e', ':'];
    let dm_p = ['d', 'm', ':'];
    assert(ext_p@ =~= seq!['e', 'x', 't', ':']);
    assert(path_p@ =~= seq!['p', 'a', 't', 'h', ':']);
    assert(size_p@ =~= seq!['s', 'i', 'z', 'e', ':']);
    assert(dm_p@ =~= seq!['d', 'm', ':']);
    if has_prefix(&cs, &ext_p) {
        let mut k: usize = 4;
        while k < n && cs[k] == '.'
            invariant
                4 <= k <= n == cs@.len(),
                forall|j: int| 4 <= j < k ==> #[trigger] cs@[j] == '.',
            decreases n - k,
        {
            k = k + 1;
        }
        proof {
            let t = cs@.subrange(4, n as int);
            assert forall|j: int| 0 <= j < k - 4 implies #[trigger] t[j] == '.' by {
                assert(t[j] == cs@[j + 4]);
            }
            if k < n {
                assert(t[k - 4] == cs@[k as int]);
            }
            lemma_trim_start_dots(t, k - 4);
            assert(t.subrange(k - 4, t.len() as int) =~= cs@.subrange(k as int, n as int));
        }
        if k < n {
            q.ext = Some(string_of(&cs, k, n));
        }
        return;
    }
    if has_prefix(&cs, &path_p) {
        if n > 5 {
            q.path_contains = Some(string_of(&cs, 5, n));
        }
        return;
    }
    if has_prefix(&cs, &size_p) {
        let v = string_of(&cs, 5, n);
        match parse_size_filter(v.as_str()) {
            Some(f) => {
                q.size_filter = Some(f);
            },
            None => {},
        }
        return;
    }
    if has_prefix(&cs, &dm_p) {
        let v = string_of(&cs, 3, n);
        match parse_date_filter(v.as_str()) {
            Some(f) => {
                q.date_modified_filter = Some(f);
            },
            None => {},
        }
        return;
    }
    if n > 0 {
        let ghost before = q.terms@.map_values(|s: String| s@);
        q.terms.push(lower);
        assert(q.terms@.map_values(|s: String| s@) =~= before.push(cs@));
    }
}

/// Parses a raw query string: tokenize, then classify each token in order.
pub fn parse_query(raw: &str) -> (r: ParsedQuery)
    ensures
        r@ == parse_query_spec(raw@),
{
    let mut q = ParsedQuery::default();
    let tokens = tokenize(raw);
    let ghost tv = tokens@.map_values(|s: String| s@);
    let mut i: usize = 0;
    while i < tokens.len()
        invariant
            i <= tokens@.len(),
            tv == tokens@.map_values(|s: String| s@),
            tv == tokens_of(raw@),
            q@ == classify_all(tv.subrange(0, i as int)),
        decreases tokens.len() - i,
    {
        classify_token(tokens[i].as_str(), &mut q);
        proof {
            assert(tv.subrange(0, i + 1).drop_last() =~= tv.subrange(0, i as int));
            assert(tv[i as int] == tokens@[i as int]@);
        }
        i = i + 1;
    }
    assert(tv.subrange(0, tv.len() as int) =~= tv);
    q
}

// ---------------------------------------------------------------------
// Path patterns

/// Number of `\` bytes in `p`.
pub open spec fn backslash_count(p: Seq<u8>) -> nat
    decreases p.len(),
{
    if p.len() == 0 {
        0
    } else {
        backslash_count(p.drop_last()) + if p.last() == 0x5c { 1nat } else { 0nat }
    }
}

/// Beyond this many `\` in a pattern the per-directory bit table cannot
/// hold every split, and the pattern is checked against the full path.
pub const MAX_SPLITS: usize = 31;

/// A match of `p` in `dir + '\' + name` that straddles the separator: `p`
/// has a `\` at `k` with `dir` ending in what precedes it and `name`
/// starting with what follows it.
pub open spec fn straddles(p: Seq<u8>, dir: Seq<u8>, name: Seq<u8>) -> bool {
    exists|k: int|
        0 <= k < p.len() && p[k] == 0x5c && #[trigger] ends_with(dir, p.subrange(0, k)) && starts_with(
            name,
            p.subrange(k + 1, p.len() as int),
        )
}

/// Whether the path pattern `p` hits an entry with lowercased directory
/// `dir`, lowercased name `name` and lowercased full path `full`: a pattern
/// with more than `MAX_SPLITS` backslashes is looked up in the full path;
/// any other hits when it occurs in the directory, in the name, or across
/// the separator between them.
pub open spec fn pattern_hits(p: Seq<u8>, dir: Seq<u8>, name: Seq<u8>, full: Seq<u8>) -> bool {
    if backslash_count(p) > MAX_SPLITS {
        contains(full, p)
    } else {
        contains(dir, p) || contains(name, p) || straddles(p, dir, name)
    }
}

/// `full` is `dir`, a `\`, then `name`, element by element.
spec fn joined(full: Seq<u8>, dir: Seq<u8>, name: Seq<u8>) -> bool {
    &&& full.len() == dir.len() + 1 + name.len()
    &&& forall|t: int| 0 <= t < dir.len() ==> #[trigger] full[t] == dir[t]
    &&& full[dir.len() as int] == 0x5c
    &&& forall|t: int| 0 <= t < name.len() ==> #[trigger] full[dir.len() + 1 + t] == name[t]
}

proof fn lemma_joined(dir: Seq<u8>, name: Seq<u8>)
    requires
        dir.len() > 0,
    ensures
        joined(join_path(dir, name), dir, name),
{
    let full = join_path(dir, name);
    assert(full =~= dir + seq![0x5cu8] + name);
    assert forall|t: int| 0 <= t < name.len() implies #[trigger] full[dir.len() + 1 + t] == name[t] by {}
}

proof fn lemma_part_hit(full: Seq<u8>, dir: Seq<u8>, name: Seq<u8>, p: Seq<u8>)
    requires
        joined(full, dir, name),
        contains(dir, p) || contains(name, p),
    ensures
        contains(full, p),
{
    let n = dir.len() as int;
    if contains(dir, p) {
        let i = choose|i: int| occurs_at(dir, p, i);
        assert forall|t: int| 0 <= t < p.len() implies full[i + t] == p[t] by {
            assert(dir.subrange(i, i + p.len())[t] == p[t]);
        }
        assert(full.subrange(i, i + p.len()) =~= p);
        assert(occurs_at(full, p, i));
    } else {
        let i = choose|i: int| occurs_at(name, p, i);
        let j = i + n + 1;
        assert forall|t: int| 0 <= t < p.len() implies full[j + t] == p[t] by {
            assert(name.subrange(i, i + p.len())[t] == p[t]);
            assert(full[n + 1 + (i + t)] == name[i + t]);
        }
        assert(full.subrange(j, j + p.len()) =~= p);
        assert(occurs_at(full, p, j));
    }
}

proof fn lemma_straddle_hit(full: Seq<u8>, dir: Seq<u8>, name: Seq<u8>, p: Seq<u8>)
    requires
        joined(full, dir, name),
        straddles(p, dir, name),
    ensures
        contains(full, p),
{
    let n = dir.len() as int;
    let k = choose|k: int|
        0 <= k < p.len() && p[k] == 0x5c && #[trigger] ends_with(dir, p.subrange(0, k)) && starts_with(
            name,
            p.subrange(k + 1, p.len() as int),
        );
    let j = n - k;
    assert forall|t: int| 0 <= t < p.len() implies full[j + t] == p[t] by {
        if t < k {
            assert(dir.subrange(n - k, n)[t] == p.subrange(0, k)[t]);
            assert(full[n - k + t] == dir[n - k + t]);
        } else if t > k {
            let u = t - k - 1;
            assert(name.subrange(0, p.len() - k - 1)[u] == p.subrange(k + 1, p.len() as int)[u]);
            assert(full[n + 1 + u] == name[u]);
        }
    }
    assert(full.subrange(j, j + p.len()) =~= p);
    assert(occurs_at(full, p, j));
}

proof fn lemma_full_hit(full: Seq<u8>, dir: Seq<u8>, name: Seq<u8>, p: Seq<u8>)
    requires
        joined(full, dir, name),
        contains(full, p),
    ensures
        contains(dir, p) || contains(name, p) || straddles(p, dir, name),
{
    let n = dir.len() as int;
    let j = choose|j: int| occurs_at(full, p, j);
    assert forall|t: int| 0 <= t < p.len() implies full[j + t] == p[t] by {
        assert(full.subrange(j, j + p.len())[t] == p[t]);
    }
    if j + p.len() <= n {
        assert forall|t: int| 0 <= t < p.len() implies dir[j + t] == p[t] by {
            assert(full[j + t] == dir[j + t]);
        }
        assert(dir.subrange(j, j + p.len()) =~= p);
        assert(occurs_at(dir, p, j));
    } else if j >= n + 1 {
        let i = j - n - 1;
        assert forall|t: int| 0 <= t < p.len() implies name[i + t] == p[t] by {
            assert(full[n + 1 + (i + t)] == name[i + t]);
            assert(full[j + t] == p[t]);
        }
        assert(name.subrange(i, i + p.len()) =~= p);
        assert(occurs_at(name, p, i));
    } else {
        let k = n - j;
        assert(full[j + k] == p[k]);
        assert forall|t: int| 0 <= t < k implies dir[n - k + t] == p[t] by {
            assert(full[j + t] == dir[j + t]);
        }
        assert(dir.subrange(n - k, n) =~= p.subrange(0, k));
        assert forall|u: int| 0 <= u < p.len() - k - 1 implies name[u] == p[k + 1 + u] by {
            assert(full[n + 1 + u] == name[u]);
            assert(full[j + (k + 1 + u)] == p[k + 1 + u]);
        }
        assert(name.subrange(0, p.len() - k - 1) =~= p.subrange(k + 1, p.len() as int));
        assert(ends_with(dir, p.subrange(0, k)));
        assert(straddles(p, dir, name));
    }
}

/// A path pattern hits an entry exactly when the lowercased full path
/// `dir\name` contains it, for every entry whose directory is not empty.
pub proof fn lemma_pattern_hits_full_path(p: Seq<u8>, dir: Seq<u8>, name: Seq<u8>)
    requires
        dir.len() > 0,
    ensures
        pattern_hits(p, dir, name, join_path(dir, name)) == contains(join_path(dir, name), p),
{
    let full = join_path(dir, name);
    lemma_joined(dir, name);
    if backslash_count(p) <= MAX_SPLITS {
        if contains(dir, p) || contains(name, p) {
            lemma_part_hit(full, dir, name, p);
        }
        if straddles(p, dir, name) {
            lemma_straddle_hit(full, dir, name, p);
        }
        if contains(full, p) {
            lemma_full_hit(full, dir, name, p);
        }
    }
}

/// Bit `j` of `b`.
pub open spec fn bit(b: u32, j: u32) -> bool {
    (b >> j) & 1 == 1
}

proof fn lemma_bit_set(b: u32, j: u32, k: u32)
    requires
        j < 32,
        k < 32,
    ensures
        bit(b | (1u32 << j), k) == (k == j || bit(b, k)),
{
    assert(((b | (1u32 << j)) >> k) & 1 == 1 <==> (k == j || (b >> k) & 1 == 1)) by (bit_vector)
        requires
            j < 32,
            k < 32,
    ;
}

proof fn lemma_bit_test(b: u32, j: u32)
    requires
        j < 32,
    ensures
        (b & (1u32 << j) != 0) == bit(b, j),
{
    assert((b & (1u32 << j) != 0) == ((b >> j) & 1 == 1)) by (bit_vector)
        requires
            j < 32,
    ;
}

proof fn lemma_bits_init()
    ensures
        bit(1u32, 0u32),
        forall|m: u32| 1 <= m < 32 ==> !#[trigger] bit(1u32, m),
        forall|m: u32| m < 32 ==> !#[trigger] bit(0u32, m),
{
    assert(forall|m: u32| 1 <= m < 32 ==> (1u32 >> m) & 1 != 1) by (bit_vector);
    assert(forall|m: u32| m < 32 ==> (0u32 >> m) & 1 != 1) by (bit_vector);
    assert((1u32 >> 0u32) & 1 == 1) by (bit_vector);
}

/// A substring pattern precompiled against one arena's directory table, so
/// "does the full path contain this?" is answerable per entry without
/// building the path. A full path is `dir + '\' + name`, so a match lies in
/// `dir`, in `name`, or straddles the separator at one of the pattern's own
/// `\` positions — those splits are precomputed per directory.
pub struct PathPattern {
    pat: String,
    /// Bit 0: this directory contains `pat`. Bit `1 + i`: this directory
    /// ends with `pat[..splits[i]]`.
    dir_bits: Vec<u32>,
    /// The byte positions of every `\` in `pat`, ascending.
    splits: Vec<usize>,
    /// Set for patterns with more separators than `dir_bits` can encode;
    /// forces the exact full-path check.
    needs_full_path: bool,
}

impl PathPattern {
    /// The pattern's bytes.
    pub closed spec fn pattern(&self) -> Seq<u8> {
        utf8(self.pat@)
    }

    /// The pattern is compiled against `arena`'s directory table.
    pub closed spec fn compiled_for(&self, arena: &IndexArena) -> bool {
        let p = utf8(self.pat@);
        &&& self.needs_full_path == (backslash_count(p) > MAX_SPLITS)
        &&& !self.needs_full_path ==> {
            &&& self.splits@.len() <= MAX_SPLITS
            &&& forall|i: int| 0 <= i < self.splits@.len() ==> (#[trigger] self.splits@[i] as int) < p.len() && p[self.splits@[i] as int] == 0x5c
            &&& forall|k: int| 0 <= k < p.len() && p[k] == 0x5c ==> exists|i: int| 0 <= i < self.splits@.len() && #[trigger] self.splits@[i] == k
            &&& self.dir_bits@.len() == arena.dir_count_spec()
            &&& forall|d: int| 0 <= d < arena.dir_count_spec() ==> bit(#[trigger] self.dir_bits@[d], 0) == contains(arena.dir_lower_by_id_spec(d), p)
            &&& forall|d: int, i: int| 0 <= d < arena.dir_count_spec() && 0 <= i < self.splits@.len() ==> bit(#[trigger] self.dir_bits@[d], (i + 1) as u32)
                == ends_with(arena.dir_lower_by_id_spec(d), p.subrange(0, #[trigger] self.splits@[i] as int))
        }
    }

    /// Compiles `pat` against `arena`'s directory table.
    pub fn compile(pat: &str, arena: &IndexArena) -> (r: Self)
        requires
            arena.wf(),
        ensures
            r.pattern() == pat.spec_bytes(),
            r.compiled_for(arena),
    {
        let pb = pat.as_bytes();
        let plen = pb.len();
        let mut splits: Vec<usize> = Vec::new();
        let mut j: usize = 0;
        while j < plen
            invariant
                plen == pb@.len(),
                pb@ == pat.spec_bytes(),
                j <= plen,
                splits@.len() == backslash_count(pb@.subrange(0, j as int)),
                forall|i: int| 0 <= i < splits@.len() ==> (#[trigger] splits@[i] as int) < j && pb@[splits@[i] as int] == 0x5c,
                forall|k: int| 0 <= k < j && pb@[k] == 0x5c ==> exists|i: int| 0 <= i < splits@.len() && #[trigger] splits@[i] == k,
            decreases plen - j,
        {
            let ghost before = splits@;
            proof {
                assert(pb@.subrange(0, j + 1).drop_last() =~= pb@.subrange(0, j as int));
            }
            if pb[j] == 0x5c {
                splits.push(j);
            }
            proof {
                assert forall|k: int| 0 <= k < j + 1 && pb@[k] == 0x5c implies exists|i: int| 0 <= i < splits@.len() && #[trigger] splits@[i] == k by {
                    if k < j {
                        let w = choose|i: int| 0 <= i < before.len() && #[trigger] before[i] == k;
                        assert(splits@[w] == k);
                    } else {
                        assert(splits@[splits@.len() - 1] == k);
                    }
                }
            }
            j = j + 1;
        }
        assert(pb@.subrange(0, plen as int) =~= pb@);
        let needs_full_path = splits.len() > MAX_SPLITS;
        if needs_full_path {
            return PathPattern { pat: pat.to_owned(), dir_bits: Vec::new(), splits: Vec::new(), needs_full_path };
        }
        let n = arena.dir_count();
        let mut dir_bits: Vec<u32> = Vec::new();
        let mut d: usize = 0;
        proof {
            lemma_bits_init();
        }
        while d < n
            invariant
                arena.wf(),
                n == arena.dir_count_spec(),
                n <= u32::MAX,
                pb@ == pat.spec_bytes(),
                plen == pb@.len(),
                splits@.len() <= MAX_SPLITS,
                splits@.len() == backslash_count(pb@),
                forall|i: int| 0 <= i < splits@.len() ==> (#[trigger] splits@[i] as int) < plen && pb@[splits@[i] as int] == 0x5c,
                forall|k: int| 0 <= k < plen && pb@[k] == 0x5c ==> exists|i: int| 0 <= i < splits@.len() && #[trigger] splits@[i] == k,
                bit(1u32, 0u32),
                forall|m: u32| 1 <= m < 32 ==> !#[trigger] bit(1u32, m),
                forall|m: u32| m < 32 ==> !#[trigger] bit(0u32, m),
                d <= n,
                dir_bits@.len() == d,
                forall|e: int| 0 <= e < d ==> bit(#[trigger] dir_bits@[e], 0) == contains(arena.dir_lower_by_id_spec(e), pb@),
                forall|e: int, i: int| 0 <= e < d && 0 <= i < splits@.len() ==> bit(#[trigger] dir_bits@[e], (i + 1) as u32)
                    == ends_with(arena.dir_lower_by_id_spec(e), pb@.subrange(0, #[trigger] splits@[i] as int)),
            decreases n - d,
        {
            let dir = arena.dir_lower_by_id(d as u32).as_bytes();
            let found = find_bytes(dir, pb).is_some();
            let mut bits: u32 = if found { 1 } else { 0 };
            let mut i: usize = 0;
            while i < splits.len()
                invariant
                    dir@ == arena.dir_lower_by_id_spec(d as int),
                    pb@ == pat.spec_bytes(),
                    plen == pb@.len(),
                    splits@.len() <= MAX_SPLITS,
                    forall|i: int| 0 <= i < splits@.len() ==> (#[trigger] splits@[i] as int) < plen,
                    i <= splits@.len(),
                    bit(bits, 0) == contains(dir@, pb@),
                    forall|m: int| 0 <= m < i ==> bit(bits, (m + 1) as u32) == ends_with(dir@, pb@.subrange(0, #[trigger] splits@[m] as int)),
                    forall|m: u32| i + 1 <= m < 32 ==> !#[trigger] bit(bits, m),
                decreases splits.len() - i,
            {
                let k = splits[i];
                let hit = ends_with_head(dir, pb, k);
                let ghost old_bits = bits;
                if hit {
                    proof {
                        assert forall|m: u32| m < 32 implies #[trigger] bit(bits | (1u32 << (i + 1) as u32), m) == (m == (i + 1) as u32 || bit(bits, m)) by {
                            lemma_bit_set(bits, (i + 1) as u32, m);
                        }
                    }
                    bits = bits | (1u32 << (i + 1) as u32);
                }
                proof {
                    assert(bit(bits, (i + 1) as u32) == hit);
                    assert forall|m: int| 0 <= m < i + 1 implies bit(bits, (m + 1) as u32) == ends_with(dir@, pb@.subrange(0, #[trigger] splits@[m] as int)) by {
                        if m < i {
                            assert(bit(old_bits, (m + 1) as u32) == ends_with(dir@, pb@.subrange(0, splits@[m] as int)));
                        }
                    }
                }
                i = i + 1;
            }
            dir_bits.push(bits);
            proof {
                assert(dir_bits@[d as int] == bits);
            }
            d = d + 1;
        }
        let r = PathPattern { pat: pat.to_owned(), dir_bits, splits, needs_full_path };
        proof {
            assert(r.pattern() == pb@);
            assert(!r.needs_full_path);
        }
        r
    }

    /// Whether entry `i` of `arena` hits the pattern (see `pattern_hits`).
    pub fn matches(&self, arena: &IndexArena, i: usize, name_lower: &str) -> (r: bool)
        requires
            arena.wf(),
            self.compiled_for(arena),
            i < arena.spec_len(),
            name_lower.spec_bytes() == arena.name_lower_at(i as int),
        ensures
            r == pattern_hits(self.pattern(), arena.dir_lower_at(i as int), arena.name_lower_at(i as int), arena.full_path_lower_at(i as int)),
    {
        let pb = self.pat.as_str().as_bytes();
        if self.needs_full_path {
            let full = arena.full_path_lower(i);
            return find_bytes(full.as_str().as_bytes(), pb).is_some();
        }
        let did = arena.dir_id(i);
        let bits = self.dir_bits[did as usize];
        proof {
            lemma_bit_test(bits, 0);
            assert(1u32 << 0u32 == 1u32) by (bit_vector);
        }
        if bits & 1 != 0 {
            return true;
        }
        let nb = name_lower.as_bytes();
        let plen = pb.len();
        if find_bytes(nb, pb).is_some() {
            return true;
        }
        let mut idx: usize = 0;
        while idx < self.splits.len()
            invariant
                arena.wf(),
                self.compiled_for(arena),
                !self.needs_full_path,
                pb@ == self.pattern(),
                plen == pb@.len(),
                nb@ == arena.name_lower_at(i as int),
                (did as int) < arena.dir_count_spec(),
                did == arena.dir_id_at(i as int),
                bits == self.dir_bits@[did as int],
                idx <= self.splits@.len(),
                forall|m: int| 0 <= m < idx ==> !(bit(bits, (m + 1) as u32) && starts_with(nb@, pb@.subrange(#[trigger] self.splits@[m] + 1, pb@.len() as int))),
            decreases self.splits.len() - idx,
        {
            let k = self.splits[idx];
            proof {
                lemma_bit_test(bits, (idx + 1) as u32);
            }
            assert(k < pb@.len());
            if bits & (1u32 << (idx + 1) as u32) != 0 && starts_with_tail(nb, pb, k + 1) {
                proof {
                    assert(ends_with(arena.dir_lower_at(i as int), pb@.subrange(0, k as int)));
                    assert(straddles(pb@, arena.dir_lower_at(i as int), nb@));
                }
                return true;
            }
            idx = idx + 1;
        }
        proof {
            if straddles(pb@, arena.dir_lower_at(i as int), nb@) {
                let k = choose|k: int| 0 <= k < pb@.len() && pb@[k] == 0x5c && #[trigger] ends_with(arena.dir_lower_at(i as int), pb@.subrange(0, k))
                    && starts_with(nb@, pb@.subrange(k + 1, pb@.len() as int));
                let m = choose|m: int| 0 <= m < self.splits@.len() && #[trigger] self.splits@[m] == k;
                assert(bit(bits, (m + 1) as u32));
            }
        }
        false
    }
}


// ---------------------------------------------------------------------
// Date ranges

/// A date as (year, month, day).
pub open spec fn ymd(d: CalendarDate) -> (i32, u32, u32) {
    (d.year, d.month, d.day)
}

/// An optional (year, month, day) as an optional date.
pub open spec fn opt_date(o: Option<(i32, u32, u32)>) -> Option<CalendarDate> {
    match o {
        Some((y, m, d)) => Some(CalendarDate { year: y, month: m, day: d }),
        None => None,
    }
}

/// The calendar date, as (year, month, day), of day number `x` counted
/// from 1970-01-01 in the proleptic Gregorian calendar: the inverse of
/// `epoch_day`.
pub open spec fn date_of_day(x: int) -> (int, int, int) {
    let z = x + 719468;
    let era = z / 146097;
    let doe = z - era * 146097;
    let yoe = (doe - doe / 1460 + doe / 36524 - doe / 146096) / 365;
    let doy = doe - (365 * yoe + yoe / 4 - yoe / 100);
    let mp = (5 * doy + 2) / 153;
    let day = doy - (153 * mp + 2) / 5 + 1;
    let month = if mp < 10 { mp + 3 } else { mp - 9 };
    let year = yoe + era * 400 + (if month <= 2 { 1int } else { 0int });
    (year, month, day)
}

/// The day number of the date (y, m, d), counted from 1970-01-01.
pub open spec fn ymd_day(d: (i32, u32, u32)) -> int {
    epoch_day(CalendarDate { year: d.0, month: d.1, day: d.2 })
}

/// What chrono's `NaiveDate::checked_sub_days` gives for the date (y, m, d)
/// and `n` days: the date `n` days earlier, as (year, month, day); `None`
/// when (y, m, d) is no date or the result leaves chrono's range.
pub open spec fn ymd_minus_days(d: (i32, u32, u32), n: u64) -> Option<(i32, u32, u32)> {
    let p = date_of_day(ymd_day(d) - n);
    if valid_ymd(d) && first_year() <= p.0 <= last_year() {
        Some((p.0 as i32, p.1 as u32, p.2 as u32))
    } else {
        None
    }
}

/// A leap year of the proleptic Gregorian calendar.
pub open spec fn is_leap_year(y: int) -> bool {
    y % 4 == 0 && (y % 100 != 0 || y % 400 == 0)
}

/// The number of days in month `m` of year `y`.
pub open spec fn days_in_month(y: int, m: int) -> int {
    if m == 2 {
        if is_leap_year(y) { 29 } else { 28 }
    } else if m == 4 || m == 6 || m == 9 || m == 11 {
        30
    } else {
        31
    }
}

/// The first year of chrono's `NaiveDate` range.
pub open spec fn first_year() -> int {
    -262143
}

/// The last year of chrono's `NaiveDate` range.
pub open spec fn last_year() -> int {
    262142
}

/// (y, m, d) is a calendar date in chrono's range: what
/// `NaiveDate::from_ymd_opt` accepts.
pub open spec fn valid_ymd(d: (i32, u32, u32)) -> bool {
    &&& first_year() <= d.0 <= last_year()
    &&& 1 <= d.1 <= 12
    &&& 1 <= d.2 <= days_in_month(d.0 as int, d.1 as int)
}

/// What chrono's `NaiveDate::succ_opt` gives for the date (y, m, d): the
/// next calendar date; `None` when (y, m, d) is no date or the last one.
pub open spec fn ymd_succ(d: (i32, u32, u32)) -> Option<(i32, u32, u32)> {
    if !valid_ymd(d) {
        None
    } else if (d.2 as int) < days_in_month(d.0 as int, d.1 as int) {
        Some((d.0, d.1, (d.2 + 1) as u32))
    } else if d.1 < 12 {
        Some((d.0, (d.1 + 1) as u32, 1u32))
    } else if (d.0 as int) < last_year() {
        Some(((d.0 + 1) as i32, 1u32, 1u32))
    } else {
        None
    }
}

/// What chrono's `Weekday::num_days_from_monday` gives for the weekday of
/// the date (y, m, d) (Monday 0 through Sunday 6; 1970-01-01 was a
/// Thursday); `None` when (y, m, d) is no date.
pub open spec fn ymd_weekday(d: (i32, u32, u32)) -> Option<u32> {
    if valid_ymd(d) {
        Some(((epoch_day(CalendarDate { year: d.0, month: d.1, day: d.2 }) + 3) % 7) as u32)
    } else {
        None
    }
}

/// Calls chrono's `NaiveDate::checked_sub_days` on `d`: the date `n` days
/// earlier, as `ymd_minus_days` states.
#[verifier::external_body]
fn days_before(d: CalendarDate, n: u64) -> (r: Option<CalendarDate>)
    ensures
        r == opt_date(ymd_minus_days(ymd(d), n)),
{
    let nd = chrono::NaiveDate::from_ymd_opt(d.year, d.month, d.day)?;
    let p = nd.checked_sub_days(chrono::Days::new(n))?;
    Some(CalendarDate { year: p.year(), month: p.month(), day: p.day() })
}

/// Calls chrono's `NaiveDate::succ_opt` on `d`: the next calendar date,
/// as `ymd_succ` states.
#[verifier::external_body]
fn next_day(d: CalendarDate) -> (r: Option<CalendarDate>)
    ensures
        r == opt_date(ymd_succ(ymd(d))),
{
    let nd = chrono::NaiveDate::from_ymd_opt(d.year, d.month, d.day)?;
    let p = nd.succ_opt()?;
    Some(CalendarDate { year: p.year(), month: p.month(), day: p.day() })
}

/// Calls chrono's `Weekday::num_days_from_monday` on `d`'s weekday: days
/// since the Monday of its week, as `ymd_weekday` states.
#[verifier::external_body]
fn days_from_monday(d: CalendarDate) -> (r: Option<u32>)
    ensures
        r == ymd_weekday(ymd(d)),
{
    let nd = chrono::NaiveDate::from_ymd_opt(d.year, d.month, d.day)?;
    Some(nd.weekday().num_days_from_monday())
}

/// The number of days from 1970-01-01 to `d` in the proleptic Gregorian
/// calendar (negative before it): the day count of a unix timestamp.
pub open spec fn epoch_day(d: CalendarDate) -> int {
    let y: int = if d.month <= 2 { d.year as int - 1 } else { d.year as int };
    let era = y / 400;
    let yoe = y - era * 400;
    let mp: int = if d.month > 2 { d.month as int - 3 } else { d.month as int + 9 };
    let doy = (153 * mp + 2) / 5 + d.day as int - 1;
    let doe = yoe * 365 + yoe / 4 - yoe / 100 + doy;
    era * 146097 + doe - 719468
}

/// The unix second at which `d` begins in UTC.
pub open spec fn utc_midnight(d: CalendarDate) -> int {
    epoch_day(d) * 86400
}

/// `t` is where `d` begins in some time zone: a time zone's offset from UTC
/// is less than a day either way, so local midnight lies strictly within a
/// day of UTC midnight.
pub open spec fn near_midnight(t: int, d: CalendarDate) -> bool {
    utc_midnight(d) - 86400 < t < utc_midnight(d) + 86400
}

/// Calls chrono's `Local.from_local_datetime(..).earliest()` on `d` at
/// 00:00:00: local midnight as unix seconds. Which second that is depends on
/// the machine's time zone, and a midnight that a daylight-saving change
/// skips gives `None`, so only this is claimed: the result is local 00:00
/// minus the zone's offset, which chrono keeps strictly within a day
/// (`FixedOffset` is always less than 86400 seconds either way).
/// `earliest()` keeps an ambiguous midnight usable.
#[verifier::external_body]
fn local_day_start(d: CalendarDate) -> (r: Option<i64>)
    ensures
        r matches Some(t) ==> near_midnight(t as int, d),
{
    let nd = chrono::NaiveDate::from_ymd_opt(d.year, d.month, d.day)?;
    let naive = nd.and_hms_opt(0, 0, 0)?;
    match chrono::TimeZone::from_local_datetime(&chrono::Local, &naive).earliest() {
        Some(dt) => Some(dt.timestamp()),
        None => None,
    }
}

/// The largest distance, in seconds either side of the unix epoch, at which
/// a local date is looked up: about the year 255,000, more than a day
/// inside chrono's range of dates (years -262143 through 262142), so that
/// shifting a time by its zone's offset never leaves that range.
pub const LOCAL_TIME_LIMIT: i64 = 8_000_000_000_000;

/// Calls chrono's `Local.timestamp_opt(now, 0)`: the local calendar date at
/// unix second `now`. chrono panics when the local time of `now` leaves its
/// date range, so `now` is kept more than a day inside it. Which date comes
/// back depends on the machine's time zone, so only this is claimed: `now`
/// plus the zone's offset (less than a day either way) falls on that date,
/// so `now` lies after the day before it began in UTC and before the day
/// after it ends.
#[verifier::external_body]
fn local_date_at(now: i64) -> (r: Option<CalendarDate>)
    requires
        -LOCAL_TIME_LIMIT <= now <= LOCAL_TIME_LIMIT,
    ensures
        r matches Some(d) ==> utc_midnight(d) - 86400 < now < utc_midnight(d) + 2 * 86400,
{
    match chrono::TimeZone::timestamp_opt(&chrono::Local, now, 0).single() {
        Some(dt) => {
            let d = dt.date_naive();
            Some(CalendarDate { year: d.year(), month: d.month(), day: d.day() })
        },
        None => None,
    }
}

/// The first and last calendar day a `dm:` filter covers, seen from `today`.
pub open spec fn day_span_spec(f: DateModifiedFilter, today: CalendarDate) -> Option<(CalendarDate, CalendarDate)> {
    match f {
        DateModifiedFilter::Today => Some((today, today)),
        DateModifiedFilter::Yesterday => match opt_date(ymd_minus_days(ymd(today), 1)) {
            Some(y) => Some((y, y)),
            None => None,
        },
        DateModifiedFilter::ThisWeek => match ymd_weekday(ymd(today)) {
            Some(k) => match opt_date(ymd_minus_days(ymd(today), k as u64)) {
                Some(monday) => Some((monday, today)),
                None => None,
            },
            None => None,
        },
        DateModifiedFilter::Literal(d) => Some((d, d)),
    }
}

/// The first and last calendar day `f` covers, seen from `today`: today;
/// the day before; Monday of this week through today; or the literal date.
pub fn day_span(f: DateModifiedFilter, today: CalendarDate) -> (r: Option<(CalendarDate, CalendarDate)>)
    ensures
        r == day_span_spec(f, today),
{
    match f {
        DateModifiedFilter::Today => Some((today, today)),
        DateModifiedFilter::Yesterday => match days_before(today, 1) {
            Some(y) => Some((y, y)),
            None => None,
        },
        DateModifiedFilter::ThisWeek => match days_from_monday(today) {
            Some(k) => match days_before(today, k as u64) {
                Some(monday) => Some((monday, today)),
                None => None,
            },
            None => None,
        },
        DateModifiedFilter::Literal(d) => Some((d, d)),
    }
}

/// The inclusive unix-second range from `start` up to one second before
/// `next_start`, when both are known.
pub open spec fn inclusive_range_spec(start: Option<i64>, next_start: Option<i64>) -> Option<(i64, i64)> {
    match (start, next_start) {
        (Some(s), Some(n)) => if n > i64::MIN {
            Some((s, (n - 1) as i64))
        } else {
            None
        },
        _ => None,
    }
}

/// The inclusive range `[start, next_start - 1]`, when both are known.
pub fn inclusive_range(start: Option<i64>, next_start: Option<i64>) -> (r: Option<(i64, i64)>)
    ensures
        r == inclusive_range_spec(start, next_start),
{
    match (start, next_start) {
        (Some(s), Some(n)) => if n > i64::MIN {
            Some((s, n - 1))
        } else {
            None
        },
        _ => None,
    }
}

/// `[s, e]` spans the days `f` covers seen from `today`: `s` is where its
/// first day begins and `e + 1` where the day after its last begins, each
/// in some time zone.
pub open spec fn spans_days(f: DateModifiedFilter, today: CalendarDate, s: i64, e: i64) -> bool {
    &&& day_span_spec(f, today) matches Some((first, last))
    &&& opt_date(ymd_succ(ymd(last))) matches Some(after)
    &&& near_midnight(s as int, first)
    &&& near_midnight(e + 1, after)
}

/// Resolves a `dm:` filter to an inclusive unix-second range, once per
/// search: local midnight of its first day through one second before local
/// midnight of the day after its last. Local midnight depends on the
/// machine's time zone (and may not exist on a day a daylight-saving change
/// skips it), so each bound is stated to within a day of UTC midnight.
pub fn date_range(f: DateModifiedFilter, today: CalendarDate) -> (r: Option<(i64, i64)>)
    ensures
        day_span_spec(f, today) is None ==> r is None,
        r matches Some((s, e)) ==> spans_days(f, today, s, e),
{
    let (first, last) = match day_span(f, today) {
        Some(span) => span,
        None => return None,
    };
    let after = match next_day(last) {
        Some(d) => d,
        None => return None,
    };
    let start = local_day_start(first);
    let next_start = local_day_start(after);
    inclusive_range(start, next_start)
}

/// `today` is the local date at unix second `now` in some time zone.
pub open spec fn local_today(today: CalendarDate, now: i64) -> bool {
    utc_midnight(today) - 86400 < now < utc_midnight(today) + 2 * 86400
}

/// Resolves a `dm:` filter at unix second `now`, in local time. Which day
/// `now` falls on depends on the machine's time zone, so the range is
/// stated as that of `date_range` for a day that is `now`'s local date in
/// some time zone. A `now` beyond `LOCAL_TIME_LIMIT` either side of the
/// epoch has no local date to resolve against: no range.
pub fn date_range_at(f: DateModifiedFilter, now: i64) -> (r: Option<(i64, i64)>)
    ensures
        !(-LOCAL_TIME_LIMIT <= now <= LOCAL_TIME_LIMIT) ==> r is None,
        r matches Some((s, e)) ==> exists|today: CalendarDate| local_today(today, now) && #[trigger] spans_days(f, today, s, e),
{
    if now < -LOCAL_TIME_LIMIT || now > LOCAL_TIME_LIMIT {
        return None;
    }
    match local_date_at(now) {
        Some(today) => {
            let r = date_range(f, today);
            proof {
                if let Some((s, e)) = r {
                    assert(local_today(today, now) && spans_days(f, today, s, e));
                }
            }
            r
        },
        None => None,
    }
}

// ---------------------------------------------------------------------
// Compiled queries

/// Whether `size` passes `size op bytes`.
pub open spec fn size_holds(op: SizeOp, size: u64, bytes: u64) -> bool {
    match op {
        SizeOp::Gt => size > bytes,
        SizeOp::Lt => size < bytes,
        SizeOp::Gte => size >= bytes,
        SizeOp::Lte => size <= bytes,
        SizeOp::Eq => size == bytes,
    }
}

/// Some interned extension of `arena` equals `e`.
pub open spec fn ext_known(arena: IndexArena, e: Seq<u8>) -> bool {
    exists|k: int| 0 <= k < arena.ext_count() && #[trigger] arena.ext_by_id(k) == e
}

/// Entry `i` has the extension `e`, and no earlier interned extension is
/// also `e` (in an arena that interns each extension once, the second part
/// always holds).
pub open spec fn ext_is(arena: IndexArena, e: Seq<u8>, i: int) -> bool {
    &&& arena.ext_at(i) == e
    &&& forall|j: int| 0 <= j < arena.ext_id_at(i) ==> #[trigger] arena.ext_by_id(j) != e
}

/// A compiled query as values: term bytes, negation pattern bytes, `path:`
/// pattern bytes, extension id, size filter, date range, and whether the
/// query matches nothing.
pub type CompiledView = (
    Seq<Seq<u8>>,
    Seq<Seq<u8>>,
    Option<Seq<u8>>,
    Option<u32>,
    Option<(SizeOp, u64)>,
    Option<(i64, i64)>,
    bool,
);

/// The terms of `q` as bytes.
pub open spec fn term_bytes(ts: Seq<Seq<char>>) -> Seq<Seq<u8>> {
    ts.map_values(|t: Seq<char>| utf8(t))
}

/// Every term occurs in `name`.
pub open spec fn all_contained(name: Seq<u8>, terms: Seq<Seq<u8>>) -> bool {
    forall|t: int| 0 <= t < terms.len() ==> contains(name, #[trigger] terms[t])
}

/// Some pattern of `pats` hits the entry with lowercased directory `dir`,
/// name `name` and full path `full`.
pub open spec fn any_hits(pats: Seq<Seq<u8>>, dir: Seq<u8>, name: Seq<u8>, full: Seq<u8>) -> bool {
    exists|t: int| 0 <= t < pats.len() && pattern_hits(#[trigger] pats[t], dir, name, full)
}

/// The highlight span of an entry that passed: the first term's first
/// occurrence in the lowercased name and its length, or `(0, 0)` with no
/// terms.
pub open spec fn first_span(terms: Seq<Seq<u8>>, name: Seq<u8>) -> (int, int) {
    if terms.len() == 0 {
        (0, 0)
    } else {
        match first_occurrence(name, terms[0]) {
            Some(p) => (p, terms[0].len() as int),
            None => (0, 0),
        }
    }
}

/// What the compiled query `v` answers for entry `i` of `arena`: `None` when
/// a filter rejects it, else the highlight span.
#[verifier::opaque]
pub open spec fn compiled_match(v: CompiledView, arena: IndexArena, i: int) -> Option<(int, int)> {
    let (terms, negs, path, ext_id, size, range, _) = v;
    let name = arena.name_lower_at(i);
    let dir = arena.dir_lower_at(i);
    let full = arena.full_path_lower_at(i);
    if ext_id matches Some(w) && arena.ext_id_at(i) != w {
        None
    } else if size matches Some((op, b)) && !size_holds(op, arena.size_at(i), b) {
        None
    } else if range matches Some((s, e)) && (arena.modified_at(i) < s || arena.modified_at(i) > e) {
        None
    } else if !all_contained(name, terms) {
        None
    } else if any_hits(negs, dir, name, full) {
        None
    } else if path matches Some(p) && !pattern_hits(p, dir, name, full) {
        None
    } else {
        Some(first_span(terms, name))
    }
}

/// What the query `q` means for entry `i` of `arena`, with its `dm:` filter
/// resolved to `range`: every bare term occurs in the lowercased name, no
/// negation hits the lowercased path, the `path:` pattern does, the
/// extension, size and date filters hold (a `dm:` filter that could not be
/// resolved holds for no entry); then the highlight span.
#[verifier::opaque]
pub open spec fn query_match(q: QueryView, range: Option<(i64, i64)>, arena: IndexArena, i: int) -> Option<(int, int)> {
    let (terms, negs, ext, path, size, date) = q;
    let name = arena.name_lower_at(i);
    let dir = arena.dir_lower_at(i);
    let full = arena.full_path_lower_at(i);
    let tb = term_bytes(terms);
    if ext matches Some(e) && !ext_is(arena, utf8(e), i) {
        None
    } else if size matches Some((op, b)) && !size_holds(op, arena.size_at(i), b) {
        None
    } else if date is Some && (range is None || (range matches Some((s, e)) && (arena.modified_at(i) < s
        || arena.modified_at(i) > e))) {
        None
    } else if !all_contained(name, tb) {
        None
    } else if any_hits(term_bytes(negs), dir, name, full) {
        None
    } else if path matches Some(p) && !pattern_hits(utf8(p), dir, name, full) {
        None
    } else {
        Some(first_span(tb, name))
    }
}

/// The highlight span for `name` when every term occurs in it, `None`
/// otherwise.
fn term_span(terms: &Vec<String>, name: &[u8]) -> (r: Option<(usize, usize)>)
    ensures
        r is Some <==> all_contained(name@, terms@.map_values(|t: String| utf8(t@))),
        r matches Some((s, l)) ==> (s as int, l as int) == first_span(terms@.map_values(|t: String| utf8(t@)), name@)
            && s + l <= name@.len(),
{
    let ghost tv = terms@.map_values(|t: String| utf8(t@));
    let mut first_match: Option<(usize, usize)> = None;
    let mut t: usize = 0;
    while t < terms.len()
        invariant
            tv == terms@.map_values(|t: String| utf8(t@)),
            t <= tv.len(),
            forall|j: int| 0 <= j < t ==> contains(name@, #[trigger] tv[j]),
            t == 0 ==> first_match is None,
            t > 0 ==> (first_match matches Some((s, l)) && is_first_occurrence(name@, tv[0], s as int) && l == tv[0].len()),
        decreases terms.len() - t,
    {
        let tb = terms[t].as_str().as_bytes();
        assert(tb@ == tv[t as int]);
        let found = find_bytes(name, tb);
        if found.is_none() {
            return None;
        }
        let pos = found.unwrap();
        assert(occurs_at(name@, tv[t as int], pos as int));
        if t == 0 {
            first_match = Some((pos, tb.len()));
        }
        t = t + 1;
    }
    if let Some((s, l)) = first_match {
        proof {
            crate::text::lemma_first_occurrence(name@, tv[0], s as int);
        }
    }
    match first_match {
        Some(m) => Some(m),
        None => Some((0, 0)),
    }
}

/// A `ParsedQuery` bound to one arena, ready to run.
pub struct CompiledQuery {
    terms: Vec<String>,
    negations: Vec<PathPattern>,
    path_contains: Option<PathPattern>,
    ext_id: Option<u32>,
    size_filter: Option<(SizeOp, u64)>,
    date_range: Option<(i64, i64)>,
    /// Some filter can match nothing in this arena (an `ext:` no indexed
    /// file has, or a `dm:` whose range could not be resolved); the caller
    /// skips the scan entirely.
    matches_nothing: bool,
}

impl View for CompiledQuery {
    type V = CompiledView;

    closed spec fn view(&self) -> CompiledView {
        (
            self.terms@.map_values(|t: String| utf8(t@)),
            self.negations@.map_values(|n: PathPattern| n.pattern()),
            match self.path_contains {
                Some(p) => Some(p.pattern()),
                None => None,
            },
            self.ext_id,
            self.size_filter,
            self.date_range,
            self.matches_nothing,
        )
    }
}

impl CompiledQuery {
    /// Every path pattern is compiled against `arena`.
    pub closed spec fn compiled_for(&self, arena: &IndexArena) -> bool {
        &&& forall|k: int| 0 <= k < self.negations@.len() ==> #[trigger] self.negations@[k].compiled_for(arena)
        &&& self.path_contains matches Some(p) ==> p.compiled_for(arena)
    }

    /// `v` is `q` compiled against `arena` with its `dm:` filter resolved
    /// to `range`.
    pub open spec fn compiled_from(v: CompiledView, q: QueryView, arena: IndexArena, range: Option<(i64, i64)>) -> bool {
        let nothing = (q.2 matches Some(e) && !ext_known(arena, utf8(e))) || (q.5 is Some && range is None);
        &&& v.0 == term_bytes(q.0)
        &&& v.1 == (if nothing { Seq::empty() } else { term_bytes(q.1) })
        &&& v.2 == (if nothing { None } else {
            match q.3 {
                Some(p) => Some(utf8(p)),
                None => None,
            }
        })
        &&& match q.2 {
            None => v.3 is None,
            Some(e) => match v.3 {
                Some(k) => (k as int) < arena.ext_count() && arena.ext_by_id(k as int) == utf8(e) && forall|j: int|
                    0 <= j < k ==> #[trigger] arena.ext_by_id(j) != utf8(e),
                None => !ext_known(arena, utf8(e)),
            },
        }
        &&& v.4 == q.4
        &&& v.5 == (if q.5 is Some { range } else { None })
        &&& v.6 == nothing
    }

    /// Compiles `q` against `arena` with its `dm:` filter (if any) already
    /// resolved to `range`: `ext:` becomes an interned id, the path
    /// patterns per-directory tables (only when the query can match
    /// something at all).
    pub fn compile_resolved(q: &ParsedQuery, arena: &IndexArena, range: Option<(i64, i64)>) -> (r: Self)
        requires
            arena.wf(),
        ensures
            Self::compiled_from(r@, q@, *arena, range),
            r.compiled_for(arena),
    {
        let mut matches_nothing = false;
        let ext_id = match &q.ext {
            None => None,
            Some(e) => match arena.find_ext_id(e.as_str()) {
                Some(id) => Some(id),
                None => {
                    matches_nothing = true;
                    None
                },
            },
        };
        let date_range = match q.date_modified_filter {
            None => None,
            Some(_) => {
                if range.is_none() {
                    matches_nothing = true;
                }
                range
            },
        };
        let mut negations: Vec<PathPattern> = Vec::new();
        let mut path_contains: Option<PathPattern> = None;
        if !matches_nothing {
            let mut k: usize = 0;
            while k < q.negations.len()
                invariant
                    arena.wf(),
                    k <= q.negations@.len(),
                    negations@.len() == k,
                    forall|j: int| 0 <= j < k ==> #[trigger] negations@[j].compiled_for(arena),
                    forall|j: int| 0 <= j < k ==> #[trigger] negations@[j].pattern() == utf8(q.negations@[j]@),
                decreases q.negations.len() - k,
            {
                let n = PathPattern::compile(q.negations[k].as_str(), arena);
                negations.push(n);
                k = k + 1;
            }
            path_contains = match &q.path_contains {
                Some(p) => Some(PathPattern::compile(p.as_str(), arena)),
                None => None,
            };
        }
        let mut terms: Vec<String> = Vec::new();
        let mut t: usize = 0;
        while t < q.terms.len()
            invariant
                t <= q.terms@.len(),
                terms@.len() == t,
                forall|j: int| 0 <= j < t ==> #[trigger] terms@[j]@ == q.terms@[j]@,
            decreases q.terms.len() - t,
        {
            terms.push(q.terms[t].clone());
            t = t + 1;
        }
        let r = CompiledQuery {
            terms,
            negations,
            path_contains,
            ext_id,
            size_filter: q.size_filter,
            date_range,
            matches_nothing,
        };
        proof {
            assert(r@.0 =~= term_bytes(q@.0));
            if !matches_nothing {
                assert forall|j: int| 0 <= j < r@.1.len() implies r@.1[j] == term_bytes(q@.1)[j] by {
                    assert(r.negations@[j].pattern() == utf8(q.negations@[j]@));
                    assert(q@.1[j] == q.negations@[j]@);
                }
                assert(r@.1 =~= term_bytes(q@.1));
            } else {
                assert(r@.1 =~= Seq::<Seq<u8>>::empty());
            }
            if q@.2 is Some && ext_id is None {
                let e = q@.2->0;
                assert forall|k: int| 0 <= k < arena.ext_count() implies #[trigger] arena.ext_by_id(k) != utf8(e) by {}
            }
        }
        r
    }

    /// Compiles `q` against `arena`, resolving a `dm:` filter at unix
    /// second `now` in local time. Without a `dm:` filter the result is
    /// fixed by the query and the arena. With one, the range it resolves to
    /// spans the filter's days seen from `now`'s local date, each bound to
    /// within a day of UTC midnight, as `date_range_at` states; the time
    /// zone decides the rest, and whether a range exists at all.
    pub fn compile(q: &ParsedQuery, arena: &IndexArena, now: i64) -> (r: Self)
        requires
            arena.wf(),
        ensures
            q@.5 is None ==> Self::compiled_from(r@, q@, *arena, None),
            exists|range: Option<(i64, i64)>|
                {
                    &&& Self::compiled_from(r@, q@, *arena, range)
                    &&& (range matches Some((s, e)) ==> (q@.5 matches Some(f) && exists|today: CalendarDate| local_today(today, now)
                        && #[trigger] spans_days(f, today, s, e)))
                },
            r.compiled_for(arena),
    {
        let range = match q.date_modified_filter {
            Some(f) => date_range_at(f, now),
            None => None,
        };
        Self::compile_resolved(q, arena, range)
    }

    /// Some filter can match nothing in the arena: skip the scan.
    pub fn matches_nothing(&self) -> (r: bool)
        ensures
            r == self@.6,
    {
        self.matches_nothing
    }

    /// `Some((match_start, match_len))` — a byte span into entry `i`'s
    /// lowercased name, for highlighting the first bare term — when the
    /// entry passes every filter, `None` otherwise; `(0, 0)` when there is
    /// no bare term. Filters run cheapest first.
    pub fn matches(&self, arena: &IndexArena, i: usize) -> (r: Option<(usize, usize)>)
        requires
            arena.wf(),
            self.compiled_for(arena),
            i < arena.spec_len(),
        ensures
            r == match compiled_match(self@, *arena, i as int) {
                Some((s, l)) => Some((s as usize, l as usize)),
                None => None,
            },
            r matches Some((s, l)) ==> s + l <= arena.name_lower_at(i as int).len(),
            compiled_match(self@, *arena, i as int) matches Some((s, l)) ==> 0 <= s && 0 <= l && s + l <= arena.name_lower_at(
                i as int,
            ).len(),
    {
        reveal(compiled_match);
        if let Some(want) = self.ext_id {
            if arena.ext_id(i) != want {
                return None;
            }
        }
        if let Some((op, bytes)) = self.size_filter {
            let size = arena.size(i);
            let ok = match op {
                SizeOp::Gt => size > bytes,
                SizeOp::Lt => size < bytes,
                SizeOp::Gte => size >= bytes,
                SizeOp::Lte => size <= bytes,
                SizeOp::Eq => size == bytes,
            };
            if !ok {
                return None;
            }
        }
        if let Some((start, end)) = self.date_range {
            let m = arena.modified(i);
            if m < start || m > end {
                return None;
            }
        }
        let name_lower = arena.name_lower(i);
        let first_match = match term_span(&self.terms, name_lower.as_bytes()) {
            Some(m) => m,
            None => return None,
        };
        if self.negation_hits(arena, i, name_lower) {
            return None;
        }
        if let Some(p) = &self.path_contains {
            if !p.matches(arena, i, name_lower) {
                return None;
            }
        }
        Some(first_match)
    }

    /// Whether some negation pattern hits entry `i`.
    fn negation_hits(&self, arena: &IndexArena, i: usize, name_lower: &str) -> (r: bool)
        requires
            arena.wf(),
            self.compiled_for(arena),
            i < arena.spec_len(),
            name_lower.spec_bytes() == arena.name_lower_at(i as int),
        ensures
            r == any_hits(self@.1, arena.dir_lower_at(i as int), arena.name_lower_at(i as int), arena.full_path_lower_at(i as int)),
    {
        let ghost dir = arena.dir_lower_at(i as int);
        let ghost name = arena.name_lower_at(i as int);
        let ghost full = arena.full_path_lower_at(i as int);
        let mut k: usize = 0;
        while k < self.negations.len()
            invariant
                arena.wf(),
                self.compiled_for(arena),
                i < arena.spec_len(),
                name_lower.spec_bytes() == name,
                dir == arena.dir_lower_at(i as int),
                name == arena.name_lower_at(i as int),
                full == arena.full_path_lower_at(i as int),
                self@.1.len() == self.negations@.len(),
                k <= self.negations@.len(),
                forall|j: int| 0 <= j < k ==> !pattern_hits(#[trigger] self@.1[j], dir, name, full),
            decreases self.negations.len() - k,
        {
            assert(self@.1[k as int] == self.negations@[k as int].pattern());
            if self.negations[k].matches(arena, i, name_lower) {
                return true;
            }
            k = k + 1;
        }
        false
    }
}


/// With `k` the first interned id of extension `e`, entry `i` carries the
/// id `k` exactly when it has extension `e`.
proof fn lemma_ext_id_is(arena: IndexArena, e: Seq<u8>, k: u32, i: int)
    requires
        arena.wf(),
        0 <= i < arena.spec_len(),
        (k as int) < arena.ext_count(),
        arena.ext_by_id(k as int) == e,
        forall|j: int| 0 <= j < k ==> #[trigger] arena.ext_by_id(j) != e,
    ensures
        (arena.ext_id_at(i) == k) == ext_is(arena, e, i),
{
    arena.lemma_ids_in_range(i);
    let id = arena.ext_id_at(i);
    if ext_is(arena, e, i) {
        if id < k {
            assert(arena.ext_by_id(id as int) != e);
        }
        if id > k {
            assert(arena.ext_by_id(k as int) != e);
        }
    }
}

/// What a `size:` filter does: of the entries the rest of the query admits,
/// it keeps exactly those whose size compares with the bound as its
/// operator says (`>`, `<`, `>=`, `<=`, `=`), and drops every other; the
/// highlight is unchanged. The same holds of a compiled query.
pub proof fn lemma_size_filter(
    q: QueryView,
    v: CompiledView,
    range: Option<(i64, i64)>,
    arena: IndexArena,
    i: int,
)
    ensures
        q.4 matches Some((op, b)) ==> query_match(q, range, arena, i) == (if (match op {
            SizeOp::Gt => arena.size_at(i) > b,
            SizeOp::Lt => arena.size_at(i) < b,
            SizeOp::Gte => arena.size_at(i) >= b,
            SizeOp::Lte => arena.size_at(i) <= b,
            SizeOp::Eq => arena.size_at(i) == b,
        }) {
            query_match((q.0, q.1, q.2, q.3, None, q.5), range, arena, i)
        } else {
            None
        }),
        v.4 matches Some((op, b)) ==> compiled_match(v, arena, i) == (if (match op {
            SizeOp::Gt => arena.size_at(i) > b,
            SizeOp::Lt => arena.size_at(i) < b,
            SizeOp::Gte => arena.size_at(i) >= b,
            SizeOp::Lte => arena.size_at(i) <= b,
            SizeOp::Eq => arena.size_at(i) == b,
        }) {
            compiled_match((v.0, v.1, v.2, v.3, None, v.5, v.6), arena, i)
        } else {
            None
        }),
{
    reveal(compiled_match);
    reveal(query_match);
}

/// A compiled query that can match something answers each entry exactly
/// as the query it was compiled from means.
pub proof fn lemma_compiled_match_is_query_match(
    v: CompiledView,
    q: QueryView,
    arena: IndexArena,
    range: Option<(i64, i64)>,
    i: int,
)
    requires
        arena.wf(),
        0 <= i < arena.spec_len(),
        CompiledQuery::compiled_from(v, q, arena, range),
        !v.6,
    ensures
        compiled_match(v, arena, i) == query_match(q, range, arena, i),
{
    reveal(compiled_match);
    reveal(query_match);
    if q.2 is Some {
        let e = utf8(q.2->0);
        let k = v.3->0;
        lemma_ext_id_is(arena, e, k, i);
    }
}

/// A compiled query flagged as matching nothing: no entry matches the
/// query it was compiled from.
pub proof fn lemma_matches_nothing_is_sound(
    v: CompiledView,
    q: QueryView,
    arena: IndexArena,
    range: Option<(i64, i64)>,
    i: int,
)
    requires
        arena.wf(),
        0 <= i < arena.spec_len(),
        CompiledQuery::compiled_from(v, q, arena, range),
        v.6,
    ensures
        query_match(q, range, arena, i) is None,
{
    reveal(query_match);
    arena.lemma_ids_in_range(i);
    if q.2 is Some && !ext_known(arena, utf8(q.2->0)) {
        assert(arena.ext_by_id(arena.ext_id_at(i) as int) != utf8(q.2->0));
    }
}


proof fn lemma_blank_tokens(s: Seq<char>)
    requires
        forall|i: int| 0 <= i < s.len() ==> is_ws(#[trigger] s[i]),
    ensures
        tok_run(s) == (Seq::<Seq<char>>::empty(), Seq::<char>::empty(), false),
    decreases s.len(),
{
    if s.len() > 0 {
        let d = s.drop_last();
        assert forall|i: int| 0 <= i < d.len() implies is_ws(#[trigger] d[i]) by {
            assert(d[i] == s[i]);
        }
        lemma_blank_tokens(d);
        assert(is_ws(s[s.len() - 1]));
        assert(s.last() != '"');
    }
}

/// A query of nothing but whitespace parses to the empty query, which the
/// search answers with no hits.
pub proof fn lemma_blank_query_is_empty(raw: Seq<char>)
    requires
        forall|i: int| 0 <= i < raw.len() ==> is_ws(#[trigger] raw[i]),
    ensures
        parse_query_spec(raw) == empty_query(),
{
    lemma_blank_tokens(raw);
    assert(tokens_of(raw) =~= Seq::<Seq<char>>::empty());
}

/// The span `dm:thisweek` covers ends today, like `dm:today`'s, so today is
/// always inside this week; and yesterday's span is a single day.
pub proof fn lemma_day_spans_end(today: CalendarDate)
    ensures
        day_span_spec(DateModifiedFilter::Today, today) == Some((today, today)),
        day_span_spec(DateModifiedFilter::ThisWeek, today) matches Some((_, last)) ==> last == today,
        day_span_spec(DateModifiedFilter::Yesterday, today) matches Some((first, last)) ==> first == last,
{
}

} // verus!
