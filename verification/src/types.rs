//! The packed in-memory index (`IndexArena`), its builder, and the plain
//! records exchanged with the frontend.
//!
//! Names live in one contiguous buffer addressed by an offsets array, the
//! other per-entry fields are separate columns, and parent directories and
//! extensions are interned, so a search touches as few pages as possible.
//! Full paths are not stored; they are rebuilt from `dir + '\' + name` for
//! the hits actually returned.

use vstd::prelude::*;
use vstd::string::StringSliceAdditionalSpecFns;
use vstd::utf8::{valid_utf8, is_char_boundary, decode_utf8};
use crate::text::{utf8, slice_bytes, lemma_boundary_concat, lemma_utf8_concat, lemma_utf8_ascii_char, push_char, str_eq, lower_bytes, to_lower, lemma_ascii_byte_is_boundary, lemma_boundary_after_ascii};
use vstd::hash_map::StringHashMap;

verus! {

broadcast use vstd::utf8::encode_utf8_valid_utf8, vstd::utf8::encode_utf8_decode_utf8;

/// `offs` splits `bytes` into consecutive char-aligned pieces: it starts at
/// 0, ends at the end of `bytes`, never goes down, and every offset is a
/// char boundary.
pub open spec fn offsets_ok(bytes: Seq<u8>, offs: Seq<u32>) -> bool {
    &&& offs.len() >= 1
    &&& offs[0] == 0
    &&& offs.last() == bytes.len()
    &&& forall|i: int, j: int| 0 <= i <= j < offs.len() ==> offs[i] <= offs[j]
    &&& forall|i: int| 0 <= i < offs.len() ==> is_char_boundary(bytes, offs[i] as int)
}

/// Piece `i` of `bytes` as cut by `offs`.
pub open spec fn piece(bytes: Seq<u8>, offs: Seq<u32>, i: int) -> Seq<u8> {
    bytes.subrange(offs[i] as int, offs[i + 1] as int)
}

/// The total length of pieces `0..k` of `bytes` as cut by `offs`.
pub open spec fn pieces_len(bytes: Seq<u8>, offs: Seq<u32>, k: int) -> int
    decreases k,
{
    if k <= 0 {
        0
    } else {
        pieces_len(bytes, offs, k - 1) + piece(bytes, offs, k - 1).len()
    }
}

/// The pieces before offset `k` add up to it: the cut is seamless.
proof fn lemma_pieces_len(bytes: Seq<u8>, offs: Seq<u32>, k: int)
    requires
        offsets_ok(bytes, offs),
        0 <= k < offs.len(),
    ensures
        pieces_len(bytes, offs, k) == offs[k] as int,
    decreases k,
{
    if k > 0 {
        lemma_pieces_len(bytes, offs, k - 1);
        assert(offs[k - 1] <= offs[k]);
    }
}

/// Checks `offsets_ok` at run time.
fn offsets_valid(text: &str, offs: &Vec<u32>) -> (r: bool)
    ensures
        r == offsets_ok(text.spec_bytes(), offs@),
{
    let n = offs.len();
    if n == 0 || offs[0] != 0 {
        return false;
    }
    let len = text.as_bytes().len();
    if offs[n - 1] as usize != len {
        return false;
    }
    let mut k: usize = 1;
    while k < n
        invariant
            n == offs@.len(),
            1 <= k <= n,
            forall|i: int, j: int| 0 <= i <= j < k ==> offs@[i] <= offs@[j],
        decreases n - k,
    {
        if offs[k - 1] > offs[k] {
            return false;
        }
        k = k + 1;
    }
    assert(offs@.last() == offs@[n - 1]);
    let mut k: usize = 0;
    while k < n
        invariant
            n == offs@.len(),
            k <= n,
            n >= 1,
            offs@[0] == 0,
            offs@.last() == text.spec_bytes().len(),
            forall|i: int, j: int| 0 <= i <= j < n ==> offs@[i] <= offs@[j],
            forall|i: int| 0 <= i < k ==> is_char_boundary(text.spec_bytes(), offs@[i] as int),
        decreases n - k,
    {
        if !text.is_char_boundary(offs[k] as usize) {
            return false;
        }
        k = k + 1;
    }
    true
}

/// Appends `s` to `text` and records the new end in `offs`, keeping the
/// offsets consistent and every earlier piece unchanged.
fn append_piece(text: &mut String, offs: &mut Vec<u32>, s: &str)
    requires
        offsets_ok(utf8(old(text)@), old(offs)@),
        old(offs)@.len() <= u32::MAX,
        utf8(old(text)@).len() + s.spec_bytes().len() <= u32::MAX,
    ensures
        offsets_ok(utf8(final(text)@), final(offs)@),
        utf8(final(text)@) == utf8(old(text)@) + s.spec_bytes(),
        final(offs)@ == old(offs)@.push(utf8(final(text)@).len() as u32),
        forall|k: int| 0 <= k < old(offs)@.len() - 1 ==> #[trigger] piece(utf8(final(text)@), final(offs)@, k)
            == piece(utf8(old(text)@), old(offs)@, k),
        piece(utf8(final(text)@), final(offs)@, old(offs)@.len() - 1) == s.spec_bytes(),
{
    let ghost old_bytes = utf8(text@);
    let ghost old_offs = offs@;
    text.append(s);
    proof {
        lemma_utf8_concat(old(text)@, s@);
    }
    let len = text.as_str().as_bytes().len();
    offs.push(len as u32);
    proof {
        let nb = utf8(text@);
        assert(nb == old_bytes + s.spec_bytes());
        assert forall|i: int| 0 <= i < offs@.len() implies is_char_boundary(nb, offs@[i] as int) by {
            if i < old_offs.len() {
                lemma_boundary_concat(old_bytes, s.spec_bytes(), old_offs[i] as int);
            } else {
                vstd::utf8::is_char_boundary_start_end_of_seq(nb);
            }
        }
        assert forall|k: int| 0 <= k < old_offs.len() - 1 implies #[trigger] piece(nb, offs@, k) == piece(
            old_bytes,
            old_offs,
            k,
        ) by {
            assert(offs@[k] == old_offs[k]);
            assert(offs@[k + 1] == old_offs[k + 1]);
            assert(old_offs[k + 1] <= old_offs.last());
            assert(nb.subrange(old_offs[k] as int, old_offs[k + 1] as int) =~= old_bytes.subrange(
                old_offs[k] as int,
                old_offs[k + 1] as int,
            ));
        }
        assert(piece(nb, offs@, old_offs.len() - 1) =~= s.spec_bytes());
    }
}

/// Interned string table: every string concatenated into one buffer, with
/// `offsets[i]..offsets[i + 1]` delimiting string `i` (so `offsets` always
/// has one more element than there are strings).
#[derive(Clone)]
pub struct StrTable {
    text: String,
    offsets: Vec<u32>,
}

impl StrTable {
    /// The table's text, as UTF-8 bytes.
    pub closed spec fn bytes(&self) -> Seq<u8> {
        utf8(self.text@)
    }

    /// The raw text.
    pub closed spec fn text_view(&self) -> Seq<char> {
        self.text@
    }

    /// The raw offsets.
    pub closed spec fn offsets_view(&self) -> Seq<u32> {
        self.offsets@
    }

    /// Structurally sound: the offsets cut the text into char-aligned
    /// strings, and there are at most `u32::MAX` of them so every id fits a
    /// `u32`.
    pub closed spec fn wf(&self) -> bool {
        &&& offsets_ok(self.bytes(), self.offsets@)
        &&& self.offsets@.len() <= u32::MAX + 1
    }

    /// Number of strings.
    pub closed spec fn count(&self) -> nat {
        (self.offsets@.len() - 1) as nat
    }

    /// String `i`, as bytes.
    pub closed spec fn at(&self, i: int) -> Seq<u8> {
        piece(self.bytes(), self.offsets@, i)
    }

    /// Total bytes of text.
    pub closed spec fn text_len(&self) -> nat {
        self.bytes().len()
    }

    /// Every string `0..count` is valid UTF-8.
    pub proof fn lemma_strings_valid(&self, i: int)
        requires
            self.wf(),
            0 <= i < self.count(),
        ensures
            valid_utf8(self.at(i)),
            self.at(i).len() <= self.text_len(),
    {
        let b = self.bytes();
        let (x, y) = (self.offsets@[i] as int, self.offsets@[i + 1] as int);
        crate::text::lemma_boundary_in_tail(b, x, y);
        vstd::utf8::valid_utf8_split(b.subrange(x, b.len() as int), y - x);
        assert(b.subrange(x, b.len() as int).subrange(0, y - x) =~= b.subrange(x, y));
    }

    /// An empty table.
    pub fn new() -> (r: Self)
        ensures
            r.wf(),
            r.count() == 0,
            r.text_len() == 0,
    {
        let r = StrTable { text: String::new(), offsets: vec![0] };
        proof {
            vstd::utf8::is_char_boundary_start_end_of_seq(r.bytes());
        }
        r
    }

    /// Builds a table from its raw parts, unchecked (see `is_valid`).
    pub fn from_raw_parts(text: String, offsets: Vec<u32>) -> (r: Self)
        ensures
            r.text_view() == text@,
            r.offsets_view() == offsets@,
    {
        StrTable { text, offsets }
    }

    /// Takes the table apart into its raw text and offsets.
    pub fn into_raw_parts(self) -> (r: (String, Vec<u32>))
        ensures
            r.0@ == self.text_view(),
            r.1@ == self.offsets_view(),
    {
        (self.text, self.offsets)
    }

    /// Number of strings.
    pub fn len(&self) -> (r: usize)
        requires
            self.wf(),
        ensures
            r == self.count(),
    {
        self.offsets.len() - 1
    }

    /// String `i`.
    pub fn get(&self, i: usize) -> (r: &str)
        requires
            self.wf(),
            i < self.count(),
        ensures
            r.spec_bytes() == self.at(i as int),
    {
        let a = self.offsets[i] as usize;
        let b = self.offsets[i + 1] as usize;
        let t = self.text.as_str();
        slice_bytes(t, a, b)
    }

    /// Appends `s`, returning its id.
    pub(crate) fn push(&mut self, s: &str) -> (id: u32)
        requires
            old(self).wf(),
            old(self).count() < u32::MAX,
            old(self).text_len() + s.spec_bytes().len() <= u32::MAX,
        ensures
            final(self).wf(),
            id == old(self).count(),
            final(self).count() == old(self).count() + 1,
            final(self).text_len() == old(self).text_len() + s.spec_bytes().len(),
            forall|k: int| 0 <= k < old(self).count() ==> #[trigger] final(self).at(k) == old(self).at(k),
            final(self).at(id as int) == s.spec_bytes(),
            final(self).offsets_view() == old(self).offsets_view().push(final(self).text_len() as u32),
    {
        let id = (self.offsets.len() - 1) as u32;
        append_piece(&mut self.text, &mut self.offsets, s);
        id
    }

    /// Heap bytes held: the text plus four bytes per offset.
    pub(crate) fn heap_bytes(&self) -> (r: u64)
        requires
            self.wf(),
        ensures
            r == self.text_len() + 4 * self.offsets_view().len(),
    {
        self.text.as_str().as_bytes().len() as u64 + (self.offsets.len() as u64) * 4
    }

    /// True when the offsets array is self-consistent and in bounds — used
    /// to reject a corrupt/truncated persisted index rather than letting a
    /// bad offset panic mid-search.
    pub fn is_valid(&self) -> (r: bool)
        ensures
            r == self.wf(),
    {
        if self.offsets.len() as u64 > 0x1_0000_0000u64 {
            return false;
        }
        offsets_valid(self.text.as_str(), &self.offsets)
    }
}

impl Default for StrTable {
    fn default() -> (r: Self)
        ensures
            r.wf(),
            r.count() == 0,
            r.text_len() == 0,
    {
        StrTable::new()
    }
}


/// A full path rebuilt from its directory and name: `dir + '\' + name`, or
/// the bare name when the directory is empty.
pub open spec fn join_path(dir: Seq<u8>, name: Seq<u8>) -> Seq<u8> {
    if dir.len() == 0 {
        name
    } else {
        dir + seq![0x5cu8] + name
    }
}

/// Heap accounting for one arena, surfaced to the settings UI so the
/// index's real cost is observable.
#[derive(Clone, Copy, Default)]
pub struct ArenaMemory {
    pub entries: u64,
    pub dirs: u64,
    pub exts: u64,
    pub names_lower_bytes: u64,
    pub names_bytes: u64,
    pub dir_bytes: u64,
    pub ext_bytes: u64,
    pub column_bytes: u64,
    pub total_bytes: u64,
    /// The buffers a plain term query actually reads. This — not
    /// `total_bytes` — is what governs cold-search latency.
    pub scanned_bytes: u64,
}

/// The packed index for one scan root.
///
/// Offsets are `u32`, which caps a single root's name/dir text at 4 GiB.
#[derive(Clone)]
pub struct IndexArena {
    /// All lowercased names concatenated.
    names_lower: String,
    /// `len = count + 1`; entry `i`'s lowercased name is
    /// `names_lower[name_lower_off[i]..name_lower_off[i + 1]]`.
    name_lower_off: Vec<u32>,
    /// All original-case names concatenated, with their own offsets
    /// (Unicode lowercasing is not length-preserving).
    names: String,
    name_off: Vec<u32>,
    /// Interned parent directories, original case.
    dirs: StrTable,
    /// The same directories lowercased.
    dirs_lower: StrTable,
    /// Interned lowercase extensions (no dot).
    exts: StrTable,
    dir_id: Vec<u32>,
    ext_id: Vec<u32>,
    size: Vec<u64>,
    modified: Vec<i64>,
    folder: Vec<bool>,
}

impl IndexArena {
    /// Number of entries.
    pub closed spec fn spec_len(&self) -> nat {
        self.dir_id@.len()
    }

    /// Entry `i`'s name, as bytes.
    pub closed spec fn name_at(&self, i: int) -> Seq<u8> {
        piece(utf8(self.names@), self.name_off@, i)
    }

    /// Entry `i`'s lowercased name, as bytes.
    pub closed spec fn name_lower_at(&self, i: int) -> Seq<u8> {
        piece(utf8(self.names_lower@), self.name_lower_off@, i)
    }

    /// Entry `i`'s directory id.
    pub closed spec fn dir_id_at(&self, i: int) -> u32 {
        self.dir_id@[i]
    }

    /// Entry `i`'s extension id.
    pub closed spec fn ext_id_at(&self, i: int) -> u32 {
        self.ext_id@[i]
    }

    /// Entry `i`'s size in bytes.
    pub closed spec fn size_at(&self, i: int) -> u64 {
        self.size@[i]
    }

    /// Entry `i`'s modification time (unix seconds).
    pub closed spec fn modified_at(&self, i: int) -> i64 {
        self.modified@[i]
    }

    /// Whether entry `i` is a folder.
    pub closed spec fn folder_at(&self, i: int) -> bool {
        self.folder@[i]
    }

    /// Number of interned directories.
    pub closed spec fn dir_count_spec(&self) -> nat {
        self.dirs.count()
    }

    /// Interned directory `k`, original case.
    pub closed spec fn dir_by_id(&self, k: int) -> Seq<u8> {
        self.dirs.at(k)
    }

    /// Interned directory `k`, lowercased.
    pub closed spec fn dir_lower_by_id_spec(&self, k: int) -> Seq<u8> {
        self.dirs_lower.at(k)
    }

    /// Number of interned extensions.
    pub closed spec fn ext_count(&self) -> nat {
        self.exts.count()
    }

    /// Interned extension `k`.
    pub closed spec fn ext_by_id(&self, k: int) -> Seq<u8> {
        self.exts.at(k)
    }

    /// Bytes of name text held.
    pub closed spec fn names_text_len(&self) -> nat {
        utf8(self.names@).len()
    }

    /// Bytes of lowercased name text held.
    pub closed spec fn names_lower_text_len(&self) -> nat {
        utf8(self.names_lower@).len()
    }

    /// The directory, lowercased directory and extension tables are
    /// derived from the entries as the builder derives them: lowercased
    /// directories match their directories, interned strings are distinct,
    /// lowercased names match names, and extensions follow `ext_of`.
    pub open spec fn derived(&self) -> bool {
        &&& forall|k: int| 0 <= k < self.dir_count_spec() ==> #[trigger] self.dir_lower_by_id_spec(k) == lower_bytes(self.dir_by_id(k))
        &&& forall|a: int, b: int| 0 <= a < self.dir_count_spec() && 0 <= b < self.dir_count_spec()
            && #[trigger] self.dir_by_id(a) == #[trigger] self.dir_by_id(b) ==> a == b
        &&& forall|a: int, b: int| 0 <= a < self.ext_count() && 0 <= b < self.ext_count()
            && #[trigger] self.ext_by_id(a) == #[trigger] self.ext_by_id(b) ==> a == b
        &&& forall|i: int| 0 <= i < self.spec_len() ==> #[trigger] self.name_lower_at(i) == lower_bytes(self.name_at(i))
        &&& forall|i: int| 0 <= i < self.spec_len() ==> #[trigger] self.ext_at(i) == ext_of(self.name_at(i), self.folder_at(i))
    }

    /// Every entry's directory and extension ids name interned strings.
    pub proof fn lemma_ids_in_range(&self, i: int)
        requires
            self.wf(),
            0 <= i < self.spec_len(),
        ensures
            (self.dir_id_at(i) as int) < self.dir_count_spec(),
            (self.ext_id_at(i) as int) < self.ext_count(),
    {
    }

    /// A well-formed arena holds fewer than `u32::MAX` entries.
    pub proof fn lemma_len_bound(&self)
        requires
            self.wf(),
        ensures
            self.spec_len() < u32::MAX,
    {
    }

    /// An entry's names are no longer than a `u32` can count.
    pub proof fn lemma_name_lens(&self, i: int)
        requires
            self.wf(),
            0 <= i < self.spec_len(),
        ensures
            self.name_lower_at(i).len() <= u32::MAX,
            self.name_at(i).len() <= u32::MAX,
            self.dir_at(i).len() <= u32::MAX,
    {
        assert(self.name_lower_off@[i] <= self.name_lower_off@[i + 1]);
        assert(self.name_off@[i] <= self.name_off@[i + 1]);
        let k = self.dir_id_at(i) as int;
        assert(self.dirs.offsets@[k] <= self.dirs.offsets@[k + 1]);
    }

    /// Entry `i` of `self` and entry `j` of `other` agree on every field.
    pub open spec fn same_entry(&self, i: int, other: &IndexArena, j: int) -> bool {
        &&& self.name_at(i) == other.name_at(j)
        &&& self.name_lower_at(i) == other.name_lower_at(j)
        &&& self.dir_id_at(i) == other.dir_id_at(j)
        &&& self.dir_at(i) == other.dir_at(j)
        &&& self.dir_lower_at(i) == other.dir_lower_at(j)
        &&& self.ext_id_at(i) == other.ext_id_at(j)
        &&& self.ext_at(i) == other.ext_at(j)
        &&& self.size_at(i) == other.size_at(j)
        &&& self.modified_at(i) == other.modified_at(j)
        &&& self.folder_at(i) == other.folder_at(j)
    }

    /// `self` is `old` with one entry appended for `path`: every earlier
    /// entry and interned string is unchanged, the new entry carries the
    /// path's name and parent directory and the given attributes, and the
    /// directory table grows only when the directory was not interned yet.
    pub open spec fn appended(&self, old: &IndexArena, path: Seq<u8>, folder: bool, size: u64, modified: i64) -> bool {
        let n = old.spec_len() as int;
        let dir = dir_part(path);
        &&& self.spec_len() == n + 1
        &&& forall|i: int| 0 <= i < n ==> #[trigger] self.same_entry(i, old, i)
        &&& self.name_at(n) == name_part(path)
        &&& self.dir_at(n) == dir
        &&& self.folder_at(n) == folder
        &&& self.size_at(n) == size
        &&& self.modified_at(n) == modified
        &&& forall|k: int| 0 <= k < old.dir_count_spec() ==> #[trigger] self.dir_by_id(k) == old.dir_by_id(k)
        &&& forall|k: int| 0 <= k < old.ext_count() ==> #[trigger] self.ext_by_id(k) == old.ext_by_id(k)
        &&& self.dir_count_spec() == old.dir_count_spec() + (if exists|k: int| 0 <= k < old.dir_count_spec() && old.dir_by_id(k) == dir { 0int } else { 1int })
    }

    /// Entry `i`'s directory, original case.
    pub open spec fn dir_at(&self, i: int) -> Seq<u8> {
        self.dir_by_id(self.dir_id_at(i) as int)
    }

    /// Entry `i`'s directory, lowercased.
    pub open spec fn dir_lower_at(&self, i: int) -> Seq<u8> {
        self.dir_lower_by_id_spec(self.dir_id_at(i) as int)
    }

    /// Entry `i`'s extension.
    pub open spec fn ext_at(&self, i: int) -> Seq<u8> {
        self.ext_by_id(self.ext_id_at(i) as int)
    }

    /// Entry `i`'s full path.
    pub open spec fn full_path_at(&self, i: int) -> Seq<u8> {
        join_path(self.dir_at(i), self.name_at(i))
    }

    /// Entry `i`'s lowercased full path.
    pub open spec fn full_path_lower_at(&self, i: int) -> Seq<u8> {
        join_path(self.dir_lower_at(i), self.name_lower_at(i))
    }

    /// Structurally sound: every column has one value per entry, every id
    /// is in range, every offsets array is consistent, and the entry count
    /// stays below `u32::MAX`.
    pub closed spec fn wf(&self) -> bool {
        let n = self.dir_id@.len();
        &&& self.name_lower_off@.len() == n + 1
        &&& self.name_off@.len() == n + 1
        &&& self.ext_id@.len() == n
        &&& self.size@.len() == n
        &&& self.modified@.len() == n
        &&& self.folder@.len() == n
        &&& self.dirs.count() == self.dirs_lower.count()
        &&& forall|i: int| 0 <= i < n ==> (self.dir_id@[i] as int) < self.dirs.count()
        &&& forall|i: int| 0 <= i < n ==> (self.ext_id@[i] as int) < self.exts.count()
        &&& offsets_ok(utf8(self.names_lower@), self.name_lower_off@)
        &&& offsets_ok(utf8(self.names@), self.name_off@)
        &&& self.dirs.wf()
        &&& self.dirs_lower.wf()
        &&& self.exts.wf()
        &&& n < u32::MAX
    }

    /// The raw parts, as views.
    pub closed spec fn raw_view(&self) -> (Seq<char>, Seq<u32>, Seq<char>, Seq<u32>, Seq<u32>, Seq<u32>, Seq<u64>, Seq<i64>, Seq<bool>) {
        (self.names_lower@, self.name_lower_off@, self.names@, self.name_off@, self.dir_id@, self.ext_id@, self.size@, self.modified@, self.folder@)
    }

    /// The raw directory, lowercased-directory and extension tables.
    pub closed spec fn tables(&self) -> (StrTable, StrTable, StrTable) {
        (self.dirs, self.dirs_lower, self.exts)
    }

    /// An empty arena: it still satisfies `offsets.len() == count + 1`, so
    /// the offset arrays start at `[0]`.
    pub fn new() -> (r: Self)
        ensures
            r.wf(),
            r.spec_len() == 0,
            r.dir_count_spec() == 0,
            r.ext_count() == 0,
    {
        let r = IndexArena {
            names_lower: String::new(),
            name_lower_off: vec![0],
            names: String::new(),
            name_off: vec![0],
            dirs: StrTable::new(),
            dirs_lower: StrTable::new(),
            exts: StrTable::new(),
            dir_id: Vec::new(),
            ext_id: Vec::new(),
            size: Vec::new(),
            modified: Vec::new(),
            folder: Vec::new(),
        };
        proof {
            vstd::utf8::is_char_boundary_start_end_of_seq(utf8(r.names@));
        }
        r
    }

    /// Builds an arena from its raw parts, unchecked (see `is_valid`).
    pub fn from_raw_parts(
        names_lower: String,
        name_lower_off: Vec<u32>,
        names: String,
        name_off: Vec<u32>,
        dirs: StrTable,
        dirs_lower: StrTable,
        exts: StrTable,
        dir_id: Vec<u32>,
        ext_id: Vec<u32>,
        size: Vec<u64>,
        modified: Vec<i64>,
        folder: Vec<bool>,
    ) -> (r: Self)
        ensures
            r.raw_view() == (names_lower@, name_lower_off@, names@, name_off@, dir_id@, ext_id@, size@, modified@, folder@),
            r.tables() == (dirs, dirs_lower, exts),
    {
        IndexArena {
            names_lower,
            name_lower_off,
            names,
            name_off,
            dirs,
            dirs_lower,
            exts,
            dir_id,
            ext_id,
            size,
            modified,
            folder,
        }
    }

    /// Takes the arena apart into its raw parts, in `from_raw_parts` order.
    pub fn into_raw_parts(self) -> (r: (String, Vec<u32>, String, Vec<u32>, StrTable, StrTable, StrTable, Vec<u32>, Vec<u32>, Vec<u64>, Vec<i64>, Vec<bool>))
        ensures
            (r.0@, r.1@, r.2@, r.3@, r.7@, r.8@, r.9@, r.10@, r.11@) == self.raw_view(),
            (r.4, r.5, r.6) == self.tables(),
    {
        (
            self.names_lower,
            self.name_lower_off,
            self.names,
            self.name_off,
            self.dirs,
            self.dirs_lower,
            self.exts,
            self.dir_id,
            self.ext_id,
            self.size,
            self.modified,
            self.folder,
        )
    }

    /// Number of entries.
    pub fn len(&self) -> (r: usize)
        ensures
            r == self.spec_len(),
    {
        self.dir_id.len()
    }

    /// Entry `i`'s lowercased name.
    pub fn name_lower(&self, i: usize) -> (r: &str)
        requires
            self.wf(),
            i < self.spec_len(),
        ensures
            r.spec_bytes() == self.name_lower_at(i as int),
    {
        assert(self.name_lower_off@[i as int] <= self.name_lower_off@[i + 1]);
        let a = self.name_lower_off[i] as usize;
        let b = self.name_lower_off[i + 1] as usize;
        slice_bytes(self.names_lower.as_str(), a, b)
    }

    /// Entry `i`'s name.
    pub fn name(&self, i: usize) -> (r: &str)
        requires
            self.wf(),
            i < self.spec_len(),
        ensures
            r.spec_bytes() == self.name_at(i as int),
    {
        assert(self.name_off@[i as int] <= self.name_off@[i + 1]);
        let a = self.name_off[i] as usize;
        let b = self.name_off[i + 1] as usize;
        slice_bytes(self.names.as_str(), a, b)
    }

    /// Entry `i`'s directory id.
    pub fn dir_id(&self, i: usize) -> (r: u32)
        requires
            self.wf(),
            i < self.spec_len(),
        ensures
            r == self.dir_id_at(i as int),
            (r as int) < self.dir_count_spec(),
    {
        self.dir_id[i]
    }

    /// Entry `i`'s directory, original case.
    pub fn dir(&self, i: usize) -> (r: &str)
        requires
            self.wf(),
            i < self.spec_len(),
        ensures
            r.spec_bytes() == self.dir_at(i as int),
    {
        self.dirs.get(self.dir_id[i] as usize)
    }

    /// Entry `i`'s extension (lowercase, no dot; empty for none).
    pub fn ext(&self, i: usize) -> (r: &str)
        requires
            self.wf(),
            i < self.spec_len(),
        ensures
            r.spec_bytes() == self.ext_at(i as int),
    {
        self.exts.get(self.ext_id[i] as usize)
    }

    /// Entry `i`'s extension id.
    pub fn ext_id(&self, i: usize) -> (r: u32)
        requires
            self.wf(),
            i < self.spec_len(),
        ensures
            r == self.ext_id_at(i as int),
            (r as int) < self.ext_count(),
    {
        self.ext_id[i]
    }

    /// Entry `i`'s size.
    pub fn size(&self, i: usize) -> (r: u64)
        requires
            self.wf(),
            i < self.spec_len(),
        ensures
            r == self.size_at(i as int),
    {
        self.size[i]
    }

    /// Entry `i`'s modification time.
    pub fn modified(&self, i: usize) -> (r: i64)
        requires
            self.wf(),
            i < self.spec_len(),
        ensures
            r == self.modified_at(i as int),
    {
        self.modified[i]
    }

    /// Whether entry `i` is a folder.
    pub fn folder(&self, i: usize) -> (r: bool)
        requires
            self.wf(),
            i < self.spec_len(),
        ensures
            r == self.folder_at(i as int),
    {
        self.folder[i]
    }

    /// Number of interned directories.
    pub fn dir_count(&self) -> (r: usize)
        requires
            self.wf(),
        ensures
            r == self.dir_count_spec(),
            r <= u32::MAX,
    {
        self.dirs_lower.len()
    }

    /// Interned directory `id`, lowercased.
    pub fn dir_lower_by_id(&self, id: u32) -> (r: &str)
        requires
            self.wf(),
            (id as int) < self.dir_count_spec(),
        ensures
            r.spec_bytes() == self.dir_lower_by_id_spec(id as int),
    {
        self.dirs_lower.get(id as usize)
    }

    /// Resolve a lowercase extension to its interned id: the first interned
    /// extension equal to `ext_lower`, or `None` when no indexed entry has
    /// that extension (so an `ext:` query matches nothing).
    pub fn find_ext_id(&self, ext_lower: &str) -> (r: Option<u32>)
        requires
            self.wf(),
        ensures
            match r {
                Some(k) => {
                    &&& (k as int) < self.ext_count()
                    &&& self.ext_by_id(k as int) == ext_lower.spec_bytes()
                    &&& forall|j: int| 0 <= j < k ==> self.ext_by_id(j) != ext_lower.spec_bytes()
                },
                None => forall|j: int| 0 <= j < self.ext_count() ==> self.ext_by_id(j) != ext_lower.spec_bytes(),
            },
    {
        let n = self.exts.len();
        let mut i: usize = 0;
        while i < n
            invariant
                self.wf(),
                n == self.ext_count(),
                i <= n,
                forall|j: int| 0 <= j < i ==> self.ext_by_id(j) != ext_lower.spec_bytes(),
            decreases n - i,
        {
            if str_eq(self.exts.get(i), ext_lower) {
                return Some(i as u32);
            }
            i = i + 1;
        }
        None
    }

    /// Rebuild entry `i`'s full path: `dir + '\' + name`, or the bare name
    /// when the directory is empty.
    pub fn full_path(&self, i: usize) -> (r: String)
        requires
            self.wf(),
            i < self.spec_len(),
        ensures
            utf8(r@) == self.full_path_at(i as int),
    {
        let dir = self.dir(i);
        let name = self.name(i);
        join_strs(dir, name)
    }

    /// Lowercased full path for entry `i`.
    pub fn full_path_lower(&self, i: usize) -> (r: String)
        requires
            self.wf(),
            i < self.spec_len(),
        ensures
            utf8(r@) == self.full_path_lower_at(i as int),
    {
        let dir = self.dir_lower_by_id(self.dir_id[i]);
        let name = self.name_lower(i);
        join_strs(dir, name)
    }

    /// The total length of the lowercased names of entries `0..k`.
    pub open spec fn names_lower_len(&self, k: int) -> int
        decreases k,
    {
        if k <= 0 {
            0
        } else {
            self.names_lower_len(k - 1) + self.name_lower_at(k - 1).len()
        }
    }

    /// The total length of the names of entries `0..k`.
    pub open spec fn names_len(&self, k: int) -> int
        decreases k,
    {
        if k <= 0 {
            0
        } else {
            self.names_len(k - 1) + self.name_at(k - 1).len()
        }
    }

    proof fn lemma_names_lens(&self, k: int)
        requires
            self.wf(),
            0 <= k <= self.spec_len(),
        ensures
            self.names_lower_len(k) == pieces_len(utf8(self.names_lower@), self.name_lower_off@, k),
            self.names_len(k) == pieces_len(utf8(self.names@), self.name_off@, k),
        decreases k,
    {
        if k > 0 {
            self.lemma_names_lens(k - 1);
        }
    }

    /// Exact heap accounting for this arena.
    pub fn memory(&self) -> (r: ArenaMemory)
        requires
            self.wf(),
        ensures
            r.entries == self.spec_len(),
            r.dirs == self.dir_count_spec(),
            r.exts == self.ext_count(),
            r.names_lower_bytes == utf8(self.raw_view().0).len() + 4 * (self.spec_len() + 1),
            r.names_bytes == utf8(self.raw_view().2).len() + 4 * (self.spec_len() + 1),
            r.names_lower_bytes == self.names_lower_len(self.spec_len() as int) + 4 * (self.spec_len() + 1),
            r.names_bytes == self.names_len(self.spec_len() as int) + 4 * (self.spec_len() + 1),
            r.dir_bytes == self.tables().0.text_len() + 4 * self.tables().0.offsets_view().len()
                + self.tables().1.text_len() + 4 * self.tables().1.offsets_view().len(),
            r.ext_bytes == self.tables().2.text_len() + 4 * self.tables().2.offsets_view().len(),
            r.column_bytes == 25 * self.spec_len(),
            r.total_bytes == r.names_lower_bytes + r.names_bytes + r.dir_bytes + r.ext_bytes + r.column_bytes,
            r.scanned_bytes == r.names_lower_bytes,
    {
        proof {
            self.lemma_names_lens(self.spec_len() as int);
            lemma_pieces_len(utf8(self.names_lower@), self.name_lower_off@, self.spec_len() as int);
            lemma_pieces_len(utf8(self.names@), self.name_off@, self.spec_len() as int);
        }
        let n = self.len() as u64;
        let names_lower_bytes = self.names_lower.as_str().as_bytes().len() as u64
            + (self.name_lower_off.len() as u64) * 4;
        let names_bytes = self.names.as_str().as_bytes().len() as u64 + (self.name_off.len() as u64) * 4;
        let dir_bytes = self.dirs.heap_bytes() + self.dirs_lower.heap_bytes();
        let ext_bytes = self.exts.heap_bytes();
        let column_bytes = n * 25;
        ArenaMemory {
            entries: n,
            dirs: self.dir_count() as u64,
            exts: self.exts.len() as u64,
            names_lower_bytes,
            names_bytes,
            dir_bytes,
            ext_bytes,
            column_bytes,
            total_bytes: names_lower_bytes + names_bytes + dir_bytes + ext_bytes + column_bytes,
            scanned_bytes: names_lower_bytes,
        }
    }

    /// Structural check applied to a freshly deserialized arena. A
    /// truncated or mismatched `.idx` would otherwise surface as an
    /// out-of-bounds panic on the first search.
    pub fn is_valid(&self) -> (r: bool)
        ensures
            r == self.wf(),
    {
        let n = self.len();
        if n as u64 >= 0xffff_ffffu64 {
            return false;
        }
        if self.name_lower_off.len() != n + 1 || self.name_off.len() != n + 1 {
            return false;
        }
        if self.ext_id.len() != n || self.size.len() != n || self.modified.len() != n
            || self.folder.len() != n {
            return false;
        }
        if !self.dirs.is_valid() || !self.dirs_lower.is_valid() || !self.exts.is_valid() {
            return false;
        }
        if self.dirs.len() != self.dirs_lower.len() {
            return false;
        }
        let nd = self.dirs.len();
        let mut k: usize = 0;
        while k < n
            invariant
                n == self.dir_id@.len(),
                nd == self.dirs.count(),
                k <= n,
                forall|i: int| 0 <= i < k ==> (self.dir_id@[i] as int) < nd,
            decreases n - k,
        {
            if self.dir_id[k] as usize >= nd {
                return false;
            }
            k = k + 1;
        }
        let ne = self.exts.len();
        let mut k: usize = 0;
        while k < n
            invariant
                n == self.dir_id@.len(),
                n == self.ext_id@.len(),
                ne == self.exts.count(),
                k <= n,
                forall|i: int| 0 <= i < k ==> (self.ext_id@[i] as int) < ne,
            decreases n - k,
        {
            if self.ext_id[k] as usize >= ne {
                return false;
            }
            k = k + 1;
        }
        offsets_valid(self.names_lower.as_str(), &self.name_lower_off)
            && offsets_valid(self.names.as_str(), &self.name_off)
    }
}

impl Default for IndexArena {
    fn default() -> (r: Self)
        ensures
            r.wf(),
            r.spec_len() == 0,
    {
        IndexArena::new()
    }
}

/// `dir + '\' + name`, or `name` alone when `dir` is empty.
fn join_strs(dir: &str, name: &str) -> (r: String)
    ensures
        utf8(r@) == join_path(dir.spec_bytes(), name.spec_bytes()),
{
    if dir.as_bytes().len() == 0 {
        return name.to_owned();
    }
    let mut s = dir.to_owned();
    push_char(&mut s, '\\');
    s.append(name);
    proof {
        lemma_utf8_concat(dir@, seq!['\\']);
        lemma_utf8_concat(dir@.push('\\'), name@);
        lemma_utf8_ascii_char('\\');
        assert(dir@.push('\\') =~= dir@ + seq!['\\']);
    }
    s
}


/// Index of the last byte of `b` equal to `x` or `y`, or -1.
pub open spec fn last_index_of2(b: Seq<u8>, x: u8, y: u8) -> int
    decreases b.len(),
{
    if b.len() == 0 {
        -1
    } else if b.last() == x || b.last() == y {
        b.len() - 1
    } else {
        last_index_of2(b.drop_last(), x, y)
    }
}

/// `last_index_of2` is the last matching position, or -1 when none matches.
pub proof fn lemma_last_index_of2(b: Seq<u8>, x: u8, y: u8)
    ensures
        -1 <= last_index_of2(b, x, y) < b.len(),
        last_index_of2(b, x, y) >= 0 ==> (b[last_index_of2(b, x, y)] == x || b[last_index_of2(b, x, y)] == y),
        forall|j: int| last_index_of2(b, x, y) < j < b.len() ==> !(b[j] == x || b[j] == y),
    decreases b.len(),
{
    if b.len() > 0 && !(b.last() == x || b.last() == y) {
        let c = b.drop_last();
        lemma_last_index_of2(c, x, y);
        assert forall|j: int| last_index_of2(b, x, y) < j < b.len() implies !(b[j] == x || b[j] == y) by {
            if j < b.len() - 1 {
                assert(b[j] == c[j]);
            }
        }
    }
}

/// Finds the last byte equal to `x` or `y`.
pub fn rfind2(b: &[u8], x: u8, y: u8) -> (r: Option<usize>)
    ensures
        match r {
            Some(i) => i as int == last_index_of2(b@, x, y),
            None => last_index_of2(b@, x, y) == -1,
        },
{
    proof {
        lemma_last_index_of2(b@, x, y);
    }
    let mut i = b.len();
    while i > 0
        invariant
            i <= b@.len(),
            forall|j: int| i <= j < b@.len() ==> !(b@[j] == x || b@[j] == y),
        decreases i,
    {
        if b[i - 1] == x || b[i - 1] == y {
            proof {
                lemma_last_index_of2(b@, x, y);
                let r = last_index_of2(b@, x, y);
                if r > i - 1 {
                    assert(!(b@[r] == x || b@[r] == y));
                }
                if r < i - 1 {
                    assert(!(b@[i - 1] == x || b@[i - 1] == y));
                }
            }
            return Some(i - 1);
        }
        i = i - 1;
    }
    proof {
        lemma_last_index_of2(b@, x, y);
    }
    None
}

/// Index of the last path separator in `path`, or -1.
pub open spec fn last_sep(path: Seq<u8>) -> int {
    last_index_of2(path, 0x5c, 0x2f)
}

/// The parent directory part of a path: everything before its last
/// separator, or empty when it has none.
pub open spec fn dir_part(path: Seq<u8>) -> Seq<u8> {
    if last_sep(path) >= 0 {
        path.subrange(0, last_sep(path))
    } else {
        Seq::empty()
    }
}

/// The name part of a path: everything after its last separator, or the
/// whole path when it has none.
pub open spec fn name_part(path: Seq<u8>) -> Seq<u8> {
    if last_sep(path) >= 0 {
        path.subrange(last_sep(path) + 1, path.len() as int)
    } else {
        path
    }
}

/// An entry's extension: empty for a folder; otherwise the lowercased text
/// after the name's last `.`, where a leading dot (a dotfile) does not count.
pub open spec fn ext_of(name: Seq<u8>, folder: bool) -> Seq<u8> {
    let d = last_index_of2(name, 0x2e, 0x2e);
    if folder {
        Seq::empty()
    } else if d > 0 {
        lower_bytes(name.subrange(d + 1, name.len() as int))
    } else {
        Seq::empty()
    }
}

/// `m` indexes `t`: every key maps to the id of its own string, and every
/// string of the table is a key mapped to its id.
pub open spec fn indexes(t: StrTable, m: Map<Seq<char>, u32>) -> bool {
    &&& forall|d: Seq<char>| #[trigger] m.contains_key(d) ==> (m[d] as int) < t.count() && t.at(m[d] as int) == utf8(d)
    &&& forall|k: int| 0 <= k < t.count() ==> #[trigger] m.contains_key(decode_utf8(t.at(k))) && m[decode_utf8(t.at(k))] == k
}

/// Adds `s`, which the table does not hold yet, to `table` and to the map
/// that indexes it.
fn intern(table: &mut StrTable, ids: &mut StringHashMap<u32>, s: &str) -> (id: u32)
    requires
        old(table).wf(),
        indexes(*old(table), old(ids)@),
        forall|k: int| 0 <= k < old(table).count() ==> valid_utf8(#[trigger] old(table).at(k)),
        forall|k: int| 0 <= k < old(table).count() ==> #[trigger] old(table).at(k) != s.spec_bytes(),
        old(table).count() < u32::MAX,
        old(table).text_len() + s.spec_bytes().len() <= u32::MAX,
    ensures
        final(table).wf(),
        indexes(*final(table), final(ids)@),
        forall|k: int| 0 <= k < final(table).count() ==> valid_utf8(#[trigger] final(table).at(k)),
        id == old(table).count(),
        final(table).count() == old(table).count() + 1,
        forall|k: int| 0 <= k < old(table).count() ==> #[trigger] final(table).at(k) == old(table).at(k),
        final(table).at(id as int) == s.spec_bytes(),
{
    let ghost t0 = *table;
    let ghost m0 = ids@;
    let id = table.push(s);
    ids.insert(s.to_owned(), id);
    proof {
        let t1 = *table;
        let m1 = ids@;
        assert(m1 == m0.insert(s@, id));
        assert forall|d: Seq<char>| #[trigger] m1.contains_key(d) implies (m1[d] as int) < t1.count() && t1.at(m1[d] as int) == utf8(d) by {
            if d != s@ {
                assert(m0.contains_key(d));
                assert(t1.at(m0[d] as int) == t0.at(m0[d] as int));
            }
        }
        assert forall|k: int| 0 <= k < t1.count() implies #[trigger] m1.contains_key(decode_utf8(t1.at(k))) && m1[decode_utf8(t1.at(k))] == k by {
            if k < t0.count() {
                assert(t1.at(k) == t0.at(k));
                assert(m0.contains_key(decode_utf8(t0.at(k))));
                if decode_utf8(t0.at(k)) == s@ {
                    assert(t0.at(k) == s.spec_bytes());
                }
            }
        }
    }
    id
}

/// Splits a path at its last separator into (parent directory, name).
pub fn split_path(path: &str) -> (r: (&str, &str))
    ensures
        r.0.spec_bytes() == dir_part(path.spec_bytes()),
        r.1.spec_bytes() == name_part(path.spec_bytes()),
{
    let ghost pbytes = path.spec_bytes();
    let pb = path.as_bytes();
    let plen = pb.len();
    let sep = rfind2(pb, 0x5c, 0x2f);
    proof {
        lemma_last_index_of2(pbytes, 0x5c, 0x2f);
        vstd::utf8::is_char_boundary_start_end_of_seq(pbytes);
    }
    match sep {
        Some(i) => {
            proof {
                assert(i < plen);
                lemma_ascii_byte_is_boundary(pbytes, i as int);
                lemma_boundary_after_ascii(pbytes, i as int);
            }
            (slice_bytes(path, 0, i), slice_bytes(path, i + 1, plen))
        },
        None => {
            proof {
                assert(pbytes.subrange(0, pbytes.len() as int) =~= pbytes);
                assert(pbytes.subrange(0, 0) =~= Seq::<u8>::empty());
            }
            (slice_bytes(path, 0, 0), slice_bytes(path, 0, plen))
        },
    }
}

/// The extension of an entry named `name`, as `ext_of` defines it.
fn ext_string(name: &str, folder: bool) -> (r: String)
    ensures
        utf8(r@) == ext_of(name.spec_bytes(), folder),
{
    let ghost nbytes = name.spec_bytes();
    if folder {
        return String::new();
    }
    let nb = name.as_bytes();
    let nlen = nb.len();
    match rfind2(nb, 0x2e, 0x2e) {
        Some(i) => {
            if i > 0 {
                proof {
                    lemma_last_index_of2(nbytes, 0x2e, 0x2e);
                    assert(i < nlen);
                    lemma_boundary_after_ascii(nbytes, i as int);
                    vstd::utf8::is_char_boundary_start_end_of_seq(nbytes);
                }
                let tail = slice_bytes(name, i + 1, nlen);
                to_lower(tail)
            } else {
                String::new()
            }
        },
        None => String::new(),
    }
}

/// What `push` establishes of the arena once every column has grown: the
/// result is derived and is the old arena with the new entry appended.
proof fn lemma_push_post(a0: IndexArena, a1: IndexArena, path: Seq<u8>, folder: bool, size: u64, modified: i64)
    requires
        a0.wf(),
        a0.derived(),
        a1.wf(),
        a1.spec_len() == a0.spec_len() + 1,
        a1.dirs.count() >= a0.dirs.count(),
        a1.exts.count() >= a0.exts.count(),
        forall|k: int| 0 <= k < a0.dirs.count() ==> #[trigger] a1.dirs.at(k) == a0.dirs.at(k),
        forall|k: int| 0 <= k < a0.dirs.count() ==> #[trigger] a1.dirs_lower.at(k) == a0.dirs_lower.at(k),
        forall|k: int| 0 <= k < a0.exts.count() ==> #[trigger] a1.exts.at(k) == a0.exts.at(k),
        forall|k: int| a0.dirs.count() <= k < a1.dirs.count() ==> #[trigger] a1.dirs_lower.at(k) == lower_bytes(a1.dirs.at(k)),
        a1.dirs.count() <= a0.dirs.count() + 1,
        a1.dirs.count() == a0.dirs.count() + 1 ==> a1.dirs.at(a0.dirs.count() as int) == dir_part(path)
            && forall|k: int| 0 <= k < a0.dirs.count() ==> a0.dirs.at(k) != dir_part(path),
        a1.dirs.count() == a0.dirs.count() ==> exists|k: int| 0 <= k < a0.dirs.count() && a0.dirs.at(k) == dir_part(path),
        forall|i: int| 0 <= i < a0.spec_len() ==> #[trigger] a1.name_at(i) == a0.name_at(i),
        forall|i: int| 0 <= i < a0.spec_len() ==> #[trigger] a1.name_lower_at(i) == a0.name_lower_at(i),
        forall|i: int| 0 <= i < a0.spec_len() ==> #[trigger] a1.dir_id_at(i) == a0.dir_id_at(i),
        forall|i: int| 0 <= i < a0.spec_len() ==> #[trigger] a1.ext_id_at(i) == a0.ext_id_at(i),
        forall|i: int| 0 <= i < a0.spec_len() ==> #[trigger] a1.size_at(i) == a0.size_at(i),
        forall|i: int| 0 <= i < a0.spec_len() ==> #[trigger] a1.modified_at(i) == a0.modified_at(i),
        forall|i: int| 0 <= i < a0.spec_len() ==> #[trigger] a1.folder_at(i) == a0.folder_at(i),
        a1.name_at(a0.spec_len() as int) == name_part(path),
        a1.name_lower_at(a0.spec_len() as int) == lower_bytes(name_part(path)),
        a1.dir_at(a0.spec_len() as int) == dir_part(path),
        a1.ext_at(a0.spec_len() as int) == ext_of(name_part(path), folder),
        a1.folder_at(a0.spec_len() as int) == folder,
        a1.size_at(a0.spec_len() as int) == size,
        a1.modified_at(a0.spec_len() as int) == modified,
        forall|a: int, b: int| 0 <= a < a1.dir_count_spec() && 0 <= b < a1.dir_count_spec()
            && #[trigger] a1.dir_by_id(a) == #[trigger] a1.dir_by_id(b) ==> a == b,
        forall|a: int, b: int| 0 <= a < a1.ext_count() && 0 <= b < a1.ext_count()
            && #[trigger] a1.ext_by_id(a) == #[trigger] a1.ext_by_id(b) ==> a == b,
    ensures
        a1.derived(),
        a1.appended(&a0, path, folder, size, modified),
{
    let n0 = a0.spec_len() as int;
    assert forall|k: int| 0 <= k < a1.dir_count_spec() implies #[trigger] a1.dir_lower_by_id_spec(k) == lower_bytes(a1.dir_by_id(k)) by {
        if k < a0.dir_count_spec() {
            assert(a0.dir_lower_by_id_spec(k) == lower_bytes(a0.dir_by_id(k)));
        }
    }
    assert forall|i: int| 0 <= i < a1.spec_len() implies #[trigger] a1.name_lower_at(i) == lower_bytes(a1.name_at(i)) by {
        if i < n0 {
            assert(a0.name_lower_at(i) == lower_bytes(a0.name_at(i)));
        }
    }
    assert forall|i: int| 0 <= i < a1.spec_len() implies #[trigger] a1.ext_at(i) == ext_of(a1.name_at(i), a1.folder_at(i)) by {
        if i < n0 {
            assert(a0.ext_at(i) == ext_of(a0.name_at(i), a0.folder_at(i)));
        }
    }
    assert forall|i: int| 0 <= i < n0 implies #[trigger] a1.same_entry(i, &a0, i) by {
        assert(a1.dir_id_at(i) == a0.dir_id_at(i));
        assert((a0.dir_id_at(i) as int) < a0.dirs.count());
        assert((a0.ext_id_at(i) as int) < a0.exts.count());
    }
    assert(forall|k: int| 0 <= k < a0.dir_count_spec() ==> #[trigger] a1.dir_by_id(k) == a0.dir_by_id(k));
    assert(forall|k: int| 0 <= k < a0.ext_count() ==> #[trigger] a1.ext_by_id(k) == a0.ext_by_id(k));
    let dir = dir_part(path);
    if exists|k: int| 0 <= k < a0.dir_count_spec() && a0.dir_by_id(k) == dir {
        let k = choose|k: int| 0 <= k < a0.dir_count_spec() && a0.dir_by_id(k) == dir;
        if a1.dirs.count() == a0.dirs.count() + 1 {
            assert(a0.dirs.at(k) != dir);
        }
        assert(a1.dir_count_spec() == a0.dir_count_spec());
    } else {
        assert(a1.dir_count_spec() == a0.dir_count_spec() + 1);
    }
}

/// A table indexed by a map holds each string once.
pub proof fn lemma_indexes_distinct(t: StrTable, m: Map<Seq<char>, u32>)
    requires
        indexes(t, m),
    ensures
        forall|a: int, b: int| 0 <= a < t.count() && 0 <= b < t.count() && #[trigger] t.at(a) == #[trigger] t.at(b) ==> a == b,
{
    assert forall|a: int, b: int| 0 <= a < t.count() && 0 <= b < t.count() && #[trigger] t.at(a) == #[trigger] t.at(b) implies a == b by {
        assert(m.contains_key(decode_utf8(t.at(a))));
        assert(m.contains_key(decode_utf8(t.at(b))));
    }
}

/// Accumulates an `IndexArena` during a walk. Kept separate from the arena
/// so the interning maps — large and useless afterwards — are dropped once
/// the walk finishes.
pub struct ArenaBuilder {
    arena: IndexArena,
    dir_ids: StringHashMap<u32>,
    ext_ids: StringHashMap<u32>,
    /// Walks yield depth-first, so consecutive entries almost always share
    /// a parent; caching the last one skips the map lookup for most pushes.
    last_dir: Option<(String, u32)>,
}

impl ArenaBuilder {
    /// The arena built so far.
    pub closed spec fn built(&self) -> IndexArena {
        self.arena
    }

    /// The builder's invariant: a sound, derived arena whose interning maps
    /// index its directory and extension tables.
    pub closed spec fn inv(&self) -> bool {
        &&& self.arena.wf()
        &&& self.arena.derived()
        &&& indexes(self.arena.dirs, self.dir_ids@)
        &&& indexes(self.arena.exts, self.ext_ids@)
        &&& forall|k: int| 0 <= k < self.arena.dirs.count() ==> valid_utf8(#[trigger] self.arena.dirs.at(k))
        &&& forall|k: int| 0 <= k < self.arena.exts.count() ==> valid_utf8(#[trigger] self.arena.exts.at(k))
        &&& match self.last_dir {
            Some((d, id)) => (id as int) < self.arena.dirs.count() && self.arena.dirs.at(id as int) == utf8(d@),
            None => true,
        }
    }

    /// Whether `push(path, folder, ..)` fits the `u32` offsets and ids:
    /// every text buffer stays within 4 GiB and every count below
    /// `u32::MAX`.
    pub open spec fn has_room(&self, path: Seq<u8>, folder: bool) -> bool {
        let a = self.built();
        let dir = dir_part(path);
        let name = name_part(path);
        let ext = ext_of(name, folder);
        let dir_new = forall|k: int| 0 <= k < a.dir_count_spec() ==> a.dir_by_id(k) != dir;
        let ext_new = forall|k: int| 0 <= k < a.ext_count() ==> a.ext_by_id(k) != ext;
        &&& a.spec_len() + 1 < u32::MAX
        &&& a.names_text_len() + name.len() <= u32::MAX
        &&& a.names_lower_text_len() + lower_bytes(name).len() <= u32::MAX
        &&& dir_new ==> {
            &&& a.dir_count_spec() + 1 < u32::MAX
            &&& a.tables().0.text_len() + dir.len() <= u32::MAX
            &&& a.tables().1.text_len() + lower_bytes(dir).len() <= u32::MAX
        }
        &&& ext_new ==> {
            &&& a.ext_count() + 1 < u32::MAX
            &&& a.tables().2.text_len() + ext.len() <= u32::MAX
        }
    }

    /// An empty builder.
    pub fn new() -> (r: Self)
        ensures
            r.inv(),
            r.built().spec_len() == 0,
            r.built().dir_count_spec() == 0,
            r.built().ext_count() == 0,
    {
        let r = ArenaBuilder {
            arena: IndexArena::new(),
            dir_ids: StringHashMap::new(),
            ext_ids: StringHashMap::new(),
            last_dir: None,
        };
        r
    }

    /// An empty builder whose columns are pre-sized for `entries` entries.
    pub fn with_capacity(entries: usize) -> (r: Self)
        ensures
            r.inv(),
            r.built().spec_len() == 0,
            r.built().dir_count_spec() == 0,
            r.built().ext_count() == 0,
    {
        let mut b = Self::new();
        b.arena.name_lower_off.reserve(entries);
        b.arena.name_off.reserve(entries);
        b.arena.dir_id.reserve(entries);
        b.arena.ext_id.reserve(entries);
        b.arena.size.reserve(entries);
        b.arena.modified.reserve(entries);
        b.arena.folder.reserve(entries);
        b
    }

    /// Looks `dir` up: the cached last directory first, else the map.
    fn lookup_dir(&self, dir: &str) -> (r: Option<u32>)
        requires
            self.inv(),
        ensures
            match r {
                Some(id) => (id as int) < self.arena.dir_count_spec() && self.arena.dir_by_id(id as int) == dir.spec_bytes(),
                None => forall|k: int| 0 <= k < self.arena.dir_count_spec() ==> self.arena.dir_by_id(k) != dir.spec_bytes(),
            },
    {
        match &self.last_dir {
            Some((d, id)) => {
                if str_eq(d.as_str(), dir) {
                    return Some(*id);
                }
            },
            None => {},
        }
        match self.dir_ids.get(dir) {
            Some(id) => Some(*id),
            None => {
                proof {
                    assert forall|k: int| 0 <= k < self.arena.dir_count_spec() implies self.arena.dir_by_id(k) != dir.spec_bytes() by {
                        if self.arena.dirs.at(k) == dir.spec_bytes() {
                            assert(self.dir_ids@.contains_key(decode_utf8(self.arena.dirs.at(k))));
                        }
                    }
                }
                None
            },
        }
    }

    /// Looks an extension up in the map.
    fn lookup_ext(&self, ext: &str) -> (r: Option<u32>)
        requires
            self.inv(),
        ensures
            match r {
                Some(id) => (id as int) < self.arena.ext_count() && self.arena.ext_by_id(id as int) == ext.spec_bytes(),
                None => forall|k: int| 0 <= k < self.arena.ext_count() ==> self.arena.ext_by_id(k) != ext.spec_bytes(),
            },
    {
        match self.ext_ids.get(ext) {
            Some(id) => Some(*id),
            None => {
                proof {
                    assert forall|k: int| 0 <= k < self.arena.ext_count() implies self.arena.ext_by_id(k) != ext.spec_bytes() by {
                        if self.arena.exts.at(k) == ext.spec_bytes() {
                            assert(self.ext_ids@.contains_key(decode_utf8(self.arena.exts.at(k))));
                        }
                    }
                }
                None
            },
        }
    }

    /// Whether the entry for `path` fits, given the pieces `push` derived
    /// for it.
    fn room_for(
        &self,
        Ghost(path): Ghost<Seq<u8>>,
        folder: bool,
        dir: &str,
        dir_lower: &Option<String>,
        name: &str,
        name_lower: &str,
        ext: &str,
        ext_new: bool,
    ) -> (r: bool)
        requires
            self.inv(),
            dir.spec_bytes() == dir_part(path),
            name.spec_bytes() == name_part(path),
            name_lower.spec_bytes() == lower_bytes(name_part(path)),
            ext.spec_bytes() == ext_of(name_part(path), folder),
            dir_lower is Some ==> utf8(dir_lower->0@) == lower_bytes(dir_part(path)),
            (dir_lower is Some) == (forall|k: int| 0 <= k < self.arena.dir_count_spec() ==> self.arena.dir_by_id(k) != dir_part(path)),
            ext_new == (forall|k: int| 0 <= k < self.arena.ext_count() ==> self.arena.ext_by_id(k) != ext_of(name_part(path), folder)),
        ensures
            r == self.has_room(path, folder),
    {
        let limit: u64 = 0xffff_ffff;
        let n = self.arena.dir_id.len() as u64;
        if n + 1 >= limit {
            return false;
        }
        let names_len = self.arena.names.as_str().as_bytes().len() as u64;
        if name.as_bytes().len() as u64 > limit - names_len {
            return false;
        }
        let names_lower_len = self.arena.names_lower.as_str().as_bytes().len() as u64;
        if name_lower.as_bytes().len() as u64 > limit - names_lower_len {
            return false;
        }
        match dir_lower {
            Some(dl) => {
                if self.arena.dirs.offsets.len() as u64 >= limit {
                    return false;
                }
                let dlen = self.arena.dirs.text.as_str().as_bytes().len() as u64;
                if dir.as_bytes().len() as u64 > limit - dlen {
                    return false;
                }
                let dllen = self.arena.dirs_lower.text.as_str().as_bytes().len() as u64;
                if dl.as_str().as_bytes().len() as u64 > limit - dllen {
                    return false;
                }
            },
            None => {},
        }
        if ext_new {
            if self.arena.exts.offsets.len() as u64 >= limit {
                return false;
            }
            let elen = self.arena.exts.text.as_str().as_bytes().len() as u64;
            if ext.as_bytes().len() as u64 > limit - elen {
                return false;
            }
        }
        proof {
            let a = self.arena;
            assert(a.spec_len() + 1 < u32::MAX);
            assert(a.names_text_len() + name_part(path).len() <= u32::MAX);
            assert(a.names_lower_text_len() + lower_bytes(name_part(path)).len() <= u32::MAX);
            assert(a.tables().0 == a.dirs);
            let dir = dir_part(path);
            let ext = ext_of(name_part(path), folder);
            let dir_new = forall|k: int| 0 <= k < a.dir_count_spec() ==> a.dir_by_id(k) != dir;
            let ext_new2 = forall|k: int| 0 <= k < a.ext_count() ==> a.ext_by_id(k) != ext;
            assert(dir_new == (dir_lower is Some));
            assert(ext_new2 == ext_new);
            if dir_new {
                assert(a.dir_count_spec() + 1 < u32::MAX);
                assert(a.tables().0.text_len() + dir.len() <= u32::MAX);
                assert(a.tables().1.text_len() + lower_bytes(dir).len() <= u32::MAX);
            }
            if ext_new2 {
                assert(a.ext_count() + 1 < u32::MAX);
                assert(a.tables().2.text_len() + ext.len() <= u32::MAX);
            }
            assert(self.has_room(path, folder));
        }
        true
    }

    /// Append one entry, deriving name / parent directory / extension from
    /// `path`: the name is what follows the last `\` or `/`, the directory
    /// what precedes it (interned), and the extension is `ext_of` the name.
    /// Returns false, leaving the builder unchanged, exactly when the entry
    /// would not fit the arena's `u32` offsets and ids (see `has_room`).
    #[verifier::rlimit(100)]
    #[verifier::spinoff_prover]
    pub fn push(&mut self, path: &str, folder: bool, size: u64, modified: i64) -> (pushed: bool)
        requires
            old(self).inv(),
        ensures
            final(self).inv(),
            pushed == old(self).has_room(path.spec_bytes(), folder),
            !pushed ==> final(self).built() == old(self).built(),
            pushed ==> final(self).built().appended(&old(self).built(), path.spec_bytes(), folder, size, modified),
    {
        let ghost pbytes = path.spec_bytes();
        let (dir, name) = split_path(path);
        let ghost a0 = self.arena;
        let existing = self.lookup_dir(dir);
        let dir_lower: Option<String> = match existing {
            Some(_) => None,
            None => Some(to_lower(dir)),
        };
        let ext_owned = ext_string(name, folder);
        let ext_existing = self.lookup_ext(ext_owned.as_str());
        proof {
            if ext_existing is None {
                assert forall|k: int| 0 <= k < a0.exts.count() implies #[trigger] a0.exts.at(k) != utf8(ext_owned@) by {
                    assert(a0.ext_by_id(k) == a0.exts.at(k));
                }
            }
        }
        let name_lower = to_lower(name);
        let room = self.room_for(
            Ghost(pbytes),
            folder,
            dir,
            &dir_lower,
            name,
            name_lower.as_str(),
            ext_owned.as_str(),
            ext_existing.is_none(),
        );
        if !room {
            return false;
        }
        let dir_id = match dir_lower {
            Some(dl) => {
                proof {
                    assert forall|k: int| 0 <= k < self.arena.dirs.count() implies #[trigger] self.arena.dirs.at(k) != dir.spec_bytes() by {
                        assert(self.arena.dir_by_id(k) == self.arena.dirs.at(k));
                    }
                }
                let id = intern(&mut self.arena.dirs, &mut self.dir_ids, dir);
                let _ = self.arena.dirs_lower.push(dl.as_str());
                id
            },
            None => match existing {
                Some(id) => id,
                None => 0,
            },
        };
        self.last_dir = Some((dir.to_owned(), dir_id));
        let ext_id = match ext_existing {
            Some(id) => id,
            None => {
                proof {
                    assert(self.arena.exts == a0.exts);
                }
                intern(&mut self.arena.exts, &mut self.ext_ids, ext_owned.as_str())
            },
        };
        let ghost a_mid = self.arena;
        append_piece(&mut self.arena.names, &mut self.arena.name_off, name);
        append_piece(&mut self.arena.names_lower, &mut self.arena.name_lower_off, name_lower.as_str());
        self.arena.dir_id.push(dir_id);
        self.arena.ext_id.push(ext_id);
        self.arena.size.push(size);
        self.arena.modified.push(modified);
        self.arena.folder.push(folder);
        proof {
            lemma_indexes_distinct(self.arena.dirs, self.dir_ids@);
            lemma_indexes_distinct(self.arena.exts, self.ext_ids@);
            lemma_push_post(a0, self.arena, pbytes, folder, size, modified);
        }
        true
    }

    /// The finished arena.
    pub fn finish(self) -> (r: IndexArena)
        requires
            self.inv(),
        ensures
            r == self.built(),
            r.wf(),
            r.derived(),
    {
        self.arena
    }
}


/// Where one root's scan stands.
#[derive(Debug, Clone, Copy, PartialEq, Eq, Structural)]
pub enum RootScanState {
    Pending,
    Scanning,
    Done,
    /// A drive root that couldn't be opened at all (e.g. needs elevation).
    SkippedNoAccess,
    /// A non-drive root (custom folder / UNC file server) that couldn't be
    /// reached this session; its previously persisted entries keep serving.
    Offline,
}

/// One root's scan status, as the UI shows it.
pub struct RootIndexStatus {
    /// Root path in its canonical form: "C:" for drives, or the full folder
    /// / UNC path for custom roots.
    pub root: String,
    /// Volume label for drives, last path component for custom roots.
    pub label: String,
    pub state: RootScanState,
    /// Running count while `state == Scanning`; final count once `Done`.
    pub scanned_count: u64,
    pub is_drive: bool,
    /// This session serves entries loaded from the persisted index.
    pub loaded_from_disk: bool,
    /// Subtrees the last walk couldn't read and skipped whole.
    pub skipped_dirs: u64,
    /// A few example paths from `skipped_dirs`.
    pub skipped_samples: Vec<String>,
}

/// A status as values.
pub type StatusView = (Seq<char>, Seq<char>, RootScanState, u64, bool, bool, u64, Seq<Seq<char>>);

impl View for RootIndexStatus {
    type V = StatusView;

    open spec fn view(&self) -> StatusView {
        (
            self.root@,
            self.label@,
            self.state,
            self.scanned_count,
            self.is_drive,
            self.loaded_from_disk,
            self.skipped_dirs,
            self.skipped_samples@.map_values(|s: String| s@),
        )
    }
}

/// Clones a list of strings.
pub fn clone_strings(v: &Vec<String>) -> (r: Vec<String>)
    ensures
        r@.map_values(|s: String| s@) == v@.map_values(|s: String| s@),
{
    let mut r: Vec<String> = Vec::new();
    let mut i: usize = 0;
    while i < v.len()
        invariant
            i <= v@.len(),
            r@.len() == i,
            forall|j: int| 0 <= j < i ==> #[trigger] r@[j]@ == v@[j]@,
        decreases v.len() - i,
    {
        r.push(v[i].clone());
        i = i + 1;
    }
    assert(r@.map_values(|s: String| s@) =~= v@.map_values(|s: String| s@));
    r
}

impl Clone for RootIndexStatus {
    fn clone(&self) -> (r: Self)
        ensures
            r@ == self@,
    {
        RootIndexStatus {
            root: self.root.clone(),
            label: self.label.clone(),
            state: self.state,
            scanned_count: self.scanned_count,
            is_drive: self.is_drive,
            loaded_from_disk: self.loaded_from_disk,
            skipped_dirs: self.skipped_dirs,
            skipped_samples: clone_strings(&self.skipped_samples),
        }
    }
}

/// The column a sorted search orders by.
#[derive(Debug, Clone, Copy, PartialEq, Eq, Structural)]
pub enum SortColumn {
    Name,
    Path,
    Size,
    Modified,
}

/// How a search sorts its hits.
#[derive(Debug, Clone, Copy, PartialEq, Eq, Structural)]
pub struct SortSpec {
    pub column: SortColumn,
    pub descending: bool,
}

/// One search hit.
pub struct SearchHit {
    pub name: String,
    pub path: String,
    pub dir: String,
    pub folder: bool,
    pub ext: String,
    pub size: u64,
    pub modified: i64,
    /// UTF-16 offset into `name` where the first bare-term match begins;
    /// `0` with `match_len: 0` when the query has no bare terms.
    pub match_start: usize,
    pub match_len: usize,
}

/// A hit as values: name, path, directory and extension as bytes, then
/// folder flag, size, modification time and the UTF-16 highlight span.
pub type HitView = (Seq<u8>, Seq<u8>, Seq<u8>, bool, Seq<u8>, u64, i64, usize, usize);

impl View for SearchHit {
    type V = HitView;

    open spec fn view(&self) -> HitView {
        (
            utf8(self.name@),
            utf8(self.path@),
            utf8(self.dir@),
            self.folder,
            utf8(self.ext@),
            self.size,
            self.modified,
            self.match_start,
            self.match_len,
        )
    }
}

/// What a search answers.
pub struct SearchResponse {
    /// Capped at the caller's `limit`.
    pub hits: Vec<SearchHit>,
    /// Full count of matches, independent of the cap.
    pub total_matched: u64,
    /// Size of the whole index (for the footer's "N / M" display).
    pub total_indexed: u64,
}


/// A path rebuilt from its directory and name parts is the path itself,
/// for every path whose last separator (if any) is a `\` that does not
/// start it.
pub proof fn lemma_path_parts_rejoin(path: Seq<u8>)
    requires
        last_sep(path) != 0,
        last_sep(path) > 0 ==> path[last_sep(path)] == 0x5c,
    ensures
        join_path(dir_part(path), name_part(path)) == path,
{
    lemma_last_index_of2(path, 0x5c, 0x2f);
    let k = last_sep(path);
    if k > 0 {
        assert(path.subrange(0, k) + seq![0x5cu8] + path.subrange(k + 1, path.len() as int) =~= path);
    }
}

/// An entry pushed for `path` reports `path` back as its full path, for
/// every path whose last separator (if any) is a `\` that does not start
/// it.
pub proof fn lemma_pushed_full_path(a: IndexArena, old: IndexArena, path: Seq<u8>, folder: bool, size: u64, modified: i64)
    requires
        a.appended(&old, path, folder, size, modified),
        last_sep(path) != 0,
        last_sep(path) > 0 ==> path[last_sep(path)] == 0x5c,
    ensures
        a.full_path_at(old.spec_len() as int) == path,
{
    lemma_path_parts_rejoin(path);
}

} // verus!
