//! The pure parts of the on-disk index: where a root's index file is
//! named, and which loaded files are accepted. Reading and writing the
//! files (and their bincode payload) lives with the application.
//!
//! One file per root, `<sanitized>_<fnv8>.idx`, holding 6 magic bytes and
//! then `(version: u32, root: String, IndexArena)`.

use vstd::prelude::*;
use vstd::string::StringSliceAdditionalSpecFns;
use crate::text::{utf8, to_lower, lower, push_char, to_chars, trim_end_separators, trim_end_seps, str_eq};
use crate::types::IndexArena;
use vstd::utf8::decode_utf8;

verus! {

broadcast use vstd::utf8::encode_utf8_valid_utf8, vstd::utf8::encode_utf8_decode_utf8;

/// The on-disk format version.
pub const INDEX_VERSION: u32 = 2;

/// The magic bytes every index file starts with: `FFIDX2`.
pub fn index_magic() -> (r: [u8; 6])
    ensures
        r@ == seq![0x46u8, 0x46, 0x49, 0x44, 0x58, 0x32],
{
    [0x46u8, 0x46, 0x49, 0x44, 0x58, 0x32]
}

/// FNV-1a (32-bit) of a byte string: start from `0x811c9dc5`, and for each
/// byte xor it in and multiply by `0x01000193`, wrapping.
pub open spec fn fnv1a_spec(b: Seq<u8>) -> u32
    decreases b.len(),
{
    if b.len() == 0 {
        0x811c_9dc5
    } else {
        (fnv1a_spec(b.drop_last()) ^ (b.last() as u32)).wrapping_mul(0x0100_0193)
    }
}

/// FNV-1a (32-bit) over the normalized root — a stable, dependency-free
/// hash, usable for on-disk file names.
pub fn fnv1a(s: &str) -> (r: u32)
    ensures
        r == fnv1a_spec(s.spec_bytes()),
{
    let b = s.as_bytes();
    let mut hash: u32 = 0x811c_9dc5;
    let mut i: usize = 0;
    while i < b.len()
        invariant
            i <= b@.len(),
            hash == fnv1a_spec(b@.subrange(0, i as int)),
        decreases b.len() - i,
    {
        proof {
            assert(b@.subrange(0, i + 1).drop_last() =~= b@.subrange(0, i as int));
        }
        hash = (hash ^ (b[i] as u32)).wrapping_mul(0x0100_0193);
        i = i + 1;
    }
    assert(b@.subrange(0, b@.len() as int) =~= b@);
    hash
}

/// A root as index files key it: trailing separators dropped, lowercased.
pub open spec fn normalized_root(root: Seq<u8>) -> Seq<char> {
    lower(decode_utf8(trim_end_seps(root)))
}

/// `root.trim_end_matches(['\\', '/']).to_lowercase()`.
pub fn normalize_root(root: &str) -> (r: String)
    ensures
        r@ == normalized_root(root.spec_bytes()),
{
    let t = trim_end_separators(root);
    to_lower(t)
}

/// A file-name-safe char: ASCII letters and digits stay, anything else
/// becomes `_`.
pub open spec fn sanitized_char(c: char) -> char {
    let v = c as u32;
    if (0x30 <= v <= 0x39) || (0x41 <= v <= 0x5a) || (0x61 <= v <= 0x7a) {
        c
    } else {
        '_'
    }
}

/// Lowercase hexadecimal digit for `d < 16`.
pub open spec fn hex_digit(d: u32) -> char {
    seq!['0', '1', '2', '3', '4', '5', '6', '7', '8', '9', 'a', 'b', 'c', 'd', 'e', 'f'][d as int]
}

/// `h` as exactly eight lowercase hex digits, most significant first.
pub open spec fn hex8(h: u32) -> Seq<char> {
    Seq::new(8, |k: int| hex_digit(((h as int / pow16(7 - k)) % 16) as u32))
}

/// `16^e`.
pub open spec fn pow16(e: int) -> int
    decreases e,
{
    if e <= 0 {
        1
    } else {
        16 * pow16(e - 1)
    }
}

/// The file name of a root's index: the normalized root sanitized char by
/// char, `_`, the FNV-1a of the normalized root as eight hex digits, and
/// `.idx`.
pub open spec fn index_file_name_spec(root: Seq<u8>) -> Seq<char> {
    let norm = normalized_root(root);
    norm.map_values(|c: char| sanitized_char(c)) + seq!['_'] + hex8(fnv1a_spec(utf8(norm))) + seq!['.', 'i', 'd', 'x']
}

proof fn lemma_pow16_pos(e: int)
    ensures
        pow16(e) >= 1,
    decreases e,
{
    if e > 0 {
        lemma_pow16_pos(e - 1);
    }
}

fn hex_char(d: u32) -> (c: char)
    requires
        d < 16,
    ensures
        c == hex_digit(d),
{
    let digits = ['0', '1', '2', '3', '4', '5', '6', '7', '8', '9', 'a', 'b', 'c', 'd', 'e', 'f'];
    assert(digits@ =~= seq!['0', '1', '2', '3', '4', '5', '6', '7', '8', '9', 'a', 'b', 'c', 'd', 'e', 'f']);
    digits[d as usize]
}

/// The name of `root`'s index file, `<sanitized>_<fnv8>.idx`.
pub fn index_file_name(root: &str) -> (r: String)
    ensures
        r@ == index_file_name_spec(root.spec_bytes()),
{
    let norm = normalize_root(root);
    let cs = to_chars(norm.as_str());
    let mut out = String::new();
    let mut i: usize = 0;
    while i < cs.len()
        invariant
            cs@ == norm@,
            i <= cs@.len(),
            out@ == cs@.subrange(0, i as int).map_values(|c: char| sanitized_char(c)),
        decreases cs.len() - i,
    {
        let c = cs[i];
        let v = c as u32;
        let keep = (0x30 <= v && v <= 0x39) || (0x41 <= v && v <= 0x5a) || (0x61 <= v && v <= 0x7a);
        push_char(&mut out, if keep { c } else { '_' });
        i = i + 1;
        assert(out@ =~= cs@.subrange(0, i as int).map_values(|c: char| sanitized_char(c)));
    }
    assert(cs@.subrange(0, cs@.len() as int) =~= cs@);
    push_char(&mut out, '_');
    let h = fnv1a(norm.as_str());
    let ghost prefix = out@;
    let mut k: u32 = 0;
    let mut div: u32 = 0x1000_0000;
    proof {
        reveal_with_fuel(pow16, 8);
    }
    while k < 8
        invariant
            k <= 8,
            div > 0,
            div as int == pow16(7 - k),
            out@ == prefix + hex8(h).subrange(0, k as int),
        decreases 8 - k,
    {
        let d = (h / div) % 16;
        push_char(&mut out, hex_char(d));
        proof {
            assert(hex8(h)[k as int] == hex_digit(((h as int / pow16(7 - k)) % 16) as u32));
            assert(out@ =~= prefix + hex8(h).subrange(0, k + 1));
            if k < 7 {
                assert(pow16(7 - k) == 16 * pow16(7 - k - 1));
                lemma_pow16_pos(7 - k - 1);
            }
        }
        if k < 7 {
            div = div / 16;
        }
        k = k + 1;
    }
    assert(hex8(h).subrange(0, 8) =~= hex8(h));
    push_char(&mut out, '.');
    push_char(&mut out, 'i');
    push_char(&mut out, 'd');
    push_char(&mut out, 'x');
    assert(out@ =~= index_file_name_spec(root.spec_bytes()));
    out
}

/// A loaded index file's header is accepted when it is the current magic.
pub fn header_ok(magic: &[u8]) -> (r: bool)
    ensures
        r == (magic@ == seq![0x46u8, 0x46, 0x49, 0x44, 0x58, 0x32]),
{
    let m = index_magic();
    if magic.len() != 6 {
        return false;
    }
    let mut i: usize = 0;
    while i < 6
        invariant
            magic@.len() == 6,
            m@ == seq![0x46u8, 0x46, 0x49, 0x44, 0x58, 0x32],
            i <= 6,
            forall|j: int| 0 <= j < i ==> magic@[j] == m@[j],
        decreases 6 - i,
    {
        if magic[i] != m[i] {
            return false;
        }
        i = i + 1;
    }
    assert(magic@ =~= m@);
    true
}

/// A decoded payload `(version, stored_root, arena)` is accepted for
/// `root` when its version is current, it was written for the same
/// normalized root, and the arena is structurally valid.
pub open spec fn payload_accepted(version: u32, stored_root: Seq<char>, root: Seq<u8>, arena: IndexArena) -> bool {
    &&& version == INDEX_VERSION
    &&& stored_root == normalized_root(root)
    &&& arena.wf()
}

/// What is saved for a root — the current version, the root normalized,
/// and a well-formed arena — is accepted when that root's file is loaded
/// again, so a saved index survives a restart.
pub proof fn lemma_saved_payload_is_accepted(root: Seq<u8>, arena: IndexArena)
    requires
        arena.wf(),
    ensures
        payload_accepted(INDEX_VERSION, normalized_root(root), root, arena),
{
}

/// A decoded payload is accepted for `root` when its version is current,
/// it was written for the same normalized root, and the arena is
/// structurally valid; otherwise the file is to be discarded.
pub fn accept_payload(version: u32, stored_root: &str, root: &str, arena: IndexArena) -> (r: Option<IndexArena>)
    ensures
        match r {
            Some(a) => a == arena && payload_accepted(version, stored_root@, root.spec_bytes(), arena),
            None => !payload_accepted(version, stored_root@, root.spec_bytes(), arena),
        },
{
    if version != INDEX_VERSION {
        return None;
    }
    let norm = normalize_root(root);
    if !str_eq(stored_root, norm.as_str()) {
        return None;
    }
    if !arena.is_valid() {
        return None;
    }
    Some(arena)
}


/// A file name has the extension `idx`: text after its last `.`, where a
/// leading dot (a dotfile) does not count.
pub open spec fn has_idx_extension(name: Seq<u8>) -> bool {
    let d = crate::types::last_index_of2(name, 0x2e, 0x2e);
    d > 0 && name.subrange(d + 1, name.len() as int) == seq![0x69u8, 0x64, 0x78]
}

/// An index-folder file is left over — to be deleted — when it is an
/// `.idx` file that is none of the known roots' index files.
pub fn is_stale_index_file(file_name: &str, known_files: &[String]) -> (r: bool)
    ensures
        r == (has_idx_extension(file_name.spec_bytes()) && forall|k: int| 0 <= k < known_files@.len() ==> utf8(
            (#[trigger] known_files@[k])@,
        ) != file_name.spec_bytes()),
{
    let b = file_name.as_bytes();
    let n = b.len();
    proof {
        crate::types::lemma_last_index_of2(b@, 0x2e, 0x2e);
    }
    let idx = match crate::types::rfind2(b, 0x2e, 0x2e) {
        Some(d) => {
            d > 0 && n - d == 4 && b[d + 1] == 0x69 && b[d + 2] == 0x64 && b[d + 3] == 0x78
        },
        None => false,
    };
    proof {
        let d = crate::types::last_index_of2(b@, 0x2e, 0x2e);
        if d > 0 && n - d == 4 {
            if idx {
                assert(b@.subrange(d + 1, n as int) =~= seq![0x69u8, 0x64, 0x78]);
            } else {
                assert(b@.subrange(d + 1, n as int)[0] == b@[d + 1]);
                assert(b@.subrange(d + 1, n as int)[1] == b@[d + 2]);
                assert(b@.subrange(d + 1, n as int)[2] == b@[d + 3]);
            }
        } else if d > 0 {
            assert(b@.subrange(d + 1, n as int).len() != 3);
        }
    }
    if !idx {
        return false;
    }
    let mut k: usize = 0;
    while k < known_files.len()
        invariant
            k <= known_files@.len(),
            forall|j: int| 0 <= j < k ==> utf8((#[trigger] known_files@[j])@) != file_name.spec_bytes(),
        decreases known_files.len() - k,
    {
        if str_eq(known_files[k].as_str(), file_name) {
            return false;
        }
        k = k + 1;
    }
    true
}

} // verus!
