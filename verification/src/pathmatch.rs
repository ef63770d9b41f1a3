//! The path-prefix test shared by the walker (exclude filtering), the
//! engine (nested-root dedupe, scope include filtering) and the query
//! compiler.

use vstd::prelude::*;
use vstd::string::StringSliceAdditionalSpecFns;
use crate::text::{starts_with, is_sep_byte, bytes_start_with};

verus! {

/// `path` is `prefix` itself or lies underneath it, with a separator right
/// after the prefix.
pub open spec fn has_path_prefix(path: Seq<u8>, prefix: Seq<u8>) -> bool {
    &&& starts_with(path, prefix)
    &&& (path.len() == prefix.len() || is_sep_byte(path[prefix.len() as int]))
}

/// True when `path_lower` is `prefix_lower` itself or lives underneath it,
/// with a separator boundary — so `c:\users\hiro` matches `c:\users\hiro`
/// and `c:\users\hiro\docs` but NOT `c:\users\hiroko`. Both arguments must
/// already be lowercased by the caller.
pub fn path_has_prefix(path_lower: &str, prefix_lower: &str) -> (r: bool)
    ensures
        r == has_path_prefix(path_lower.spec_bytes(), prefix_lower.spec_bytes()),
{
    let p = path_lower.as_bytes();
    let q = prefix_lower.as_bytes();
    if !bytes_start_with(p, q) {
        return false;
    }
    if p.len() == q.len() {
        return true;
    }
    let b = p[q.len()];
    b == 0x5c || b == 0x2f
}

} // verus!
