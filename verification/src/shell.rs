//! Names for the shell actions: a file duplicated as a dated copy lands next
//! to the file it copies as `<stem>_<YYYYMMDD>_<NN><ext>`.

use vstd::prelude::*;
use crate::text::push_char;

verus! {

/// The decimal digit `d` (0 through 9).
pub open spec fn digit_char(d: u32) -> char {
    ((d + 48) as u8) as char
}

/// `n` (1 through 99) as two decimal digits, zero-padded.
pub open spec fn two_digits(n: u32) -> Seq<char> {
    seq![digit_char(n / 10), digit_char(n % 10)]
}

/// The name of the `n`-th dated copy of a file with stem `stem` and
/// extension `ext`, made on `date` (`YYYYMMDD`).
pub open spec fn dated_name(stem: Seq<char>, date: Seq<char>, n: u32, ext: Option<Seq<char>>) -> Seq<char> {
    stem + seq!['_'] + date + seq!['_'] + two_digits(n) + match ext {
        Some(e) => seq!['.'] + e,
        None => Seq::empty(),
    }
}

/// The decimal digit `d` as a char.
fn digit(d: u32) -> (r: char)
    requires
        d < 10,
    ensures
        r == digit_char(d),
{
    ((d + 48) as u8) as char
}

/// The name of the `n`-th dated copy (`n` from 1 to 99, the smallest that
/// does not collide is taken by the caller): `<stem>_<date>_<NN>[.<ext>]`.
pub fn dated_copy_name(stem: &str, date: &str, n: u32, ext: Option<&str>) -> (r: String)
    requires
        1 <= n <= 99,
    ensures
        r@ == dated_name(stem@, date@, n, match ext {
            Some(e) => Some(e@),
            None => None,
        }),
{
    let mut s = stem.to_owned();
    push_char(&mut s, '_');
    s.append(date);
    push_char(&mut s, '_');
    push_char(&mut s, digit(n / 10));
    push_char(&mut s, digit(n % 10));
    let ghost before = s@;
    match ext {
        Some(e) => {
            push_char(&mut s, '.');
            s.append(e);
            assert(s@ =~= before + (seq!['.'] + e@));
        },
        None => {
            assert(s@ =~= before + Seq::<char>::empty());
        },
    }
    assert(before =~= stem@ + seq!['_'] + date@ + seq!['_'] + two_digits(n));
    s
}

/// The most dated copies of one file made on one day.
pub const MAX_DATED_COPIES: u32 = 99;

/// The `n`-th candidate name when duplicating a file as a dated copy: the
/// caller tries `n` = 1, 2, … and takes the first name not yet taken;
/// past the 99th there is no candidate and duplicating gives up.
pub fn dated_copy_candidate(stem: &str, date: &str, n: u32, ext: Option<&str>) -> (r: Option<String>)
    ensures
        match r {
            Some(name) => 1 <= n <= MAX_DATED_COPIES && name@ == dated_name(stem@, date@, n, match ext {
                Some(e) => Some(e@),
                None => None,
            }),
            None => !(1 <= n <= MAX_DATED_COPIES),
        },
{
    if n < 1 || n > MAX_DATED_COPIES {
        return None;
    }
    Some(dated_copy_name(stem, date, n, ext))
}

} // verus!
