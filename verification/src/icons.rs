//! The pixel and encoding half of shell icons: a 32-bit BGRA bitmap as the
//! OS hands it back becomes RGBA (with alpha recovered for flat icons), then
//! a PNG, then a `data:` URL the frontend can use directly.

use vstd::prelude::*;
use base64::Engine;
use image::ImageEncoder;

verus! {

/// Some pixel of the BGRA buffer `buf` has a non-zero alpha byte.
pub open spec fn has_alpha(buf: Seq<u8>) -> bool {
    exists|i: int| 0 <= i < buf.len() && i % 4 == 3 && #[trigger] buf[i] != 0
}

/// Byte `i` of the RGBA form of the BGRA buffer `buf`: blue and red swap
/// places; alpha is kept, or made opaque when no pixel has any (a flat
/// icon).
pub open spec fn rgba_byte(buf: Seq<u8>, i: int) -> u8 {
    let base = i - i % 4;
    if i % 4 == 0 {
        buf[base + 2]
    } else if i % 4 == 1 {
        buf[base + 1]
    } else if i % 4 == 2 {
        buf[base]
    } else if has_alpha(buf) {
        buf[i]
    } else {
        255
    }
}

/// The RGBA form of the BGRA buffer `buf`.
pub open spec fn rgba_of(buf: Seq<u8>) -> Seq<u8> {
    Seq::new(buf.len(), |i: int| rgba_byte(buf, i))
}

/// Converts a BGRA bitmap to RGBA, recovering alpha from a flat icon (one
/// whose alpha bytes are all zero) by making it opaque.
pub fn bgra_to_rgba(buf: &[u8]) -> (r: Vec<u8>)
    requires
        buf@.len() % 4 == 0,
    ensures
        r@ == rgba_of(buf@),
{
    let n = buf.len();
    let mut rgba: Vec<u8> = Vec::new();
    let mut any_alpha = false;
    let mut i: usize = 0;
    while i < n
        invariant
            n == buf@.len(),
            n % 4 == 0,
            i % 4 == 0,
            i <= n,
            rgba@.len() == i,
            any_alpha == exists|j: int| 0 <= j < i && j % 4 == 3 && #[trigger] buf@[j] != 0,
            forall|j: int| 0 <= j < i && j % 4 != 3 ==> #[trigger] rgba@[j] == rgba_byte(buf@, j),
            forall|j: int| 0 <= j < i && j % 4 == 3 ==> #[trigger] rgba@[j] == buf@[j],
        decreases n - i,
    {
        let b = buf[i];
        let g = buf[i + 1];
        let r = buf[i + 2];
        let a = buf[i + 3];
        if a != 0 {
            any_alpha = true;
        }
        rgba.push(r);
        rgba.push(g);
        rgba.push(b);
        rgba.push(a);
        proof {
            assert((i + 1) % 4 == 1 && (i + 2) % 4 == 2 && (i + 3) % 4 == 3);
            assert forall|j: int| i <= j < i + 4 && j % 4 != 3 implies #[trigger] rgba@[j] == rgba_byte(buf@, j) by {
                assert(j - j % 4 == i);
            }
            if a != 0 {
                assert(buf@[i + 3] != 0);
            }
            assert forall|j: int| 0 <= j < i + 4 && j % 4 == 3 && #[trigger] buf@[j] != 0 implies any_alpha by {
                if j < i {
                    assert(exists|k: int| 0 <= k < i && k % 4 == 3 && #[trigger] buf@[k] != 0);
                }
            }
        }
        i = i + 4;
    }
    if !any_alpha {
        let mut k: usize = 0;
        while k < n
            invariant
                n == buf@.len(),
                n % 4 == 0,
                k % 4 == 0,
                k <= n,
                rgba@.len() == n,
                !has_alpha(buf@),
                forall|j: int| 0 <= j < n && j % 4 != 3 ==> #[trigger] rgba@[j] == rgba_byte(buf@, j),
                forall|j: int| 0 <= j < k && j % 4 == 3 ==> #[trigger] rgba@[j] == 255,
            decreases n - k,
        {
            rgba.set(k + 3, 255);
            proof {
                assert((k + 3) % 4 == 3);
            }
            k = k + 4;
        }
    }
    proof {
        assert forall|j: int| 0 <= j < n implies #[trigger] rgba@[j] == rgba_of(buf@)[j] by {
            if j % 4 == 3 && any_alpha {
                assert(has_alpha(buf@));
            }
        }
        assert(rgba@ =~= rgba_of(buf@));
    }
    rgba
}

/// What the `image` crate's `PngEncoder::write_image` produces for an RGBA8
/// image of `w` by `h` pixels: the PNG file's bytes, or the encoder's error
/// message.
pub uninterp spec fn png_rgba8(w: u32, h: u32, rgba: Seq<u8>) -> Result<Seq<u8>, Seq<char>>;

/// Calls the `image` crate's `PngEncoder::write_image` (RGBA8); its result
/// is named `png_rgba8`. The encoder panics unless the buffer holds exactly
/// `w * h` four-byte pixels, hence the precondition.
#[verifier::external_body]
fn write_png(w: u32, h: u32, rgba: &[u8]) -> (r: Result<Vec<u8>, String>)
    requires
        rgba@.len() == (w as int) * (h as int) * 4,
    ensures
        match (r, png_rgba8(w, h, rgba@)) {
            (Ok(v), Ok(s)) => v@ == s,
            (Err(e), Err(m)) => e@ == m,
            _ => false,
        },
{
    let mut out = Vec::new();
    match image::codecs::png::PngEncoder::new(&mut out).write_image(rgba, w, h, image::ExtendedColorType::Rgba8) {
        Ok(()) => Ok(out),
        Err(e) => Err(e.to_string()),
    }
}

/// The PNG of a `w` by `h` BGRA icon bitmap, converted to RGBA first.
pub fn png_from_bgra(w: u32, h: u32, bgra: &[u8]) -> (r: Result<Vec<u8>, String>)
    requires
        bgra@.len() == (w as int) * (h as int) * 4,
    ensures
        match (r, png_rgba8(w, h, rgba_of(bgra@))) {
            (Ok(v), Ok(s)) => v@ == s,
            (Err(e), Err(m)) => e@ == m,
            _ => false,
        },
{
    assert(bgra@.len() % 4 == 0) by (nonlinear_arith)
        requires
            bgra@.len() == (w as int) * (h as int) * 4,
    ;
    let rgba = bgra_to_rgba(bgra);
    write_png(w, h, rgba.as_slice())
}

/// Digit `v` (0 through 63) of the standard base64 alphabet:
/// `A`-`Z`, `a`-`z`, `0`-`9`, `+`, `/`.
pub open spec fn base64_digit(v: int) -> char {
    if v < 26 {
        (0x41 + v) as char
    } else if v < 52 {
        (0x61 + v - 26) as char
    } else if v < 62 {
        (0x30 + v - 52) as char
    } else if v == 62 {
        '+'
    } else {
        '/'
    }
}

/// Standard base64 with padding (RFC 4648), as the `base64` crate's
/// `STANDARD` engine encodes: each three bytes become four digits of six
/// bits each, most significant first; a last group of one or two bytes is
/// zero-filled and padded with `=` to four chars.
pub open spec fn base64_standard(bytes: Seq<u8>) -> Seq<char>
    decreases bytes.len(),
{
    if bytes.len() == 0 {
        Seq::empty()
    } else if bytes.len() == 1 {
        let b0 = bytes[0] as int;
        seq![base64_digit(b0 / 4), base64_digit((b0 % 4) * 16), '=', '=']
    } else if bytes.len() == 2 {
        let (b0, b1) = (bytes[0] as int, bytes[1] as int);
        seq![base64_digit(b0 / 4), base64_digit((b0 % 4) * 16 + b1 / 16), base64_digit((b1 % 16) * 4), '=']
    } else {
        let (b0, b1, b2) = (bytes[0] as int, bytes[1] as int, bytes[2] as int);
        seq![
            base64_digit(b0 / 4),
            base64_digit((b0 % 4) * 16 + b1 / 16),
            base64_digit((b1 % 16) * 4 + b2 / 64),
            base64_digit(b2 % 64),
        ] + base64_standard(bytes.subrange(3, bytes.len() as int))
    }
}

/// Calls `base64::engine::general_purpose::STANDARD.encode`: standard
/// base64 with padding, as `base64_standard` states. The crate panics when
/// the encoded length overflows `usize`, hence the precondition.
#[verifier::external_body]
fn base64_encode(bytes: &[u8]) -> (r: String)
    requires
        4 * (bytes@.len() / 3 + 1) <= usize::MAX,
    ensures
        r@ == base64_standard(bytes@),
{
    base64::engine::general_purpose::STANDARD.encode(bytes)
}

/// The prefix of a PNG data URL.
pub open spec fn png_data_prefix() -> Seq<char> {
    seq!['d', 'a', 't', 'a', ':', 'i', 'm', 'a', 'g', 'e', '/', 'p', 'n', 'g', ';', 'b', 'a', 's', 'e', '6', '4', ',']
}

/// A `data:image/png;base64,` URL holding `png`.
pub fn icon_data_url(png: &[u8]) -> (r: String)
    requires
        4 * (png@.len() / 3 + 1) <= usize::MAX,
    ensures
        r@ == png_data_prefix() + base64_standard(png@),
{
    let mut out = String::new();
    let prefix = ['d', 'a', 't', 'a', ':', 'i', 'm', 'a', 'g', 'e', '/', 'p', 'n', 'g', ';', 'b', 'a', 's', 'e', '6', '4', ','];
    let mut i: usize = 0;
    while i < prefix.len()
        invariant
            i <= prefix@.len(),
            prefix@ == png_data_prefix(),
            out@ == png_data_prefix().subrange(0, i as int),
        decreases prefix.len() - i,
    {
        crate::text::push_char(&mut out, prefix[i]);
        assert(out@ =~= png_data_prefix().subrange(0, i + 1));
        i = i + 1;
    }
    let b = base64_encode(png);
    out.append(b.as_str());
    out
}

} // verus!
