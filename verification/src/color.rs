//! Integer color helpers: `#rrggbb` hex colors, packing RGB into a
//! `0x00RRGGBB` word and darkening a color by a light level.

use vstd::prelude::*;
use vstd::string::StringSliceAdditionalSpecFns;

verus! {

/// Whether byte `b` is an ASCII hex digit (either case).
pub open spec fn is_hex_digit(b: u8) -> bool {
    (48 <= b <= 57) || (97 <= b <= 102) || (65 <= b <= 70)
}

/// The value of hex digit `b`.
pub open spec fn hex_value(b: u8) -> int {
    if 48 <= b <= 57 {
        b - 48
    } else if 97 <= b <= 102 {
        b - 97 + 10
    } else {
        b - 65 + 10
    }
}

/// The value of a hex digit; `b` must be one.
pub fn hex_digit(b: u8) -> (r: u8)
    requires
        is_hex_digit(b),
    ensures
        r == hex_value(b),
        r < 16,
{
    if b >= 48 && b <= 57 {
        b - 48
    } else if b >= 97 && b <= 102 {
        b - 97 + 10
    } else {
        b - 65 + 10
    }
}

/// The byte written by the two hex digits `hi`, `lo`.
pub fn hex_pair(hi: u8, lo: u8) -> (r: u8)
    requires
        is_hex_digit(hi),
        is_hex_digit(lo),
    ensures
        r == 16 * hex_value(hi) + hex_value(lo),
{
    let h: u8 = hex_digit(hi);
    let l: u8 = hex_digit(lo);
    assert((h << 4u8) | l == 16 * h + l) by (bit_vector)
        requires h < 16, l < 16;
    (h << 4u8) | l
}

/// The bytes of a `#rrggbb` color text from which `rgba_from_hex` reads:
/// at least seven, with hex digits after the first.
pub open spec fn hex_color_text(bytes: Seq<u8>) -> bool {
    &&& bytes.len() >= 7
    &&& forall|i: int| 1 <= i < 7 ==> is_hex_digit(#[trigger] bytes[i])
}

/// The color `#rrggbb` (the first byte is not looked at) with alpha `a`.
pub fn rgba_from_hex(hex: &str, a: u8) -> (r: [u8; 4])
    requires
        hex_color_text(hex.spec_bytes()),
    ensures
        r@ == seq![
            (16 * hex_value(hex.spec_bytes()[1]) + hex_value(hex.spec_bytes()[2])) as u8,
            (16 * hex_value(hex.spec_bytes()[3]) + hex_value(hex.spec_bytes()[4])) as u8,
            (16 * hex_value(hex.spec_bytes()[5]) + hex_value(hex.spec_bytes()[6])) as u8,
            a,
        ],
{
    let b = hex.as_bytes();
    assert(is_hex_digit(b@[1]) && is_hex_digit(b@[2]) && is_hex_digit(b@[3]));
    assert(is_hex_digit(b@[4]) && is_hex_digit(b@[5]) && is_hex_digit(b@[6]));
    let red: u8 = hex_pair(b[1], b[2]);
    let green: u8 = hex_pair(b[3], b[4]);
    let blue: u8 = hex_pair(b[5], b[6]);
    let r = [red, green, blue, a];
    assert(r@ =~= seq![red, green, blue, a]);
    r
}

/// Red, green and blue packed as `0x00RRGGBB`.
pub open spec fn packed_rgb(r: int, g: int, b: int) -> int {
    r * 65536 + g * 256 + b
}

proof fn lemma_pack(r: u32, g: u32, b: u32)
    requires
        r < 256,
        g < 256,
        b < 256,
    ensures
        (r << 16u32) | (g << 8u32) | b == packed_rgb(r as int, g as int, b as int),
{
    assert((r << 16u32) | (g << 8u32) | b == r * 65536 + g * 256 + b) by (bit_vector)
        requires r < 256, g < 256, b < 256;
}

/// An 8-bit-per-channel color as a `0x00RRGGBB` word.
pub fn srgb_to_u32(red: u8, green: u8, blue: u8) -> (p: u32)
    ensures
        p == packed_rgb(red as int, green as int, blue as int),
{
    let r: u32 = red as u32;
    let g: u32 = green as u32;
    let b: u32 = blue as u32;
    proof {
        lemma_pack(r, g, b);
    }
    (r << 16u32) | (g << 8u32) | b
}

/// A channel darkened by light level `light` (255 keeps it).
pub open spec fn lit_channel(c: u8, light: u8) -> int {
    (c * light) / 255
}

fn scale_channel(c: u8, light: u8) -> (r: u32)
    ensures
        r == lit_channel(c, light),
        r < 256,
{
    proof {
        assert(c * light <= 255 * 255) by (nonlinear_arith)
            requires c <= 255, light <= 255;
        assert((c * light) / 255 <= 255) by (nonlinear_arith)
            requires 0 <= c * light <= 255 * 255;
    }
    (c as u32 * light as u32) / 255
}

/// The color (`r`, `g`, `b`) under light level `light`, packed as
/// `0x00RRGGBB`: each channel becomes `channel * light / 255`.
pub fn modulate_rgb_u8(r: u8, g: u8, b: u8, light: u8) -> (p: u32)
    ensures
        p == packed_rgb(lit_channel(r, light), lit_channel(g, light), lit_channel(b, light)),
{
    let rr: u32 = scale_channel(r, light);
    let gg: u32 = scale_channel(g, light);
    let bb: u32 = scale_channel(b, light);
    proof {
        lemma_pack(rr, gg, bb);
    }
    (rr << 16u32) | (gg << 8u32) | bb
}

/// Light never brightens: a channel under any light level is at most the
/// channel itself, full light (255) keeps it and no light (0) blacks it out.
pub proof fn lemma_light_darkens(c: u8, light: u8)
    ensures
        lit_channel(c, light) <= c,
        lit_channel(c, 255) == c,
        lit_channel(c, 0) == 0,
{
    assert((c * light) / 255 <= c) by (nonlinear_arith)
        requires 0 <= c, 0 <= light <= 255;
    assert((c * 255) / 255 == c) by (nonlinear_arith)
        requires 0 <= c;
}

} // verus!
