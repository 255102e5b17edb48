//! 8x8 bitmap font: 96 glyphs (ASCII 32..127) cut from a 16 x 6 grid of
//! cells in a grayscale bitmap.

use vstd::prelude::*;
use crate::chars::chars_of;
use crate::rgba::{byte_index, lemma_byte_index_bound, lemma_byte_index_injective};

verus! {

pub const GLYPH_W: usize = 8;
pub const GLYPH_H: usize = 8;
pub const FONT_COLS: usize = 16;
pub const FONT_ROWS: usize = 6;
pub const FIRST_ASCII: u8 = 32;

/// An 8x8 glyph stored as one byte per row; bit 7 is the leftmost pixel.
#[derive(Clone, Copy, Debug, PartialEq, Eq)]
pub struct Glyph {
    pub rows: [u8; 8],
}

impl Glyph {
    /// Whether pixel (`x`, `y`) of the glyph is lit.
    pub open spec fn lit(&self, x: int, y: int) -> bool {
        self.rows@[y] & (0x80u8 >> (x as u8)) != 0
    }

    /// Whether pixel (`x`, `y`) (each below 8) is lit.
    pub fn pixel(&self, x: usize, y: usize) -> (r: bool)
        requires
            x < 8,
            y < 8,
        ensures
            r == self.lit(x as int, y as int),
    {
        self.rows[y] & (0x80u8 >> (x as u8)) != 0
    }
}

/// Whether the grayscale pixel (`px`, `py`) of a `width`-wide image is bright
/// enough (above 128) to light a glyph pixel.
pub open spec fn bright(pixels: Seq<u8>, width: int, px: int, py: int) -> bool {
    pixels[py * width + px] > 128
}

/// Whether glyph `i` of a font cut from `pixels` has pixel (`gx`, `gy`) lit:
/// glyph `i` is the cell in column `i % 16`, row `i / 16`.
pub open spec fn source_lit(pixels: Seq<u8>, width: int, i: int, gx: int, gy: int) -> bool {
    bright(pixels, width, (i % 16) * 8 + gx, (i / 16) * 8 + gy)
}

/// What `image` decodes a file's bytes to, converted to 8-bit grayscale:
/// width, height and row-major pixel values.
pub uninterp spec fn decoded_luma8(bytes: Seq<u8>) -> Option<(u32, u32, Seq<u8>)>;

/// Decodes an image with `image::load_from_memory` and converts it with
/// `DynamicImage::to_luma8`. The result is named by `decoded_luma8`; the
/// pixel buffer of an `ImageBuffer` holds at least width x height values.
#[verifier::external_body]
fn decode_luma8(bytes: &[u8]) -> (r: Option<(u32, u32, Vec<u8>)>)
    ensures
        match r {
            None => decoded_luma8(bytes@) is None,
            Some((w, h, px)) => decoded_luma8(bytes@) == Some((w, h, px@)) && px@.len() >= w * h,
        },
{
    match image::load_from_memory(bytes) {
        Ok(img) => {
            let luma = img.to_luma8();
            Some((luma.width(), luma.height(), luma.into_raw()))
        },
        Err(_) => None,
    }
}

/// A bitmap font of 96 glyphs for the characters 32..127.
pub struct Font {
    glyphs: Vec<Glyph>,
}

/// The glyph index of `ch`, if the font has one.
pub open spec fn glyph_index(ch: char, count: int) -> Option<int> {
    if (ch as u32) < 32 || (ch as u32) - 32 >= count {
        None
    } else {
        Some((ch as u32) - 32)
    }
}

/// Whether `ch` lights pixel (`gx`, `gy`) of its glyph; a character the
/// font has no glyph for lights nothing.
pub open spec fn glyph_lit(font: &Font, ch: char, gx: int, gy: int) -> bool {
    match glyph_index(ch, font.glyphs().len() as int) {
        Some(k) => font.glyphs()[k].lit(gx, gy),
        None => false,
    }
}

/// The value written to channel `c` of a text pixel: the color, then an
/// opaque alpha.
pub open spec fn ink(color: [u8; 3], c: int) -> u8 {
    if c < 3 { color@[c] } else { 255u8 }
}

/// Whether `text` drawn at (`x`, `y`) into a `w` x `h` buffer lights pixel
/// (`px`, `py`): character `k` fills the 8x8 box at (`x + 8k`, `y`) with its
/// glyph; drawing stops at the first character whose box would pass the
/// right edge, and glyph rows at or past the bottom edge are cut off.
pub open spec fn text_lit(font: &Font, text: Seq<char>, x: int, y: int, w: int, h: int, px: int, py: int) -> bool {
    let k = (px - x) / 8;
    &&& x <= px
    &&& y <= py < h
    &&& py < y + 8
    &&& k < text.len()
    &&& x + 8 * (k + 1) <= w
    &&& glyph_lit(font, text[k], (px - x) % 8, py - y)
}

/// Whether lit pixel (`px`, `py`) comes before glyph pixel (`gx`, `gy`) of
/// character `i` in drawing order.
pub open spec fn text_drawn_before(
    font: &Font, text: Seq<char>, x: int, y: int, w: int, h: int, px: int, py: int, i: int, gy: int, gx: int,
) -> bool {
    let k = (px - x) / 8;
    &&& text_lit(font, text, x, y, w, h, px, py)
    &&& {
        ||| k < i
        ||| k == i && py - y < gy
        ||| k == i && py - y == gy && (px - x) % 8 < gx
    }
}

/// `buf` holds `orig` with the text pixels drawn up to glyph pixel
/// (`gx`, `gy`) of character `i`.
pub open spec fn text_drawn_up_to(
    font: &Font, text: Seq<char>, x: int, y: int, w: int, h: int, color: [u8; 3],
    orig: Seq<u8>, buf: Seq<u8>, i: int, gy: int, gx: int,
) -> bool {
    &&& buf.len() == orig.len()
    &&& forall|k: int| w * h * 4 <= k < orig.len() ==> buf[k] == orig[k]
    &&& forall|px: int, py: int, c: int| 0 <= px < w && 0 <= py < h && 0 <= c < 4 ==>
        #[trigger] buf[byte_index(w, px, py, c)] == if text_drawn_before(font, text, x, y, w, h, px, py, i, gy, gx) {
            ink(color, c)
        } else {
            orig[byte_index(w, px, py, c)]
        }
}

/// Moving the drawing point from `a` to `b` keeps `buf` in step when no
/// pixel changes sides.
proof fn lemma_text_equiv(
    font: &Font, text: Seq<char>, x: int, y: int, w: int, h: int, color: [u8; 3],
    orig: Seq<u8>, buf: Seq<u8>, a: (int, int, int), b: (int, int, int),
)
    requires
        text_drawn_up_to(font, text, x, y, w, h, color, orig, buf, a.0, a.1, a.2),
        forall|px: int, py: int| 0 <= px < w && 0 <= py < h ==>
            #[trigger] text_drawn_before(font, text, x, y, w, h, px, py, a.0, a.1, a.2)
                == text_drawn_before(font, text, x, y, w, h, px, py, b.0, b.1, b.2),
    ensures
        text_drawn_up_to(font, text, x, y, w, h, color, orig, buf, b.0, b.1, b.2),
{
    assert forall|px: int, py: int, c: int| 0 <= px < w && 0 <= py < h && 0 <= c < 4 implies
        #[trigger] buf[byte_index(w, px, py, c)] == if text_drawn_before(font, text, x, y, w, h, px, py, b.0, b.1, b.2) {
            ink(color, c)
        } else {
            orig[byte_index(w, px, py, c)]
        } by {
        assert(text_drawn_before(font, text, x, y, w, h, px, py, a.0, a.1, a.2)
            == text_drawn_before(font, text, x, y, w, h, px, py, b.0, b.1, b.2));
    }
}

/// One glyph pixel of character `i` handled: written with the ink when lit,
/// left alone otherwise.
proof fn lemma_text_step(
    font: &Font, text: Seq<char>, x: int, y: int, w: int, h: int, color: [u8; 3],
    orig: Seq<u8>, before: Seq<u8>, after: Seq<u8>, i: int, gy: int, gx: int, lit: bool,
)
    requires
        0 <= x,
        0 <= y,
        0 <= i < text.len(),
        0 <= gy < 8,
        0 <= gx < 8,
        x + 8 * (i + 1) <= w,
        y + gy < h,
        orig.len() >= w * h * 4,
        lit == glyph_lit(font, text[i], gx, gy),
        text_drawn_up_to(font, text, x, y, w, h, color, orig, before, i, gy, gx),
        after.len() == before.len(),
        ({
            let index = byte_index(w, x + 8 * i + gx, y + gy, 0);
            &&& forall|k: int| 0 <= k < before.len() && !(lit && index <= k < index + 4) ==> after[k] == before[k]
            &&& lit ==> forall|c: int| 0 <= c < 4 ==> after[index + c] == ink(color, c)
        }),
    ensures
        text_drawn_up_to(font, text, x, y, w, h, color, orig, after, i, gy, gx + 1),
{
    let px0 = x + 8 * i + gx;
    let py0 = y + gy;
    let index = byte_index(w, px0, py0, 0);
    vstd::arithmetic::div_mod::lemma_fundamental_div_mod_converse(px0 - x, 8, i, gx);
    lemma_byte_index_bound(w, h, px0, py0, 3);
    assert forall|k: int| w * h * 4 <= k < orig.len() implies after[k] == orig[k] by {
        assert(after[k] == before[k]);
    }
    assert forall|px: int, py: int, c: int| 0 <= px < w && 0 <= py < h && 0 <= c < 4 implies
        #[trigger] after[byte_index(w, px, py, c)] == if text_drawn_before(font, text, x, y, w, h, px, py, i, gy, gx + 1) {
            ink(color, c)
        } else {
            orig[byte_index(w, px, py, c)]
        } by {
        lemma_byte_index_bound(w, h, px, py, c);
        lemma_byte_index_bound(w, h, px0, py0, c);
        if px == px0 && py == py0 {
            assert(byte_index(w, px, py, c) == index + c);
            if !lit {
                assert(after[index + c] == before[index + c]);
            }
        } else {
            let k = byte_index(w, px, py, c);
            if index <= k < index + 4 {
                lemma_byte_index_bound(w, h, px0, py0, k - index);
                lemma_byte_index_injective(w, h, px, py, c, px0, py0, k - index);
            }
            assert(after[k] == before[k]);
            if x <= px {
                vstd::arithmetic::div_mod::lemma_fundamental_div_mod(px - x, 8);
            }
        }
    }
}

proof fn lemma_bit_accumulate(bits: u8, g: u8, k: u8)
    requires
        g < 8,
        k < 8,
    ensures
        ((bits | (0x80u8 >> g)) & (0x80u8 >> k) != 0) == ((bits & (0x80u8 >> k) != 0) || k == g),
{
    assert(((bits | (0x80u8 >> g)) & (0x80u8 >> k) != 0) == ((bits & (0x80u8 >> k) != 0) || k == g))
        by (bit_vector)
        requires g < 8, k < 8;
}

proof fn lemma_zero_bits(k: u8)
    requires
        k < 8,
    ensures
        (0u8 & (0x80u8 >> k)) == 0,
{
    assert((0u8 & (0x80u8 >> k)) == 0) by (bit_vector);
}

impl Font {
    /// The glyphs, indexed by character code minus 32.
    pub closed spec fn glyphs(&self) -> Seq<Glyph> {
        self.glyphs@
    }

    /// Cuts the 96 glyphs out of a grayscale bitmap of at least 128 x 48
    /// pixels: glyph `i` is the 8x8 cell in column `i % 16`, row `i / 16`,
    /// and a glyph pixel is lit where the bitmap value exceeds 128.
    pub fn from_luma(width: u32, height: u32, pixels: &[u8]) -> (f: Font)
        requires
            width >= 128,
            height >= 48,
            pixels@.len() >= width * height,
        ensures
            f.glyphs().len() == 96,
            forall|i: int, gx: int, gy: int| 0 <= i < 96 && 0 <= gx < 8 && 0 <= gy < 8 ==>
                (#[trigger] f.glyphs()[i].lit(gx, gy)) == source_lit(pixels@, width as int, i, gx, gy),
    {
        let mut glyphs: Vec<Glyph> = Vec::new();
        let w: usize = width as usize;
        let mut row: usize = 0;
        while row < FONT_ROWS
            invariant
                w == width,
                width >= 128,
                height >= 48,
                pixels@.len() >= width * height,
                row <= 6,
                glyphs@.len() == row * 16,
                forall|i: int, gx: int, gy: int| 0 <= i < glyphs@.len() && 0 <= gx < 8 && 0 <= gy < 8 ==>
                    (#[trigger] glyphs@[i].lit(gx, gy)) == source_lit(pixels@, width as int, i, gx, gy),
            decreases 6 - row,
        {
            let mut col: usize = 0;
            while col < FONT_COLS
                invariant
                    w == width,
                    width >= 128,
                    height >= 48,
                    pixels@.len() >= width * height,
                    row < 6,
                    col <= 16,
                    glyphs@.len() == row * 16 + col,
                    forall|i: int, gx: int, gy: int| 0 <= i < glyphs@.len() && 0 <= gx < 8 && 0 <= gy < 8 ==>
                        (#[trigger] glyphs@[i].lit(gx, gy)) == source_lit(pixels@, width as int, i, gx, gy),
                decreases 16 - col,
            {
                let glyph = Font::cut_glyph(w, height, pixels, col, row);
                let ghost before = glyphs@;
                glyphs.push(glyph);
                proof {
                    let idx = (row * 16 + col) as int;
                    assert(idx % 16 == col && idx / 16 == row) by (nonlinear_arith)
                        requires idx == row * 16 + col, col < 16;
                    assert forall|i: int, gx: int, gy: int| 0 <= i < glyphs@.len() && 0 <= gx < 8 && 0 <= gy < 8 implies
                        (#[trigger] glyphs@[i].lit(gx, gy)) == source_lit(pixels@, width as int, i, gx, gy) by {
                        if i < before.len() {
                            assert(glyphs@[i] == before[i]);
                        }
                    }
                }
                col = col + 1;
            }
            row = row + 1;
        }
        Font { glyphs }
    }

    fn cut_glyph(w: usize, height: u32, pixels: &[u8], col: usize, row: usize) -> (g: Glyph)
        requires
            w >= 128,
            height >= 48,
            pixels@.len() >= w * height,
            col < 16,
            row < 6,
        ensures
            forall|gx: int, gy: int| 0 <= gx < 8 && 0 <= gy < 8 ==>
                (#[trigger] g.lit(gx, gy)) == bright(pixels@, w as int, col * 8 + gx, row * 8 + gy),
    {
        let plen: usize = pixels.len();
        let mut rows: [u8; 8] = [0u8; 8];
        let mut gy: usize = 0;
        while gy < GLYPH_H
            invariant
                w >= 128,
                height >= 48,
                pixels@.len() >= w * height,
                col < 16,
                row < 6,
                gy <= 8,
                plen == pixels@.len(),
                rows@.len() == 8,
                forall|gx: int, y: int| 0 <= gx < 8 && 0 <= y < gy ==>
                    (#[trigger] (rows@[y] & (0x80u8 >> (gx as u8)))) != 0 == bright(pixels@, w as int, col * 8 + gx, row * 8 + y),
            decreases 8 - gy,
        {
            let mut bits: u8 = 0;
            let mut gx: usize = 0;
            proof {
                assert forall|k: int| 0 <= k < 8 implies (#[trigger] (bits & (0x80u8 >> (k as u8)))) == 0 by {
                    lemma_zero_bits(k as u8);
                }
            }
            while gx < GLYPH_W
                invariant
                    w >= 128,
                    height >= 48,
                    pixels@.len() >= w * height,
                    col < 16,
                    row < 6,
                    gy < 8,
                    gx <= 8,
                    plen == pixels@.len(),
                    forall|k: int| 0 <= k < 8 ==>
                        (#[trigger] (bits & (0x80u8 >> (k as u8)))) != 0 == (k < gx && bright(pixels@, w as int, col * 8 + k, row * 8 + gy)),
                decreases 8 - gx,
            {
                let px: usize = col * GLYPH_W + gx;
                let py: usize = row * GLYPH_H + gy;
                proof {
                    assert(py * w + px < w * height && py * w <= py * w + px) by (nonlinear_arith)
                        requires py < 48, 48 <= height, px < 128, 128 <= w;
                }
                let lit: bool = pixels[py * w + px] > 128;
                let ghost old_bits = bits;
                if lit {
                    bits = bits | (0x80u8 >> (gx as u8));
                }
                proof {
                    assert forall|k: int| 0 <= k < 8 implies
                        (#[trigger] (bits & (0x80u8 >> (k as u8)))) != 0 == (k < gx + 1 && bright(pixels@, w as int, col * 8 + k, row * 8 + gy)) by {
                        if lit {
                            lemma_bit_accumulate(old_bits, gx as u8, k as u8);
                        }
                        assert(old_bits & (0x80u8 >> (k as u8)) != 0 == (k < gx && bright(pixels@, w as int, col * 8 + k, row * 8 + gy)));
                    }
                }
                gx = gx + 1;
            }
            let ghost old_rows = rows@;
            rows[gy] = bits;
            proof {
                assert forall|gx: int, y: int| 0 <= gx < 8 && 0 <= y < gy + 1 implies
                    (#[trigger] (rows@[y] & (0x80u8 >> (gx as u8)))) != 0 == bright(pixels@, w as int, col * 8 + gx, row * 8 + y) by {
                    if y < gy {
                        assert(rows@[y] == old_rows[y]);
                    } else {
                        assert(rows@[y] == bits);
                    }
                }
            }
            gy = gy + 1;
        }
        let g = Glyph { rows };
        proof {
            assert forall|gx: int, gy: int| 0 <= gx < 8 && 0 <= gy < 8 implies
                (#[trigger] g.lit(gx, gy)) == bright(pixels@, w as int, col * 8 + gx, row * 8 + gy) by {
                assert((rows@[gy] & (0x80u8 >> (gx as u8))) != 0 == bright(pixels@, w as int, col * 8 + gx, row * 8 + gy));
            }
        }
        g
    }

    /// Decodes an image file (BMP, PNG, ...) and cuts the font out of its
    /// grayscale version; `None` when the bytes do not decode or the image is
    /// smaller than 128 x 48 pixels.
    pub fn decode(bytes: &[u8]) -> (r: Option<Font>)
        ensures
            match decoded_luma8(bytes@) {
                Some((w, h, px)) => if w >= 128 && h >= 48 {
                    r matches Some(f) && f.glyphs().len() == 96 && forall|i: int, gx: int, gy: int|
                        0 <= i < 96 && 0 <= gx < 8 && 0 <= gy < 8 ==> (#[trigger] f.glyphs()[i].lit(gx, gy))
                            == source_lit(px, w as int, i, gx, gy)
                } else {
                    r is None
                },
                None => r is None,
            },
    {
        match decode_luma8(bytes) {
            None => None,
            Some((w, h, px)) => {
                if w >= 128 && h >= 48 {
                    Some(Font::from_luma(w, h, px.as_slice()))
                } else {
                    None
                }
            },
        }
    }

    /// The glyph of `ch`, or `None` outside the font's range (below 32 or past
    /// the last glyph).
    pub fn glyph(&self, ch: char) -> (r: Option<&Glyph>)
        ensures
            match glyph_index(ch, self.glyphs().len() as int) {
                Some(i) => r == Some(&self.glyphs()[i]),
                None => r is None,
            },
    {
        let code: u32 = ch as u32;
        if code < FIRST_ASCII as u32 {
            return None;
        }
        let index: u32 = code - FIRST_ASCII as u32;
        if (index as usize) < self.glyphs.len() {
            Some(&self.glyphs[index as usize])
        } else {
            None
        }
    }

    /// Draws `text` into `buf`, a row-major RGBA image (4 bytes a pixel) of
    /// `buf_width` x `buf_height` pixels, with the top left of the first
    /// character at (`x`, `y`): lit glyph pixels get `color` with alpha 255,
    /// everything else is left alone; characters without a glyph leave their
    /// box untouched. See `text_lit` for exactly which pixels are lit.
    pub fn draw_text(
        &self,
        buf: &mut [u8],
        buf_width: usize,
        buf_height: usize,
        text: &str,
        x: usize,
        y: usize,
        color: [u8; 3],
    )
        requires
            old(buf)@.len() >= buf_width * buf_height * 4,
        ensures
            final(buf)@.len() == old(buf)@.len(),
            forall|k: int| buf_width * buf_height * 4 <= k < old(buf)@.len() ==> final(buf)@[k] == old(buf)@[k],
            forall|px: int, py: int, c: int| 0 <= px < buf_width && 0 <= py < buf_height && 0 <= c < 4 ==>
                #[trigger] final(buf)@[byte_index(buf_width as int, px, py, c)]
                    == if text_lit(self, text@, x as int, y as int, buf_width as int, buf_height as int, px, py) {
                        ink(color, c)
                    } else {
                        old(buf)@[byte_index(buf_width as int, px, py, c)]
                    },
    {
        let ghost orig = buf@;
        let ghost w = buf_width as int;
        let ghost h = buf_height as int;
        let total: usize = buf.len();
        let chars = chars_of(text);
        let ink_px: [u8; 4] = [color[0], color[1], color[2], 255];
        assert(forall|c: int| 0 <= c < 4 ==> ink_px@[c] == ink(color, c));
        proof {
            lemma_text_equiv(self, text@, x as int, y as int, w, h, color, orig, buf@, (0, 0, 0), (0, 0, 0));
        }
        let mut cx: usize = x;
        let mut i: usize = 0;
        while i < chars.len() && cx <= buf_width && buf_width - cx >= GLYPH_W
            invariant
                chars@ == text@,
                w == buf_width,
                h == buf_height,
                total == orig.len(),
                orig.len() >= buf_width * buf_height * 4,
                forall|c: int| 0 <= c < 4 ==> ink_px@[c] == ink(color, c),
                i <= chars@.len(),
                cx == x + 8 * i,
                buf@.len() == orig.len(),
                text_drawn_up_to(self, text@, x as int, y as int, w, h, color, orig, buf@, i as int, 0, 0),
            decreases chars@.len() - i,
        {
            match self.glyph(chars[i]) {
                Some(glyph) => {
                    let mut gy: usize = 0;
                    while gy < GLYPH_H && y < buf_height && buf_height - y > gy
                        invariant
                            chars@ == text@,
                            w == buf_width,
                            h == buf_height,
                            total == orig.len(),
                            orig.len() >= buf_width * buf_height * 4,
                            forall|c: int| 0 <= c < 4 ==> ink_px@[c] == ink(color, c),
                            i < chars@.len(),
                            cx == x + 8 * i,
                            cx + 8 <= buf_width,
                            gy <= 8,
                            glyph_index(chars@[i as int], self.glyphs().len() as int) matches Some(g)
                                && *glyph == self.glyphs()[g],
                            buf@.len() == orig.len(),
                            text_drawn_up_to(self, text@, x as int, y as int, w, h, color, orig, buf@, i as int, gy as int, 0),
                        decreases 8 - gy,
                    {
                        let py: usize = y + gy;
                        let mut gx: usize = 0;
                        while gx < GLYPH_W
                            invariant
                                chars@ == text@,
                                w == buf_width,
                                h == buf_height,
                                total == orig.len(),
                                orig.len() >= buf_width * buf_height * 4,
                                forall|c: int| 0 <= c < 4 ==> ink_px@[c] == ink(color, c),
                                i < chars@.len(),
                                cx == x + 8 * i,
                                cx + 8 <= buf_width,
                                gy < 8,
                                gx <= 8,
                                py == y + gy,
                                py < buf_height,
                                glyph_index(chars@[i as int], self.glyphs().len() as int) matches Some(g)
                                    && *glyph == self.glyphs()[g],
                                buf@.len() == orig.len(),
                                text_drawn_up_to(self, text@, x as int, y as int, w, h, color, orig, buf@, i as int, gy as int, gx as int),
                            decreases 8 - gx,
                        {
                            let ghost before = buf@;
                            let lit: bool = glyph.pixel(gx, gy);
                            if lit {
                                proof {
                                    lemma_byte_index_bound(w, h, cx + gx, py as int, 3);
                                    assert(py * buf_width <= py * buf_width + cx + gx);
                                }
                                let idx: usize = (py * buf_width + cx + gx) * 4;
                                buf[idx] = ink_px[0];
                                buf[idx + 1] = ink_px[1];
                                buf[idx + 2] = ink_px[2];
                                buf[idx + 3] = ink_px[3];
                            }
                            proof {
                                lemma_text_step(self, text@, x as int, y as int, w, h, color, orig, before, buf@,
                                    i as int, gy as int, gx as int, lit);
                            }
                            gx = gx + 1;
                        }
                        proof {
                            assert forall|px: int, py: int| 0 <= px < w && 0 <= py < h implies
                                #[trigger] text_drawn_before(self, text@, x as int, y as int, w, h, px, py, i as int, gy as int, 8)
                                    == text_drawn_before(self, text@, x as int, y as int, w, h, px, py, i as int, gy + 1, 0) by {
                                if x <= px {
                                    vstd::arithmetic::div_mod::lemma_fundamental_div_mod(px - x, 8);
                                }
                            }
                            lemma_text_equiv(self, text@, x as int, y as int, w, h, color, orig, buf@,
                                (i as int, gy as int, 8), (i as int, gy + 1, 0));
                        }
                        gy = gy + 1;
                    }
                    proof {
                        lemma_text_equiv(self, text@, x as int, y as int, w, h, color, orig, buf@,
                            (i as int, gy as int, 0), (i + 1, 0, 0));
                    }
                },
                None => {
                    proof {
                        assert forall|px: int, py: int| 0 <= px < w && 0 <= py < h implies
                            #[trigger] text_drawn_before(self, text@, x as int, y as int, w, h, px, py, i as int, 0, 0)
                                == text_drawn_before(self, text@, x as int, y as int, w, h, px, py, i + 1, 0, 0) by {
                        }
                        lemma_text_equiv(self, text@, x as int, y as int, w, h, color, orig, buf@,
                            (i as int, 0, 0), (i + 1, 0, 0));
                    }
                },
            }
            cx = cx + GLYPH_W;
            i = i + 1;
        }
        proof {
            assert forall|px: int, py: int| 0 <= px < w && 0 <= py < h implies
                #[trigger] text_drawn_before(self, text@, x as int, y as int, w, h, px, py, i as int, 0, 0)
                    == text_lit(self, text@, x as int, y as int, w, h, px, py) by {
                if x <= px {
                    vstd::arithmetic::div_mod::lemma_fundamental_div_mod(px - x, 8);
                }
            }
        }
    }
}

} // verus!
