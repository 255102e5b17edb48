//! Packing textures side by side into one atlas image: each texture sits in
//! its own column strip, one transparent pixel apart and one pixel in from
//! the atlas border.

use vstd::prelude::*;
use crate::rgba::{byte_index, lemma_byte_index_bound, lemma_byte_index_injective};
use crate::texture::RgbaTexture;

verus! {

/// Where a texture was placed in the atlas, in pixels.
#[derive(Clone, Copy, Debug, PartialEq, Eq, Structural)]
pub struct AtlasSlot {
    pub x: u32,
    pub y: u32,
    pub width: u32,
    pub height: u32,
}

/// The texture holds a full RGBA pixel for each of its pixels.
pub open spec fn texture_wf(t: RgbaTexture) -> bool {
    t.pixels@.len() >= t.width * t.height * 4
}

/// The left edge of the strip of texture `i`: one pixel of padding, then
/// each earlier texture's width plus one pixel of padding.
pub open spec fn strip_x(ts: Seq<RgbaTexture>, i: int) -> int
    decreases i,
{
    if i <= 0 { 1 } else { strip_x(ts, i - 1) + ts[i - 1].width + 1 }
}

/// The tallest of the first `n` textures, or 1 when there are none.
pub open spec fn tallest(ts: Seq<RgbaTexture>, n: int) -> int
    decreases n,
{
    if n <= 0 {
        1
    } else if n == 1 {
        ts[0].height as int
    } else if ts[n - 1].height > tallest(ts, n - 1) {
        ts[n - 1].height as int
    } else {
        tallest(ts, n - 1)
    }
}

/// Atlas width: all textures with padding around and between them.
pub open spec fn atlas_width(ts: Seq<RgbaTexture>) -> int {
    strip_x(ts, ts.len() as int)
}

/// Atlas height: the tallest texture with a pixel of padding above and below.
pub open spec fn atlas_height(ts: Seq<RgbaTexture>) -> int {
    tallest(ts, ts.len() as int) + 2
}

/// The texture pixel (texture, x, y) shown at atlas pixel (`px`, `py`),
/// among the first `n` textures; `None` for padding.
pub open spec fn atlas_source(ts: Seq<RgbaTexture>, px: int, py: int, n: int) -> Option<(int, int, int)>
    decreases n,
{
    if n <= 0 {
        None
    } else {
        let i = n - 1;
        if strip_x(ts, i) <= px < strip_x(ts, i) + ts[i].width && 1 <= py < 1 + ts[i].height {
            Some((i, px - strip_x(ts, i), py - 1))
        } else {
            atlas_source(ts, px, py, n - 1)
        }
    }
}

/// Channel `c` of atlas pixel (`px`, `py`): the texture pixel placed there,
/// or 0 (transparent black) in the padding.
pub open spec fn atlas_byte(ts: Seq<RgbaTexture>, px: int, py: int, c: int) -> u8 {
    match atlas_source(ts, px, py, ts.len() as int) {
        Some((i, x, y)) => ts[i].pixels@[byte_index(ts[i].width as int, x, y, c)],
        None => 0,
    }
}

proof fn lemma_strip_monotone(ts: Seq<RgbaTexture>, i: int, j: int)
    requires
        0 <= i <= j <= ts.len(),
    ensures
        strip_x(ts, i) + (if i < j { ts[i].width + 1 } else { 0 }) <= strip_x(ts, j),
        strip_x(ts, i) >= 1,
    decreases j - i,
{
    if i < j {
        lemma_strip_monotone(ts, i, j - 1);
        if i < j - 1 {
            lemma_strip_monotone(ts, i, i + 1);
        }
    } else {
        lemma_strip_start(ts, i);
    }
}

proof fn lemma_strip_start(ts: Seq<RgbaTexture>, i: int)
    requires
        0 <= i <= ts.len(),
    ensures
        strip_x(ts, i) >= 1,
    decreases i,
{
    if i > 0 {
        lemma_strip_start(ts, i - 1);
    }
}

proof fn lemma_tallest(ts: Seq<RgbaTexture>, n: int, i: int)
    requires
        0 <= i < n <= ts.len(),
    ensures
        ts[i].height <= tallest(ts, n),
    decreases n,
{
    if n > 1 && i < n - 1 {
        lemma_tallest(ts, n - 1, i);
    }
}

/// A source found among the first `n` textures lies in that texture's strip.
proof fn lemma_source_in_strip(ts: Seq<RgbaTexture>, px: int, py: int, n: int)
    requires
        0 <= n <= ts.len(),
    ensures
        atlas_source(ts, px, py, n) matches Some((i, x, y)) ==> {
            &&& 0 <= i < n
            &&& 0 <= x < ts[i].width
            &&& 0 <= y < ts[i].height
            &&& px == strip_x(ts, i) + x
            &&& py == 1 + y
        },
    decreases n,
{
    if n > 0 {
        lemma_source_in_strip(ts, px, py, n - 1);
    }
}

/// A pixel of texture `i`'s region has that texture pixel as its source.
proof fn lemma_source_of_region(ts: Seq<RgbaTexture>, n: int, i: int, x: int, y: int)
    requires
        0 <= i < n <= ts.len(),
        0 <= x < ts[i].width,
        0 <= y < ts[i].height,
    ensures
        atlas_source(ts, strip_x(ts, i) + x, 1 + y, n) == Some((i, x, y)),
    decreases n,
{
    if i < n - 1 {
        lemma_strip_monotone(ts, i, n - 1);
        lemma_source_of_region(ts, n - 1, i, x, y);
    }
}

/// Whether atlas pixel (`px`, `py`) was copied before pixel (`x0`, `y0`) of
/// texture `i0`.
pub open spec fn copied_before(ts: Seq<RgbaTexture>, px: int, py: int, i0: int, y0: int, x0: int) -> bool {
    match atlas_source(ts, px, py, ts.len() as int) {
        Some((k, x, y)) => k < i0 || (k == i0 && (y < y0 || (y == y0 && x < x0))),
        None => false,
    }
}

/// `buf` holds the atlas pixels copied before (`x0`, `y0`) of texture `i0`
/// and zero elsewhere.
pub open spec fn copied_up_to(ts: Seq<RgbaTexture>, w: int, h: int, buf: Seq<u8>, i0: int, y0: int, x0: int) -> bool {
    &&& buf.len() == w * h * 4
    &&& forall|px: int, py: int, c: int| 0 <= px < w && 0 <= py < h && 0 <= c < 4 ==>
        #[trigger] buf[byte_index(w, px, py, c)] == if copied_before(ts, px, py, i0, y0, x0) {
            atlas_byte(ts, px, py, c)
        } else {
            0u8
        }
}

proof fn lemma_copy_equiv(
    ts: Seq<RgbaTexture>, w: int, h: int, buf: Seq<u8>, a: (int, int, int), b: (int, int, int),
)
    requires
        copied_up_to(ts, w, h, buf, a.0, a.1, a.2),
        forall|px: int, py: int| 0 <= px < w && 0 <= py < h ==>
            #[trigger] copied_before(ts, px, py, a.0, a.1, a.2) == copied_before(ts, px, py, b.0, b.1, b.2),
    ensures
        copied_up_to(ts, w, h, buf, b.0, b.1, b.2),
{
    assert forall|px: int, py: int, c: int| 0 <= px < w && 0 <= py < h && 0 <= c < 4 implies
        #[trigger] buf[byte_index(w, px, py, c)] == if copied_before(ts, px, py, b.0, b.1, b.2) {
            atlas_byte(ts, px, py, c)
        } else {
            0u8
        } by {
        assert(copied_before(ts, px, py, a.0, a.1, a.2) == copied_before(ts, px, py, b.0, b.1, b.2));
    }
}

proof fn lemma_copy_step(
    ts: Seq<RgbaTexture>, w: int, h: int, before: Seq<u8>, after: Seq<u8>, i0: int, y0: int, x0: int,
)
    requires
        0 <= i0 < ts.len(),
        0 <= y0 < ts[i0].height,
        0 <= x0 < ts[i0].width,
        w == atlas_width(ts),
        h == atlas_height(ts),
        copied_up_to(ts, w, h, before, i0, y0, x0),
        after.len() == before.len(),
        ({
            let index = byte_index(w, strip_x(ts, i0) + x0, 1 + y0, 0);
            &&& forall|k: int| 0 <= k < before.len() && !(index <= k < index + 4) ==> after[k] == before[k]
            &&& forall|c: int| 0 <= c < 4 ==> after[index + c] == ts[i0].pixels@[byte_index(ts[i0].width as int, x0, y0, c)]
        }),
    ensures
        copied_up_to(ts, w, h, after, i0, y0, x0 + 1),
{
    let n = ts.len() as int;
    let px0 = strip_x(ts, i0) + x0;
    let py0 = 1 + y0;
    let index = byte_index(w, px0, py0, 0);
    lemma_source_of_region(ts, n, i0, x0, y0);
    lemma_strip_monotone(ts, i0 + 1, n);
    lemma_strip_monotone(ts, i0, i0 + 1);
    lemma_tallest(ts, n, i0);
    assert(0 <= px0 < w && 0 <= py0 < h);
    assert forall|px: int, py: int, c: int| 0 <= px < w && 0 <= py < h && 0 <= c < 4 implies
        #[trigger] after[byte_index(w, px, py, c)] == if copied_before(ts, px, py, i0, y0, x0 + 1) {
            atlas_byte(ts, px, py, c)
        } else {
            0u8
        } by {
        lemma_byte_index_bound(w, h, px, py, c);
        lemma_byte_index_bound(w, h, px0, py0, c);
        if px == px0 && py == py0 {
            assert(byte_index(w, px, py, c) == index + c);
        } else {
            let k = byte_index(w, px, py, c);
            if index <= k < index + 4 {
                lemma_byte_index_bound(w, h, px0, py0, k - index);
                lemma_byte_index_injective(w, h, px, py, c, px0, py0, k - index);
            }
            lemma_source_in_strip(ts, px, py, n);
        }
    }
}

/// Lays `textures` out left to right, each in a strip one pixel in from the
/// top and separated by one pixel of padding from the border and from each
/// other: the atlas is as wide as all of that and as tall as the tallest
/// texture plus a pixel above and below; padding stays transparent black.
/// Returns the atlas and where each texture went.
pub fn build_texture_atlas(textures: &[RgbaTexture]) -> (r: (RgbaTexture, Vec<AtlasSlot>))
    requires
        forall|i: int| 0 <= i < textures@.len() ==> texture_wf(#[trigger] textures@[i]),
        atlas_width(textures@) <= u32::MAX,
        atlas_height(textures@) <= u32::MAX,
        atlas_width(textures@) * atlas_height(textures@) * 4 <= usize::MAX,
    ensures
        r.0.width == atlas_width(textures@),
        r.0.height == atlas_height(textures@),
        r.0.pixels@.len() == r.0.width * r.0.height * 4,
        forall|px: int, py: int, c: int| 0 <= px < r.0.width && 0 <= py < r.0.height && 0 <= c < 4 ==>
            #[trigger] r.0.pixels@[byte_index(r.0.width as int, px, py, c)] == atlas_byte(textures@, px, py, c),
        r.1@.len() == textures@.len(),
        forall|i: int| 0 <= i < textures@.len() ==> #[trigger] r.1@[i] == (AtlasSlot {
            x: #[verifier::truncate] (strip_x(textures@, i) as u32),
            y: 1,
            width: textures@[i].width,
            height: textures@[i].height,
        }),
{
    let ghost ts = textures@;
    let n: usize = textures.len();
    let mut width: u32 = 1;
    let mut i: usize = 0;
    while i < n
        invariant
            ts == textures@,
            n == ts.len(),
            i <= n,
            width == strip_x(ts, i as int),
            atlas_width(ts) <= u32::MAX,
        decreases n - i,
    {
        proof {
            lemma_strip_monotone(ts, i as int, i + 1);
            lemma_strip_monotone(ts, i + 1, n as int);
        }
        width = width + textures[i].width + 1;
        i = i + 1;
    }
    let mut tall: u32 = 1;
    let mut i: usize = 0;
    while i < n
        invariant
            ts == textures@,
            n == ts.len(),
            i <= n,
            tall == tallest(ts, i as int),
        decreases n - i,
    {
        if i == 0 || textures[i].height > tall {
            tall = textures[i].height;
        }
        i = i + 1;
    }
    let height: u32 = tall + 2;
    let w: usize = width as usize;
    let h: usize = height as usize;
    let total: usize = w * h * 4;
    let mut pixels: Vec<u8> = Vec::new();
    let mut k: usize = 0;
    while k < total
        invariant
            k <= total,
            pixels@ == Seq::new(k as nat, |j: int| 0u8),
        decreases total - k,
    {
        pixels.push(0);
        k = k + 1;
        proof {
            assert(pixels@ =~= Seq::new(k as nat, |j: int| 0u8));
        }
    }
    let ghost wi = w as int;
    let ghost hi = h as int;
    proof {
        assert forall|px: int, py: int, c: int| 0 <= px < wi && 0 <= py < hi && 0 <= c < 4 implies
            #[trigger] pixels@[byte_index(wi, px, py, c)] == if copied_before(ts, px, py, 0, 0, 0) {
                atlas_byte(ts, px, py, c)
            } else {
                0u8
            } by {
            lemma_byte_index_bound(wi, hi, px, py, c);
            lemma_source_in_strip(ts, px, py, n as int);
        }
    }
    let mut slots: Vec<AtlasSlot> = Vec::new();
    let mut cursor_x: u32 = 1;
    let mut i: usize = 0;
    while i < n
        invariant
            ts == textures@,
            n == ts.len(),
            i <= n,
            wi == w,
            hi == h,
            w == atlas_width(ts),
            h == atlas_height(ts),
            total == w * h * 4,
            atlas_width(ts) <= u32::MAX,
            forall|q: int| 0 <= q < ts.len() ==> texture_wf(#[trigger] ts[q]),
            cursor_x == strip_x(ts, i as int),
            copied_up_to(ts, wi, hi, pixels@, i as int, 0, 0),
            slots@.len() == i,
            forall|q: int| 0 <= q < i ==> #[trigger] slots@[q] == (AtlasSlot {
                x: #[verifier::truncate] (strip_x(ts, q) as u32),
                y: 1,
                width: ts[q].width,
                height: ts[q].height,
            }),
        decreases n - i,
    {
        let tex = &textures[i];
        let tw: usize = tex.width as usize;
        let th: usize = tex.height as usize;
        proof {
            lemma_strip_monotone(ts, i as int, i + 1);
            lemma_strip_monotone(ts, i + 1, n as int);
            lemma_tallest(ts, n as int, i as int);
            assert(texture_wf(ts[i as int]));
        }
        let plen: usize = tex.pixels.len();
        let mut y: usize = 0;
        while y < th
            invariant
                ts == textures@,
                n == ts.len(),
                i < n,
                tex == &ts[i as int],
                tw == tex.width,
                th == tex.height,
                wi == w,
                hi == h,
                w == atlas_width(ts),
                h == atlas_height(ts),
                total == w * h * 4,
                texture_wf(*tex),
                plen == tex.pixels@.len(),
                cursor_x == strip_x(ts, i as int),
                cursor_x + tw < w,
                th + 2 <= h,
                y <= th,
                copied_up_to(ts, wi, hi, pixels@, i as int, y as int, 0),
            decreases th - y,
        {
            let mut x: usize = 0;
            while x < tw
                invariant
                    ts == textures@,
                    n == ts.len(),
                    plen == tex.pixels@.len(),
                    i < n,
                    tex == &ts[i as int],
                    tw == tex.width,
                    th == tex.height,
                    wi == w,
                    hi == h,
                    w == atlas_width(ts),
                    h == atlas_height(ts),
                    total == w * h * 4,
                    texture_wf(*tex),
                    cursor_x == strip_x(ts, i as int),
                    cursor_x + tw < w,
                    th + 2 <= h,
                    y < th,
                    x <= tw,
                    copied_up_to(ts, wi, hi, pixels@, i as int, y as int, x as int),
                decreases tw - x,
            {
                proof {
                    lemma_byte_index_bound(tw as int, th as int, x as int, y as int, 3);
                    lemma_byte_index_bound(wi, hi, cursor_x + x, 1 + y, 3);
                    assert(y * tw <= y * tw + x);
                    assert((1 + y) * w <= (1 + y) * w + cursor_x + x);
                }
                let src: usize = (y * tw + x) * 4;
                let dst: usize = ((1 + y) * w + cursor_x as usize + x) * 4;
                let ghost before = pixels@;
                let p0: u8 = tex.pixels[src];
                let p1: u8 = tex.pixels[src + 1];
                let p2: u8 = tex.pixels[src + 2];
                let p3: u8 = tex.pixels[src + 3];
                pixels.set(dst, p0);
                pixels.set(dst + 1, p1);
                pixels.set(dst + 2, p2);
                pixels.set(dst + 3, p3);
                proof {
                    assert forall|c: int| 0 <= c < 4 implies
                        #[trigger] pixels@[dst + c] == ts[i as int].pixels@[byte_index(tw as int, x as int, y as int, c)] by {
                        lemma_byte_index_bound(tw as int, th as int, x as int, y as int, c);
                    }
                    lemma_copy_step(ts, wi, hi, before, pixels@, i as int, y as int, x as int);
                }
                x = x + 1;
            }
            proof {
                assert forall|px: int, py: int| 0 <= px < wi && 0 <= py < hi implies
                    #[trigger] copied_before(ts, px, py, i as int, y as int, tw as int)
                        == copied_before(ts, px, py, i as int, y + 1, 0) by {
                    lemma_source_in_strip(ts, px, py, n as int);
                }
                lemma_copy_equiv(ts, wi, hi, pixels@, (i as int, y as int, tw as int), (i as int, y + 1, 0));
            }
            y = y + 1;
        }
        proof {
            assert forall|px: int, py: int| 0 <= px < wi && 0 <= py < hi implies
                #[trigger] copied_before(ts, px, py, i as int, th as int, 0)
                    == copied_before(ts, px, py, i + 1, 0, 0) by {
                lemma_source_in_strip(ts, px, py, n as int);
            }
            lemma_copy_equiv(ts, wi, hi, pixels@, (i as int, th as int, 0), (i + 1, 0, 0));
        }
        slots.push(AtlasSlot { x: cursor_x, y: 1, width: tex.width, height: tex.height });
        cursor_x = cursor_x + tex.width + 1;
        i = i + 1;
    }
    proof {
        assert forall|px: int, py: int, c: int| 0 <= px < wi && 0 <= py < hi && 0 <= c < 4 implies
            #[trigger] pixels@[byte_index(wi, px, py, c)] == atlas_byte(ts, px, py, c) by {
            lemma_source_in_strip(ts, px, py, n as int);
        }
    }
    (RgbaTexture { width, height, pixels }, slots)
}

} // verus!
