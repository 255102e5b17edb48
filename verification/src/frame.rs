//! Binary frame messages sent by the sprite-editor bridge: a 9-byte
//! little-endian header (width, height, color mode) followed by pixel data,
//! and conversion of that pixel data to RGBA presentation requests.

use vstd::prelude::*;
use crate::presentation::{PresentationRequest, rgba_len};

verus! {

/// Pixel layout of incoming frame data.
#[derive(Debug, Clone, Copy, PartialEq, Eq, Structural)]
pub enum ColorMode {
    /// RGBA, 4 bytes per pixel (wire value 0).
    Rgb,
    /// Value and alpha, 2 bytes per pixel (wire value 1).
    Grayscale,
    /// Palette index, 1 byte per pixel (wire value 2).
    Indexed,
}

/// Why a frame message was rejected.
#[derive(Debug, Clone, Copy, PartialEq, Eq, Structural)]
pub enum FrameError {
    /// The color-mode byte is not 0, 1 or 2.
    InvalidColorMode(u8),
    /// Fewer than 9 header bytes were supplied; holds the length received.
    HeaderTooShort(usize),
    /// The message length differs from 9 header bytes plus the pixel data
    /// that the header announces.
    SizeMismatch { expected_total: usize, actual: usize },
    /// The converted RGBA data does not hold 4 bytes for every pixel.
    InvalidRequest,
}

/// The color mode that a wire value denotes, if any.
pub open spec fn spec_color_mode(value: u8) -> Option<ColorMode> {
    if value == 0 {
        Some(ColorMode::Rgb)
    } else if value == 1 {
        Some(ColorMode::Grayscale)
    } else if value == 2 {
        Some(ColorMode::Indexed)
    } else {
        None
    }
}

/// The wire value of a color mode.
pub open spec fn spec_color_mode_value(mode: ColorMode) -> u8 {
    match mode {
        ColorMode::Rgb => 0,
        ColorMode::Grayscale => 1,
        ColorMode::Indexed => 2,
    }
}

/// Bytes per pixel of a color mode.
pub open spec fn spec_bytes_per_pixel(mode: ColorMode) -> nat {
    match mode {
        ColorMode::Rgb => 4,
        ColorMode::Grayscale => 2,
        ColorMode::Indexed => 1,
    }
}

impl ColorMode {
    /// Decodes a wire value: 0, 1 and 2 name the three modes, anything else is an error.
    pub fn from_u8(value: u8) -> (r: Result<ColorMode, FrameError>)
        ensures
            match spec_color_mode(value) {
                Some(m) => r == Ok::<ColorMode, FrameError>(m),
                None => r == Err::<ColorMode, FrameError>(FrameError::InvalidColorMode(value)),
            },
    {
        match value {
            0 => Ok(ColorMode::Rgb),
            1 => Ok(ColorMode::Grayscale),
            2 => Ok(ColorMode::Indexed),
            _ => Err(FrameError::InvalidColorMode(value)),
        }
    }

    /// Bytes per pixel: 4 for RGB, 2 for grayscale, 1 for indexed.
    pub fn bytes_per_pixel(&self) -> (n: usize)
        ensures
            n == spec_bytes_per_pixel(*self),
    {
        match self {
            ColorMode::Rgb => 4,
            ColorMode::Grayscale => 2,
            ColorMode::Indexed => 1,
        }
    }
}

/// The header of a frame message.
#[derive(Debug, Clone, Copy, PartialEq, Eq, Structural)]
pub struct FrameHeader {
    pub width: u32,
    pub height: u32,
    /// Wire value of the color mode (0 = RGB, 1 = grayscale, 2 = indexed).
    pub color_mode: u8,
}

/// Pixel-data bytes announced by a header whose color mode is `mode`.
pub open spec fn spec_pixel_data_size(h: FrameHeader, mode: ColorMode) -> int {
    h.width * h.height * spec_bytes_per_pixel(mode)
}

/// The announced pixel data of a header fits in `usize` (or its mode is
/// invalid, in which case nothing is computed).
pub open spec fn pixel_size_fits(h: FrameHeader) -> bool {
    match spec_color_mode(h.color_mode) {
        Some(m) => spec_pixel_data_size(h, m) <= usize::MAX,
        None => true,
    }
}

/// The whole message a header announces (9 header bytes plus its pixel
/// data) has a length that fits in `usize` (or its mode is invalid).
pub open spec fn header_size_fits(h: FrameHeader) -> bool {
    match spec_color_mode(h.color_mode) {
        Some(m) => 9 + spec_pixel_data_size(h, m) <= usize::MAX,
        None => true,
    }
}

impl FrameHeader {
    /// The color mode of this header.
    pub fn color_mode(&self) -> (r: Result<ColorMode, FrameError>)
        ensures
            match spec_color_mode(self.color_mode) {
                Some(m) => r == Ok::<ColorMode, FrameError>(m),
                None => r == Err::<ColorMode, FrameError>(FrameError::InvalidColorMode(self.color_mode)),
            },
    {
        ColorMode::from_u8(self.color_mode)
    }

    /// Width x height x bytes per pixel, or the color-mode error.
    pub fn expected_pixel_data_size(&self) -> (r: Result<usize, FrameError>)
        requires
            pixel_size_fits(*self),
        ensures
            match spec_color_mode(self.color_mode) {
                Some(m) => r == Ok::<usize, FrameError>(spec_pixel_data_size(*self, m) as usize)
                    && spec_pixel_data_size(*self, m) <= usize::MAX,
                None => r == Err::<usize, FrameError>(FrameError::InvalidColorMode(self.color_mode)),
            },
    {
        let mode = self.color_mode()?;
        let w: usize = self.width as usize;
        let h: usize = self.height as usize;
        let bpp: usize = mode.bytes_per_pixel();
        proof {
            assert(w * h <= w * h * bpp) by (nonlinear_arith)
                requires bpp >= 1, w * h >= 0;
        }
        let wh: usize = w * h;
        Ok(wh * bpp)
    }
}

/// The little-endian `u32` held in `s[at..at + 4]`.
pub open spec fn spec_le_u32(s: Seq<u8>, at: int) -> int {
    s[at] + 256 * s[at + 1] + 65536 * s[at + 2] + 16777216 * s[at + 3]
}

/// What parsing the header of `data` gives.
pub open spec fn spec_parse_header(data: Seq<u8>) -> Result<FrameHeader, FrameError> {
    if data.len() < 9 {
        Err(FrameError::HeaderTooShort(data.len() as usize))
    } else if spec_color_mode(data[8]) is None {
        Err(FrameError::InvalidColorMode(data[8]))
    } else {
        Ok(FrameHeader {
            width: spec_le_u32(data, 0) as u32,
            height: spec_le_u32(data, 4) as u32,
            color_mode: data[8],
        })
    }
}

fn le_u32_at(data: &[u8], at: usize) -> (v: u32)
    requires
        at + 4 <= data@.len(),
    ensures
        v == spec_le_u32(data@, at as int),
{
    let b0: u32 = data[at] as u32;
    let b1: u32 = data[at + 1] as u32;
    let b2: u32 = data[at + 2] as u32;
    let b3: u32 = data[at + 3] as u32;
    b0 + 256 * b1 + 65536 * b2 + 16777216 * b3
}

/// Parses the 9-byte header: width (LE u32), height (LE u32), color mode byte.
/// Bytes past the ninth are ignored.
pub fn parse_frame_header(data: &[u8]) -> (r: Result<FrameHeader, FrameError>)
    ensures
        r == spec_parse_header(data@),
{
    if data.len() < 9 {
        return Err(FrameError::HeaderTooShort(data.len()));
    }
    let width: u32 = le_u32_at(data, 0);
    let height: u32 = le_u32_at(data, 4);
    let color_mode_value: u8 = data[8];
    ColorMode::from_u8(color_mode_value)?;
    Ok(FrameHeader { width, height, color_mode: color_mode_value })
}

/// Checks that a message of `total_data_len` bytes holds exactly the 9-byte
/// header plus the pixel data that `header` announces.
pub fn validate_frame_size(header: &FrameHeader, total_data_len: usize) -> (r: Result<(), FrameError>)
    requires
        header_size_fits(*header),
    ensures
        match spec_color_mode(header.color_mode) {
            None => r == Err::<(), FrameError>(FrameError::InvalidColorMode(header.color_mode)),
            Some(m) => if total_data_len == 9 + spec_pixel_data_size(*header, m) {
                r == Ok::<(), FrameError>(())
            } else {
                r == Err::<(), FrameError>(FrameError::SizeMismatch {
                    expected_total: (9 + spec_pixel_data_size(*header, m)) as usize,
                    actual: total_data_len,
                })
            },
        },
{
    let expected_pixel_data_size: usize = header.expected_pixel_data_size()?;
    let expected_total_size: usize = 9 + expected_pixel_data_size;
    if total_data_len != expected_total_size {
        return Err(FrameError::SizeMismatch { expected_total: expected_total_size, actual: total_data_len });
    }
    Ok(())
}

/// Grayscale (value, alpha) pairs expanded to (value, value, value, alpha);
/// a trailing odd byte is dropped.
pub open spec fn grayscale_to_rgba(data: Seq<u8>) -> Seq<u8> {
    Seq::new(
        (data.len() / 2 * 4) as nat,
        |j: int| if j % 4 == 3 { data[2 * (j / 4) + 1] } else { data[2 * (j / 4)] },
    )
}

/// Palette indices shown as opaque gray: each index `i` becomes (i, i, i, 255).
pub open spec fn indexed_to_rgba(data: Seq<u8>) -> Seq<u8> {
    Seq::new((data.len() * 4) as nat, |j: int| if j % 4 == 3 { 255u8 } else { data[j / 4] })
}

/// The RGBA bytes that frame data in `mode` converts to.
pub open spec fn converted_rgba(mode: ColorMode, data: Seq<u8>) -> Seq<u8> {
    match mode {
        ColorMode::Rgb => data,
        ColorMode::Grayscale => grayscale_to_rgba(data),
        ColorMode::Indexed => indexed_to_rgba(data),
    }
}

proof fn lemma_div_mod_4(k: int, c: int)
    requires
        0 <= k,
        0 <= c < 4,
    ensures
        (4 * k + c) / 4 == k,
        (4 * k + c) % 4 == c,
{
    vstd::arithmetic::div_mod::lemma_fundamental_div_mod_converse(4 * k + c, 4, k, c);
}

/// RGB frame data is already RGBA: the bytes are copied unchanged.
pub fn convert_rgba(data: &[u8]) -> (r: Result<Vec<u8>, FrameError>)
    ensures
        r matches Ok(v) && v@ == data@,
{
    let mut out: Vec<u8> = Vec::new();
    let mut i: usize = 0;
    while i < data.len()
        invariant
            i <= data@.len(),
            out@ == data@.take(i as int),
        decreases data@.len() - i,
    {
        out.push(data[i]);
        i = i + 1;
        proof {
            assert(out@ =~= data@.take(i as int));
        }
    }
    proof {
        assert(data@.take(data@.len() as int) =~= data@);
    }
    Ok(out)
}

/// Expands (value, alpha) pairs to (value, value, value, alpha).
pub fn convert_grayscale(data: &[u8]) -> (r: Result<Vec<u8>, FrameError>)
    requires
        data@.len() * 2 <= usize::MAX,
    ensures
        r matches Ok(v) && v@ == grayscale_to_rgba(data@),
{
    let n: usize = data.len() / 2;
    let mut out: Vec<u8> = Vec::new();
    let mut k: usize = 0;
    while k < n
        invariant
            n == data@.len() / 2,
            data@.len() * 2 <= usize::MAX,
            k <= n,
            out@.len() == 4 * k,
            forall|j: int| 0 <= j < 4 * k ==> out@[j] == grayscale_to_rgba(data@)[j],
        decreases n - k,
    {
        let value: u8 = data[2 * k];
        let alpha: u8 = data[2 * k + 1];
        let ghost before = out@;
        out.push(value);
        out.push(value);
        out.push(value);
        out.push(alpha);
        proof {
            assert forall|j: int| 0 <= j < 4 * (k + 1) implies out@[j] == grayscale_to_rgba(data@)[j] by {
                if j >= 4 * k {
                    lemma_div_mod_4(k as int, j - 4 * k);
                } else {
                    assert(out@[j] == before[j]);
                }
            }
        }
        k = k + 1;
    }
    proof {
        assert(out@ =~= grayscale_to_rgba(data@));
    }
    Ok(out)
}

/// Shows palette indices as opaque gray: index `i` becomes (i, i, i, 255).
pub fn convert_indexed(data: &[u8]) -> (r: Result<Vec<u8>, FrameError>)
    requires
        data@.len() * 4 <= usize::MAX,
    ensures
        r matches Ok(v) && v@ == indexed_to_rgba(data@),
{
    let mut out: Vec<u8> = Vec::new();
    let mut k: usize = 0;
    while k < data.len()
        invariant
            data@.len() * 4 <= usize::MAX,
            k <= data@.len(),
            out@.len() == 4 * k,
            forall|j: int| 0 <= j < 4 * k ==> out@[j] == indexed_to_rgba(data@)[j],
        decreases data@.len() - k,
    {
        let index: u8 = data[k];
        let ghost before = out@;
        out.push(index);
        out.push(index);
        out.push(index);
        out.push(255u8);
        proof {
            assert forall|j: int| 0 <= j < 4 * (k + 1) implies out@[j] == indexed_to_rgba(data@)[j] by {
                if j >= 4 * k {
                    lemma_div_mod_4(k as int, j - 4 * k);
                } else {
                    assert(out@[j] == before[j]);
                }
            }
        }
        k = k + 1;
    }
    proof {
        assert(out@ =~= indexed_to_rgba(data@));
    }
    Ok(out)
}

/// Converts frame pixel data in `color_mode` to RGBA and wraps it in a
/// presentation request; fails when the RGBA data does not hold exactly
/// 4 bytes per pixel of a `width` x `height` frame.
pub fn to_presentation_request(
    width: u32,
    height: u32,
    color_mode: ColorMode,
    pixel_data: &[u8],
    frame_number: u64,
) -> (r: Result<PresentationRequest, FrameError>)
    requires
        pixel_data@.len() * 4 <= usize::MAX,
    ensures
        match r {
            Ok(req) => {
                &&& converted_rgba(color_mode, pixel_data@).len() == rgba_len(width, height)
                &&& req.pixel_data@ == converted_rgba(color_mode, pixel_data@)
                &&& req.width == width
                &&& req.height == height
                &&& req.frame_number == frame_number
            },
            Err(e) => {
                &&& converted_rgba(color_mode, pixel_data@).len() != rgba_len(width, height)
                &&& e == FrameError::InvalidRequest
            },
        },
{
    let rgba_data = match color_mode {
        ColorMode::Rgb => convert_rgba(pixel_data)?,
        ColorMode::Grayscale => convert_grayscale(pixel_data)?,
        ColorMode::Indexed => convert_indexed(pixel_data)?,
    };
    let request = PresentationRequest::new(rgba_data, width, height, frame_number);
    if !request.is_valid() {
        return Err(FrameError::InvalidRequest);
    }
    Ok(request)
}

/// Turns a whole frame message (9-byte header, then pixel data) into a
/// presentation request numbered `frame_number`: the header is parsed, the
/// message length checked against it, and the pixel data converted to RGBA.
pub fn frame_message_to_request(data: &[u8], frame_number: u64) -> (r: Result<PresentationRequest, FrameError>)
    requires
        data@.len() * 4 <= usize::MAX,
        spec_parse_header(data@) matches Ok(h) ==> header_size_fits(h),
    ensures
        match spec_parse_header(data@) {
            Err(e) => r == Err::<PresentationRequest, FrameError>(e),
            Ok(h) => {
                let m = spec_color_mode(h.color_mode).unwrap();
                if data@.len() == 9 + spec_pixel_data_size(h, m) {
                    r matches Ok(req) && {
                        &&& req.pixel_data@ == converted_rgba(m, data@.skip(9))
                        &&& req.width == h.width
                        &&& req.height == h.height
                        &&& req.frame_number == frame_number
                    }
                } else {
                    r == Err::<PresentationRequest, FrameError>(FrameError::SizeMismatch {
                        expected_total: (9 + spec_pixel_data_size(h, m)) as usize,
                        actual: data@.len() as usize,
                    })
                }
            },
        },
{
    let header = parse_frame_header(data)?;
    validate_frame_size(&header, data.len())?;
    let pixel_data = vstd::slice::slice_subrange(data, 9, data.len());
    let mode = header.color_mode()?;
    proof {
        assert(pixel_data@ =~= data@.skip(9));
        lemma_conversion_fills_frame(header.width, header.height, mode, pixel_data@);
    }
    to_presentation_request(header.width, header.height, mode, pixel_data, frame_number)
}

/// The 9 header bytes that encode `h`.
pub open spec fn encode_header(h: FrameHeader) -> Seq<u8> {
    seq![
        (h.width & 0xff) as u8, ((h.width >> 8u32) & 0xff) as u8,
        ((h.width >> 16u32) & 0xff) as u8, ((h.width >> 24u32) & 0xff) as u8,
        (h.height & 0xff) as u8, ((h.height >> 8u32) & 0xff) as u8,
        ((h.height >> 16u32) & 0xff) as u8, ((h.height >> 24u32) & 0xff) as u8,
        h.color_mode,
    ]
}

proof fn lemma_le_bytes(v: u32)
    ensures
        ((v & 0xff) as u8) + 256 * (((v >> 8u32) & 0xff) as u8) + 65536 * (((v >> 16u32) & 0xff) as u8)
            + 16777216 * (((v >> 24u32) & 0xff) as u8) == v,
{
    let b0: u32 = v & 0xff;
    let b1: u32 = (v >> 8u32) & 0xff;
    let b2: u32 = (v >> 16u32) & 0xff;
    let b3: u32 = (v >> 24u32) & 0xff;
    assert(b0 + 256 * b1 + 65536 * b2 + 16777216 * b3 == v) by (bit_vector)
        requires
            b0 == v & 0xff,
            b1 == (v >> 8u32) & 0xff,
            b2 == (v >> 16u32) & 0xff,
            b3 == (v >> 24u32) & 0xff,
    ;
    assert(b0 < 256 && b1 < 256 && b2 < 256 && b3 < 256) by (bit_vector)
        requires
            b0 == v & 0xff,
            b1 == (v >> 8u32) & 0xff,
            b2 == (v >> 16u32) & 0xff,
            b3 == (v >> 24u32) & 0xff,
    ;
}

/// Round trip: parsing the encoding of a header with a valid color mode gives
/// that header back.
pub proof fn lemma_header_round_trip(h: FrameHeader)
    requires
        h.color_mode < 3,
    ensures
        spec_parse_header(encode_header(h)) == Ok::<FrameHeader, FrameError>(h),
{
    lemma_le_bytes(h.width);
    lemma_le_bytes(h.height);
}

/// Size consistency: frame data of exactly width x height x (bytes per pixel)
/// bytes converts to exactly width x height x 4 RGBA bytes, so the
/// presentation request built from it is valid.
pub proof fn lemma_conversion_fills_frame(width: u32, height: u32, mode: ColorMode, data: Seq<u8>)
    requires
        data.len() == width * height * spec_bytes_per_pixel(mode),
    ensures
        converted_rgba(mode, data).len() == rgba_len(width, height),
{
    let wh: int = width * height;
    assert(wh >= 0) by (nonlinear_arith)
        requires width >= 0, height >= 0, wh == width * height;
    match mode {
        ColorMode::Rgb => {
            assert(width * height * 4 == wh * 4) by (nonlinear_arith) requires wh == width * height;
        },
        ColorMode::Grayscale => {
            assert(width * height * 2 == wh * 2) by (nonlinear_arith) requires wh == width * height;
            assert(width * height * 4 == wh * 4) by (nonlinear_arith) requires wh == width * height;
            assert((wh * 2) / 2 == wh);
        },
        ColorMode::Indexed => {
            assert(width * height * 1 == wh) by (nonlinear_arith) requires wh == width * height;
            assert(width * height * 4 == wh * 4) by (nonlinear_arith) requires wh == width * height;
        },
    }
}

} // verus!
