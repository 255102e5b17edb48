//! Frame presentation requests and plain sizes.

use vstd::prelude::*;
use vstd::std_specs::ops::AddSpec;
use vstd::std_specs::ops::SubSpec;

verus! {

/// The number of bytes of RGBA pixel data that a `width` x `height` frame holds.
pub open spec fn rgba_len(width: u32, height: u32) -> int {
    width * height * 4
}

/// A frame to present: RGBA pixel data (4 bytes per pixel, row-major) with its
/// dimensions and sequence number.
#[derive(Debug, Clone, PartialEq, Eq)]
pub struct PresentationRequest {
    pub pixel_data: Vec<u8>,
    pub width: u32,
    pub height: u32,
    pub frame_number: u64,
}

impl PresentationRequest {
    /// Bundles pixel data and frame metadata; no validation is performed.
    pub fn new(pixel_data: Vec<u8>, width: u32, height: u32, frame_number: u64) -> (r: Self)
        ensures
            r.pixel_data@ == pixel_data@,
            r.width == width,
            r.height == height,
            r.frame_number == frame_number,
    {
        PresentationRequest { pixel_data, width, height, frame_number }
    }

    /// True exactly when the pixel data holds 4 bytes for every pixel.
    pub fn is_valid(&self) -> (valid: bool)
        ensures
            valid == (self.pixel_data@.len() == rgba_len(self.width, self.height)),
    {
        let w: usize = self.width as usize;
        let h: usize = self.height as usize;
        proof {
            assert(rgba_len(self.width, self.height) == (w * h) * 4) by (nonlinear_arith)
                requires w == self.width, h == self.height;
            assert(w * h >= 0 && (w * h) * 4 >= w * h) by (nonlinear_arith) requires w >= 0, h >= 0;
        }
        let actual: usize = self.pixel_data.len();
        match w.checked_mul(h) {
            Some(px) => match px.checked_mul(4) {
                Some(len) => actual == len,
                None => false,
            },
            None => false,
        }
    }
}

/// A width and a height.
#[derive(Default, Debug, Copy, Clone, PartialEq, Eq)]
pub struct Size<T> {
    pub width: T,
    pub height: T,
}

impl<T> Size<T> {
    /// Creates a size with the given width and height.
    pub fn new(width: T, height: T) -> (s: Self)
        ensures
            s.width == width,
            s.height == height,
    {
        Size { width, height }
    }
}

/// Adds the widths and the heights.
impl<T: core::ops::Add<Output = T>> core::ops::Add for Size<T> {
    type Output = Size<T>;

    fn add(self, rhs: Self) -> (r: Size<T>) {
        Size { width: self.width + rhs.width, height: self.height + rhs.height }
    }
}

impl<T: core::ops::Add<Output = T>> vstd::std_specs::ops::AddSpecImpl for Size<T> {
    open spec fn obeys_add_spec() -> bool {
        T::obeys_add_spec()
    }

    open spec fn add_req(self, rhs: Self) -> bool {
        self.width.add_req(rhs.width) && self.height.add_req(rhs.height)
    }

    open spec fn add_spec(self, rhs: Self) -> Size<T> {
        Size { width: self.width.add_spec(rhs.width), height: self.height.add_spec(rhs.height) }
    }
}

/// Adds the same amount to the width and to the height.
impl<T: core::ops::Add<T, Output = T> + Copy> core::ops::Add<T> for Size<T> {
    type Output = Size<T>;

    fn add(self, rhs: T) -> (r: Size<T>) {
        Size { width: self.width + rhs, height: self.height + rhs }
    }
}

impl<T: core::ops::Add<T, Output = T> + Copy> vstd::std_specs::ops::AddSpecImpl<T> for Size<T> {
    open spec fn obeys_add_spec() -> bool {
        T::obeys_add_spec()
    }

    open spec fn add_req(self, rhs: T) -> bool {
        self.width.add_req(rhs) && self.height.add_req(rhs)
    }

    open spec fn add_spec(self, rhs: T) -> Size<T> {
        Size { width: self.width.add_spec(rhs), height: self.height.add_spec(rhs) }
    }
}

/// Subtracts the widths and the heights.
impl<T: core::ops::Sub<Output = T>> core::ops::Sub for Size<T> {
    type Output = Size<T>;

    fn sub(self, rhs: Self) -> (r: Size<T>) {
        Size { width: self.width - rhs.width, height: self.height - rhs.height }
    }
}

impl<T: core::ops::Sub<Output = T>> vstd::std_specs::ops::SubSpecImpl for Size<T> {
    open spec fn obeys_sub_spec() -> bool {
        T::obeys_sub_spec()
    }

    open spec fn sub_req(self, rhs: Self) -> bool {
        self.width.sub_req(rhs.width) && self.height.sub_req(rhs.height)
    }

    open spec fn sub_spec(self, rhs: Self) -> Size<T> {
        Size { width: self.width.sub_spec(rhs.width), height: self.height.sub_spec(rhs.height) }
    }
}

/// Subtracts the same amount from the width and from the height.
impl<T: core::ops::Sub<T, Output = T> + Copy> core::ops::Sub<T> for Size<T> {
    type Output = Size<T>;

    fn sub(self, rhs: T) -> (r: Size<T>) {
        Size { width: self.width - rhs, height: self.height - rhs }
    }
}

impl<T: core::ops::Sub<T, Output = T> + Copy> vstd::std_specs::ops::SubSpecImpl<T> for Size<T> {
    open spec fn obeys_sub_spec() -> bool {
        T::obeys_sub_spec()
    }

    open spec fn sub_req(self, rhs: T) -> bool {
        self.width.sub_req(rhs) && self.height.sub_req(rhs)
    }

    open spec fn sub_spec(self, rhs: T) -> Size<T> {
        Size { width: self.width.sub_spec(rhs), height: self.height.sub_spec(rhs) }
    }
}

/// Something (a surface, a texture) that can report its size.
pub trait GetSize<C> {
    type Error;

    /// The size of the object.
    fn size(&self) -> Result<Size<C>, Self::Error>;
}

} // verus!
