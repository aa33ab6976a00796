//! The output image: a flat, append-only sequence of channel values.

use vstd::prelude::*;

verus! {

/// Number of channel entries that one pixel occupies.
pub const CHANNELS_PER_PIXEL: usize = 3;

/// Why a finished render is not a whole image.
#[derive(Clone, Copy, Debug, PartialEq, Eq, Structural)]
pub enum RenderError {
    /// The buffer does not hold exactly `width * height * 3` entries.
    BufferSizeMismatch,
}

/// An image under construction. Pixels are appended in scan order, three
/// entries (red, green, blue) per pixel; nothing is ever removed or rewritten.
pub struct RenderBufferI32 {
    pub width: usize,
    pub height: usize,
    pub buffer: Vec<i32>,
}

impl RenderBufferI32 {
    /// Number of entries that a whole image of this shape holds.
    pub open spec fn expected_len(&self) -> int {
        self.width * self.height * CHANNELS_PER_PIXEL
    }

    /// The image is whole: every pixel has been appended, and no more.
    pub open spec fn is_complete(&self) -> bool {
        self.buffer@.len() == self.expected_len()
    }

    /// An empty buffer for an image of `width` by `height` pixels.
    pub fn new(width: usize, height: usize) -> (result: RenderBufferI32)
        requires
            width * height * CHANNELS_PER_PIXEL <= usize::MAX,
        ensures
            result.width == width,
            result.height == height,
            result.buffer@ == Seq::<i32>::empty(),
    {
        assert(width * height <= width * height * CHANNELS_PER_PIXEL) by (nonlinear_arith);
        let size: usize = width * height * CHANNELS_PER_PIXEL;
        RenderBufferI32 { width: width, height: height, buffer: Vec::with_capacity(size) }
    }

    /// Appends one pixel as its three channel values.
    pub fn push_pixel(&mut self, r: i32, g: i32, b: i32)
        ensures
            final(self).width == old(self).width,
            final(self).height == old(self).height,
            final(self).buffer@ == old(self).buffer@.push(r).push(g).push(b),
    {
        self.buffer.push(r);
        self.buffer.push(g);
        self.buffer.push(b);
    }

    /// Compares the entries present with the entries a whole image needs.
    pub fn check_complete(&self) -> (result: Result<(), RenderError>)
        ensures
            result is Ok <==> self.is_complete(),
            result is Err ==> result == Err::<(), RenderError>(RenderError::BufferSizeMismatch),
    {
        let len: usize = self.buffer.len();
        match self.width.checked_mul(self.height) {
            Some(pixels) => match pixels.checked_mul(CHANNELS_PER_PIXEL) {
                Some(expected) => {
                    if len == expected {
                        Ok(())
                    } else {
                        Err(RenderError::BufferSizeMismatch)
                    }
                },
                None => Err(RenderError::BufferSizeMismatch),
            },
            None => {
                assert(self.width * self.height <= self.width * self.height * 3) by (nonlinear_arith);
                Err(RenderError::BufferSizeMismatch)
            },
        }
    }
}

} // verus!
