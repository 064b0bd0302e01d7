//! The pixel grid the codec reads and writes: a rectangular, row-major array
//! of pixels, three channel bytes (red, green, blue) per pixel.

use vstd::prelude::*;

verus! {

/// A decoded raster: `width * height` pixels, each pixel three channel bytes
/// (red, green, blue) stored consecutively in row-major order.
///
/// An alpha channel, if the source image had one, is not carried here: the
/// codec never reads or writes it.
#[derive(Clone, Debug)]
pub struct PixelGrid {
    /// Grid width in pixels.
    pub width: usize,
    /// Grid height in pixels.
    pub height: usize,
    /// Channel bytes, `3 * width * height` of them: pixel `p` occupies
    /// `data[3 * p .. 3 * p + 3]` as (red, green, blue).
    pub data: Vec<u8>,
}

impl PixelGrid {
    /// A grid is well formed when its byte buffer holds exactly three bytes
    /// per pixel.
    pub open spec fn wf(&self) -> bool {
        self.data@.len() == self.width * self.height * 3
    }

    /// Number of pixels in the grid.
    pub open spec fn spec_pixel_count(&self) -> nat {
        (self.width * self.height) as nat
    }

    /// Builds a grid from raw channel bytes, rejecting a buffer whose length
    /// is not exactly `3 * width * height`.
    pub fn new(width: usize, height: usize, data: Vec<u8>) -> (r: Option<PixelGrid>)
        ensures
            data@.len() == width * height * 3 ==> (r matches Some(g) && g.width == width
                && g.height == height && g.data@ == data@ && g.wf()),
            data@.len() != width * height * 3 ==> r is None,
    {
        proof {
            vstd::arithmetic::mul::lemma_mul_nonnegative(width as int, height as int);
            vstd::arithmetic::mul::lemma_mul_upper_bound(
                width as int,
                usize::MAX as int,
                height as int,
                usize::MAX as int,
            );
        }
        let len = data.len();
        let pixels: u128 = (width as u128) * (height as u128);
        if pixels <= (usize::MAX as u128) {
            let bytes_needed: u128 = pixels * 3;
            if (len as u128) == bytes_needed {
                Some(PixelGrid { width, height, data })
            } else {
                None
            }
        } else {
            // more pixels than any in-memory byte buffer could give three bytes each
            None
        }
    }

    /// Number of pixels in the grid.
    pub fn pixel_count(&self) -> (n: usize)
        requires
            self.wf(),
        ensures
            n == self.spec_pixel_count(),
    {
        let _len = self.data.len();
        proof {
            vstd::arithmetic::mul::lemma_mul_nonnegative(self.width as int, self.height as int);
        }
        self.width * self.height
    }

    /// Reads the channel byte of pixel `pixel`, channel `channel`
    /// (0 = red, 1 = green, 2 = blue).
    pub fn channel_byte(&self, pixel: usize, channel: usize) -> (b: u8)
        requires
            self.wf(),
            pixel < self.spec_pixel_count(),
            channel < 3,
        ensures
            b == self.data@[pixel * 3 + channel],
    {
        let _len = self.data.len();
        proof {
            assert(3 * (pixel as int) + channel < self.width * self.height * 3);
        }
        self.data[pixel * 3 + channel]
    }
}

} // verus!
