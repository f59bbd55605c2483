//! The flat pixel buffer: channel values in runs of four, red, green, blue
//! and alpha for each pixel.

use vstd::prelude::*;

verus! {

/// Why a buffer was turned away.
#[derive(Clone, Copy, Debug, PartialEq, Eq)]
pub enum BufferError {
    /// The length of the buffer is not a multiple of four, so its last
    /// pixel is incomplete.
    InvalidBufferLength,
}

/// A buffer holds whole pixels only.
pub open spec fn whole_pixels(data: Seq<usize>) -> bool {
    data.len() % 4 == 0
}

/// The number of pixels in a buffer of whole pixels.
pub open spec fn pixel_count(data: Seq<usize>) -> int {
    data.len() as int / 4
}

/// The colour of pixel `i`: its red, green and blue channel.
pub open spec fn colour_at(data: Seq<usize>, i: int) -> (int, int, int) {
    (data[4 * i] as int, data[4 * i + 1] as int, data[4 * i + 2] as int)
}

/// The alpha channel of pixel `i`.
pub open spec fn alpha_at(data: Seq<usize>, i: int) -> int {
    data[4 * i + 3] as int
}

} // verus!
