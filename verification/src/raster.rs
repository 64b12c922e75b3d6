//! Images as rows of pixels.
use vstd::prelude::*;

verus! {

/// An image of three bytes per pixel.
pub struct RgbImage {
    pub width: u32,
    pub height: u32,
    pub data: Vec<u8>,
}

impl RgbImage {
    /// The data holds every pixel.
    pub open spec fn wf(&self) -> bool {
        self.data@.len() == 3 * (self.width * self.height)
    }
}

} // verus!
