//! The parts of a frame record that carry no geometry.
use vstd::prelude::*;

verus! {

/// Where an image comes from.
pub enum ImageSource {
    File(String),
}

/// Image metadata: its source and its size in pixels.
pub struct Image {
    pub source: ImageSource,
    pub width: u32,
    pub height: u32,
}

impl Image {
    /// Create a new [`Image`].
    pub fn new(source: ImageSource, width: u32, height: u32) -> (r: Image)
        ensures
            r.source == source,
            r.width == width,
            r.height == height,
    {
        Image { source, width, height }
    }
}

} // verus!
