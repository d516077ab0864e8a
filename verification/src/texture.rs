//! Decoding the map's texture images (relief, ocean floor, terrain) into
//! RGBA pixels for the GPU.

use vstd::prelude::*;

verus! {

/// What `image::load_from_memory` followed by `to_rgba8` makes of an image
/// file: its width, height and RGBA bytes row by row, or nothing when the
/// bytes are not an image it can decode.
pub uninterp spec fn decoded_rgba(bytes: Seq<u8>) -> Option<(u32, u32, Seq<u8>)>;

/// Calls `image::load_from_memory` on the bytes, converts the image with
/// `to_rgba8`, and takes its `dimensions` and `into_raw` buffer. The contract
/// claims that the result is a function of the bytes alone, and that the
/// buffer holds at least the four bytes per pixel that every `ImageBuffer`
/// holds (its constructors check this). It does not claim what the pixels
/// are: that is the image formats' decoding, which the crate implements.
#[verifier::external_body]
fn decode_rgba(bytes: &Vec<u8>) -> (r: Option<(u32, u32, Vec<u8>)>)
    ensures
        match r {
            Some(t) => decoded_rgba(bytes@) == Some((t.0, t.1, t.2@)) && t.2@.len() >= 4 * t.0 * t.1,
            None => decoded_rgba(bytes@) is None,
        },
{
    let img = image::load_from_memory(bytes.as_slice()).ok()?.to_rgba8();
    let (w, h) = img.dimensions();
    Some((w, h, img.into_raw()))
}

/// A decoded texture: `width` by `height` pixels, four bytes each, row by row.
pub struct TextureImage {
    pub width: u32,
    pub height: u32,
    pub pixels: Vec<u8>,
}

impl TextureImage {
    /// The pixel buffer covers every pixel.
    pub open spec fn wf(&self) -> bool {
        self.pixels@.len() >= 4 * self.width * self.height
    }
}

/// Decodes an image file into a texture, or returns `None` when the bytes
/// are not an image that can be decoded.
pub fn decode_texture(bytes: &Vec<u8>) -> (r: Option<TextureImage>)
    ensures
        match decoded_rgba(bytes@) {
            Some(t) => r matches Some(img) && img.width == t.0 && img.height == t.1 && img.pixels@ == t.2 && img.wf(),
            None => r is None,
        },
{
    match decode_rgba(bytes) {
        Some((width, height, pixels)) => Some(TextureImage { width, height, pixels }),
        None => None,
    }
}

} // verus!
