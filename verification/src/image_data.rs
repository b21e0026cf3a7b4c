//! Raw pixel payloads for texture upload.
//!
//! An [`ImageData`] is what the renderer's texture upload consumes: the
//! pixel dimensions, the raw bytes, and the format the bytes are laid out
//! in.  Decoded images arrive as `image::DynamicImage` values; the decoder
//! call stays behind a trusted wrapper, and everything after it — sizing
//! the payload to exactly four bytes per pixel and reordering channels for
//! the presentation format — is verified.

use vstd::prelude::*;

use crate::outlet::{Outlet, TextureFormat};

verus! {

#[verifier::external_type_specification]
#[verifier::external_body]
pub struct ExDynamicImage(image::DynamicImage);

/// Where a BGRA byte comes from in an RGBA buffer: the red and blue
/// channels of each four-byte pixel trade places, green and alpha stay.
pub open spec fn bgra_index(i: int) -> int {
    if i % 4 == 0 {
        i + 2
    } else if i % 4 == 2 {
        i - 2
    } else {
        i
    }
}

/// Relies on `image::DynamicImage::to_rgba8` and
/// `image::ImageBuffer::{dimensions, into_raw}`: the conversion yields an
/// RGBA buffer for the reported width and height, four bytes per pixel,
/// whose backing vector holds at least `4 * width * height` bytes (an
/// `ImageBuffer` never holds fewer bytes than its dimensions demand).
#[verifier::external_body]
fn to_rgba_bytes(img: &image::DynamicImage) -> (r: (Vec<u8>, u32, u32))
    ensures
        r.0@.len() >= 4 * (r.1 as int) * (r.2 as int),
{
    let buf = img.to_rgba8();
    let (width, height) = buf.dimensions();
    (buf.into_raw(), width, height)
}

/// Reorder an RGBA byte buffer into BGRA, pixel by pixel.
pub fn bgra_from_rgba(rgba: &Vec<u8>) -> (r: Vec<u8>)
    requires
        rgba@.len() % 4 == 0,
    ensures
        r@.len() == rgba@.len(),
        forall|i: int| 0 <= i < r@.len() ==> #[trigger] r@[i] == rgba@[bgra_index(i)],
{
    let n: usize = rgba.len();
    let mut r: Vec<u8> = Vec::new();
    let mut i: usize = 0;
    while i < n
        invariant
            i <= n,
            n == rgba@.len(),
            n % 4 == 0,
            r@.len() == i,
            forall|l: int| 0 <= l < i ==> #[trigger] r@[l] == rgba@[bgra_index(l)],
        decreases n - i,
    {
        let m: usize = i % 4;
        proof {
            assert(0 <= bgra_index(i as int) < n as int);
        }
        let src: usize = if m == 0 {
            i + 2
        } else if m == 2 {
            i - 2
        } else {
            i
        };
        r.push(rgba[src]);
        i = i + 1;
    }
    r
}

/// Raw pixels ready for a texture upload.
pub struct ImageData {
    pub width: u32,
    pub height: u32,
    pub bytes: Vec<u8>,
    pub format: TextureFormat,
}

impl ImageData {
    /// The payload is exactly four bytes per pixel.
    pub open spec fn wf(self) -> bool {
        self.bytes@.len() == 4 * (self.width as int) * (self.height as int)
    }

    /// Wrap raw pixels as given; the caller vouches for the layout.
    pub fn new(width: u32, height: u32, bytes: Vec<u8>, format: TextureFormat) -> (r: ImageData)
        ensures
            r.width == width,
            r.height == height,
            r.bytes == bytes,
            r.format == format,
    {
        ImageData { width, height, bytes, format }
    }

    /// Convert a decoded image into an upload payload in the presentation
    /// format: the image's dimensions, exactly four bytes per pixel, with
    /// channels reordered to match [`Outlet::format`].
    pub fn from_image(image: image::DynamicImage) -> (r: ImageData)
        ensures
            r.wf(),
            r.format == TextureFormat::Bgra8Unorm,
    {
        let (mut rgba, width, height) = to_rgba_bytes(&image);
        let blen: usize = rgba.len();
        proof {
            assert(4 * (width as int) * (height as int) <= blen as int);
            assert((width as int) * (height as int) <= 4 * (width as int) * (height as int))
                by (nonlinear_arith);
            assert(4 * ((width as int) * (height as int)) == 4 * (width as int) * (
            height as int)) by (nonlinear_arith);
        }
        let wh: usize = (width as usize) * (height as usize);
        let total: usize = 4 * wh;
        rgba.truncate(total);
        proof {
            assert(rgba@.len() == total as int);
            assert(total as int % 4 == 0);
        }
        let format = Outlet::format();
        let bytes = match format {
            TextureFormat::Bgra8Unorm => bgra_from_rgba(&rgba),
            TextureFormat::Rgba8Unorm => rgba,
        };
        ImageData { width, height, bytes, format }
    }
}

} // verus!
