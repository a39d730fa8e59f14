use vstd::prelude::*;
use image::DynamicImage as D;

verus! {

#[verifier::external_type_specification]
#[verifier::external_body]
pub struct ExDynamicImage(image::DynamicImage);

/// A pixel packed as `alpha << 24 | red << 16 | green << 8 | blue`.
pub open spec fn argb(r: u8, g: u8, b: u8, a: u8) -> u32 {
    ((a as u32) << 24u32) | ((r as u32) << 16u32) | ((g as u32) << 8u32) | (b as u32)
}

/// The alpha channel of a packed pixel.
pub open spec fn alpha(c: u32) -> u32 {
    (c >> 24u32) & 0xffu32
}

/// The packed pixel `k` of RGBA bytes, four per pixel.
pub open spec fn packed_at(bytes: Seq<u8>, k: int) -> u32 {
    argb(bytes[4 * k], bytes[4 * k + 1], bytes[4 * k + 2], bytes[4 * k + 3])
}

/// The width, height and RGBA8 bytes of an image, as image's `to_rgba8`
/// makes them; they depend on the image alone. `None` for an image whose
/// samples are not integers (32-bit float channels), whose conversion can
/// panic on a NaN sample.
pub uninterp spec fn rgba_of(img: image::DynamicImage) -> Option<(u32, u32, Seq<u8>)>;

/// A decoded image: row-major packed pixels, immutable once built.
pub struct Texture {
    pub width: usize,
    pub height: usize,
    pub pixels: Vec<u32>,
}

/// Relies on image's `DynamicImage::to_rgba8`, `ImageBuffer::dimensions` and
/// `ImageBuffer::into_raw`: the RGBA8 copy of an image with integer samples
/// is a fresh buffer of exactly four bytes per pixel, red, green, blue,
/// alpha, row by row. Float-sample images are not converted: their
/// conversion unwraps a cast that fails on NaN.
#[verifier::external_body]
fn rgba_bytes(img: &image::DynamicImage) -> (r: Option<(u32, u32, Vec<u8>)>)
    ensures
        match r {
            Some(t) => rgba_of(*img) == Some((t.0, t.1, t.2@)) && t.2@.len() == 4 * t.0 * t.1,
            None => rgba_of(*img) is None,
        },
{
    match img {
        D::ImageLuma8(_) | D::ImageLumaA8(_) | D::ImageRgb8(_) | D::ImageRgba8(_) | D::ImageLuma16(_)
        | D::ImageLumaA16(_) | D::ImageRgb16(_) | D::ImageRgba16(_) => {
            let rgba = img.to_rgba8();
            let (w, h) = rgba.dimensions();
            Some((w, h, rgba.into_raw()))
        },
        _ => None,
    }
}

impl Texture {
    /// One pixel per texel.
    pub open spec fn wf(&self) -> bool {
        self.pixels@.len() == self.width * self.height
    }

    /// The texture of `width` x `height` RGBA bytes, each pixel packed as
    /// `argb`.
    pub fn from_rgba(width: u32, height: u32, bytes: &Vec<u8>) -> (r: Self)
        requires
            bytes@.len() == 4 * width * height,
        ensures
            r.wf(),
            r.width == width,
            r.height == height,
            r.pixels@.len() == width * height,
            forall|k: int| 0 <= k < r.pixels@.len() ==> #[trigger] r.pixels@[k] == packed_at(bytes@, k),
    {
        let len = bytes.len();
        let n: usize = len / 4;
        proof {
            let m = width * height;
            assert(4 * width * height == 4 * m) by (nonlinear_arith)
                requires
                    m == width * height,
            ;
            assert((4 * m) / 4 == m) by (nonlinear_arith);
        }
        let mut pixels: Vec<u32> = Vec::with_capacity(n);
        let mut k: usize = 0;
        while k < n
            invariant
                n == bytes@.len() / 4,
                bytes@.len() == 4 * n,
                len == bytes@.len(),
                n == width * height,
                k <= n,
                pixels@.len() == k,
                forall|t: int| 0 <= t < k ==> #[trigger] pixels@[t] == packed_at(bytes@, t),
            decreases n - k,
        {
            let i = 4 * k;
            let r = bytes[i];
            let g = bytes[i + 1];
            let b = bytes[i + 2];
            let a = bytes[i + 3];
            let c = ((a as u32) << 24u32) | ((r as u32) << 16u32) | ((g as u32) << 8u32) | (b as u32);
            pixels.push(c);
            k = k + 1;
        }
        Texture { width: width as usize, height: height as usize, pixels }
    }

    /// The texture of a decoded image, converted to RGBA8 and packed as
    /// `from_rgba` packs it; `None` for an image with float samples.
    pub fn from_image(img: &image::DynamicImage) -> (r: Option<Self>)
        ensures
            r is None <==> rgba_of(*img) is None,
            r matches Some(t) ==> {
                let (w, h, bytes) = rgba_of(*img)->0;
                &&& t.wf()
                &&& t.width == w
                &&& t.height == h
                &&& forall|k: int| 0 <= k < t.pixels@.len() ==> #[trigger] t.pixels@[k] == packed_at(bytes, k)
            },
    {
        match rgba_bytes(img) {
            Some((w, h, bytes)) => Some(Texture::from_rgba(w, h, &bytes)),
            None => None,
        }
    }
}

} // verus!
