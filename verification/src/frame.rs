//! In-memory frames: packed 8-bit RGB rows, together with the trusted
//! bridges to the outside image codec that turns encoded bytes into
//! frames and frames back into encoded bytes.
use vstd::prelude::*;

verus! {

/// A decoded frame: `data` holds `3 * width * height` bytes, row by
/// row, three channels per pixel.
pub struct Image {
    pub width: u32,
    pub height: u32,
    pub data: Vec<u8>,
}

impl Image {
    /// The pixel buffer matches the dimensions.
    pub open spec fn wf(&self) -> bool {
        self.data@.len() == 3 * (self.width as int) * (self.height as int)
    }

    /// The channels of the pixel at (x, y).
    pub open spec fn pixel(&self, x: int, y: int) -> (int, int, int) {
        let base = 3 * (y * self.width + x);
        (self.data@[base] as int, self.data@[base + 1] as int, self.data@[base + 2] as int)
    }
}

/// What the outside codec decodes a byte stream to, if anything:
/// dimensions and packed RGB bytes.  Decoding is a function of the
/// bytes alone.
pub uninterp spec fn standard_decode(bytes: Seq<u8>) -> Option<(u32, u32, Seq<u8>)>;

/// Relies on image::load_from_memory and DynamicImage::to_rgb8: decodes
/// any supported format from bytes alone and converts to packed RGB
/// rows, whose buffer holds exactly width * height * 3 bytes.
#[verifier::external_body]
pub fn decode_rgb_bytes(bytes: &Vec<u8>) -> (r: Option<Image>)
    ensures
        match r {
            Some(img) => standard_decode(bytes@) == Some((img.width, img.height, img.data@))
                && img.wf(),
            None => standard_decode(bytes@) is None,
        },
{
    match ::image::load_from_memory(bytes.as_slice()) {
        Ok(decoded) => {
            let rgb = decoded.to_rgb8();
            let (width, height) = rgb.dimensions();
            Some(Image { width, height, data: rgb.into_raw() })
        },
        Err(_) => None,
    }
}

/// Encoded form of a packed RGB frame in the format named by the code
/// (0 jpeg, 1 png, 2 tiff), or nothing where the codec refuses it.
/// Encoding is a function of the arguments alone.
pub uninterp spec fn encoded_image(fmt_code: u8, width: u32, height: u32, data: Seq<u8>) -> Option<
    Seq<u8>,
>;

/// Relies on image::DynamicImage::write_to: serializes packed RGB rows
/// into the requested container format, writing to an in-memory buffer.
#[verifier::external_body]
pub fn encode_image_bytes(fmt_code: u8, width: u32, height: u32, data: &Vec<u8>) -> (r: Option<
    Vec<u8>,
>)
    requires
        fmt_code <= 2,
        data@.len() == 3 * (width as int) * (height as int),
    ensures
        match r {
            Some(out) => encoded_image(fmt_code, width, height, data@) == Some(out@),
            None => encoded_image(fmt_code, width, height, data@) is None,
        },
{
    let buffer = ::image::RgbImage::from_raw(width, height, data.clone())?;
    let dynamic = ::image::DynamicImage::ImageRgb8(buffer);
    let format = match fmt_code {
        0 => ::image::ImageFormat::Jpeg,
        1 => ::image::ImageFormat::Png,
        _ => ::image::ImageFormat::Tiff,
    };
    let mut out = std::io::Cursor::new(Vec::new());
    dynamic.write_to(&mut out, format).ok()?;
    Some(out.into_inner())
}

} // verus!
