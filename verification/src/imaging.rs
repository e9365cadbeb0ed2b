use vstd::prelude::*;
use crate::dups::{dhash_value, dhash_bits};
use crate::geometry::{law_orient_pixels, law_quarter_turns_cancel, oriented, rotated270, rotated90};
use crate::raster::Raster;

verus! {

#[verifier::external_type_specification]
#[verifier::external_body]
pub struct ExImageError(image::ImageError);

/// The JPEG file the `image` crate's encoder writes for an RGB8 buffer at
/// a quality setting.
pub uninterp spec fn jpeg_encoded(rgb: Seq<u8>, width: u32, height: u32, quality: u8) -> Seq<u8>;

/// The PNG file the `image` crate's encoder writes for an RGB8 buffer, or
/// `None` where it refuses the buffer.
pub uninterp spec fn png_encoded(rgb: Seq<u8>, width: u32, height: u32) -> Option<Seq<u8>>;

/// Width, height and 8-bit luma pixels of an encoded image as the `image`
/// crate decodes and converts it, or `None` where it cannot decode it.
pub uninterp spec fn luma8_decoded(bytes: Seq<u8>) -> Option<(u32, u32, Seq<u8>)>;

/// A luma plane resized by the `image` crate with its triangle filter.
pub uninterp spec fn luma8_resized(width: u32, height: u32, px: Seq<u8>, new_width: u32, new_height: u32) -> Seq<u8>;

/// Standard base64 text, with padding, of a byte string.
pub uninterp spec fn base64_standard(bytes: Seq<u8>) -> Seq<char>;

/// `JpegEncoder::new_with_quality(..).write_image(rgb, width, height, Rgb8)`
/// into a byte vector. The encoder panics when the buffer length is not
/// `3 * width * height` and refuses a side of 0 or above 65535; nothing
/// else of the output is stated but that it is the encoder's.
#[verifier::external_body]
fn jpeg_rgb8(rgb: &[u8], width: u32, height: u32, quality: u8) -> (r: Result<Vec<u8>, image::ImageError>)
    requires
        rgb@.len() == 3 * width * height,
    ensures
        r is Ok <==> (1 <= width <= 65535 && 1 <= height <= 65535),
        r matches Ok(b) ==> b@ == jpeg_encoded(rgb@, width, height, quality),
{
    let mut buf = Vec::new();
    let enc = image::codecs::jpeg::JpegEncoder::new_with_quality(&mut buf, quality);
    image::ImageEncoder::write_image(enc, rgb, width, height, image::ExtendedColorType::Rgb8)?;
    Ok(buf)
}

/// `PngEncoder::new(..).write_image(rgb, width, height, Rgb8)` into a byte
/// vector; it panics when the buffer length is not `3 * width * height`.
#[verifier::external_body]
fn png_rgb8(rgb: &[u8], width: u32, height: u32) -> (r: Result<Vec<u8>, image::ImageError>)
    requires
        rgb@.len() == 3 * width * height,
    ensures
        match r {
            Ok(b) => png_encoded(rgb@, width, height) == Some(b@),
            Err(_) => png_encoded(rgb@, width, height) is None,
        },
{
    let mut buf = Vec::new();
    let enc = image::codecs::png::PngEncoder::new(&mut buf);
    image::ImageEncoder::write_image(enc, rgb, width, height, image::ExtendedColorType::Rgb8)?;
    Ok(buf)
}

/// The message of an `image` crate error (its `Display` text).
#[verifier::external_body]
fn image_error_text(e: &image::ImageError) -> String {
    e.to_string()
}

/// Why an export could not be encoded.
pub enum EncodeError {
    Jpeg(String),
    Png(String),
}

/// JPEG bytes of a display-encoded RGB8 image; the quality is clamped into
/// 10..=100.
pub fn encode_jpeg(rgb: &[u8], width: u32, height: u32, quality: u8) -> (r: Result<Vec<u8>, EncodeError>)
    requires
        rgb@.len() == 3 * width * height,
    ensures
        r is Ok <==> (1 <= width <= 65535 && 1 <= height <= 65535),
        r matches Ok(b) ==> b@ == jpeg_encoded(rgb@, width, height, clamp_quality_spec(quality)),
{
    let q = clamp_quality(quality);
    match jpeg_rgb8(rgb, width, height, q) {
        Ok(b) => Ok(b),
        Err(e) => Err(EncodeError::Jpeg(image_error_text(&e))),
    }
}

/// PNG bytes of a display-encoded RGB8 image.
pub fn encode_png(rgb: &[u8], width: u32, height: u32) -> (r: Result<Vec<u8>, EncodeError>)
    requires
        rgb@.len() == 3 * width * height,
    ensures
        match r {
            Ok(b) => png_encoded(rgb@, width, height) == Some(b@),
            Err(_) => png_encoded(rgb@, width, height) is None,
        },
{
    match png_rgb8(rgb, width, height) {
        Ok(b) => Ok(b),
        Err(e) => Err(EncodeError::Png(image_error_text(&e))),
    }
}

pub open spec fn clamp_quality_spec(q: u8) -> u8 {
    if q < 10 {
        10
    } else if q > 100 {
        100
    } else {
        q
    }
}

/// JPEG quality used by the exporter: clamped into 10..=100.
pub fn clamp_quality(q: u8) -> (r: u8)
    ensures
        r == clamp_quality_spec(q),
        10 <= r <= 100,
{
    if q < 10 {
        10
    } else if q > 100 {
        100
    } else {
        q
    }
}

/// `image::load_from_memory(bytes)` followed by `to_luma8()`, handed back
/// as width, height and the pixel plane.
#[verifier::external_body]
fn decode_luma8(bytes: &[u8]) -> (r: Option<(u32, u32, Vec<u8>)>)
    ensures
        match r {
            Some(t) => luma8_decoded(bytes@) == Some((t.0, t.1, t.2@)) && t.2@.len() == t.0 * t.1,
            None => luma8_decoded(bytes@) is None,
        },
{
    match image::load_from_memory(bytes) {
        Ok(img) => {
            let g = img.to_luma8();
            Some((g.width(), g.height(), g.into_raw()))
        },
        Err(_) => None,
    }
}

/// `image::imageops::resize(.., new_width, new_height, Triangle)` of a luma
/// plane.
#[verifier::external_body]
fn resize_luma8(width: u32, height: u32, px: Vec<u8>, new_width: u32, new_height: u32) -> (r: Vec<u8>)
    requires
        px@.len() == width * height,
    ensures
        r@ == luma8_resized(width, height, px@, new_width, new_height),
        r@.len() == new_width * new_height,
{
    let img = image::GrayImage::from_raw(width, height, px).unwrap();
    image::imageops::resize(&img, new_width, new_height, image::imageops::FilterType::Triangle).into_raw()
}

/// 64-bit difference hash of an encoded thumbnail: decoded to luma, shrunk
/// to 9 x 8, then one bit per horizontal neighbour pair. `None` when the
/// bytes do not decode.
pub fn thumb_dhash(jpeg: &[u8]) -> (r: Option<u64>)
    ensures
        r == match luma8_decoded(jpeg@) {
            None => None::<u64>,
            Some(t) => Some(dhash_value(luma8_resized(t.0, t.1, t.2, 9, 8), 64) as u64),
        },
{
    match decode_luma8(jpeg) {
        None => None,
        Some((w, h, px)) => {
            let small = resize_luma8(w, h, px, 9, 8);
            Some(dhash_bits(&small))
        },
    }
}

/// `base64::engine::general_purpose::STANDARD.encode(bytes)`; it panics
/// when the encoded length overflows `usize`.
#[verifier::external_body]
fn base64_encode(bytes: &[u8]) -> (s: String)
    requires
        bytes@.len() <= (usize::MAX / 4) * 3,
    ensures
        s@ == base64_standard(bytes@),
{
    base64::Engine::encode(&base64::engine::general_purpose::STANDARD, bytes)
}

/// The `data:` URL the develop view shows a rendered JPEG preview with.
pub fn jpeg_data_url(jpeg: &[u8]) -> (url: String)
    requires
        jpeg@.len() <= (usize::MAX / 4) * 3,
    ensures
        url@ == "data:image/jpeg;base64,"@ + base64_standard(jpeg@),
{
    let prefix = String::from_str("data:image/jpeg;base64,");
    let body = base64_encode(jpeg);
    prefix.concat(body.as_str())
}

/// The orientations the RAW decoder reports (`rawler::Orientation`).
pub enum RawOrientation {
    Normal,
    HorizontalFlip,
    Rotate180,
    VerticalFlip,
    Transpose,
    Rotate90,
    Transverse,
    Rotate270,
    Unknown,
}

pub open spec fn orientation_code_spec(o: RawOrientation) -> u32 {
    match o {
        RawOrientation::Normal => 1,
        RawOrientation::HorizontalFlip => 2,
        RawOrientation::Rotate180 => 3,
        RawOrientation::VerticalFlip => 4,
        RawOrientation::Transpose => 5,
        RawOrientation::Rotate90 => 6,
        RawOrientation::Transverse => 7,
        RawOrientation::Rotate270 => 8,
        RawOrientation::Unknown => 1,
    }
}

/// The EXIF orientation code (1..=8) of a RAW orientation; unknown counts
/// as upright.
pub fn orientation_code(o: RawOrientation) -> (c: u32)
    ensures
        c == orientation_code_spec(o),
        1 <= c <= 8,
{
    match o {
        RawOrientation::Normal => 1,
        RawOrientation::HorizontalFlip => 2,
        RawOrientation::Rotate180 => 3,
        RawOrientation::VerticalFlip => 4,
        RawOrientation::Transpose => 5,
        RawOrientation::Rotate90 => 6,
        RawOrientation::Transverse => 7,
        RawOrientation::Rotate270 => 8,
        RawOrientation::Unknown => 1,
    }
}

/// How to make an image upright for an EXIF orientation code: quarter
/// turns clockwise, then the mirrors (the layout `geometry::orient`
/// takes).
pub struct OrientSteps {
    pub quarter_turns: u32,
    pub mirror_h: bool,
    pub mirror_v: bool,
}

pub open spec fn exif_steps_spec(code: u32) -> (u32, bool, bool) {
    if code == 2 {
        (0, true, false)
    } else if code == 3 {
        (2, false, false)
    } else if code == 4 {
        (0, false, true)
    } else if code == 5 {
        (1, true, false)
    } else if code == 6 {
        (1, false, false)
    } else if code == 7 {
        (3, true, false)
    } else if code == 8 {
        (3, false, false)
    } else {
        (0, false, false)
    }
}

/// The steps that undo EXIF orientation `code`; codes outside 2..=8 leave
/// the image as it is.
pub fn exif_orientation_steps(code: u32) -> (s: OrientSteps)
    ensures
        (s.quarter_turns, s.mirror_h, s.mirror_v) == exif_steps_spec(code),
{
    let (q, h, v) = if code == 2 {
        (0, true, false)
    } else if code == 3 {
        (2, false, false)
    } else if code == 4 {
        (0, false, true)
    } else if code == 5 {
        (1, true, false)
    } else if code == 6 {
        (1, false, false)
    } else if code == 7 {
        (3, true, false)
    } else if code == 8 {
        (3, false, false)
    } else {
        (0, false, false)
    };
    OrientSteps { quarter_turns: q, mirror_h: h, mirror_v: v }
}

/// What an EXIF Orientation tag says about a stored image `w` pixels wide
/// and `h` high: the place, in the upright picture, of stored pixel
/// `(x, y)`. The tag names where the stored 0th row and 0th column belong:
/// 1 top/left, 2 top/right, 3 bottom/right, 4 bottom/left, 5 left/top,
/// 6 right/top, 7 right/bottom, 8 left/bottom; any other value is read as 1.
pub open spec fn exif_upright_position(code: u32, w: int, h: int, x: int, y: int) -> (int, int) {
    if code == 2 {
        (w - 1 - x, y)
    } else if code == 3 {
        (w - 1 - x, h - 1 - y)
    } else if code == 4 {
        (x, h - 1 - y)
    } else if code == 5 {
        (y, x)
    } else if code == 6 {
        (h - 1 - y, x)
    } else if code == 7 {
        (h - 1 - y, w - 1 - x)
    } else if code == 8 {
        (y, w - 1 - x)
    } else {
        (x, y)
    }
}

/// The steps of every orientation code make the picture upright: after
/// them every stored pixel sits where the EXIF tag says it belongs, and the
/// sides are swapped exactly for codes 5 to 8.
pub proof fn law_orientation_steps_make_upright<T>(r: Raster<T>, code: u32, x: int, y: int, c: int)
    requires
        r.wf(),
        r.in_bounds(x, y, c),
    ensures
        ({
            let st = exif_steps_spec(code);
            let u = oriented(r, st.0, st.1, st.2);
            let p = exif_upright_position(code, r.width as int, r.height as int, x, y);
            &&& u.width == (if 5 <= code <= 8 { r.height } else { r.width })
            &&& u.height == (if 5 <= code <= 8 { r.width } else { r.height })
            &&& u.in_bounds(p.0, p.1, c)
            &&& u.at(p.0, p.1, c) == r.at(x, y, c)
        }),
{
    let st = exif_steps_spec(code);
    let p = exif_upright_position(code, r.width as int, r.height as int, x, y);
    law_orient_pixels(r, st.0, st.1, st.2, p.0, p.1, c);
}

/// EXIF codes 6 and 8 are opposite quarter turns: the steps of one undo
/// the steps of the other.
pub proof fn law_codes_6_and_8_undo_each_other<T>(r: Raster<T>)
    requires
        r.wf(),
    ensures
        ({
            let s6 = exif_steps_spec(6);
            let s8 = exif_steps_spec(8);
            &&& oriented(oriented(r, s6.0, s6.1, s6.2), s8.0, s8.1, s8.2) == r
            &&& oriented(oriented(r, s8.0, s8.1, s8.2), s6.0, s6.1, s6.2) == r
        }),
{
    law_quarter_turns_cancel(r);
    crate::geometry::lemma_remap_wf(r, crate::geometry::Mapping::Rot90);
    crate::geometry::lemma_remap_wf(r, crate::geometry::Mapping::Rot270);
    assert(oriented(r, 1, false, false) == rotated90(r));
    assert(oriented(r, 3, false, false) == rotated270(r));
    assert(oriented(rotated90(r), 3, false, false) == rotated270(rotated90(r)));
    assert(oriented(rotated270(r), 1, false, false) == rotated90(rotated270(r)));
}

} // verus!
