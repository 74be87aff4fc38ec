//! Pictures as the scan sees them: decoding, the gray version that is fingerprinted, the
//! 9 x 8 grid it is shrunk to, and the preview shown beside a file.

use crate::records::text_of;
use image::DynamicImage;
use vstd::prelude::*;

verus! {

/// Width of the grid that a picture is shrunk to before it is fingerprinted.
pub const GRID_WIDTH: u32 = 9;

/// Height of that grid.
pub const GRID_HEIGHT: u32 = 8;

/// Number of cells of the grid.
pub const GRID_CELLS: usize = 72;

/// Longest side of a preview, in pixels.
pub const PREVIEW_SIDE: u32 = 200;

/// Longest side of a thumbnail where the caller names none.
pub const THUMBNAIL_SIDE: u32 = 256;

/// JPEG quality of a thumbnail, out of 100.
pub const THUMBNAIL_QUALITY: u8 = 80;

/// `image::DynamicImage`, a decoded picture of any colour type. Nothing of its inside is
/// visible here.
#[verifier::external_type_specification]
#[verifier::external_body]
pub struct ExDynamicImage(DynamicImage);

/// `image::ImageError`, what decoding or encoding a picture can fail with. Nothing of
/// its inside is visible here.
#[verifier::external_type_specification]
#[verifier::external_body]
pub struct ExImageError(image::ImageError);

/// A decoded picture in 8-bit gray: brightness per pixel, row by row from the top left.
#[derive(Debug)]
pub struct GrayPicture {
    pub width: u32,
    pub height: u32,
    pub pixels: Vec<u8>,
}

impl GrayPicture {
    /// Whether every pixel of the `width` x `height` picture has its brightness.
    pub open spec fn wf(&self) -> bool {
        self.pixels@.len() >= self.width as nat * self.height as nat
    }

    /// Checks a picture that was put together by hand.
    pub fn well_formed(&self) -> (ok: bool)
        ensures
            ok == self.wf(),
    {
        let width = self.width as u128;
        let height = self.height as u128;
        assert(width * height <= 0xffff_ffff * 0xffff_ffff) by (nonlinear_arith)
            requires
                width <= 0xffff_ffff,
                height <= 0xffff_ffff,
        ;
        self.pixels.len() as u128 >= width * height
    }

    /// Whether this machine can hold what shrinking the picture to `rows` rows takes:
    /// four 32-bit channels for every pixel of the narrowed picture.
    pub open spec fn shrinkable(&self, rows: u32) -> bool {
        16 * self.width as nat * rows as nat <= isize::MAX as nat
    }
}

/// What `image::imageops::resize` returns for an 8-bit gray picture of the given size and
/// pixels, asked for `new_width` x `new_height` with the triangle filter: the new pixels,
/// row by row.
pub uninterp spec fn triangle_resized(
    width: u32,
    height: u32,
    pixels: Seq<u8>,
    new_width: u32,
    new_height: u32,
) -> Seq<u8>;

/// `image::load_from_memory`: decodes a picture, guessing its format from the first
/// bytes. Trusted only to return; nothing is stated of what comes back.
#[verifier::external_body]
pub(crate) fn image_decode(bytes: &[u8]) -> (decoded: Option<DynamicImage>) {
    image::load_from_memory(bytes).ok()
}

/// `DynamicImage::to_luma8`, taken apart into width, height and buffer. Trusted: the
/// gray picture has the size of the picture, its values depend on the picture alone,
/// and the buffer of an `ImageBuffer` holds at least one value for each pixel.
#[verifier::external_body]
pub(crate) fn image_to_gray(picture: &DynamicImage) -> (gray: GrayPicture)
    ensures
        gray.width == width_of(*picture),
        gray.height == height_of(*picture),
        gray.pixels@ == luma_of(*picture),
        gray.wf(),
{
    let luma = picture.to_luma8();
    GrayPicture { width: luma.width(), height: luma.height(), pixels: luma.into_raw() }
}

/// `image::imageops::resize` with `FilterType::Triangle` on an 8-bit gray picture.
/// Trusted: the new pixels depend on the old picture and the new size alone, and there
/// are `new_width * new_height` of them. The `requires` keeps the two allocations that
/// the function makes within what a vector can hold, and lets `ImageBuffer::from_raw`,
/// which wraps the pixels for the call, succeed.
#[verifier::external_body]
pub(crate) fn image_resize_triangle(gray: &GrayPicture, new_width: u32, new_height: u32) -> (grid: Vec<u8>)
    requires
        gray.wf(),
        gray.shrinkable(new_height),
        new_width as nat * new_height as nat <= isize::MAX as nat,
    ensures
        grid@ == triangle_resized(gray.width, gray.height, gray.pixels@, new_width, new_height),
        grid@.len() == new_width as nat * new_height as nat,
{
    let source = image::ImageBuffer::<image::Luma<u8>, &[u8]>::from_raw(gray.width, gray.height, gray.pixels.as_slice())
        .unwrap();
    image::imageops::resize(&source, new_width, new_height, image::imageops::FilterType::Triangle).into_raw()
}

/// Whether this machine can hold a picture scaled to fit `max_width` x `max_height`,
/// whatever its colour type: at most four channels of four bytes for each pixel, and at
/// least one pixel each way.
pub open spec fn scaled_fits(max_width: u32, max_height: u32) -> bool {
    16 * at_least_one(max_width) * at_least_one(max_height) <= isize::MAX as nat
}

/// `DynamicImage::thumbnail`: the picture scaled, up or down, to the largest size that
/// fits within `max_width` x `max_height`. The function panics where the length of the
/// scaled picture's buffer overflows; the `requires` leaves those sizes out.
#[verifier::external_body]
pub(crate) fn image_thumbnail(picture: &DynamicImage, max_width: u32, max_height: u32) -> (small: DynamicImage)
    requires
        scaled_fits(max_width, max_height),
{
    picture.thumbnail(max_width, max_height)
}

/// Whether a picture scaled to fit a square of this side can be held.
pub fn square_fits(side: u32) -> (fits: bool)
    ensures
        fits == scaled_fits(side, side),
{
    let one: u128 = if side == 0 {
        1
    } else {
        side as u128
    };
    assert(16 * one * one <= 16 * 0xffff_ffff * 0xffff_ffff) by (nonlinear_arith)
        requires
            1 <= one <= 0xffff_ffff,
    ;
    16 * one * one <= isize::MAX as u128
}

/// `DynamicImage::write_to` with `ImageFormat::WebP`, into memory: the encoded bytes, or
/// none where the encoder refuses the picture. Trusted: both depend on the picture alone.
#[verifier::external_body]
pub(crate) fn image_encode_webp(picture: &DynamicImage) -> (encoded: Option<Vec<u8>>)
    ensures
        bytes_of(encoded) == webp_of(*picture),
{
    let mut buffer = std::io::Cursor::new(Vec::new());
    picture.write_to(&mut buffer, image::ImageFormat::WebP).ok().map(|_| buffer.into_inner())
}

/// `DynamicImage::write_with_encoder` with `JpegEncoder::new_with_quality`, into memory:
/// the encoded bytes, or the encoder's error. The encoder takes any quality, holding it
/// to the range from 1 to 100.
#[verifier::external_body]
pub(crate) fn image_encode_jpeg(picture: &DynamicImage, quality: u8) -> (encoded: Result<Vec<u8>, image::ImageError>) {
    let mut buffer = Vec::new();
    picture.write_with_encoder(image::codecs::jpeg::JpegEncoder::new_with_quality(&mut buffer, quality)).map(|_| buffer)
}

/// `ToString::to_string` on an `ImageError`: the error in words.
#[verifier::external_body]
pub(crate) fn image_error_text(error: &image::ImageError) -> (text: String) {
    error.to_string()
}

/// The standard base64 encoding, with padding, of `bytes`.
pub uninterp spec fn base64_standard(bytes: Seq<u8>) -> Seq<char>;

/// Whether this machine can hold the base64 encoding of `len` bytes.
pub open spec fn base64_fits(len: nat) -> bool {
    (len / 3) * 4 + 4 <= isize::MAX as nat
}

/// `Engine::encode` of `base64::engine::general_purpose::STANDARD`. Trusted: the text
/// depends on the bytes alone. The function panics where the length of the text does
/// not fit; the `requires` leaves those inputs out.
#[verifier::external_body]
pub(crate) fn base64_encode(bytes: &[u8]) -> (text: String)
    requires
        base64_fits(bytes@.len()),
    ensures
        text@ == base64_standard(bytes@),
{
    base64::Engine::encode(&base64::engine::general_purpose::STANDARD, bytes)
}

/// The gray version of a decoded picture: as wide and as high as the picture, with the
/// brightness of every pixel, row by row from the top left.
pub fn to_gray(picture: &DynamicImage) -> (gray: GrayPicture)
    ensures
        gray.width == width_of(*picture),
        gray.height == height_of(*picture),
        gray.pixels@ == luma_of(*picture),
        gray.wf(),
{
    image_to_gray(picture)
}

/// The 9 x 8 grid of a gray picture: the picture shrunk with the triangle filter.
pub open spec fn grid_of(gray: GrayPicture) -> Seq<u8> {
    triangle_resized(gray.width, gray.height, gray.pixels@, GRID_WIDTH, GRID_HEIGHT)
}

/// Shrinks a gray picture to the 9 x 8 grid from which its fingerprint is read.
pub fn shrink_to_grid(gray: &GrayPicture) -> (grid: Vec<u8>)
    requires
        gray.wf(),
        gray.shrinkable(GRID_HEIGHT),
    ensures
        grid@ == grid_of(*gray),
        grid@.len() == GRID_CELLS,
{
    image_resize_triangle(gray, GRID_WIDTH, GRID_HEIGHT)
}

/// Wraps an encoded preview into a data URL.
pub fn preview_url(webp: &[u8]) -> (url: String)
    requires
        base64_fits(webp@.len()),
    ensures
        url@ == preview_url_of(webp@),
{
    let mut url = String::from_str("data:image/webp;base64,");
    let encoded = base64_encode(webp);
    url.append(encoded.as_str());
    url
}

/// Renders the preview of a picture: scaled to fit 200 x 200, encoded as WebP, wrapped
/// into a data URL. None where the encoder refuses the scaled picture or the URL would
/// not fit into memory; else the URL of what the encoder wrote. Which picture the
/// scaling hands to the encoder is not stated: it is a value of the outside type, of
/// which nothing is visible here.
pub fn generate_preview_base64(picture: &DynamicImage) -> (preview: Option<String>)
    ensures
        exists|small: DynamicImage| text_of(preview) == preview_of(#[trigger] webp_of(small)),
        preview matches Some(url) ==> exists|webp: Seq<u8>| url@ == preview_url_of(webp),
{
    assert(scaled_fits(PREVIEW_SIDE, PREVIEW_SIDE)) by {
        assert(isize::MAX >= 0x7fff_ffff);
        assert(at_least_one(PREVIEW_SIDE) == 200);
        assert(16 * 200 * 200 == 640000);
    }
    let small = image_thumbnail(picture, PREVIEW_SIDE, PREVIEW_SIDE);
    let encoded = image_encode_webp(&small);
    let preview = preview_from_encoding(encoded);
    assert(text_of(preview) == preview_of(webp_of(small)));
    preview
}

/// Why no thumbnail could be made.
#[derive(Debug)]
pub enum ThumbnailError {
    /// The encoder refused the picture; the message is the encoder's.
    Encoding { message: String },
    /// The thumbnail, as a picture or as text, would not fit into memory.
    TooLarge,
}

/// The data URL of a thumbnail whose JPEG encoding is `jpeg`.
pub open spec fn thumbnail_url_of(jpeg: Seq<u8>) -> Seq<char> {
    "data:image/jpeg;base64,"@ + base64_standard(jpeg)
}

/// Wraps an encoded thumbnail into a data URL.
pub fn thumbnail_url(jpeg: &[u8]) -> (url: String)
    requires
        base64_fits(jpeg@.len()),
    ensures
        url@ == thumbnail_url_of(jpeg@),
{
    let mut url = String::from_str("data:image/jpeg;base64,");
    let encoded = base64_encode(jpeg);
    url.append(encoded.as_str());
    url
}

/// The side of the square that a thumbnail is to fit.
pub open spec fn thumbnail_side(max_size: Option<u32>) -> u32 {
    match max_size {
        Some(side) => side,
        None => THUMBNAIL_SIDE,
    }
}

/// Renders the thumbnail of a picture: scaled to fit a square of `max_size` pixels, 256
/// where none is named, encoded as JPEG of quality 80, wrapped into a data URL.
pub fn generate_thumbnail(picture: &DynamicImage, max_size: Option<u32>) -> (thumbnail: Result<String, ThumbnailError>)
    ensures
        thumbnail matches Ok(url) ==> exists|jpeg: Seq<u8>| url@ == thumbnail_url_of(jpeg),
        !scaled_fits(thumbnail_side(max_size), thumbnail_side(max_size)) ==> thumbnail matches Err(ThumbnailError::TooLarge),
{
    let max = match max_size {
        Some(side) => side,
        None => THUMBNAIL_SIDE,
    };
    if !square_fits(max) {
        return Err(ThumbnailError::TooLarge);
    }
    let small = image_thumbnail(picture, max, max);
    match image_encode_jpeg(&small, THUMBNAIL_QUALITY) {
        Ok(jpeg) => {
            if jpeg.len() / 3 <= (isize::MAX as usize - 4) / 4 {
                Ok(thumbnail_url(jpeg.as_slice()))
            } else {
                Err(ThumbnailError::TooLarge)
            }
        },
        Err(error) => Err(ThumbnailError::Encoding { message: image_error_text(&error) }),
    }
}

/// The number, or 1 in place of 0.
pub open spec fn at_least_one(side: u32) -> nat {
    if side == 0 {
        1
    } else {
        side as nat
    }
}

/// The data URL of a preview whose WebP encoding is `webp`.
pub open spec fn preview_url_of(webp: Seq<u8>) -> Seq<char> {
    "data:image/webp;base64,"@ + base64_standard(webp)
}

/// The width of a picture in pixels: what `DynamicImage::width` returns.
pub uninterp spec fn width_of(picture: DynamicImage) -> u32;

/// The height of a picture in pixels: what `DynamicImage::height` returns.
pub uninterp spec fn height_of(picture: DynamicImage) -> u32;

/// What a picture holds in 8-bit gray: the buffer of what `DynamicImage::to_luma8`
/// returns, the brightness of every pixel, row by row from the top left.
pub uninterp spec fn luma_of(picture: DynamicImage) -> Seq<u8>;

/// What `DynamicImage::write_to` writes for a picture with `ImageFormat::WebP`; none
/// where the encoder refuses the picture.
pub uninterp spec fn webp_of(picture: DynamicImage) -> Option<Seq<u8>>;

/// The bytes of an optional buffer.
pub open spec fn bytes_of(buffer: Option<Vec<u8>>) -> Option<Seq<u8>> {
    match buffer {
        Some(bytes) => Some(bytes@),
        None => None,
    }
}

/// The preview that an encoding gives: its data URL; none where there is no encoding,
/// or the URL would not fit into memory.
pub open spec fn preview_of(encoded: Option<Seq<u8>>) -> Option<Seq<char>> {
    match encoded {
        Some(webp) => if base64_fits(webp.len()) {
            Some(preview_url_of(webp))
        } else {
            None
        },
        None => None,
    }
}

/// Makes the preview from what the encoder gave: the data URL of the encoding; none
/// where the encoder refused the picture, or the URL would not fit into memory.
pub fn preview_from_encoding(encoded: Option<Vec<u8>>) -> (preview: Option<String>)
    ensures
        text_of(preview) == preview_of(bytes_of(encoded)),
{
    match encoded {
        Some(webp) => {
            if webp.len() / 3 <= (isize::MAX as usize - 4) / 4 {
                Some(preview_url(webp.as_slice()))
            } else {
                None
            }
        },
        None => None,
    }
}

/// Whether `gray` is the gray version of `picture`: what [`to_gray`] returns for it.
pub open spec fn is_gray_of(gray: GrayPicture, picture: DynamicImage) -> bool {
    &&& gray.width == width_of(picture)
    &&& gray.height == height_of(picture)
    &&& gray.pixels@ == luma_of(picture)
}

/// Whether two decoded pictures are the same picture in gray: as wide, as high, and of
/// the same brightness pixel by pixel. So are two files that hold one picture, encoded
/// twice without loss at the same size.
pub open spec fn same_in_gray(a: DynamicImage, b: DynamicImage) -> bool {
    &&& width_of(a) == width_of(b)
    &&& height_of(a) == height_of(b)
    &&& luma_of(a) == luma_of(b)
}

} // verus!
