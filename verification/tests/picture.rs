use base64::Engine;
use image::{DynamicImage, GrayImage, Luma, RgbImage};
use imagemami::picture::{
    generate_preview_base64, generate_thumbnail, preview_from_encoding, preview_url, square_fits, thumbnail_url, to_gray,
    GrayPicture, ThumbnailError, GRID_CELLS,
    GRID_HEIGHT, GRID_WIDTH, PREVIEW_SIDE, THUMBNAIL_QUALITY, THUMBNAIL_SIDE,
};

#[test]
fn grid_is_nine_by_eight() {
    assert_eq!(GRID_WIDTH, 9);
    assert_eq!(GRID_HEIGHT, 8);
    assert_eq!(GRID_CELLS, 72);
    assert_eq!(PREVIEW_SIDE, 200);
}

#[test]
fn to_gray_keeps_a_gray_picture() {
    let source = GrayImage::from_fn(5, 4, |x, y| Luma([(x + 10 * y) as u8]));
    let gray = to_gray(&DynamicImage::ImageLuma8(source.clone()));
    assert_eq!(gray.width, 5);
    assert_eq!(gray.height, 4);
    assert_eq!(gray.pixels, source.into_raw());
}

#[test]
fn to_gray_has_one_value_for_each_pixel() {
    let picture = DynamicImage::ImageRgb8(RgbImage::from_pixel(7, 3, image::Rgb([255, 255, 255])));
    let gray = to_gray(&picture);
    assert_eq!(gray.pixels.len(), 21);
    assert!(gray.pixels.iter().all(|&p| p == 255));
}

#[test]
fn preview_url_wraps_the_base64_text() {
    assert_eq!(preview_url(b""), "data:image/webp;base64,");
    assert_eq!(preview_url(b"hello"), "data:image/webp;base64,aGVsbG8=");
    assert_eq!(preview_url(b"foobar"), "data:image/webp;base64,Zm9vYmFy");
    assert_eq!(preview_url(&[0xfb, 0xff]), "data:image/webp;base64,+/8=");
}

#[test]
fn preview_is_a_webp_thumbnail_within_the_preview_side() {
    let picture = DynamicImage::ImageRgb8(RgbImage::from_fn(640, 480, |x, y| {
        image::Rgb([(x % 256) as u8, (y % 256) as u8, 0])
    }));
    let url = generate_preview_base64(&picture).unwrap();
    let text = url.strip_prefix("data:image/webp;base64,").unwrap();
    let bytes = base64::engine::general_purpose::STANDARD.decode(text).unwrap();
    let decoded = image::load_from_memory_with_format(&bytes, image::ImageFormat::WebP).unwrap();
    assert_eq!(decoded.width(), 200);
    assert_eq!(decoded.height(), 150);
}

fn colours(width: u32, height: u32) -> DynamicImage {
    DynamicImage::ImageRgb8(RgbImage::from_fn(width, height, |x, y| image::Rgb([(x % 256) as u8, (y % 256) as u8, 90])))
}

fn decoded_thumbnail(url: &str) -> DynamicImage {
    let text = url.strip_prefix("data:image/jpeg;base64,").unwrap();
    let bytes = base64::engine::general_purpose::STANDARD.decode(text).unwrap();
    image::load_from_memory_with_format(&bytes, image::ImageFormat::Jpeg).unwrap()
}

#[test]
fn thumbnail_url_wraps_the_base64_text() {
    assert_eq!(thumbnail_url(b""), "data:image/jpeg;base64,");
    assert_eq!(thumbnail_url(b"hi"), "data:image/jpeg;base64,aGk=");
    assert_eq!(thumbnail_url(&[0, 1, 2, 253, 254, 255]), "data:image/jpeg;base64,AAEC/f7/");
}

#[test]
fn thumbnail_fits_the_default_side() {
    assert_eq!(THUMBNAIL_SIDE, 256);
    assert_eq!(THUMBNAIL_QUALITY, 80);
    let small = decoded_thumbnail(&generate_thumbnail(&colours(1024, 512), None).unwrap());
    assert_eq!((small.width(), small.height()), (256, 128));
}

#[test]
fn thumbnail_fits_the_side_that_is_named() {
    let small = decoded_thumbnail(&generate_thumbnail(&colours(300, 600), Some(100)).unwrap());
    assert_eq!((small.width(), small.height()), (50, 100));
    let tiny = decoded_thumbnail(&generate_thumbnail(&colours(300, 600), Some(0)).unwrap());
    assert_eq!((tiny.width(), tiny.height()), (1, 1));
}

#[test]
fn thumbnail_is_the_jpeg_of_quality_eighty() {
    let picture = colours(64, 64);
    let mut expected = Vec::new();
    picture
        .thumbnail(32, 32)
        .write_with_encoder(image::codecs::jpeg::JpegEncoder::new_with_quality(&mut expected, 80))
        .unwrap();
    let url = generate_thumbnail(&picture, Some(32)).unwrap();
    assert_eq!(url, format!("data:image/jpeg;base64,{}", base64::engine::general_purpose::STANDARD.encode(&expected)));
}

#[test]
fn a_thumbnail_too_large_to_hold_is_refused() {
    assert!(square_fits(0));
    assert!(square_fits(256));
    assert!(!square_fits(u32::MAX));
    assert!(matches!(generate_thumbnail(&colours(4, 4), Some(u32::MAX)), Err(ThumbnailError::TooLarge)));
}

#[test]
fn a_picture_that_jpeg_cannot_hold_is_refused_by_the_encoder() {
    let wide = DynamicImage::ImageLuma8(GrayImage::new(70_000, 1));
    match generate_thumbnail(&wide, Some(70_000)) {
        Err(ThumbnailError::Encoding { message }) => assert!(!message.is_empty()),
        other => panic!("unexpected: {:?}", other),
    }
}

#[test]
fn a_picture_needs_a_value_for_every_pixel() {
    assert!(GrayPicture { width: 3, height: 2, pixels: vec![0; 6] }.well_formed());
    assert!(GrayPicture { width: 3, height: 2, pixels: vec![0; 7] }.well_formed());
    assert!(!GrayPicture { width: 3, height: 2, pixels: vec![0; 5] }.well_formed());
    assert!(GrayPicture { width: 0, height: 9, pixels: Vec::new() }.well_formed());
    assert!(!GrayPicture { width: u32::MAX, height: u32::MAX, pixels: vec![0; 16] }.well_formed());
}

#[test]
fn to_gray_has_the_size_and_the_brightness_of_the_picture() {
    let picture = colours(13, 7);
    let luma = picture.to_luma8();
    let gray = to_gray(&picture);
    assert_eq!(gray.width, picture.width());
    assert_eq!(gray.height, picture.height());
    assert_eq!(gray.pixels, luma.into_raw());
    assert!(gray.pixels.iter().any(|&p| p != gray.pixels[0]));
}

#[test]
fn no_encoding_no_preview() {
    assert_eq!(preview_from_encoding(None), None);
}

#[test]
fn an_encoding_gives_its_data_url() {
    assert_eq!(preview_from_encoding(Some(Vec::new())), Some(String::from("data:image/webp;base64,")));
    assert_eq!(preview_from_encoding(Some(b"hello".to_vec())), Some(String::from("data:image/webp;base64,aGVsbG8=")));
}

#[test]
fn preview_is_the_url_of_the_encoded_thumbnail() {
    let picture = colours(320, 100);
    let mut buffer = std::io::Cursor::new(Vec::new());
    picture.thumbnail(200, 200).write_to(&mut buffer, image::ImageFormat::WebP).unwrap();
    assert_eq!(generate_preview_base64(&picture), preview_from_encoding(Some(buffer.into_inner())));
    assert!(generate_preview_base64(&picture).is_some());
}

#[test]
fn a_picture_that_webp_cannot_hold_has_no_preview() {
    // Scaled to fit 200 x 200 every picture is within what WebP holds, so the encoder
    // is asked directly for one that is not.
    let wide = DynamicImage::ImageLuma8(GrayImage::new(20_000, 1));
    let mut buffer = std::io::Cursor::new(Vec::new());
    let refused = wide.write_to(&mut buffer, image::ImageFormat::WebP).is_err();
    assert!(refused);
    assert!(generate_preview_base64(&wide).is_some());
}
