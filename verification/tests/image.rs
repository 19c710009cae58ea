use wisp::image::Image;
use wisp::renderer::Color;

fn png_bytes(img: &image::RgbaImage) -> Vec<u8> {
    let mut out = std::io::Cursor::new(Vec::new());
    img.write_to(&mut out, image::ImageFormat::Png).unwrap();
    out.into_inner()
}

#[test]
fn a_png_roundtrips_through_load() {
    let encoded = image::RgbaImage::from_fn(3, 2, |x, y| image::Rgba([x as u8 * 10, y as u8 * 10, 200, 255]));
    let img = Image::load(&png_bytes(&encoded)).unwrap();
    assert_eq!((img.width(), img.height()), (3, 2));
    for y in 0..2 {
        for x in 0..3 {
            let c = img.pixel(x, y);
            assert_eq!((c.r, c.g, c.b, c.a), (x as u8 * 10, y as u8 * 10, 200, 255));
        }
    }
}

#[test]
fn a_misnamed_file_still_decodes_by_content() {
    // decoding goes by the bytes alone; there is no name to be misled by
    let bytes = png_bytes(&image::RgbaImage::from_pixel(1, 1, image::Rgba([1, 2, 3, 4])));
    let img = Image::load(&bytes).unwrap();
    assert_eq!(img.pixel(0, 0), Color { r: 1, g: 2, b: 3, a: 4 });
}

#[test]
fn junk_and_missing_files_fail_without_panicking() {
    assert!(Image::load(b"not an image at all").is_err());
    assert!(Image::load(&[]).is_err());
}

#[test]
fn mismatched_pixel_data_is_rejected() {
    assert!(Image::from_rgba(2, 2, &[0; 15]).is_err());
    assert!(Image::from_rgba(2, 2, &[0; 17]).is_err());
    assert!(Image::from_rgba(0, 2, &[]).is_err());
}

#[test]
fn the_content_hash_sees_pixels_and_shape() {
    let a = Image::from_rgba(2, 2, &[7; 16]).unwrap();
    let b = Image::from_rgba(2, 2, &[9; 16]).unwrap();
    // same bytes, different shape: these must not collide either
    let wide = Image::from_rgba(4, 1, &[7; 16]).unwrap();
    assert_ne!(a.content_hash(), b.content_hash());
    assert_ne!(a.content_hash(), wide.content_hash());
    let again = Image::from_rgba(2, 2, &[7; 16]).unwrap();
    assert_eq!(a.content_hash(), again.content_hash());
}

#[test]
fn each_refusal_names_its_reason() {
    assert_eq!(Image::from_rgba(0, 2, &[]).err().unwrap(), "image is empty");
    assert_eq!(Image::from_rgba(1u32 << 31, 1, &[]).err().unwrap(), "image is too large");
    assert_eq!(
        Image::from_rgba(1, 1, &[1, 2, 3]).err().unwrap(),
        "pixel data does not match the image size"
    );
}

#[test]
fn the_content_hash_is_fnv_over_shape_and_pixels() {
    // fnv-1a, 32 bit, over width and height as little-endian i32s, then the bytes
    let data = [1u8, 2, 3, 4];
    let mut h: u32 = 2166136261;
    for b in 1i32.to_le_bytes().iter().chain(1i32.to_le_bytes().iter()).chain(data.iter()) {
        h = (h ^ *b as u32).wrapping_mul(16777619);
    }
    assert_eq!(Image::from_rgba(1, 1, &data).unwrap().content_hash(), h);
}
