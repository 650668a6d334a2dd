use spritesheet::codec::{collect_images, decode_image, encode_spritesheet};
use spritesheet::error::SpritesheetErr;
use spritesheet::img::{Image, ImageFormat};
use spritesheet::pipeline::build_spritesheet;

/// A w-by-h image whose every pixel is the given RGBA color.
fn solid(w: u32, h: u32, rgba: [u8; 4]) -> Image {
    let mut pixels: Vec<u8> = Vec::new();
    for _ in 0..(w as usize) * (h as usize) {
        pixels.extend_from_slice(&rgba);
    }
    Image::new(w, h, pixels).unwrap()
}

fn pixel_at(img: &Image, x: u32, y: u32) -> [u8; 4] {
    let w = img.width() as usize;
    let off = 4 * ((y as usize) * w + (x as usize));
    let p = img.pixel_bytes();
    [p[off], p[off + 1], p[off + 2], p[off + 3]]
}

/// PNG or JPEG bytes of a solid w-by-h color, made with the image crate.
fn encoded_solid(w: u32, h: u32, rgba: [u8; 4], format: image::ImageFormat) -> Vec<u8> {
    let buf = image::RgbaImage::from_pixel(w, h, image::Rgba(rgba));
    let mut out = std::io::Cursor::new(Vec::new());
    image::DynamicImage::ImageRgba8(buf)
        .write_to(&mut out, format)
        .unwrap();
    out.into_inner()
}

#[test]
fn decode_png_gives_pixels_back() {
    let bytes = encoded_solid(5, 3, [10, 20, 30, 255], image::ImageFormat::Png);
    let img = decode_image(&bytes, ImageFormat::Png).unwrap();
    assert_eq!((img.width(), img.height()), (5, 3));
    assert_eq!(img.pixel_bytes().len(), 4 * 5 * 3);
    assert_eq!(pixel_at(&img, 4, 2), [10, 20, 30, 255]);
}

#[test]
fn decode_jpeg() {
    let bytes = encoded_solid(8, 8, [255, 0, 0, 255], image::ImageFormat::Jpeg);
    let img = decode_image(&bytes, ImageFormat::Jpeg).unwrap();
    assert_eq!((img.width(), img.height()), (8, 8));
}

#[test]
fn decode_bmp() {
    let bytes = encoded_solid(6, 2, [0, 128, 0, 255], image::ImageFormat::Bmp);
    let img = decode_image(&bytes, ImageFormat::Bmp).unwrap();
    assert_eq!((img.width(), img.height()), (6, 2));
}

#[test]
fn decode_garbage_fails() {
    let r = decode_image(&[0, 1, 2, 3, 4], ImageFormat::Png);
    assert_eq!(r.err(), Some(SpritesheetErr::ImageSaveError));
}

#[test]
fn collect_decodes_in_order() {
    let inputs = vec![
        (encoded_solid(4, 4, [1, 0, 0, 255], image::ImageFormat::Png), ImageFormat::Png),
        (encoded_solid(2, 2, [0, 2, 0, 255], image::ImageFormat::Bmp), ImageFormat::Bmp),
    ];
    let imgs = collect_images(inputs).unwrap();
    assert_eq!(imgs.len(), 2);
    assert_eq!((imgs[0].width(), imgs[0].height()), (4, 4));
    assert_eq!((imgs[1].width(), imgs[1].height()), (2, 2));
    assert_eq!(pixel_at(&imgs[1], 1, 1), [0, 2, 0, 255]);
}

#[test]
fn collect_aborts_on_first_bad_file() {
    let inputs = vec![
        (encoded_solid(4, 4, [1, 0, 0, 255], image::ImageFormat::Png), ImageFormat::Png),
        (vec![0xde, 0xad], ImageFormat::Png),
    ];
    assert_eq!(collect_images(inputs).err(), Some(SpritesheetErr::ImageSaveError));
}

#[test]
fn round_trip_composed_sheet_through_png() {
    // compose, encode, re-read: dimensions follow the canvas formula and the
    // pixel data at each cell offset matches the source exactly
    let colors: [[u8; 4]; 5] = [
        [1, 2, 3, 255],
        [4, 5, 6, 255],
        [7, 8, 9, 255],
        [10, 11, 12, 255],
        [13, 14, 15, 255],
    ];
    let images: Vec<Image> = colors.iter().map(|c| solid(6, 4, *c)).collect();
    let sheet = build_spritesheet(images, Some(2)).unwrap();
    // ceil(5/2) = 3 rows of 2 cells: 12 x 12
    assert_eq!((sheet.width(), sheet.height()), (12, 12));
    let bytes = encode_spritesheet(&sheet).unwrap();
    let reread = decode_image(&bytes, ImageFormat::Png).unwrap();
    assert_eq!((reread.width(), reread.height()), (12, 12));
    assert_eq!(reread.pixel_bytes(), sheet.pixel_bytes());
    for (i, c) in colors.iter().enumerate() {
        let (cx, cy) = (((i % 2) * 6) as u32, ((i / 2) * 4) as u32);
        assert_eq!(pixel_at(&reread, cx, cy), *c);
        assert_eq!(pixel_at(&reread, cx + 5, cy + 3), *c);
    }
    // the sixth cell stays transparent
    assert_eq!(pixel_at(&reread, 11, 11), [0, 0, 0, 0]);
}

#[test]
fn end_to_end_four_png_one_jpeg() {
    // four 16x16 PNGs and one 32x32 JPEG: the filter keeps the four PNGs,
    // automatic row count is floor(sqrt(4)) = 2, and the 32x32 canvas has
    // every cell filled
    let inputs = vec![
        (encoded_solid(16, 16, [1, 0, 0, 255], image::ImageFormat::Png), ImageFormat::Png),
        (encoded_solid(16, 16, [0, 2, 0, 255], image::ImageFormat::Png), ImageFormat::Png),
        (encoded_solid(16, 16, [0, 0, 3, 255], image::ImageFormat::Png), ImageFormat::Png),
        (encoded_solid(16, 16, [4, 4, 4, 255], image::ImageFormat::Png), ImageFormat::Png),
        (encoded_solid(32, 32, [9, 9, 9, 255], image::ImageFormat::Jpeg), ImageFormat::Jpeg),
    ];
    let images = collect_images(inputs).unwrap();
    let sheet = build_spritesheet(images, None).unwrap();
    assert_eq!((sheet.width(), sheet.height()), (32, 32));
    // no transparent gaps: every pixel has full alpha
    let p = sheet.pixel_bytes();
    for px in 0..(32 * 32) {
        assert_eq!(p[4 * px + 3], 255, "pixel {} transparent", px);
    }
    assert_eq!(pixel_at(&sheet, 0, 0), [1, 0, 0, 255]);
    assert_eq!(pixel_at(&sheet, 16, 0), [0, 2, 0, 255]);
    assert_eq!(pixel_at(&sheet, 0, 16), [0, 0, 3, 255]);
    assert_eq!(pixel_at(&sheet, 16, 16), [4, 4, 4, 255]);
}

#[test]
fn pipeline_empty_input_fails() {
    assert_eq!(
        build_spritesheet(vec![], None).err(),
        Some(SpritesheetErr::FilterImages)
    );
}

#[test]
fn pipeline_manual_zero_row_count_clamped() {
    let sheet = build_spritesheet(vec![solid(3, 3, [5, 5, 5, 255])], Some(0)).unwrap();
    assert_eq!((sheet.width(), sheet.height()), (3, 3));
}
