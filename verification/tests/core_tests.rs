use spritesheet::compose::create_spritesheet;
use spritesheet::error::SpritesheetErr;
use spritesheet::filter::filter_images;
use spritesheet::img::Image;

/// A w-by-h image whose every pixel is the given RGBA color.
fn solid(w: u32, h: u32, rgba: [u8; 4]) -> Image {
    let mut pixels: Vec<u8> = Vec::new();
    for _ in 0..(w as usize) * (h as usize) {
        pixels.extend_from_slice(&rgba);
    }
    Image::new(w, h, pixels).unwrap()
}

/// The RGBA bytes of the pixel at (x, y).
fn pixel_at(img: &Image, x: u32, y: u32) -> [u8; 4] {
    let w = img.width() as usize;
    let off = 4 * ((y as usize) * w + (x as usize));
    let p = img.pixel_bytes();
    [p[off], p[off + 1], p[off + 2], p[off + 3]]
}

#[test]
fn image_new_checks_invariant() {
    assert!(Image::new(2, 2, vec![0u8; 16]).is_some());
    assert!(Image::new(2, 2, vec![0u8; 15]).is_none());
    assert!(Image::new(2, 2, vec![0u8; 17]).is_none());
    assert!(Image::new(0, 2, vec![0u8; 0]).is_none());
    assert!(Image::new(2, 0, vec![0u8; 0]).is_none());
}

#[test]
fn filter_empty_input_fails() {
    assert!(matches!(filter_images(vec![]), Err(SpritesheetErr::FilterImages)));
}

#[test]
fn filter_mixed_resolutions_keeps_majority() {
    let images = vec![
        solid(16, 16, [1, 0, 0, 255]),
        solid(32, 32, [2, 0, 0, 255]),
        solid(16, 16, [3, 0, 0, 255]),
        solid(32, 32, [4, 0, 0, 255]),
        solid(16, 16, [5, 0, 0, 255]),
    ];
    let kept = filter_images(images).unwrap();
    assert_eq!(kept.len(), 3);
    for img in &kept {
        assert_eq!((img.width(), img.height()), (16, 16));
    }
    // input order preserved
    assert_eq!(pixel_at(&kept[0], 0, 0)[0], 1);
    assert_eq!(pixel_at(&kept[1], 0, 0)[0], 3);
    assert_eq!(pixel_at(&kept[2], 0, 0)[0], 5);
}

#[test]
fn filter_homogeneous_returns_input_unchanged() {
    let images = vec![
        solid(8, 8, [9, 0, 0, 255]),
        solid(8, 8, [8, 0, 0, 255]),
        solid(8, 8, [7, 0, 0, 255]),
        solid(8, 8, [6, 0, 0, 255]),
    ];
    let kept = filter_images(images).unwrap();
    assert_eq!(kept.len(), 4);
    let marks: Vec<u8> = kept.iter().map(|i| pixel_at(i, 0, 0)[0]).collect();
    assert_eq!(marks, vec![9, 8, 7, 6]);
}

#[test]
fn filter_tie_first_seen_resolution_wins() {
    let images = vec![
        solid(8, 4, [1, 0, 0, 255]),
        solid(4, 8, [2, 0, 0, 255]),
        solid(8, 4, [3, 0, 0, 255]),
        solid(4, 8, [4, 0, 0, 255]),
    ];
    let kept = filter_images(images).unwrap();
    assert_eq!(kept.len(), 2);
    for img in &kept {
        assert_eq!((img.width(), img.height()), (8, 4));
    }
}

#[test]
fn filter_single_image() {
    let kept = filter_images(vec![solid(5, 7, [1, 2, 3, 4])]).unwrap();
    assert_eq!(kept.len(), 1);
    assert_eq!((kept[0].width(), kept[0].height()), (5, 7));
}

#[test]
fn compose_seven_images_three_per_row() {
    // seven 10x10 cells at three per row: ceil(7/3) = 3 rows, 30x30 canvas,
    // the last two cells transparent
    let mut images: Vec<Image> = Vec::new();
    for i in 0..7u8 {
        images.push(solid(10, 10, [i + 1, 0, 0, 255]));
    }
    let sheet = create_spritesheet(3, images);
    assert_eq!((sheet.width(), sheet.height()), (30, 30));
    // each filled cell shows its image's color at the cell origin and corner
    for i in 0..7u32 {
        let cx = (i % 3) * 10;
        let cy = (i / 3) * 10;
        assert_eq!(pixel_at(&sheet, cx, cy), [(i + 1) as u8, 0, 0, 255]);
        assert_eq!(pixel_at(&sheet, cx + 9, cy + 9), [(i + 1) as u8, 0, 0, 255]);
    }
    // cells 7 and 8 stay transparent
    assert_eq!(pixel_at(&sheet, 10, 20), [0, 0, 0, 0]);
    assert_eq!(pixel_at(&sheet, 20, 20), [0, 0, 0, 0]);
    assert_eq!(pixel_at(&sheet, 29, 29), [0, 0, 0, 0]);
}

#[test]
fn compose_places_cells_row_major() {
    // non-square cells with per-pixel patterns: byte-exact placement
    let mut images: Vec<Image> = Vec::new();
    for i in 0..6u8 {
        let mut pixels: Vec<u8> = Vec::new();
        for p in 0..(3 * 2) as u8 {
            pixels.extend_from_slice(&[i, p, 100 + p, 255]);
        }
        images.push(Image::new(3, 2, pixels).unwrap());
    }
    let sheet = create_spritesheet(2, images);
    assert_eq!((sheet.width(), sheet.height()), (6, 6));
    for i in 0..6u32 {
        let (cx, cy) = ((i % 2) * 3, (i / 2) * 2);
        for y in 0..2u32 {
            for x in 0..3u32 {
                let p = (y * 3 + x) as u8;
                assert_eq!(
                    pixel_at(&sheet, cx + x, cy + y),
                    [i as u8, p, 100 + p, 255],
                    "image {} pixel ({}, {})",
                    i,
                    x,
                    y
                );
            }
        }
    }
}

#[test]
fn compose_single_image_single_cell() {
    let sheet = create_spritesheet(1, vec![solid(4, 4, [7, 7, 7, 255])]);
    assert_eq!((sheet.width(), sheet.height()), (4, 4));
    assert_eq!(pixel_at(&sheet, 0, 0), [7, 7, 7, 255]);
    assert_eq!(pixel_at(&sheet, 3, 3), [7, 7, 7, 255]);
}

#[test]
fn compose_row_count_larger_than_count() {
    // 2 images at 5 per row: one row, three transparent cells
    let sheet = create_spritesheet(
        5,
        vec![solid(2, 2, [1, 0, 0, 255]), solid(2, 2, [2, 0, 0, 255])],
    );
    assert_eq!((sheet.width(), sheet.height()), (10, 2));
    assert_eq!(pixel_at(&sheet, 0, 0), [1, 0, 0, 255]);
    assert_eq!(pixel_at(&sheet, 2, 0), [2, 0, 0, 255]);
    assert_eq!(pixel_at(&sheet, 4, 0), [0, 0, 0, 0]);
    assert_eq!(pixel_at(&sheet, 9, 1), [0, 0, 0, 0]);
}
