use spritesheet::codec::get_image_format;
use spritesheet::error::SpritesheetErr;
use spritesheet::img::ImageFormat;
use spritesheet::policy::{calculate_row_count, parse_row_count};

#[test]
fn row_count_nine_images() {
    assert_eq!(calculate_row_count(9), 3);
}

#[test]
fn row_count_ten_images() {
    assert_eq!(calculate_row_count(10), 3);
}

#[test]
fn row_count_one_image() {
    assert_eq!(calculate_row_count(1), 1);
}

#[test]
fn row_count_zero_images_clamped() {
    assert_eq!(calculate_row_count(0), 1);
}

#[test]
fn row_count_perfect_square() {
    assert_eq!(calculate_row_count(16), 4);
    assert_eq!(calculate_row_count(15), 3);
    assert_eq!(calculate_row_count(17), 4);
}

#[test]
fn row_count_large() {
    assert_eq!(calculate_row_count(1_000_000), 1000);
    assert_eq!(calculate_row_count(999_999), 999);
}

#[test]
fn parse_plain_number() {
    assert_eq!(parse_row_count(b"7"), Ok(7));
    assert_eq!(parse_row_count(b"42"), Ok(42));
    assert_eq!(parse_row_count(b"0"), Ok(0));
}

#[test]
fn parse_leading_plus() {
    assert_eq!(parse_row_count(b"+3"), Ok(3));
}

#[test]
fn parse_max_value() {
    assert_eq!(parse_row_count(b"4294967295"), Ok(u32::MAX));
}

#[test]
fn parse_overflow_rejected() {
    assert_eq!(parse_row_count(b"4294967296"), Err(SpritesheetErr::ParseError));
    assert_eq!(parse_row_count(b"99999999999999999999"), Err(SpritesheetErr::ParseError));
}

#[test]
fn parse_garbage_rejected() {
    assert_eq!(parse_row_count(b""), Err(SpritesheetErr::ParseError));
    assert_eq!(parse_row_count(b"+"), Err(SpritesheetErr::ParseError));
    assert_eq!(parse_row_count(b"-1"), Err(SpritesheetErr::ParseError));
    assert_eq!(parse_row_count(b"3a"), Err(SpritesheetErr::ParseError));
    assert_eq!(parse_row_count(b" 3"), Err(SpritesheetErr::ParseError));
}

#[test]
fn parse_agrees_with_std() {
    for s in ["0", "1", "+12", "4294967295", "4294967296", "", "+", "x", "1 "] {
        assert_eq!(
            parse_row_count(s.as_bytes()).ok(),
            s.parse::<u32>().ok(),
            "mismatch on {:?}",
            s
        );
    }
}

#[test]
fn recognized_extensions() {
    assert_eq!(get_image_format("png"), Some(ImageFormat::Png));
    assert_eq!(get_image_format("jpeg"), Some(ImageFormat::Jpeg));
    assert_eq!(get_image_format("bmp"), Some(ImageFormat::Bmp));
}

#[test]
fn unrecognized_extensions() {
    assert_eq!(get_image_format("PNG"), None);
    assert_eq!(get_image_format("jpg"), None);
    assert_eq!(get_image_format("gif"), None);
    assert_eq!(get_image_format(""), None);
    assert_eq!(get_image_format("pngx"), None);
}
