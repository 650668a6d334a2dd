use vstd::prelude::*;
use crate::error::SpritesheetErr;
use crate::img::{Image, ImageFormat, ImageModel};
use vstd::string::StringSliceAdditionalSpecFns;

verus! {

/// Declares image::ImageError, the error type of the image crate's decode
/// and encode calls; it is opaque here and mapped to SpritesheetErr.
#[verifier::external_type_specification]
#[verifier::external_body]
pub struct ExImageError(image::ImageError);

/// What decoding a byte stream of the given format to RGBA yields: the
/// dimensions and raw bytes are a function of the input bytes and the format
/// alone, `None` where decoding fails.
pub uninterp spec fn decoded_rgba(bytes: Seq<u8>, format: ImageFormat) -> Option<
    (u32, u32, Seq<u8>),
>;

/// The PNG encoding of an RGBA buffer: a function of the dimensions and the
/// bytes alone.
pub uninterp spec fn png_encoding(width: nat, height: nat, pixels: Seq<u8>) -> Seq<u8>;

/// Whether PNG-encoding an RGBA buffer of these dimensions succeeds: like
/// the encoding itself, a function of the dimensions and the bytes alone.
pub uninterp spec fn png_encode_ok(width: nat, height: nat, pixels: Seq<u8>) -> bool;

/// Relies on image::load_from_memory_with_format and
/// DynamicImage::to_rgba8: decoding is deterministic in the bytes and the
/// format, and an RGBA8 buffer holds exactly four bytes per pixel.
#[verifier::external_body]
fn decode_rgba_raw(bytes: &[u8], format: ImageFormat) -> (r: Result<
    (u32, u32, Vec<u8>),
    image::ImageError,
>)
    ensures
        match r {
            Ok(t) => decoded_rgba(bytes@, format) == Some((t.0, t.1, t.2@)) && t.2@.len() == 4 * (
            t.0 as nat) * (t.1 as nat),
            Err(_) => decoded_rgba(bytes@, format) == None::<(u32, u32, Seq<u8>)>,
        },
{
    let fmt = match format {
        ImageFormat::Png => image::ImageFormat::Png,
        ImageFormat::Jpeg => image::ImageFormat::Jpeg,
        ImageFormat::Bmp => image::ImageFormat::Bmp,
    };
    let img = image::load_from_memory_with_format(bytes, fmt)?;
    let rgba = img.to_rgba8();
    let w = rgba.width();
    let h = rgba.height();
    Ok((w, h, rgba.into_raw()))
}

/// Relies on RgbaImage::from_raw (total on a buffer of exactly four bytes
/// per pixel) and DynamicImage::write_to with the PNG format. Encoding to an
/// in-memory cursor is deterministic in the dimensions and bytes alone, so
/// whether it succeeds is too. PNG stores RGBA8 losslessly: the crate's PNG
/// encoder writes the buffer's color type unconverted, and decoding the
/// written stream restores the very dimensions and bytes. The round-trip
/// clause is guarded: decoding runs under the crate's default allocation
/// budget of 512 MiB, against which it reserves the whole output buffer and
/// one output row, so it is promised only for canvases of at most 256 MiB of
/// pixel bytes, where those reservations and the decoder's small internal
/// buffers fit with room to spare.
#[verifier::external_body]
fn encode_png_raw(width: u32, height: u32, pixels: &Vec<u8>) -> (r: Result<
    Vec<u8>,
    image::ImageError,
>)
    requires
        pixels@.len() == 4 * (width as nat) * (height as nat),
    ensures
        r is Ok <==> png_encode_ok(width as nat, height as nat, pixels@),
        r matches Ok(b) ==> b@ == png_encoding(width as nat, height as nat, pixels@),
        r matches Ok(b) ==> (4 * (width as nat) * (height as nat) <= 0x1000_0000
            ==> decoded_rgba(b@, ImageFormat::Png) == Some((width, height, pixels@))),
{
    let buf = image::RgbaImage::from_raw(width, height, pixels.clone()).unwrap();
    let mut out = std::io::Cursor::new(Vec::new());
    image::DynamicImage::ImageRgba8(buf).write_to(&mut out, image::ImageFormat::Png)?;
    Ok(out.into_inner())
}

/// The bytes decode, with at least one pixel each way, to exactly `m`.
pub open spec fn decodes_to(bytes: Seq<u8>, format: ImageFormat, m: ImageModel) -> bool {
    match decoded_rgba(bytes, format) {
        Some(t) => t.0 >= 1 && t.1 >= 1 && m == (ImageModel {
            width: t.0 as nat,
            height: t.1 as nat,
            pixels: t.2,
        }),
        None => false,
    }
}

/// The bytes do not decode to a usable image: no decode at all, or a
/// degenerate zero-pixel result.
pub open spec fn decode_fails(bytes: Seq<u8>, format: ImageFormat) -> bool {
    match decoded_rgba(bytes, format) {
        Some(t) => t.0 == 0 || t.1 == 0,
        None => true,
    }
}

/// Decodes one image's bytes into an owned RGBA buffer; a failed or
/// degenerate decode is an image I/O failure.
pub fn decode_image(bytes: &[u8], format: ImageFormat) -> (r: Result<Image, SpritesheetErr>)
    ensures
        match r {
            Ok(img) => img@.wf() && decodes_to(bytes@, format, img@),
            Err(e) => e == SpritesheetErr::ImageSaveError && decode_fails(bytes@, format),
        },
{
    match decode_rgba_raw(bytes, format) {
        Ok((w, h, p)) => match Image::new(w, h, p) {
            Some(img) => Ok(img),
            None => Err(SpritesheetErr::ImageSaveError),
        },
        Err(_) => Err(SpritesheetErr::ImageSaveError),
    }
}

/// Image Source Collector, decode half: decodes every discovered file's
/// bytes eagerly; the first failure aborts the whole batch.
pub fn collect_images(inputs: Vec<(Vec<u8>, ImageFormat)>) -> (r: Result<
    Vec<Image>,
    SpritesheetErr,
>)
    ensures
        match r {
            Ok(imgs) => imgs@.len() == inputs@.len() && forall|i: int|
                0 <= i < imgs@.len() ==> (#[trigger] imgs@[i])@.wf() && decodes_to(
                    inputs@[i].0@,
                    inputs@[i].1,
                    imgs@[i]@,
                ),
            Err(e) => e == SpritesheetErr::ImageSaveError && exists|i: int|
                0 <= i < inputs@.len() && decode_fails(inputs@[i].0@, #[trigger] inputs@[i].1),
        },
{
    let mut imgs: Vec<Image> = Vec::new();
    let mut i: usize = 0;
    while i < inputs.len()
        invariant
            i <= inputs@.len(),
            imgs@.len() == i as int,
            forall|l: int|
                0 <= l < i ==> (#[trigger] imgs@[l])@.wf() && decodes_to(
                    inputs@[l].0@,
                    inputs@[l].1,
                    imgs@[l]@,
                ),
        decreases inputs@.len() - i,
    {
        let pair = &inputs[i];
        match decode_image(pair.0.as_slice(), pair.1) {
            Ok(img) => {
                imgs.push(img);
            },
            Err(e) => {
                return Err(e);
            },
        }
        i = i + 1;
    }
    Ok(imgs)
}

/// Sheet Writer, encode half: the PNG bytes of a composed sheet. It succeeds
/// exactly where the encoder does, and the one failure is an image I/O
/// failure. For a canvas of at most 256 MiB of pixel bytes the written
/// stream decodes back to the very sheet; a larger one exceeds the default
/// decoding budget, and nothing is promised of re-reading it.
pub fn encode_spritesheet(img: &Image) -> (r: Result<Vec<u8>, SpritesheetErr>)
    requires
        img@.wf(),
    ensures
        r is Ok <==> png_encode_ok(img@.width, img@.height, img@.pixels),
        match r {
            Ok(b) => b@ == png_encoding(img@.width, img@.height, img@.pixels) && (4 * img@.width
                * img@.height <= 0x1000_0000 ==> decoded_rgba(b@, ImageFormat::Png) == Some(
                (img@.width as u32, img@.height as u32, img@.pixels),
            )),
            Err(e) => e == SpritesheetErr::ImageSaveError,
        },
{
    let w = img.width();
    let h = img.height();
    proof {
        assert(w == img@.width as u32 && h == img@.height as u32);
    }
    match encode_png_raw(w, h, img.pixel_bytes()) {
        Ok(b) => Ok(b),
        Err(_) => Err(SpritesheetErr::ImageSaveError),
    }
}

/// The formats the collector recognizes, by exact lowercase extension.
pub open spec fn format_of_ext(s: Seq<u8>) -> Option<ImageFormat> {
    if s == seq![0x70u8, 0x6eu8, 0x67u8] {
        Some(ImageFormat::Png)
    } else if s == seq![0x6au8, 0x70u8, 0x65u8, 0x67u8] {
        Some(ImageFormat::Jpeg)
    } else if s == seq![0x62u8, 0x6du8, 0x70u8] {
        Some(ImageFormat::Bmp)
    } else {
        None
    }
}

/// Image Source Collector, extension half: "png", "jpeg" and "bmp" name the
/// supported formats; the match is exact, lowercase only.
pub fn get_image_format(ext: &str) -> (r: Option<ImageFormat>)
    ensures
        r == format_of_ext(ext.spec_bytes()),
{
    let b: &[u8] = ext.as_bytes();
    let r: Option<ImageFormat> = if b.len() == 3 && b[0] == 0x70 && b[1] == 0x6e && b[2] == 0x67 {
        Some(ImageFormat::Png)
    } else if b.len() == 4 && b[0] == 0x6a && b[1] == 0x70 && b[2] == 0x65 && b[3] == 0x67 {
        Some(ImageFormat::Jpeg)
    } else if b.len() == 3 && b[0] == 0x62 && b[1] == 0x6d && b[2] == 0x70 {
        Some(ImageFormat::Bmp)
    } else {
        None
    };
    proof {
        if b@.len() == 3 && b@[0] == 0x70u8 && b@[1] == 0x6eu8 && b@[2] == 0x67u8 {
            assert(b@ =~= seq![0x70u8, 0x6eu8, 0x67u8]);
        }
        if b@.len() == 4 && b@[0] == 0x6au8 && b@[1] == 0x70u8 && b@[2] == 0x65u8 && b@[3]
            == 0x67u8 {
            assert(b@ =~= seq![0x6au8, 0x70u8, 0x65u8, 0x67u8]);
        }
        if b@.len() == 3 && b@[0] == 0x62u8 && b@[1] == 0x6du8 && b@[2] == 0x70u8 {
            assert(b@ =~= seq![0x62u8, 0x6du8, 0x70u8]);
        }
    }
    r
}

} // verus!
