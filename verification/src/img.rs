use vstd::prelude::*;

verus! {

/// The image formats the collector recognizes, keyed by file extension
/// (exact lowercase match: "png", "jpeg", "bmp").
#[derive(Clone, Copy, Debug, PartialEq, Eq, Structural)]
pub enum ImageFormat {
    Png,
    Jpeg,
    Bmp,
}

/// Mathematical model of a decoded image: its dimensions in pixels and its
/// RGBA pixel bytes in row-major order, four bytes per pixel.
pub ghost struct ImageModel {
    pub width: nat,
    pub height: nat,
    pub pixels: Seq<u8>,
}

impl ImageModel {
    /// A decoded image has dimensions of at least one pixel each and exactly
    /// four bytes per pixel.
    pub open spec fn wf(self) -> bool {
        &&& self.width >= 1
        &&& self.height >= 1
        &&& self.pixels.len() == 4 * self.width * self.height
    }

    /// The grouping key of the resolution filter: the (height, width) pair.
    pub open spec fn res(self) -> (nat, nat) {
        (self.height, self.width)
    }

    /// The four bytes of the pixel at column `x`, row `y` are at offset
    /// `4 * (y * width + x)`; `c` selects one of them.
    pub open spec fn pixel_byte(self, x: int, y: int, c: int) -> u8 {
        self.pixels[4 * (y * self.width + x) + c]
    }
}

/// An owned RGBA pixel buffer with its dimensions. Immutable once built.
pub struct Image {
    width: u32,
    height: u32,
    pixels: Vec<u8>,
}

impl View for Image {
    type V = ImageModel;

    closed spec fn view(&self) -> ImageModel {
        ImageModel {
            width: self.width as nat,
            height: self.height as nat,
            pixels: self.pixels@,
        }
    }
}

/// The models of a sequence of images, in the same order.
pub open spec fn views(s: Seq<Image>) -> Seq<ImageModel> {
    Seq::new(s.len(), |i: int| s[i]@)
}

impl Image {
    /// Builds an image from plain values, checking the well-formedness
    /// invariant: returns `Some` exactly when the dimensions are positive and
    /// the buffer holds four bytes per pixel.
    pub fn new(width: u32, height: u32, pixels: Vec<u8>) -> (r: Option<Image>)
        ensures
            ({
                let m = ImageModel {
                    width: width as nat,
                    height: height as nat,
                    pixels: pixels@,
                };
                match r {
                    Some(img) => m.wf() && img@ == m,
                    None => !m.wf(),
                }
            }),
    {
        let len: usize = pixels.len();
        proof {
            assert((width as int) * (height as int) <= 0xffff_ffff_ffff_ffff) by (nonlinear_arith)
                requires
                    width <= 0xffff_ffffu32,
                    height <= 0xffff_ffffu32,
            ;
        }
        let wh: u64 = (width as u64) * (height as u64);
        if width >= 1 && height >= 1 && len % 4 == 0 && (len / 4) as u64 == wh {
            proof {
                vstd::arithmetic::div_mod::lemma_fundamental_div_mod(len as int, 4);
                assert(4 * ((width as int) * (height as int)) == 4 * (width as int) * (height as int))
                    by (nonlinear_arith);
            }
            Some(Image { width, height, pixels })
        } else {
            proof {
                let w = width as int;
                let h = height as int;
                if width >= 1 && height >= 1 && len == 4 * (width as nat) * (height as nat) {
                    assert(4 * w * h == 4 * (w * h)) by (nonlinear_arith);
                    vstd::arithmetic::div_mod::lemma_fundamental_div_mod_converse(
                        len as int,
                        4,
                        w * h,
                        0,
                    );
                }
            }
            None
        }
    }

    /// Builds an image whose invariant the caller has already established.
    pub(crate) fn from_parts(width: u32, height: u32, pixels: Vec<u8>) -> (r: Image)
        requires
            width >= 1,
            height >= 1,
            pixels@.len() == 4 * width * height,
        ensures
            r@ == (ImageModel { width: width as nat, height: height as nat, pixels: pixels@ }),
            r@.wf(),
    {
        Image { width, height, pixels }
    }

    /// Width in pixels.
    pub fn width(&self) -> (r: u32)
        ensures
            r as nat == self@.width,
    {
        self.width
    }

    /// Height in pixels.
    pub fn height(&self) -> (r: u32)
        ensures
            r as nat == self@.height,
    {
        self.height
    }

    /// The raw RGBA bytes, row-major, four bytes per pixel.
    pub fn pixel_bytes(&self) -> (r: &Vec<u8>)
        ensures
            r@ == self@.pixels,
    {
        &self.pixels
    }
}

} // verus!
