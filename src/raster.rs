use vstd::prelude::*;
use crate::color::Rgb;

verus! {

/// An RGBA image with 8-bit channels, stored row-major, four bytes a pixel.
pub struct Image {
    pub width: u32,
    pub height: u32,
    pub data: Vec<u8>,
}

/// What the triangle-filter fill resize of `image` makes of an RGBA image
/// of the given size and bytes, at the new size.
pub uninterp spec fn triangle_fill(
    width: u32,
    height: u32,
    data: Seq<u8>,
    nwidth: u32,
    nheight: u32,
) -> Seq<u8>;

/// What the triangle-filter resize of `image` to exactly the new size
/// makes of an RGBA image of the given size and bytes, the whole image
/// scaled without cropping.
pub uninterp spec fn triangle_exact(
    width: u32,
    height: u32,
    data: Seq<u8>,
    nwidth: u32,
    nheight: u32,
) -> Seq<u8>;

impl Image {
    pub open spec fn wf(&self) -> bool {
        self.data@.len() == self.width * self.height * 4
    }

    /// A fully transparent black image of the given size.
    pub fn blank(width: u32, height: u32) -> (img: Image)
        requires
            width * height * 4 <= usize::MAX,
        ensures
            img.wf(),
            img.width == width,
            img.height == height,
            forall|i: int| 0 <= i < img.data@.len() ==> img.data@[i] == 0,
    {
        let n: usize = width as usize * height as usize * 4;
        let data: Vec<u8> = vec![0u8; n];
        Image { width, height, data }
    }

    /// The RGB channels of the pixel at (x, y).
    pub fn rgb_at(&self, x: u32, y: u32) -> (c: Rgb)
        requires
            self.wf(),
            x < self.width,
            y < self.height,
        ensures
            c == rgb_of(self.data@, (y * self.width + x) as int),
    {
        let len: usize = self.data.len();
        proof {
            lemma_pixel_in_bounds(x as int, y as int, self.width as int, self.height as int);
        }
        let i: usize = (y as usize * self.width as usize + x as usize) * 4;
        Rgb { r: self.data[i], g: self.data[i + 1], b: self.data[i + 2] }
    }
}

/// The RGB channels of pixel `p` in RGBA bytes.
pub open spec fn rgb_of(data: Seq<u8>, p: int) -> Rgb {
    Rgb { r: data[4 * p], g: data[4 * p + 1], b: data[4 * p + 2] }
}

pub proof fn lemma_pixel_in_bounds(x: int, y: int, w: int, h: int)
    requires
        0 <= x < w,
        0 <= y < h,
    ensures
        0 <= y * w,
        0 <= y * w + x < w * h,
        (y * w + x) * 4 + 4 <= w * h * 4,
{
    assert(y * w + x < w * h) by (nonlinear_arith)
        requires
            0 <= x < w,
            0 <= y < h,
    ;
    assert(0 <= y * w) by (nonlinear_arith)
        requires
            0 <= y,
            0 <= w,
    ;
}

/// Relies on image's `DynamicImage::resize_to_fill` with the triangle
/// filter: the result has exactly the requested size, its bytes depend on
/// the input bytes and the sizes alone, and a resize to the image's own size
/// copies it unchanged.
#[verifier::external_body]
pub(crate) fn resize_to_fill(img: &Image, nwidth: u32, nheight: u32) -> (r: Image)
    requires
        img.wf(),
        img.width > 0,
        img.height > 0,
        nwidth > 0,
        nheight > 0,
    ensures
        r.width == nwidth,
        r.height == nheight,
        r.data@ == triangle_fill(img.width, img.height, img.data@, nwidth, nheight),
        r.data@.len() == nwidth * nheight * 4,
        (nwidth == img.width && nheight == img.height) ==> r.data@ == img.data@,
{
    let buf = image::RgbaImage::from_raw(img.width, img.height, img.data.clone()).unwrap();
    let out = image::DynamicImage::ImageRgba8(buf).resize_to_fill(
        nwidth,
        nheight,
        image::imageops::FilterType::Triangle,
    ).into_rgba8();
    Image { width: out.width(), height: out.height(), data: out.into_raw() }
}

/// Relies on image's `DynamicImage::resize_exact` with the triangle
/// filter: the whole image is scaled to exactly the requested size, and its
/// bytes depend on the input bytes and the sizes alone.
#[verifier::external_body]
pub(crate) fn resize_exact(img: &Image, nwidth: u32, nheight: u32) -> (r: Image)
    requires
        img.wf(),
        img.width > 0,
        img.height > 0,
        nwidth > 0,
        nheight > 0,
    ensures
        r.width == nwidth,
        r.height == nheight,
        r.data@ == triangle_exact(img.width, img.height, img.data@, nwidth, nheight),
        r.data@.len() == nwidth * nheight * 4,
{
    let buf = image::RgbaImage::from_raw(img.width, img.height, img.data.clone()).unwrap();
    let out = image::DynamicImage::ImageRgba8(buf).resize_exact(
        nwidth,
        nheight,
        image::imageops::FilterType::Triangle,
    ).into_rgba8();
    Image { width: out.width(), height: out.height(), data: out.into_raw() }
}

/// The representative color of an image: its single pixel after the whole
/// image is resized to 1x1 with the triangle filter.
pub open spec fn key_of(width: u32, height: u32, data: Seq<u8>) -> Rgb {
    rgb_of(triangle_exact(width, height, data, 1, 1), 0)
}

/// The representative color key of a non-empty image.
pub fn average_color(img: &Image) -> (c: Rgb)
    requires
        img.wf(),
        img.width > 0,
        img.height > 0,
    ensures
        c == key_of(img.width, img.height, img.data@),
{
    let one = resize_exact(img, 1, 1);
    one.rgb_at(0, 0)
}

} // verus!
