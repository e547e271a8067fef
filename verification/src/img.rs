use vstd::prelude::*;
use crate::pixel_group::Color;

verus! {

/// A picture in memory: an `image::ImageBuffer` of 8-bit RGB pixels over a
/// vector of bytes.
#[verifier::external_body]
pub struct Raster {
    buffer: image::ImageBuffer<image::Rgb<u8>, Vec<u8>>,
}

/// The pixels of the picture, row by row from the top, each row from the left.
pub uninterp spec fn raster_pixels(raster: Raster) -> Seq<(u8, u8, u8)>;

/// The width and the height that the picture was made with.
pub uninterp spec fn raster_dimensions(raster: Raster) -> (u32, u32);

/// The pixels that `data` holds for a picture of `count` pixels: three bytes
/// for each, red, green, blue.
pub open spec fn pixels_of_bytes(data: Seq<u8>, count: int) -> Seq<(u8, u8, u8)> {
    Seq::new(count as nat, |i: int| (data[3 * i], data[3 * i + 1], data[3 * i + 2]))
}

/// `ImageBuffer::from_raw`. The buffer is made when `data` holds three bytes
/// for each of the `width * height` pixels, and not otherwise; it keeps the
/// two dimensions, and its pixels are the bytes of `data` in threes, in
/// their order.
#[verifier::external_body]
fn raster_from_raw(width: u32, height: u32, data: Vec<u8>) -> (made: Option<Raster>)
    ensures
        made is Some <==> 3 * width * height <= data@.len(),
        made matches Some(raster) ==> raster_dimensions(raster) == (width, height)
            && raster_pixels(raster) == pixels_of_bytes(data@, width * height),
{
    match image::ImageBuffer::from_raw(width, height, data) {
        Some(buffer) => Some(Raster { buffer }),
        None => None,
    }
}

/// `ImageBuffer::dimensions`: the width and the height. The buffer holds
/// that many pixels.
#[verifier::external_body]
fn raster_size(raster: &Raster) -> (size: (u32, u32))
    ensures
        size == raster_dimensions(*raster),
        raster_pixels(*raster).len() == size.0 * size.1,
{
    raster.buffer.dimensions()
}

/// `ImageBuffer::get_pixel`: the pixel in column `x` of row `y`, which must
/// lie in the picture.
#[verifier::external_body]
fn raster_pixel(raster: &Raster, x: u32, y: u32) -> (color: (u8, u8, u8))
    requires
        x < raster_dimensions(*raster).0,
        y < raster_dimensions(*raster).1,
    ensures
        color == raster_pixels(*raster)[y * raster_dimensions(*raster).0 + x],
{
    let pixel = raster.buffer.get_pixel(x, y);
    (pixel.0[0], pixel.0[1], pixel.0[2])
}

/// `ImageBuffer::as_raw`, copied: the bytes that the buffer was made over.
/// They hold the pixels of the picture in threes, in their order.
#[verifier::external_body]
fn raster_bytes(raster: &Raster) -> (data: Vec<u8>)
    ensures
        3 * raster_dimensions(*raster).0 * raster_dimensions(*raster).1 <= data@.len(),
        pixels_of_bytes(data@, raster_dimensions(*raster).0 * raster_dimensions(*raster).1)
            == raster_pixels(*raster),
{
    raster.buffer.as_raw().clone()
}

/// The picture that the mesh is fitted to, with the number of points that
/// the mesh is to have.
pub struct Img {
    raster: Raster,
    points: usize,
}

impl Img {
    /// Width and height.
    pub closed spec fn size(&self) -> (u32, u32) {
        raster_dimensions(self.raster)
    }

    /// The pixels, row by row.
    pub closed spec fn pixels(&self) -> Seq<Color> {
        raster_pixels(self.raster)
    }

    /// The number of points that the mesh is to have.
    pub closed spec fn target(&self) -> usize {
        self.points
    }

    /// The colour in column `x` of row `y`.
    pub open spec fn color_at(&self, x: int, y: int) -> Color {
        self.pixels()[y * self.size().0 + x]
    }

    /// The picture of `width` by `height` pixels over the bytes of `data`,
    /// three for each pixel. There is none where `data` is too short.
    pub fn new(width: u32, height: u32, data: Vec<u8>, points: usize) -> (img: Option<Img>)
        ensures
            img is Some <==> 3 * width * height <= data@.len(),
            img matches Some(i) ==> i.size() == (width, height) && i.target() == points
                && i.pixels() == pixels_of_bytes(data@, width * height),
    {
        match raster_from_raw(width, height, data) {
            Some(raster) => Some(Img { raster, points }),
            None => None,
        }
    }

    /// Width and height.
    pub fn dimensions(&self) -> (size: (u32, u32))
        ensures
            size == self.size(),
            self.pixels().len() == size.0 * size.1,
    {
        raster_size(&self.raster)
    }

    /// The number of points that the mesh is to have.
    pub fn points(&self) -> (n: usize)
        ensures
            n == self.target(),
    {
        self.points
    }

    /// The bytes of the picture: three for each pixel, row by row.
    pub fn image(&self) -> (data: Vec<u8>)
        ensures
            3 * self.size().0 * self.size().1 <= data@.len(),
            pixels_of_bytes(data@, self.size().0 * self.size().1) == self.pixels(),
    {
        raster_bytes(&self.raster)
    }

    /// The colour of the pixel in column `x` of row `y`.
    pub fn get_pixel(&self, x: u32, y: u32) -> (color: Color)
        requires
            x < self.size().0,
            y < self.size().1,
        ensures
            color == self.color_at(x as int, y as int),
    {
        raster_pixel(&self.raster, x, y)
    }
}

} // verus!
