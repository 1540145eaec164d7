//! Manipulation of raw, uncompressed RGB and RGBA pixel buffers.
//!
//! An [`Image`] owns interleaved bytes in row-major order. Every operation is
//! specified over [`raster::Raster`], the mathematical value of an image.

use vstd::prelude::*;

pub mod filters;
pub mod geometry;
pub mod laws;
pub mod manipulation;
pub mod raster;

use crate::raster::{lemma_byte_count, lemma_byte_index_bound, lemma_linear_index_bound, Raster};
use vstd::std_specs::ops::AddSpec;

verus! {

/// One pixel of a four-channel image.
#[derive(Debug)]
pub struct PixelRGBA {
    pub r: u8,
    pub g: u8,
    pub b: u8,
    pub a: u8,
}

impl PixelRGBA {
    /// Reads a pixel from the first four bytes of `data`.
    pub fn build(data: Vec<u8>) -> (pixel: PixelRGBA)
        requires
            data@.len() >= 4,
        ensures
            pixel.r == data@[0],
            pixel.g == data@[1],
            pixel.b == data@[2],
            pixel.a == data@[3],
    {
        PixelRGBA { r: data[0], g: data[1], b: data[2], a: data[3] }
    }
}

/// One pixel of a three-channel image.
#[derive(Debug)]
pub struct PixelRGB {
    pub r: u8,
    pub g: u8,
    pub b: u8,
}

impl PixelRGB {
    /// Reads a pixel from the first three bytes of `data`.
    pub fn build(data: Vec<u8>) -> (pixel: PixelRGB)
        requires
            data@.len() >= 3,
        ensures
            pixel.r == data@[0],
            pixel.g == data@[1],
            pixel.b == data@[2],
    {
        PixelRGB { r: data[0], g: data[1], b: data[2] }
    }
}

/// A pixel as read from an image; the variant follows the image's channel
/// count.
#[derive(Debug)]
pub enum Pixel {
    RGBA(PixelRGBA),
    RGB(PixelRGB),
}

/// An image of three or four channels that owns its bytes. The number of
/// bytes is always `width * height * channels`.
#[derive(Debug)]
pub struct Image {
    channels: u8,
    width: u32,
    height: u32,
    data: Vec<u8>,
}

impl View for Image {
    type V = Raster;

    closed spec fn view(&self) -> Raster {
        Raster {
            channels: self.channels as int,
            width: self.width as int,
            height: self.height as int,
            data: self.data@,
        }
    }
}

impl Image {
    /// Holds of every image that exists: its bytes are those of its shape.
    #[verifier::type_invariant]
    pub open spec fn wf(&self) -> bool {
        self@.wf()
    }

    /// A fully transparent black image of four channels.
    pub fn new(width: u32, height: u32) -> (image: Image)
        requires
            width * height * 4 <= usize::MAX,
        ensures
            image@.channels == 4,
            image@.width == width,
            image@.height == height,
            image@.data == Seq::new((width * height * 4) as nat, |i: int| 0u8),
    {
        assert(0 <= width * height <= width * height * 4) by (nonlinear_arith);
        let len: usize = (width as usize) * (height as usize) * 4;
        let data: Vec<u8> = vec![0u8; len];
        assert(data@ =~= Seq::new((width * height * 4) as nat, |i: int| 0u8));
        Image { channels: 4, width, height, data }
    }

    /// Wraps `data` as an image of the given shape, if it is the bytes of
    /// one: `channels` is 3 or 4 and `data` holds `width * height * channels`
    /// bytes.
    pub fn from_bytes(channels: u8, width: u32, height: u32, data: Vec<u8>) -> (image: Option<Image>)
        ensures
            image is Some <==> (channels == 3 || channels == 4) && data@.len() == width * height
                * channels,
            image matches Some(img) ==> img@ == (Raster {
                channels: channels as int,
                width: width as int,
                height: height as int,
                data: data@,
            }),
    {
        if channels != 3 && channels != 4 {
            return None;
        }
        assert(0 <= width * height <= 0xffff_ffff * 0xffff_ffff) by (nonlinear_arith)
            requires
                0 <= width <= 0xffff_ffff,
                0 <= height <= 0xffff_ffff,
        ;
        let pixels: u64 = (width as u64) * (height as u64);
        let len: u64 = data.len() as u64;
        if len % (channels as u64) != 0 || len / (channels as u64) != pixels {
            return None;
        }
        Some(Image { channels, width, height, data })
    }

    /// The number of channels, 3 or 4.
    pub fn channels(&self) -> (channels: u8)
        ensures
            channels == self@.channels,
            channels == 3 || channels == 4,
    {
        proof {
            use_type_invariant(self);
        }
        self.channels
    }

    /// The width in pixels.
    pub fn width(&self) -> (width: u32)
        ensures
            width == self@.width,
    {
        self.width
    }

    /// The height in pixels.
    pub fn height(&self) -> (height: u32)
        ensures
            height == self@.height,
    {
        self.height
    }

    /// The bytes of the image, `channels` per pixel, row after row.
    pub fn as_bytes(&self) -> (bytes: &Vec<u8>)
        ensures
            bytes@ == self@.data,
            self@.wf(),
    {
        proof {
            use_type_invariant(self);
        }
        &self.data
    }

    /// Gives up the image for its bytes.
    pub fn into_bytes(self) -> (bytes: Vec<u8>)
        ensures
            bytes@ == self@.data,
    {
        self.data
    }

    /// The number of pixels.
    pub fn pixel_count(&self) -> (count: usize)
        ensures
            count == self@.pixel_count(),
            count * self@.channels == self@.data.len(),
            count * self@.channels <= usize::MAX,
    {
        proof {
            use_type_invariant(self);
            assert(self.data@.len() == self.data.len());
            assert(0 <= self.width * self.height <= self.width * self.height * self.channels)
                by (nonlinear_arith)
                requires
                    self.channels >= 1,
                    self.width >= 0,
                    self.height >= 0,
            ;
        }
        (self.width as usize) * (self.height as usize)
    }

    /// Byte offset of the first channel of pixel `(x, y)`.
    pub fn pos_to_index(&self, x: usize, y: usize) -> (index: usize)
        requires
            self@.contains(x as int, y as int),
        ensures
            index == self@.offset(x as int, y as int),
            index + self@.channels <= self@.data.len(),
    {
        proof {
            use_type_invariant(self);
            assert(self.data@.len() == self.data.len());
            self@.lemma_offset_bound(x as int, y as int, 0);
            lemma_linear_index_bound(x as int, y as int, self.width as int, self.height as int);
            assert(0 <= y * self.width <= y * self.width + x <= (y * self.width + x)
                * self.channels) by (nonlinear_arith)
                requires
                    self.channels >= 1,
                    self.width >= 0,
                    x >= 0,
                    y >= 0,
            ;
        }
        (y * self.width as usize + x) * self.channels as usize
    }

    /// Column and row of the pixel that byte `index` belongs to.
    pub fn index_to_pos(&self, index: usize) -> (pos: (usize, usize))
        requires
            self@.width > 0,
        ensures
            pos.0 == (index as int / self@.channels) % self@.width,
            pos.1 == (index as int / self@.channels) / self@.width,
    {
        proof {
            use_type_invariant(self);
        }
        let pixel_index = index / self.channels as usize;
        self.pixel_index_to_pos(pixel_index)
    }

    /// Byte offset of the first channel of the pixel with linear index
    /// `pixel_index`.
    pub fn pixel_index_to_index(&self, pixel_index: usize) -> (index: usize)
        requires
            pixel_index * self@.channels <= usize::MAX,
        ensures
            index == pixel_index * self@.channels,
    {
        pixel_index * self.channels as usize
    }

    /// Column and row of the pixel with linear index `pixel_index`.
    pub fn pixel_index_to_pos(&self, pixel_index: usize) -> (pos: (usize, usize))
        requires
            self@.width > 0,
        ensures
            pos.0 == pixel_index as int % self@.width,
            pos.1 == pixel_index as int / self@.width,
    {
        let x = pixel_index % self.width as usize;
        let y = pixel_index / self.width as usize;
        (x, y)
    }

    /// Whether `pos` names a pixel of the image. Coordinates are signed so
    /// that a caller may test a position that it computed below zero.
    pub fn is_pos_in_image(&self, pos: (isize, isize)) -> (inside: bool)
        ensures
            inside == self@.contains(pos.0 as int, pos.1 as int),
    {
        if pos.0 < 0 || pos.1 < 0 {
            return false;
        }
        if pos.0 as usize >= self.width as usize || pos.1 as usize >= self.height as usize {
            return false;
        }
        true
    }

    /// Componentwise sum of two positions.
    pub fn sum_pos<T: core::ops::Add>(pos1: (T, T), pos2: (T, T)) -> (sum: (T::Output, T::Output))
        requires
            pos1.0.add_req(pos2.0),
            pos1.1.add_req(pos2.1),
        ensures
            T::obeys_add_spec() ==> sum.0 == pos1.0.add_spec(pos2.0),
            T::obeys_add_spec() ==> sum.1 == pos1.1.add_spec(pos2.1),
    {
        (pos1.0 + pos2.0, pos1.1 + pos2.1)
    }

    /// Componentwise difference of two positions.
    pub fn subtract_pos(pos1: (usize, usize), pos2: (usize, usize)) -> (diff: (isize, isize))
        requires
            isize::MIN <= pos1.0 - pos2.0 <= isize::MAX,
            isize::MIN <= pos1.1 - pos2.1 <= isize::MAX,
        ensures
            diff.0 == pos1.0 - pos2.0,
            diff.1 == pos1.1 - pos2.1,
    {
        (signed_difference(pos1.0, pos2.0), signed_difference(pos1.1, pos2.1))
    }
}

impl Raster {
    /// The pixel with linear index `index`, read as the variant that the
    /// channel count calls for.
    pub open spec fn pixel_value(self, index: int) -> Pixel {
        if self.channels == 4 {
            Pixel::RGBA(
                PixelRGBA {
                    r: self.data[index * 4],
                    g: self.data[index * 4 + 1],
                    b: self.data[index * 4 + 2],
                    a: self.data[index * 4 + 3],
                },
            )
        } else {
            Pixel::RGB(
                PixelRGB {
                    r: self.data[index * 3],
                    g: self.data[index * 3 + 1],
                    b: self.data[index * 3 + 2],
                },
            )
        }
    }
}

/// A walk over the pixels of an image, left to right and top to bottom, that
/// goes once and cannot be started again.
pub struct PixelIterator<'a> {
    image: &'a Image,
    cur_pixel_index: usize,
}

impl<'a> PixelIterator<'a> {
    #[verifier::type_invariant]
    spec fn wf(&self) -> bool {
        self.cur_pixel_index <= self.image@.pixel_count()
    }

    /// The image that is walked over.
    pub closed spec fn raster(&self) -> Raster {
        self.image@
    }

    /// How many pixels were handed out.
    pub closed spec fn position(&self) -> int {
        self.cur_pixel_index as int
    }

    /// A walk that starts at the first pixel of `image`.
    pub fn new(image: &'a Image) -> (walk: Self)
        ensures
            walk.raster() == image@,
            walk.position() == 0,
    {
        proof {
            use_type_invariant(image);
            lemma_byte_count(image@.channels, image@.width, image@.height);
        }
        PixelIterator { image, cur_pixel_index: 0 }
    }

    /// The next pixel, or `None` once all were handed out.
    pub fn next(&mut self) -> (pixel: Option<Pixel>)
        ensures
            final(self).raster() == old(self).raster(),
            0 <= old(self).position() <= old(self).raster().pixel_count(),
            old(self).position() < old(self).raster().pixel_count() ==> pixel == Some(
                old(self).raster().pixel_value(old(self).position()),
            ) && final(self).position() == old(self).position() + 1,
            old(self).position() == old(self).raster().pixel_count() ==> pixel is None
                && final(self).position() == old(self).position(),
    {
        proof {
            use_type_invariant(&*self);
            use_type_invariant(self.image);
        }
        let count = self.image.pixel_count();
        if self.cur_pixel_index >= count {
            return None;
        }
        let channels = self.image.channels as usize;
        proof {
            lemma_byte_index_bound(
                self.cur_pixel_index as int,
                0,
                count as int,
                channels as int,
            );
        }
        let start = self.cur_pixel_index * channels;
        let mut pixel_data: Vec<u8> = Vec::with_capacity(4);
        pixel_data.push(self.image.data[start]);
        pixel_data.push(self.image.data[start + 1]);
        pixel_data.push(self.image.data[start + 2]);
        if channels == 4 {
            pixel_data.push(self.image.data[start + 3]);
        }
        self.cur_pixel_index += 1;
        if channels == 4 {
            Some(Pixel::RGBA(PixelRGBA::build(pixel_data)))
        } else {
            Some(Pixel::RGB(PixelRGB::build(pixel_data)))
        }
    }
}

/// `a - b` as a signed number.
fn signed_difference(a: usize, b: usize) -> (d: isize)
    requires
        isize::MIN <= a - b <= isize::MAX,
    ensures
        d == a - b,
{
    if a >= b {
        (a - b) as isize
    } else {
        -((b - a - 1) as isize) - 1
    }
}

} // verus!
