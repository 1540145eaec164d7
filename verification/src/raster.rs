//! The mathematical model of an image: its dimensions and its bytes, with the
//! coordinate arithmetic that every transform is stated over.

use vstd::prelude::*;
use vstd::arithmetic::div_mod::{lemma_fundamental_div_mod, lemma_fundamental_div_mod_converse};

verus! {

/// What an image is, independent of how it is stored: a channel count, a
/// width, a height and the interleaved bytes in row-major order, origin at
/// the top left.
#[verifier::ext_equal]
pub struct Raster {
    pub channels: int,
    pub width: int,
    pub height: int,
    pub data: Seq<u8>,
}

impl Raster {
    /// Three or four channels, and exactly one byte per channel of every pixel.
    pub open spec fn wf(self) -> bool {
        &&& (self.channels == 3 || self.channels == 4)
        &&& 0 <= self.width
        &&& 0 <= self.height
        &&& self.data.len() == self.width * self.height * self.channels
    }

    /// The number of pixels.
    pub open spec fn pixel_count(self) -> int {
        self.width * self.height
    }

    /// Whether `(x, y)` names a pixel of this raster.
    pub open spec fn contains(self, x: int, y: int) -> bool {
        0 <= x < self.width && 0 <= y < self.height
    }

    /// Byte offset of the first channel of pixel `(x, y)`.
    pub open spec fn offset(self, x: int, y: int) -> int {
        (y * self.width + x) * self.channels
    }

    /// Channel `c` of pixel `(x, y)`.
    pub open spec fn sample(self, x: int, y: int, c: int) -> u8 {
        self.data[self.offset(x, y) + c]
    }

    /// The channels of pixel `(x, y)`, in order.
    pub open spec fn pixel(self, x: int, y: int) -> Seq<u8> {
        Seq::new(self.channels as nat, |c: int| self.sample(x, y, c))
    }

    /// This raster with the channels of pixel `(x, y)` taken from the front
    /// of `value`.
    pub open spec fn with_pixel(self, x: int, y: int, value: Seq<u8>) -> Raster {
        Raster::from_samples(
            self.channels,
            self.width,
            self.height,
            |px: int, py: int, c: int|
                if px == x && py == y {
                    value[c]
                } else {
                    self.sample(px, py, c)
                },
        )
    }

    /// The raster of the given shape whose channel `c` of pixel `(x, y)` is
    /// `f(x, y, c)`.
    pub open spec fn from_samples(
        channels: int,
        width: int,
        height: int,
        f: spec_fn(int, int, int) -> u8,
    ) -> Raster {
        Raster {
            channels,
            width,
            height,
            data: Seq::new(
                (width * height * channels) as nat,
                |k: int| f((k / channels) % width, (k / channels) / width, k % channels),
            ),
        }
    }
}

/// A position inside a `w` by `h` grid has a linear index below `w * h`.
pub proof fn lemma_linear_index_bound(x: int, y: int, w: int, h: int)
    requires
        0 <= x < w,
        0 <= y < h,
    ensures
        0 <= y * w + x < w * h,
        (y * w + x) / w == y,
        (y * w + x) % w == x,
{
    assert(0 <= y * w && y * w + w <= h * w && h * w == w * h) by (nonlinear_arith)
        requires
            0 <= y < h,
            0 < w,
    ;
    lemma_fundamental_div_mod_converse(y * w + x, w, y, x);
}

/// A linear index below `w * h` splits into a column below `w` and a row
/// below `h`.
pub proof fn lemma_linear_index_split(p: int, w: int, h: int)
    requires
        0 <= p < w * h,
        0 <= w,
        0 <= h,
    ensures
        0 < w,
        0 <= p % w < w,
        0 <= p / w < h,
        (p / w) * w + p % w == p,
{
    assert(0 < w) by (nonlinear_arith)
        requires
            0 <= p < w * h,
            0 <= w,
    ;
    lemma_fundamental_div_mod(p, w);
    assert(w * (p / w) == (p / w) * w) by (nonlinear_arith);
    assert(0 <= p / w < h) by (nonlinear_arith)
        requires
            0 < w,
            0 <= p < w * h,
            0 <= p % w < w,
            (p / w) * w + p % w == p,
    ;
}

/// Byte `k` of `n` pixels of `ch` channels belongs to pixel `k / ch`, channel
/// `k % ch`.
pub proof fn lemma_byte_index_split(k: int, n: int, ch: int)
    requires
        ch == 3 || ch == 4,
        0 <= k < n * ch,
    ensures
        0 <= k / ch < n,
        0 <= k % ch < ch,
        (k / ch) * ch + k % ch == k,
{
}

/// Channel `c` of pixel `p` is byte `p * ch + c`.
pub proof fn lemma_byte_index_bound(p: int, c: int, n: int, ch: int)
    requires
        ch == 3 || ch == 4,
        0 <= p < n,
        0 <= c < ch,
    ensures
        0 <= p * ch + c < n * ch,
        (p * ch + c) / ch == p,
        (p * ch + c) % ch == c,
{
}

/// A grid of `w` by `h` pixels of `ch` channels has `w * h * ch` bytes, no
/// fewer than it has pixels.
pub proof fn lemma_byte_count(ch: int, w: int, h: int)
    requires
        ch == 3 || ch == 4,
        0 <= w,
        0 <= h,
    ensures
        0 <= w * h <= w * h * ch,
{
    assert(0 <= w * h) by (nonlinear_arith)
        requires
            0 <= w,
            0 <= h,
    ;
}

/// Channel `c` of the pixel at `(x, y)` is byte `(y * w + x) * ch + c`, and
/// that byte belongs to no other channel of no other pixel.
pub proof fn lemma_sample_index(ch: int, w: int, h: int, x: int, y: int, c: int)
    requires
        ch == 3 || ch == 4,
        0 <= x < w,
        0 <= y < h,
        0 <= c < ch,
    ensures
        0 <= (y * w + x) * ch + c < w * h * ch,
        (((y * w + x) * ch + c) / ch) % w == x,
        (((y * w + x) * ch + c) / ch) / w == y,
        ((y * w + x) * ch + c) % ch == c,
{
    lemma_linear_index_bound(x, y, w, h);
    lemma_byte_index_bound(y * w + x, c, w * h, ch);
}

impl Raster {
    /// Every channel of every pixel has its byte inside the data.
    pub proof fn lemma_offset_bound(self, x: int, y: int, c: int)
        requires
            self.wf(),
            self.contains(x, y),
            0 <= c < self.channels,
        ensures
            0 <= self.offset(x, y) + c < self.data.len(),
            0 <= self.offset(x, y),
            self.offset(x, y) + self.channels <= self.data.len(),
    {
        lemma_linear_index_bound(x, y, self.width, self.height);
        lemma_byte_index_bound(
            y * self.width + x,
            c,
            self.width * self.height,
            self.channels,
        );
        lemma_byte_index_bound(
            y * self.width + x,
            0,
            self.width * self.height,
            self.channels,
        );
    }

    /// The pixel with linear index `p` sits in column `p % width` of row
    /// `p / width`, and its channel `c` is byte `p * channels + c`.
    pub proof fn lemma_sample_linear(self, p: int, c: int)
        requires
            self.wf(),
            0 <= p < self.width * self.height,
            0 <= c < self.channels,
        ensures
            self.contains(p % self.width, p / self.width),
            self.offset(p % self.width, p / self.width) == p * self.channels,
            self.sample(p % self.width, p / self.width, c) == self.data[p * self.channels + c],
            0 <= p * self.channels + c < self.data.len(),
    {
        lemma_linear_index_split(p, self.width, self.height);
        lemma_byte_index_bound(p, c, self.width * self.height, self.channels);
    }

    /// Replacing a pixel changes the samples of that pixel and no others.
    pub proof fn lemma_sample_of_with_pixel(
        self,
        x: int,
        y: int,
        value: Seq<u8>,
        px: int,
        py: int,
        c: int,
    )
        requires
            self.wf(),
            self.contains(px, py),
            0 <= c < self.channels,
        ensures
            self.with_pixel(x, y, value).wf(),
            self.with_pixel(x, y, value).sample(px, py, c) == if px == x && py == y {
                value[c]
            } else {
                self.sample(px, py, c)
            },
    {
        lemma_sample_index(self.channels, self.width, self.height, px, py, c);
    }

    /// Replacing a pixel changes the bytes of that pixel and no others.
    pub proof fn lemma_with_pixel_data(self, x: int, y: int, value: Seq<u8>)
        requires
            self.wf(),
            self.contains(x, y),
        ensures
            self.with_pixel(x, y, value).data == Seq::new(
                self.data.len(),
                |k: int|
                    if self.offset(x, y) <= k < self.offset(x, y) + self.channels {
                        value[k - self.offset(x, y)]
                    } else {
                        self.data[k]
                    },
            ),
    {
        let ch = self.channels;
        let w = self.width;
        let h = self.height;
        let at = self.offset(x, y);
        let replaced = self.with_pixel(x, y, value);
        let patched = Seq::new(
            self.data.len(),
            |k: int|
                if self.offset(x, y) <= k < self.offset(x, y) + self.channels {
                    value[k - self.offset(x, y)]
                } else {
                    self.data[k]
                },
        );
        lemma_linear_index_bound(x, y, w, h);
        assert forall|k: int| 0 <= k < self.data.len() implies replaced.data[k] == patched[k] by {
            lemma_byte_index_split(k, w * h, ch);
            let p = k / ch;
            let c = k % ch;
            lemma_linear_index_split(p, w, h);
            self.lemma_sample_linear(p, c);
            if p == y * w + x {
                assert(k == at + c);
            } else {
                assert(!(p % w == x && p / w == y));
                assert(!(at <= k < at + ch));
            }
        }
        assert(replaced.data =~= patched);
    }

    /// Two well-formed rasters of one shape that agree on every sample are
    /// the same raster.
    pub proof fn lemma_equal_by_samples(self, other: Raster)
        requires
            self.wf(),
            other.wf(),
            self.channels == other.channels,
            self.width == other.width,
            self.height == other.height,
            forall|x: int, y: int, c: int|
                self.contains(x, y) && 0 <= c < self.channels ==> #[trigger] self.sample(x, y, c)
                    == other.sample(x, y, c),
        ensures
            self == other,
    {
        assert forall|k: int| 0 <= k < self.data.len() implies self.data[k] == other.data[k] by {
            let ch = self.channels;
            let w = self.width;
            let h = self.height;
            lemma_byte_index_split(k, w * h, ch);
            let p = k / ch;
            let c = k % ch;
            lemma_linear_index_split(p, w, h);
            let x = p % w;
            let y = p / w;
            assert(self.offset(x, y) + c == k);
            assert(self.sample(x, y, c) == other.sample(x, y, c));
        }
        assert(self.data =~= other.data);
    }
}

} // verus!
