//! What holds of the transforms whatever the image.

use vstd::prelude::*;
use crate::manipulation::{composite, composite_channel, composite_weight};
use crate::raster::{lemma_byte_count, lemma_sample_index, Raster};

verus! {

impl Raster {
    /// Channel `c` of pixel `(x, y)` after a half turn is that of the pixel
    /// opposite to it.
    pub proof fn lemma_sample_of_rotated_180(self, x: int, y: int, c: int)
        requires
            self.wf(),
            self.contains(x, y),
            0 <= c < self.channels,
        ensures
            self.rotated_180().wf(),
            self.contains(self.width - 1 - x, self.height - 1 - y),
            self.rotated_180().sample(x, y, c) == self.sample(
                self.width - 1 - x,
                self.height - 1 - y,
                c,
            ),
    {
        lemma_byte_count(self.channels, self.width, self.height);
        lemma_sample_index(self.channels, self.width, self.height, x, y, c);
    }

    /// Channel `c` of pixel `(x, y)` after a quarter turn clockwise.
    pub proof fn lemma_sample_of_rotated_90(self, x: int, y: int, c: int)
        requires
            self.wf(),
            0 <= x < self.height,
            0 <= y < self.width,
            0 <= c < self.channels,
        ensures
            self.rotated_90().wf(),
            self.contains(y, self.height - 1 - x),
            self.rotated_90().sample(x, y, c) == self.sample(y, self.height - 1 - x, c),
    {
        lemma_byte_count(self.channels, self.height, self.width);
        lemma_sample_index(self.channels, self.height, self.width, x, y, c);
    }

    /// Channel `c` of pixel `(x, y)` after a quarter turn counterclockwise.
    pub proof fn lemma_sample_of_rotated_270(self, x: int, y: int, c: int)
        requires
            self.wf(),
            0 <= x < self.height,
            0 <= y < self.width,
            0 <= c < self.channels,
        ensures
            self.rotated_270().wf(),
            self.contains(self.width - 1 - y, x),
            self.rotated_270().sample(x, y, c) == self.sample(self.width - 1 - y, x, c),
    {
        lemma_byte_count(self.channels, self.height, self.width);
        lemma_sample_index(self.channels, self.height, self.width, x, y, c);
    }

    /// Channel `c` of pixel `(x, y)` after the turn to gray.
    pub proof fn lemma_sample_of_grayscale(self, x: int, y: int, c: int)
        requires
            self.wf(),
            self.contains(x, y),
            0 <= c < self.channels,
        ensures
            self.grayscale().wf(),
            self.grayscale().sample(x, y, c) == if c < 3 {
                ((self.sample(x, y, 0) + self.sample(x, y, 1) + self.sample(x, y, 2)) / 3) as u8
            } else {
                self.sample(x, y, c)
            },
    {
        lemma_byte_count(self.channels, self.width, self.height);
        lemma_sample_index(self.channels, self.width, self.height, x, y, c);
    }

    /// Channel `c` of pixel `(x, y)` of a cropped raster.
    pub proof fn lemma_sample_of_cropped(
        self,
        x0: int,
        y0: int,
        x1: int,
        y1: int,
        x: int,
        y: int,
        c: int,
    )
        requires
            self.wf(),
            0 <= x0 <= x1 <= self.width,
            0 <= y0 <= y1 <= self.height,
            0 <= x < x1 - x0,
            0 <= y < y1 - y0,
            0 <= c < self.channels,
        ensures
            self.cropped(x0, y0, x1, y1).wf(),
            self.contains(x0 + x, y0 + y),
            self.cropped(x0, y0, x1, y1).sample(x, y, c) == self.sample(x0 + x, y0 + y, c),
    {
        lemma_byte_count(self.channels, x1 - x0, y1 - y0);
        lemma_sample_index(self.channels, x1 - x0, y1 - y0, x, y, c);
    }

    /// Two half turns give the raster back.
    pub proof fn lemma_rotated_180_twice(self)
        requires
            self.wf(),
        ensures
            self.rotated_180().rotated_180() == self,
    {
        let once = self.rotated_180();
        let twice = once.rotated_180();
        lemma_byte_count(self.channels, self.width, self.height);
        assert forall|x: int, y: int, c: int|
            twice.contains(x, y) && 0 <= c < twice.channels implies #[trigger] twice.sample(x, y, c)
            == self.sample(x, y, c) by {
            once.lemma_sample_of_rotated_180(x, y, c);
            self.lemma_sample_of_rotated_180(self.width - 1 - x, self.height - 1 - y, c);
        }
        twice.lemma_equal_by_samples(self);
    }

    /// A quarter turn either way swaps width and height.
    pub proof fn lemma_quarter_turn_swaps_sides(self)
        ensures
            self.rotated_90().width == self.height,
            self.rotated_90().height == self.width,
            self.rotated_270().width == self.height,
            self.rotated_270().height == self.width,
            self.rotated_90().channels == self.channels,
            self.rotated_270().channels == self.channels,
    {
    }

    /// A quarter turn clockwise moves the pixel at `(x, y)` to the linear
    /// index `x * height + (height - 1 - y)`.
    pub proof fn lemma_rotated_90_moves(self, x: int, y: int, c: int)
        requires
            self.wf(),
            self.contains(x, y),
            0 <= c < self.channels,
        ensures
            0 <= (x * self.height + (self.height - 1 - y)) * self.channels + c
                < self.rotated_90().data.len(),
            self.rotated_90().data[(x * self.height + (self.height - 1 - y)) * self.channels + c]
                == self.sample(x, y, c),
    {
        self.lemma_sample_of_rotated_90(self.height - 1 - y, x, c);
        self.rotated_90().lemma_offset_bound(self.height - 1 - y, x, c);
    }

    /// A quarter turn counterclockwise moves the pixel at `(x, y)` to the
    /// linear index `(width - 1 - x) * height + y`.
    pub proof fn lemma_rotated_270_moves(self, x: int, y: int, c: int)
        requires
            self.wf(),
            self.contains(x, y),
            0 <= c < self.channels,
        ensures
            0 <= ((self.width - 1 - x) * self.height + y) * self.channels + c
                < self.rotated_270().data.len(),
            self.rotated_270().data[((self.width - 1 - x) * self.height + y) * self.channels + c]
                == self.sample(x, y, c),
    {
        self.lemma_sample_of_rotated_270(y, self.width - 1 - x, c);
        self.rotated_270().lemma_offset_bound(y, self.width - 1 - x, c);
    }

    /// A quarter turn clockwise undoes a quarter turn counterclockwise.
    pub proof fn lemma_rotated_90_undoes_270(self)
        requires
            self.wf(),
        ensures
            self.rotated_270().rotated_90() == self,
    {
        let once = self.rotated_270();
        let twice = once.rotated_90();
        lemma_byte_count(self.channels, self.height, self.width);
        lemma_byte_count(self.channels, self.width, self.height);
        assert forall|x: int, y: int, c: int|
            twice.contains(x, y) && 0 <= c < twice.channels implies #[trigger] twice.sample(x, y, c)
            == self.sample(x, y, c) by {
            once.lemma_sample_of_rotated_90(x, y, c);
            self.lemma_sample_of_rotated_270(y, once.height - 1 - x, c);
        }
        twice.lemma_equal_by_samples(self);
    }

    /// A quarter turn counterclockwise undoes a quarter turn clockwise.
    pub proof fn lemma_rotated_270_undoes_90(self)
        requires
            self.wf(),
        ensures
            self.rotated_90().rotated_270() == self,
    {
        let once = self.rotated_90();
        let twice = once.rotated_270();
        lemma_byte_count(self.channels, self.height, self.width);
        lemma_byte_count(self.channels, self.width, self.height);
        assert forall|x: int, y: int, c: int|
            twice.contains(x, y) && 0 <= c < twice.channels implies #[trigger] twice.sample(x, y, c)
            == self.sample(x, y, c) by {
            once.lemma_sample_of_rotated_270(x, y, c);
            self.lemma_sample_of_rotated_90(once.width - 1 - y, x, c);
        }
        twice.lemma_equal_by_samples(self);
    }

    /// Turning a gray image to gray changes nothing.
    pub proof fn lemma_grayscale_idempotent(self)
        requires
            self.wf(),
        ensures
            self.grayscale().grayscale() == self.grayscale(),
    {
        let once = self.grayscale();
        let twice = once.grayscale();
        lemma_byte_count(self.channels, self.width, self.height);
        assert forall|x: int, y: int, c: int|
            twice.contains(x, y) && 0 <= c < twice.channels implies #[trigger] twice.sample(x, y, c)
            == once.sample(x, y, c) by {
            once.lemma_sample_of_grayscale(x, y, c);
            self.lemma_sample_of_grayscale(x, y, 0);
            self.lemma_sample_of_grayscale(x, y, 1);
            self.lemma_sample_of_grayscale(x, y, 2);
            self.lemma_sample_of_grayscale(x, y, c);
        }
        twice.lemma_equal_by_samples(once);
    }

    /// A cropped raster has the extent of the rectangle.
    pub proof fn lemma_cropped_extent(self, x0: int, y0: int, x1: int, y1: int)
        requires
            self.wf(),
            0 <= x0 <= x1 <= self.width,
            0 <= y0 <= y1 <= self.height,
        ensures
            self.cropped(x0, y0, x1, y1).wf(),
            self.cropped(x0, y0, x1, y1).width == x1 - x0,
            self.cropped(x0, y0, x1, y1).height == y1 - y0,
            self.cropped(x0, y0, x1, y1).channels == self.channels,
    {
        lemma_byte_count(self.channels, x1 - x0, y1 - y0);
    }

    /// Cropping to the whole raster changes nothing.
    pub proof fn lemma_cropped_whole(self)
        requires
            self.wf(),
        ensures
            self.cropped(0, 0, self.width, self.height) == self,
    {
        let whole = self.cropped(0, 0, self.width, self.height);
        self.lemma_cropped_extent(0, 0, self.width, self.height);
        assert forall|x: int, y: int, c: int|
            whole.contains(x, y) && 0 <= c < whole.channels implies #[trigger] whole.sample(x, y, c)
            == self.sample(x, y, c) by {
            self.lemma_sample_of_cropped(0, 0, self.width, self.height, x, y, c);
        }
        whole.lemma_equal_by_samples(self);
    }

    /// Cropping a cropped raster to its whole extent gives the same raster.
    pub proof fn lemma_cropped_again(self, x0: int, y0: int, x1: int, y1: int)
        requires
            self.wf(),
            0 <= x0 <= x1 <= self.width,
            0 <= y0 <= y1 <= self.height,
        ensures
            self.cropped(x0, y0, x1, y1).cropped(0, 0, x1 - x0, y1 - y0) == self.cropped(
                x0,
                y0,
                x1,
                y1,
            ),
    {
        self.lemma_cropped_extent(x0, y0, x1, y1);
        self.cropped(x0, y0, x1, y1).lemma_cropped_whole();
    }
}

/// A fully opaque pixel composited over any pixel is that pixel unchanged.
pub proof fn lemma_composite_opaque_top(top: Seq<u8>, bottom: Seq<u8>)
    requires
        top.len() == 4,
        bottom.len() == 4,
        top[3] == 255,
    ensures
        composite(top, bottom) == top,
{
    assert forall|t: int, b: int| 0 <= t <= 255 implies #[trigger] composite_channel(
        t,
        255,
        b,
        bottom[3] as int,
    ) == t by {
        let under = b * bottom[3] as int;
        assert(under * 0 == 0);
        assert(255 * t * 255 == t * 65025);
        assert(composite_weight(255, bottom[3] as int) == 65025);
        assert((t * 65025) / 65025 == t);
    }
    assert(composite_channel(top[0] as int, 255, bottom[0] as int, bottom[3] as int) == top[0]);
    assert(composite_channel(top[1] as int, 255, bottom[1] as int, bottom[3] as int) == top[1]);
    assert(composite_channel(top[2] as int, 255, bottom[2] as int, bottom[3] as int) == top[2]);
    assert(composite(top, bottom) =~= top);
}

} // verus!
