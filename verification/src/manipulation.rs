//! Channel conversion, compositing, pasting and the geometric transforms.

use vstd::prelude::*;
use crate::raster::{
    lemma_byte_count, lemma_byte_index_bound, lemma_linear_index_bound, lemma_linear_index_split,
    lemma_sample_index, Raster,
};
use crate::Image;

verus! {

/// The two quarter turns.
pub(crate) enum QuarterTurn {
    Clockwise,
    Counterclockwise,
}

/// The alpha of a layer of alpha `top_alpha` over one of alpha
/// `bottom_alpha`, both out of 255, scaled by 255 * 255: with
/// `a = alpha / 255` this is `a_top + a_bottom * (1 - a_top)`.
pub open spec fn composite_weight(top_alpha: int, bottom_alpha: int) -> int {
    255 * top_alpha + bottom_alpha * (255 - top_alpha)
}

/// One colour channel of the Porter-Duff "over" of two pixels:
/// `(c_top * a_top + c_bottom * a_bottom * (1 - a_top)) / a_out`, truncated,
/// in exact arithmetic. Where both layers are fully transparent there is no
/// colour to weigh and the channel is 0.
pub open spec fn composite_channel(top: int, top_alpha: int, bottom: int, bottom_alpha: int) -> int {
    if composite_weight(top_alpha, bottom_alpha) == 0 {
        0
    } else {
        (255 * top * top_alpha + bottom * bottom_alpha * (255 - top_alpha)) / composite_weight(
            top_alpha,
            bottom_alpha,
        )
    }
}

/// The pixel `top` composited over the pixel `bottom`, both as four bytes
/// red, green, blue, alpha. The resulting alpha is `a_out` scaled back to
/// 0..=255, truncated.
pub open spec fn composite(top: Seq<u8>, bottom: Seq<u8>) -> Seq<u8> {
    seq![
        composite_channel(top[0] as int, top[3] as int, bottom[0] as int, bottom[3] as int) as u8,
        composite_channel(top[1] as int, top[3] as int, bottom[1] as int, bottom[3] as int) as u8,
        composite_channel(top[2] as int, top[3] as int, bottom[2] as int, bottom[3] as int) as u8,
        (composite_weight(top[3] as int, bottom[3] as int) / 255) as u8,
    ]
}

/// A composited channel is a weighted mean of two bytes and the composited
/// alpha is at most 255: both are bytes.
pub proof fn lemma_composite_bounds(top: int, top_alpha: int, bottom: int, bottom_alpha: int)
    requires
        0 <= top <= 255,
        0 <= top_alpha <= 255,
        0 <= bottom <= 255,
        0 <= bottom_alpha <= 255,
    ensures
        0 <= composite_weight(top_alpha, bottom_alpha) <= 255 * 255,
        0 <= 255 * top * top_alpha + bottom * bottom_alpha * (255 - top_alpha) <= 255
            * composite_weight(top_alpha, bottom_alpha),
        0 <= composite_channel(top, top_alpha, bottom, bottom_alpha) <= 255,
        0 <= composite_weight(top_alpha, bottom_alpha) / 255 <= 255,
{
    let rest = 255 - top_alpha;
    let weight = composite_weight(top_alpha, bottom_alpha);
    let amount = 255 * top * top_alpha + bottom * bottom_alpha * rest;
    assert(0 <= bottom_alpha * rest <= 255 * rest) by (nonlinear_arith)
        requires
            0 <= bottom_alpha <= 255,
            0 <= rest,
    ;
    assert(0 <= 255 * top * top_alpha <= 255 * (255 * top_alpha)) by (nonlinear_arith)
        requires
            0 <= top <= 255,
            0 <= top_alpha,
    ;
    assert(0 <= bottom * bottom_alpha * rest <= 255 * (bottom_alpha * rest)) by (nonlinear_arith)
        requires
            0 <= bottom <= 255,
            0 <= bottom_alpha,
            0 <= rest,
    ;
    assert(0 <= amount <= 255 * weight);
    if weight != 0 {
        assert(0 <= amount / weight <= 255) by (nonlinear_arith)
            requires
                0 <= amount <= 255 * weight,
                0 < weight,
        ;
    }
}

fn blend_channel(top: u8, top_alpha: u8, bottom: u8, bottom_alpha: u8) -> (blended: u8)
    ensures
        blended == composite_channel(top as int, top_alpha as int, bottom as int, bottom_alpha as int),
{
    proof {
        lemma_composite_bounds(top as int, top_alpha as int, bottom as int, bottom_alpha as int);
    }
    let rest: u32 = 255 - top_alpha as u32;
    let under: u32 = bottom_alpha as u32 * rest;
    let weight: u32 = 255 * top_alpha as u32 + under;
    if weight == 0 {
        return 0;
    }
    assert(bottom * bottom_alpha * rest == bottom * (bottom_alpha * rest)) by (nonlinear_arith);
    assert(255 * top * top_alpha == 255 * (top * top_alpha)) by (nonlinear_arith);
    assert(0 <= top * top_alpha <= 255 * 255) by (nonlinear_arith)
        requires
            0 <= top <= 255,
            0 <= top_alpha <= 255,
    ;
    let amount: u32 = 255 * (top as u32 * top_alpha as u32) + bottom as u32 * under;
    (amount / weight) as u8
}

/// Composites the pixel `top` over the pixel `bottom`.
pub fn composite_rgba(top: Vec<u8>, bottom: Vec<u8>) -> (result: Vec<u8>)
    requires
        top@.len() == 4,
        bottom@.len() == 4,
    ensures
        result@ == composite(top@, bottom@),
{
    proof {
        lemma_composite_bounds(0, top[3] as int, 0, bottom[3] as int);
    }
    let mut result: Vec<u8> = Vec::with_capacity(4);
    result.push(blend_channel(top[0], top[3], bottom[0], bottom[3]));
    result.push(blend_channel(top[1], top[3], bottom[1], bottom[3]));
    result.push(blend_channel(top[2], top[3], bottom[2], bottom[3]));
    let weight: u32 = 255 * top[3] as u32 + bottom[3] as u32 * (255 - top[3] as u32);
    result.push((weight / 255) as u8);
    assert(result@ =~= composite(top@, bottom@));
    result
}

impl Raster {
    /// The same pixels without their alpha channel.
    pub open spec fn without_alpha(self) -> Raster {
        Raster::from_samples(3, self.width, self.height, |x: int, y: int, c: int| self.sample(x, y, c))
    }

    /// The same pixels, each given an alpha of 255.
    pub open spec fn with_alpha(self) -> Raster {
        Raster::from_samples(
            4,
            self.width,
            self.height,
            |x: int, y: int, c: int| if c < 3 { self.sample(x, y, c) } else { 255u8 },
        )
    }

    /// The raster brought to `channels` channels: unchanged if it has that
    /// many, else with alpha added or dropped.
    pub open spec fn reconciled(self, channels: int) -> Raster {
        if self.channels == channels {
            self
        } else if channels == 4 {
            self.with_alpha()
        } else {
            self.without_alpha()
        }
    }

    /// What laying pixel `(sx, sy)` of `source` over pixel `(x, y)` of this
    /// raster leaves there: the composite of the two where this raster has
    /// alpha and the source pixel is not opaque, else the source pixel.
    pub open spec fn blended_pixel(self, x: int, y: int, source: Raster, sx: int, sy: int) -> Seq<u8> {
        if self.channels == 4 && source.sample(sx, sy, 3) < 255 {
            composite(source.pixel(sx, sy), self.pixel(x, y))
        } else {
            source.pixel(sx, sy)
        }
    }

    /// Channel `c` of pixel `(x, y)` once `source` lies over this raster with
    /// its top left corner at `(left, top)`.
    pub open spec fn overlaid_sample(
        self,
        source: Raster,
        left: int,
        top: int,
        x: int,
        y: int,
        c: int,
    ) -> u8 {
        if left <= x < left + source.width && top <= y < top + source.height {
            self.blended_pixel(x, y, source, x - left, y - top)[c]
        } else {
            self.sample(x, y, c)
        }
    }

    /// This raster with `source`, of the same channel count, laid over it at
    /// `(left, top)`. What of `source` falls outside is cut off.
    pub open spec fn overlaid(self, source: Raster, left: int, top: int) -> Raster {
        Raster::from_samples(
            self.channels,
            self.width,
            self.height,
            |x: int, y: int, c: int| self.overlaid_sample(source, left, top, x, y, c),
        )
    }

    /// This raster with `source` pasted at `(left, top)`, after `source` was
    /// brought to this raster's channel count.
    pub open spec fn pasted(self, source: Raster, left: int, top: int) -> Raster {
        self.overlaid(source.reconciled(self.channels), left, top)
    }

    /// The raster while `source` is being laid over it: `rows` rows of
    /// `source` are in place, and `columns` pixels of the next row.
    spec fn overlaid_partly(
        self,
        source: Raster,
        left: int,
        top: int,
        rows: int,
        columns: int,
    ) -> Raster {
        Raster::from_samples(
            self.channels,
            self.width,
            self.height,
            |x: int, y: int, c: int|
                if y < top + rows || (y == top + rows && x < left + columns) {
                    self.overlaid_sample(source, left, top, x, y, c)
                } else {
                    self.sample(x, y, c)
                },
        )
    }

    proof fn lemma_overlay_start(self, source: Raster, left: int, top: int)
        requires
            self.wf(),
        ensures
            self.overlaid_partly(source, left, top, 0, 0) == self,
    {
        let start = self.overlaid_partly(source, left, top, 0, 0);
        assert(start.wf());
        assert forall|x: int, y: int, c: int|
            start.contains(x, y) && 0 <= c < start.channels implies #[trigger] start.sample(x, y, c)
            == self.sample(x, y, c) by {
            self.lemma_sample_of_overlaid_partly(source, left, top, 0, 0, x, y, c);
        }
        start.lemma_equal_by_samples(self);
    }

    proof fn lemma_sample_of_overlaid_partly(
        self,
        source: Raster,
        left: int,
        top: int,
        rows: int,
        columns: int,
        x: int,
        y: int,
        c: int,
    )
        requires
            self.wf(),
            self.contains(x, y),
            0 <= c < self.channels,
        ensures
            self.overlaid_partly(source, left, top, rows, columns).wf(),
            self.overlaid_partly(source, left, top, rows, columns).sample(x, y, c) == if y < top
                + rows || (y == top + rows && x < left + columns) {
                self.overlaid_sample(source, left, top, x, y, c)
            } else {
                self.sample(x, y, c)
            },
    {
        lemma_byte_count(self.channels, self.width, self.height);
        lemma_sample_index(self.channels, self.width, self.height, x, y, c);
    }

    /// Replacing the next pixel by its blend moves the overlay on by one
    /// pixel; until then that pixel is as it was.
    proof fn lemma_overlay_step(self, source: Raster, left: int, top: int, rows: int, columns: int)
        requires
            self.wf(),
            source.wf(),
            source.channels == self.channels,
            source.contains(columns, rows),
            self.contains(left + columns, top + rows),
        ensures
            self.overlaid_partly(source, left, top, rows, columns).pixel(
                left + columns,
                top + rows,
            ) == self.pixel(left + columns, top + rows),
            self.overlaid_partly(source, left, top, rows, columns).with_pixel(
                left + columns,
                top + rows,
                self.blended_pixel(left + columns, top + rows, source, columns, rows),
            ) == self.overlaid_partly(source, left, top, rows, columns + 1),
    {
        let x0 = left + columns;
        let y0 = top + rows;
        let now = self.overlaid_partly(source, left, top, rows, columns);
        let value = self.blended_pixel(x0, y0, source, columns, rows);
        let next = now.with_pixel(x0, y0, value);
        let goal = self.overlaid_partly(source, left, top, rows, columns + 1);
        lemma_byte_count(self.channels, self.width, self.height);
        assert(now.wf());
        assert forall|c: int| 0 <= c < self.channels implies now.sample(x0, y0, c) == self.sample(
            x0,
            y0,
            c,
        ) by {
            self.lemma_sample_of_overlaid_partly(source, left, top, rows, columns, x0, y0, c);
        }
        assert(now.pixel(x0, y0) =~= self.pixel(x0, y0));
        assert forall|x: int, y: int, c: int|
            next.contains(x, y) && 0 <= c < next.channels implies #[trigger] next.sample(x, y, c)
            == goal.sample(x, y, c) by {
            now.lemma_sample_of_with_pixel(x0, y0, value, x, y, c);
            self.lemma_sample_of_overlaid_partly(source, left, top, rows, columns, x, y, c);
            self.lemma_sample_of_overlaid_partly(source, left, top, rows, columns + 1, x, y, c);
        }
        self.lemma_sample_of_overlaid_partly(source, left, top, rows, columns + 1, x0, y0, 0);
        now.lemma_sample_of_with_pixel(x0, y0, value, x0, y0, 0);
        next.lemma_equal_by_samples(goal);
    }

    /// A row is done once the overlay has reached the end of `source`'s row
    /// or of this raster's.
    proof fn lemma_overlay_row_end(self, source: Raster, left: int, top: int, rows: int, columns: int)
        requires
            self.wf(),
            0 <= columns,
            columns >= source.width || left + columns >= self.width,
        ensures
            self.overlaid_partly(source, left, top, rows, columns) == self.overlaid_partly(
                source,
                left,
                top,
                rows + 1,
                0,
            ),
    {
        let now = self.overlaid_partly(source, left, top, rows, columns);
        let goal = self.overlaid_partly(source, left, top, rows + 1, 0);
        lemma_byte_count(self.channels, self.width, self.height);
        assert forall|x: int, y: int, c: int|
            now.contains(x, y) && 0 <= c < now.channels implies #[trigger] now.sample(x, y, c)
            == goal.sample(x, y, c) by {
            self.lemma_sample_of_overlaid_partly(source, left, top, rows, columns, x, y, c);
            self.lemma_sample_of_overlaid_partly(source, left, top, rows + 1, 0, x, y, c);
        }
        now.lemma_equal_by_samples(goal);
    }

    /// The overlay is done once it has reached the last row of `source` or
    /// of this raster.
    proof fn lemma_overlay_end(self, source: Raster, left: int, top: int, rows: int)
        requires
            self.wf(),
            0 <= rows,
            rows >= source.height || top + rows >= self.height,
        ensures
            self.overlaid_partly(source, left, top, rows, 0) == self.overlaid(source, left, top),
    {
        let now = self.overlaid_partly(source, left, top, rows, 0);
        let goal = self.overlaid(source, left, top);
        lemma_byte_count(self.channels, self.width, self.height);
        assert forall|x: int, y: int, c: int|
            now.contains(x, y) && 0 <= c < now.channels implies #[trigger] now.sample(x, y, c)
            == goal.sample(x, y, c) by {
            self.lemma_sample_of_overlaid_partly(source, left, top, rows, 0, x, y, c);
            lemma_sample_index(self.channels, self.width, self.height, x, y, c);
        }
        now.lemma_equal_by_samples(goal);
    }

    /// Every colour channel replaced by the truncated mean of the pixel's
    /// red, green and blue. Alpha is kept.
    pub open spec fn grayscale(self) -> Raster {
        Raster::from_samples(
            self.channels,
            self.width,
            self.height,
            |x: int, y: int, c: int|
                if c < 3 {
                    ((self.sample(x, y, 0) + self.sample(x, y, 1) + self.sample(x, y, 2)) / 3) as u8
                } else {
                    self.sample(x, y, c)
                },
        )
    }

    /// The raster turned by a half turn: the pixel at `(x, y)` goes to
    /// column `width - 1 - x` of row `height - 1 - y`, which reverses the
    /// order of the pixels end to end.
    pub open spec fn rotated_180(self) -> Raster {
        Raster::from_samples(
            self.channels,
            self.width,
            self.height,
            |x: int, y: int, c: int| self.sample(self.width - 1 - x, self.height - 1 - y, c),
        )
    }

    /// The raster turned a quarter turn clockwise. Width and height swap;
    /// the pixel at `(x, y)` goes to column `height - 1 - y` of row `x`.
    pub open spec fn rotated_90(self) -> Raster {
        Raster::from_samples(
            self.channels,
            self.height,
            self.width,
            |x: int, y: int, c: int| self.sample(y, self.height - 1 - x, c),
        )
    }

    /// The raster turned a quarter turn counterclockwise. Width and height
    /// swap; the pixel at `(x, y)` goes to column `y` of row `width - 1 - x`.
    pub open spec fn rotated_270(self) -> Raster {
        Raster::from_samples(
            self.channels,
            self.height,
            self.width,
            |x: int, y: int, c: int| self.sample(self.width - 1 - y, x, c),
        )
    }

    /// The part of the raster from column `x0` up to but without `x1`, and
    /// from row `y0` up to but without `y1`.
    pub open spec fn cropped(self, x0: int, y0: int, x1: int, y1: int) -> Raster {
        Raster::from_samples(
            self.channels,
            x1 - x0,
            y1 - y0,
            |x: int, y: int, c: int| self.sample(x0 + x, y0 + y, c),
        )
    }

    proof fn lemma_grayscale_byte(self, p: int, c: int)
        requires
            self.wf(),
            0 <= p < self.width * self.height,
            0 <= c < self.channels,
        ensures
            0 <= p * self.channels + c < self.data.len(),
            self.grayscale().data.len() == self.data.len(),
            self.grayscale().data[p * self.channels + c] == if c < 3 {
                ((self.data[p * self.channels] + self.data[p * self.channels + 1] + self.data[p
                    * self.channels + 2]) / 3) as u8
            } else {
                self.data[p * self.channels + c]
            },
    {
        lemma_byte_index_bound(p, c, self.width * self.height, self.channels);
        self.lemma_sample_linear(p, 0);
        self.lemma_sample_linear(p, 1);
        self.lemma_sample_linear(p, 2);
        self.lemma_sample_linear(p, c);
    }

    /// After a half turn the pixel with linear index `p` is the one that
    /// had the index that counts as far from the end.
    pub proof fn lemma_rotated_180_reverses(self, p: int, c: int)
        requires
            self.wf(),
            0 <= p < self.width * self.height,
            0 <= c < self.channels,
        ensures
            0 <= p * self.channels + c < self.rotated_180().data.len(),
            0 <= (self.width * self.height - 1 - p) * self.channels + c < self.data.len(),
            self.rotated_180().data[p * self.channels + c] == self.data[(self.width * self.height
                - 1 - p) * self.channels + c],
    {
        let w = self.width;
        let h = self.height;
        let x = p % w;
        let y = p / w;
        lemma_byte_index_bound(p, c, w * h, self.channels);
        lemma_linear_index_split(p, w, h);
        lemma_linear_index_bound(w - 1 - x, h - 1 - y, w, h);
        assert((h - 1 - y) * w + (w - 1 - x) == w * h - 1 - (y * w + x)) by (nonlinear_arith);
        self.lemma_sample_linear(w * h - 1 - p, c);
    }

    proof fn lemma_rotated_90_byte(self, p: int, c: int)
        requires
            self.wf(),
            0 <= p < self.width * self.height,
            0 <= c < self.channels,
        ensures
            0 <= p * self.channels + c < self.rotated_90().data.len(),
            self.rotated_90().data.len() == self.data.len(),
            0 < self.height,
            self.contains(p / self.height, self.height - 1 - p % self.height),
            self.rotated_90().data[p * self.channels + c] == self.sample(
                p / self.height,
                self.height - 1 - p % self.height,
                c,
            ),
    {
        let w = self.width;
        let h = self.height;
        assert(w * h == h * w && w * h * self.channels == h * w * self.channels)
            by (nonlinear_arith);
        lemma_byte_index_bound(p, c, h * w, self.channels);
        lemma_linear_index_split(p, h, w);
    }

    proof fn lemma_rotated_270_byte(self, p: int, c: int)
        requires
            self.wf(),
            0 <= p < self.width * self.height,
            0 <= c < self.channels,
        ensures
            0 <= p * self.channels + c < self.rotated_270().data.len(),
            self.rotated_270().data.len() == self.data.len(),
            0 < self.height,
            self.contains(self.width - 1 - p / self.height, p % self.height),
            self.rotated_270().data[p * self.channels + c] == self.sample(
                self.width - 1 - p / self.height,
                p % self.height,
                c,
            ),
    {
        let w = self.width;
        let h = self.height;
        assert(w * h == h * w && w * h * self.channels == h * w * self.channels)
            by (nonlinear_arith);
        lemma_byte_index_bound(p, c, h * w, self.channels);
        lemma_linear_index_split(p, h, w);
    }

    proof fn lemma_cropped_byte(self, x0: int, y0: int, x1: int, y1: int, x: int, y: int, c: int)
        requires
            self.wf(),
            0 <= x0 <= x1 <= self.width,
            0 <= y0 <= y1 <= self.height,
            0 <= x < x1 - x0,
            0 <= y < y1 - y0,
            0 <= c < self.channels,
        ensures
            0 <= (y * (x1 - x0) + x) * self.channels + c < self.cropped(x0, y0, x1, y1).data.len(),
            self.cropped(x0, y0, x1, y1).data[(y * (x1 - x0) + x) * self.channels + c]
                == self.sample(x0 + x, y0 + y, c),
    {
        lemma_byte_count(self.channels, x1 - x0, y1 - y0);
        lemma_sample_index(self.channels, x1 - x0, y1 - y0, x, y, c);
    }

    proof fn lemma_without_alpha_byte(self, p: int, c: int)
        requires
            self.wf(),
            self.channels == 4,
            0 <= p < self.width * self.height,
            0 <= c < 3,
        ensures
            0 <= p * 3 + c < self.without_alpha().data.len(),
            0 <= p * 4 + c < self.data.len(),
            self.without_alpha().data[p * 3 + c] == self.data[p * 4 + c],
    {
        lemma_byte_index_bound(p, c, self.width * self.height, 3);
        self.lemma_sample_linear(p, c);
    }

    proof fn lemma_with_alpha_byte(self, p: int, c: int)
        requires
            self.wf(),
            self.channels == 3,
            0 <= p < self.width * self.height,
            0 <= c < 4,
        ensures
            0 <= p * 4 + c < self.with_alpha().data.len(),
            c < 3 ==> 0 <= p * 3 + c < self.data.len(),
            self.with_alpha().data[p * 4 + c] == if c < 3 { self.data[p * 3 + c] } else { 255u8 },
    {
        lemma_byte_index_bound(p, c, self.width * self.height, 4);
        if c < 3 {
            self.lemma_sample_linear(p, c);
        }
    }
}

impl Image {
    /// Brings `image2` to the channel count of `self`, so that the two can
    /// be combined.
    pub fn make_compatible(&self, image2: &mut Image)
        requires
            self@.channels == 4 && old(image2)@.channels == 3 ==> old(image2)@.width
                * old(image2)@.height * 4 <= usize::MAX,
        ensures
            final(image2)@ == old(image2)@.reconciled(self@.channels),
    {
        proof {
            use_type_invariant(self);
            use_type_invariant(&*image2);
        }
        if self.channels == 4 && image2.channels != 4 {
            image2.to_rgba();
        } else if self.channels == 3 && image2.channels == 4 {
            image2.to_rgb();
        }
    }

    /// Pastes `image2` onto this image with its top left corner at
    /// `position`. Rows and columns of `image2` that would fall outside this
    /// image are left out. Where this image has alpha, a pixel of `image2`
    /// that is not opaque is composited over the pixel below it; every other
    /// pixel replaces the one below.
    pub fn paste(&mut self, image2: Image, position: (u32, u32))
        requires
            old(self)@.channels == 4 && image2@.channels == 3 ==> image2@.width * image2@.height
                * 4 <= usize::MAX,
        ensures
            final(self)@ == old(self)@.pasted(image2@, position.0 as int, position.1 as int),
    {
        let mut source = image2;
        self.make_compatible(&mut source);
        proof {
            use_type_invariant(&*self);
            use_type_invariant(&source);
        }
        let ghost before = self@;
        let ghost over = source@;
        let left = position.0 as usize;
        let top = position.1 as usize;
        let rows: usize = if top >= self.height as usize {
            0
        } else if source.height as usize <= self.height as usize - top {
            source.height as usize
        } else {
            self.height as usize - top
        };
        let columns: usize = if left >= self.width as usize {
            0
        } else if source.width as usize <= self.width as usize - left {
            source.width as usize
        } else {
            self.width as usize - left
        };
        proof {
            before.lemma_overlay_start(over, left as int, top as int);
        }
        let mut i: usize = 0;
        while i < rows
            invariant
                before.wf(),
                over.wf(),
                over == source@,
                over.channels == before.channels,
                i <= rows,
                rows <= over.height,
                rows == 0 || top + rows <= before.height,
                columns <= over.width,
                columns == 0 || left + columns <= before.width,
                columns >= over.width || left + columns >= before.width,
                self@ == before.overlaid_partly(over, left as int, top as int, i as int, 0),
            decreases rows - i,
        {
            let mut p: usize = 0;
            while p < columns
                invariant
                    before.wf(),
                    over.wf(),
                    over == source@,
                    over.channels == before.channels,
                    i < rows,
                    rows <= over.height,
                    top + rows <= before.height,
                    p <= columns,
                    columns <= over.width,
                    columns == 0 || left + columns <= before.width,
                    self@ == before.overlaid_partly(over, left as int, top as int, i as int, p as int),
                decreases columns - p,
            {
                proof {
                    before.lemma_overlay_step(over, left as int, top as int, i as int, p as int);
                }
                let x = left + p;
                let y = top + i;
                let mut new_value = source.pixel_at(p, i);
                if self.channels == 4 && new_value[3] < 255 {
                    let old_value = self.pixel_at(x, y);
                    new_value = composite_rgba(new_value, old_value);
                }
                self.replace_pixel_at((x as u32, y as u32), &new_value);
                p += 1;
            }
            proof {
                before.lemma_overlay_row_end(over, left as int, top as int, i as int, columns as int);
            }
            i += 1;
        }
        proof {
            before.lemma_overlay_end(over, left as int, top as int, rows as int);
        }
    }

    /// Drops the alpha channel of a four-channel image.
    pub fn to_rgb(&mut self)
        requires
            old(self)@.channels == 4,
        ensures
            final(self)@ == old(self)@.without_alpha(),
    {
        proof {
            use_type_invariant(&*self);
        }
        let ghost before = self@;
        let count = self.pixel_count();
        let mut output_data: Vec<u8> = Vec::new();
        let mut i: usize = 0;
        while i < count
            invariant
                before == self@,
                before.wf(),
                before.channels == 4,
                count == before.width * before.height,
                count * 4 <= usize::MAX,
                i <= count,
                output_data@.len() == i * 3,
                forall|k: int| 0 <= k < i * 3 ==> output_data@[k] == before.without_alpha().data[k],
            decreases count - i,
        {
            proof {
                before.lemma_without_alpha_byte(i as int, 0);
                before.lemma_without_alpha_byte(i as int, 1);
                before.lemma_without_alpha_byte(i as int, 2);
            }
            output_data.push(self.data[i * 4]);
            output_data.push(self.data[i * 4 + 1]);
            output_data.push(self.data[i * 4 + 2]);
            i += 1;
        }
        assert(output_data@ =~= before.without_alpha().data);
        *self = Image { channels: 3, width: self.width, height: self.height, data: output_data };
    }

    /// Gives every pixel of a three-channel image an alpha of 255.
    pub fn to_rgba(&mut self)
        requires
            old(self)@.channels == 3,
            old(self)@.width * old(self)@.height * 4 <= usize::MAX,
        ensures
            final(self)@ == old(self)@.with_alpha(),
    {
        proof {
            use_type_invariant(&*self);
        }
        let ghost before = self@;
        let count = self.pixel_count();
        let mut output_data: Vec<u8> = Vec::new();
        let mut i: usize = 0;
        while i < count
            invariant
                before == self@,
                before.wf(),
                before.channels == 3,
                count == before.width * before.height,
                count * 3 <= usize::MAX,
                i <= count,
                output_data@.len() == i * 4,
                forall|k: int| 0 <= k < i * 4 ==> output_data@[k] == before.with_alpha().data[k],
            decreases count - i,
        {
            proof {
                before.lemma_with_alpha_byte(i as int, 0);
                before.lemma_with_alpha_byte(i as int, 1);
                before.lemma_with_alpha_byte(i as int, 2);
                before.lemma_with_alpha_byte(i as int, 3);
            }
            output_data.push(self.data[i * 3]);
            output_data.push(self.data[i * 3 + 1]);
            output_data.push(self.data[i * 3 + 2]);
            output_data.push(255);
            i += 1;
        }
        assert(output_data@ =~= before.with_alpha().data);
        *self = Image { channels: 4, width: self.width, height: self.height, data: output_data };
    }

    /// Turns the image to gray: red, green and blue of every pixel become
    /// their truncated mean. Alpha is left as it is.
    pub fn to_grayscale(&mut self)
        ensures
            final(self)@ == old(self)@.grayscale(),
    {
        proof {
            use_type_invariant(&*self);
        }
        let ghost before = self@;
        let count = self.pixel_count();
        let ch = self.channels as usize;
        let mut i: usize = 0;
        while i < count
            invariant
                before.wf(),
                self@.channels == before.channels,
                self@.width == before.width,
                self@.height == before.height,
                self@.data.len() == before.data.len(),
                ch == before.channels,
                count == before.width * before.height,
                count * ch <= usize::MAX,
                i <= count,
                forall|k: int| 0 <= k < i * ch ==> self@.data[k] == before.grayscale().data[k],
                forall|k: int| i * ch <= k < before.data.len() ==> self@.data[k] == before.data[k],
            decreases count - i,
        {
            proof {
                before.lemma_grayscale_byte(i as int, 0);
                before.lemma_grayscale_byte(i as int, 1);
                before.lemma_grayscale_byte(i as int, 2);
                if ch == 4 {
                    before.lemma_grayscale_byte(i as int, 3);
                }
                assert((i + 1) * ch == i * ch + ch) by (nonlinear_arith);
            }
            let pos = i * ch;
            let avg_rgb = (self.data[pos] as u16 + self.data[pos + 1] as u16 + self.data[pos + 2] as u16)
                / 3;
            self.data[pos] = avg_rgb as u8;
            self.data[pos + 1] = avg_rgb as u8;
            self.data[pos + 2] = avg_rgb as u8;
            i += 1;
        }
        assert(self@.data =~= before.grayscale().data);
    }

    /// Turns the image by a quarter turn, one way or the other.
    fn rotate_90_helper(&mut self, turn: QuarterTurn)
        ensures
            final(self)@ == match turn {
                QuarterTurn::Clockwise => old(self)@.rotated_90(),
                QuarterTurn::Counterclockwise => old(self)@.rotated_270(),
            },
    {
        proof {
            use_type_invariant(&*self);
        }
        let ghost before = self@;
        let ghost target = match turn {
            QuarterTurn::Clockwise => before.rotated_90(),
            QuarterTurn::Counterclockwise => before.rotated_270(),
        };
        let count = self.pixel_count();
        let ch = self.channels as usize;
        let w = self.width as usize;
        let h = self.height as usize;
        let mut output_data: Vec<u8> = Vec::with_capacity(self.data.len());
        let mut i: usize = 0;
        while i < count
            invariant
                before == self@,
                before.wf(),
                target == match turn {
                    QuarterTurn::Clockwise => before.rotated_90(),
                    QuarterTurn::Counterclockwise => before.rotated_270(),
                },
                ch == before.channels,
                w == before.width,
                h == before.height,
                count == before.width * before.height,
                i <= count,
                output_data@.len() == i * ch,
                forall|k: int| 0 <= k < i * ch ==> output_data@[k] == target.data[k],
            decreases count - i,
        {
            proof {
                before.lemma_rotated_90_byte(i as int, 0);
                before.lemma_rotated_90_byte(i as int, 1);
                before.lemma_rotated_90_byte(i as int, 2);
                before.lemma_rotated_270_byte(i as int, 0);
                before.lemma_rotated_270_byte(i as int, 1);
                before.lemma_rotated_270_byte(i as int, 2);
                if ch == 4 {
                    before.lemma_rotated_90_byte(i as int, 3);
                    before.lemma_rotated_270_byte(i as int, 3);
                }
                assert((i + 1) * ch == i * ch + ch) by (nonlinear_arith);
            }
            let (x, y) = match turn {
                QuarterTurn::Clockwise => (i / h, h - 1 - i % h),
                QuarterTurn::Counterclockwise => (w - 1 - i / h, i % h),
            };
            output_data.push(self.sample_at(x, y, 0));
            output_data.push(self.sample_at(x, y, 1));
            output_data.push(self.sample_at(x, y, 2));
            if ch == 4 {
                output_data.push(self.sample_at(x, y, 3));
            }
            i += 1;
        }
        assert(h * w * ch == w * h * ch) by (nonlinear_arith);
        assert(output_data@ =~= target.data);
        *self = Image {
            channels: self.channels,
            width: self.height,
            height: self.width,
            data: output_data,
        };
    }

    /// Turns the image a quarter turn clockwise. Width and height swap.
    pub fn rotate_90(&mut self)
        ensures
            final(self)@ == old(self)@.rotated_90(),
            final(self)@.width == old(self)@.height,
            final(self)@.height == old(self)@.width,
    {
        self.rotate_90_helper(QuarterTurn::Clockwise);
    }

    /// Turns the image a quarter turn counterclockwise. Width and height
    /// swap.
    pub fn rotate_270(&mut self)
        ensures
            final(self)@ == old(self)@.rotated_270(),
            final(self)@.width == old(self)@.height,
            final(self)@.height == old(self)@.width,
    {
        self.rotate_90_helper(QuarterTurn::Counterclockwise);
    }

    /// Turns the image by a half turn: the pixels come in reverse order.
    pub fn rotate_180(&mut self)
        ensures
            final(self)@ == old(self)@.rotated_180(),
    {
        proof {
            use_type_invariant(&*self);
        }
        let ghost before = self@;
        let count = self.pixel_count();
        let ch = self.channels as usize;
        let mut output_data: Vec<u8> = Vec::with_capacity(self.data.len());
        let mut done: usize = 0;
        while done < count
            invariant
                before == self@,
                before.wf(),
                ch == before.channels,
                count == before.width * before.height,
                count * ch <= usize::MAX,
                done <= count,
                output_data@.len() == done * ch,
                forall|k: int| 0 <= k < done * ch ==> output_data@[k] == before.rotated_180().data[k],
            decreases count - done,
        {
            proof {
                before.lemma_rotated_180_reverses(done as int, 0);
                before.lemma_rotated_180_reverses(done as int, 1);
                before.lemma_rotated_180_reverses(done as int, 2);
                if ch == 4 {
                    before.lemma_rotated_180_reverses(done as int, 3);
                }
                assert((done + 1) * ch == done * ch + ch) by (nonlinear_arith);
                assert(0 <= (count - 1 - done) * ch <= count * ch) by (nonlinear_arith)
                    requires
                        0 <= done < count,
                        0 <= ch,
                ;
            }
            let pos = (count - 1 - done) * ch;
            output_data.push(self.data[pos]);
            output_data.push(self.data[pos + 1]);
            output_data.push(self.data[pos + 2]);
            if ch == 4 {
                output_data.push(self.data[pos + 3]);
            }
            done += 1;
        }
        assert(output_data@ =~= before.rotated_180().data);
        self.data = output_data;
    }

    /// Cuts the image down to the rectangle `rect`, given as
    /// `(x0, y0, x1, y1)`: columns `x0` up to but without `x1`, rows `y0` up
    /// to but without `y1`.
    pub fn crop(&mut self, rect: (u32, u32, u32, u32))
        requires
            rect.0 <= rect.2 <= old(self)@.width,
            rect.1 <= rect.3 <= old(self)@.height,
        ensures
            final(self)@ == old(self)@.cropped(
                rect.0 as int,
                rect.1 as int,
                rect.2 as int,
                rect.3 as int,
            ),
            final(self)@.width == rect.2 - rect.0,
            final(self)@.height == rect.3 - rect.1,
    {
        proof {
            use_type_invariant(&*self);
        }
        let ghost before = self@;
        let ghost target = self@.cropped(rect.0 as int, rect.1 as int, rect.2 as int, rect.3 as int);
        let crop_width = rect.2 - rect.0;
        let crop_height = rect.3 - rect.1;
        let ch = self.channels as usize;
        let x0 = rect.0 as usize;
        let y0 = rect.1 as usize;
        let mut output_data: Vec<u8> = Vec::new();
        let mut i: usize = 0;
        while i < crop_height as usize
            invariant
                before == self@,
                before.wf(),
                target == before.cropped(rect.0 as int, rect.1 as int, rect.2 as int, rect.3 as int),
                rect.0 <= rect.2 <= before.width,
                rect.1 <= rect.3 <= before.height,
                crop_width == rect.2 - rect.0,
                crop_height == rect.3 - rect.1,
                ch == before.channels,
                x0 == rect.0,
                y0 == rect.1,
                i <= crop_height,
                output_data@.len() == (i * crop_width) * ch,
                forall|k: int| 0 <= k < (i * crop_width) * ch ==> output_data@[k] == target.data[k],
            decreases crop_height - i,
        {
            let mut j: usize = 0;
            while j < crop_width as usize
                invariant
                    before == self@,
                    before.wf(),
                    target == before.cropped(
                        rect.0 as int,
                        rect.1 as int,
                        rect.2 as int,
                        rect.3 as int,
                    ),
                    rect.0 <= rect.2 <= before.width,
                    rect.1 <= rect.3 <= before.height,
                    crop_width == rect.2 - rect.0,
                    crop_height == rect.3 - rect.1,
                    ch == before.channels,
                    x0 == rect.0,
                    y0 == rect.1,
                    i < crop_height,
                    j <= crop_width,
                    output_data@.len() == (i * crop_width + j) * ch,
                    forall|k: int|
                        0 <= k < (i * crop_width + j) * ch ==> output_data@[k] == target.data[k],
                decreases crop_width - j,
            {
                proof {
                    let (a, b, c, d) = (rect.0 as int, rect.1 as int, rect.2 as int, rect.3 as int);
                    before.lemma_cropped_byte(a, b, c, d, j as int, i as int, 0);
                    before.lemma_cropped_byte(a, b, c, d, j as int, i as int, 1);
                    before.lemma_cropped_byte(a, b, c, d, j as int, i as int, 2);
                    if ch == 4 {
                        before.lemma_cropped_byte(a, b, c, d, j as int, i as int, 3);
                    }
                    assert((i * crop_width + j + 1) * ch == (i * crop_width + j) * ch + ch)
                        by (nonlinear_arith);
                }
                output_data.push(self.sample_at(x0 + j, y0 + i, 0));
                output_data.push(self.sample_at(x0 + j, y0 + i, 1));
                output_data.push(self.sample_at(x0 + j, y0 + i, 2));
                if ch == 4 {
                    output_data.push(self.sample_at(x0 + j, y0 + i, 3));
                }
                j += 1;
            }
            assert((i + 1) * crop_width == i * crop_width + crop_width) by (nonlinear_arith);
            i += 1;
        }
        proof {
            lemma_byte_count(before.channels, crop_width as int, crop_height as int);
            assert(crop_height * crop_width == crop_width * crop_height) by (nonlinear_arith);
        }
        assert(output_data@ =~= target.data);
        *self = Image {
            channels: self.channels,
            width: crop_width,
            height: crop_height,
            data: output_data,
        };
    }
}

} // verus!
