//! Blurring.

use vstd::prelude::*;
use crate::raster::{lemma_byte_index_bound, lemma_linear_index_split, Raster};
use crate::Image;

verus! {

impl Raster {
    /// How many of the four direct neighbours of `(x, y)` lie inside.
    pub open spec fn neighbor_count(self, x: int, y: int) -> int {
        (if x > 0 { 1int } else { 0 }) + (if x + 1 < self.width { 1int } else { 0 })
            + (if y > 0 { 1int } else { 0 }) + (if y + 1 < self.height { 1int } else { 0 })
    }

    /// Channel `c` summed over the direct neighbours of `(x, y)` that lie
    /// inside.
    pub open spec fn neighbor_sum(self, x: int, y: int, c: int) -> int {
        (if x > 0 { self.sample(x - 1, y, c) as int } else { 0 })
            + (if x + 1 < self.width { self.sample(x + 1, y, c) as int } else { 0 })
            + (if y > 0 { self.sample(x, y - 1, c) as int } else { 0 })
            + (if y + 1 < self.height { self.sample(x, y + 1, c) as int } else { 0 })
    }

    /// Every colour channel replaced by the truncated mean of that channel
    /// over the pixel's left, right, upper and lower neighbours, as far as
    /// they exist; the pixel itself does not count. Alpha is kept.
    pub open spec fn mean_blurred(self) -> Raster {
        Raster::from_samples(
            self.channels,
            self.width,
            self.height,
            |x: int, y: int, c: int| self.mean_blurred_sample(x, y, c),
        )
    }

    /// Channel `c` of pixel `(x, y)` after the blur.
    pub open spec fn mean_blurred_sample(self, x: int, y: int, c: int) -> u8 {
        if c < 3 {
            (self.neighbor_sum(x, y, c) / self.neighbor_count(x, y)) as u8
        } else {
            self.sample(x, y, c)
        }
    }

    /// The cells of a square kernel of side `size`, centred on pixel
    /// `(x, y)`, that lie over a pixel of the raster, among the first
    /// `cells` cells in row-major order. Each comes as the index of the cell
    /// in the kernel, `(dy + amplitude) * size + (dx + amplitude)` with
    /// amplitude `(size - 1) / 2`, and the byte offset of the pixel under
    /// it. A cell that lies outside the raster is left out: it gives
    /// neither a value nor a weight.
    pub open spec fn kernel_taps(self, x: int, y: int, size: int, cells: int) -> Seq<(usize, usize)>
        decreases cells,
    {
        if cells <= 0 {
            Seq::empty()
        } else {
            let cell = cells - 1;
            let amplitude = (size - 1) / 2;
            let under_x = x + cell % size - amplitude;
            let under_y = y + cell / size - amplitude;
            let earlier = self.kernel_taps(x, y, size, cells - 1);
            if self.contains(under_x, under_y) {
                earlier.push((cell as usize, self.offset(under_x, under_y) as usize))
            } else {
                earlier
            }
        }
    }

    /// This raster with the colour channels taken from `colors`, three
    /// bytes a pixel in row-major order. Alpha is kept.
    pub open spec fn with_colors(self, colors: Seq<u8>) -> Raster {
        Raster::from_samples(
            self.channels,
            self.width,
            self.height,
            |x: int, y: int, c: int|
                if c < 3 {
                    colors[(y * self.width + x) * 3 + c]
                } else {
                    self.sample(x, y, c)
                },
        )
    }

    proof fn lemma_with_colors_byte(self, colors: Seq<u8>, p: int, c: int)
        requires
            self.wf(),
            0 <= p < self.width * self.height,
            0 <= c < self.channels,
        ensures
            0 <= p * self.channels + c < self.data.len(),
            self.with_colors(colors).data.len() == self.data.len(),
            self.with_colors(colors).data[p * self.channels + c] == if c < 3 {
                colors[p * 3 + c]
            } else {
                self.data[p * self.channels + c]
            },
    {
        lemma_byte_index_bound(p, c, self.width * self.height, self.channels);
        lemma_linear_index_split(p, self.width, self.height);
        self.lemma_sample_linear(p, c);
    }

    proof fn lemma_mean_blurred_byte(self, p: int, c: int)
        requires
            self.wf(),
            0 <= p < self.width * self.height,
            0 <= c < self.channels,
        ensures
            0 <= p * self.channels + c < self.mean_blurred().data.len(),
            self.mean_blurred().data[p * self.channels + c] == self.mean_blurred_sample(
                p % self.width,
                p / self.width,
                c,
            ),
    {
        lemma_byte_index_bound(p, c, self.width * self.height, self.channels);
    }
}

impl Image {
    /// Truncated mean of colour channel `c` over the direct neighbours of
    /// `(x, y)`.
    fn neighbor_mean(&self, x: usize, y: usize, c: usize) -> (mean: u8)
        requires
            self@.contains(x as int, y as int),
            c < 3,
            !(self@.width == 1 && self@.height == 1),
        ensures
            mean == (self@.neighbor_sum(x as int, y as int, c as int) / self@.neighbor_count(
                x as int,
                y as int,
            )) as u8,
    {
        proof {
            use_type_invariant(self);
        }
        let mut sum: u16 = 0;
        let mut neighbors: u16 = 0;
        if x > 0 {
            sum = sum + self.sample_at(x - 1, y, c) as u16;
            neighbors = neighbors + 1;
        }
        if x + 1 < self.width as usize {
            sum = sum + self.sample_at(x + 1, y, c) as u16;
            neighbors = neighbors + 1;
        }
        if y > 0 {
            sum = sum + self.sample_at(x, y - 1, c) as u16;
            neighbors = neighbors + 1;
        }
        if y + 1 < self.height as usize {
            sum = sum + self.sample_at(x, y + 1, c) as u16;
            neighbors = neighbors + 1;
        }
        assert(sum <= 255 * neighbors);
        (sum / neighbors) as u8
    }

    /// Blurs the image with the four-neighbour mean. An image of a single
    /// pixel has no neighbour to average over and is not accepted.
    pub fn mean_blur(&mut self)
        requires
            !(old(self)@.width == 1 && old(self)@.height == 1),
        ensures
            final(self)@ == old(self)@.mean_blurred(),
    {
        proof {
            use_type_invariant(&*self);
        }
        let ghost before = self@;
        let ghost target = self@.mean_blurred();
        let count = self.pixel_count();
        let ch = self.channels as usize;
        let w = self.width as usize;
        let h = self.height as usize;
        let mut output_data: Vec<u8> = Vec::with_capacity(self.data.len());
        let mut i: usize = 0;
        while i < count
            invariant
                before == self@,
                before.wf(),
                target == before.mean_blurred(),
                !(before.width == 1 && before.height == 1),
                count == before.width * before.height,
                ch == before.channels,
                w == before.width,
                h == before.height,
                i <= count,
                output_data@.len() == i * ch,
                forall|k: int| 0 <= k < i * ch ==> output_data@[k] == target.data[k],
            decreases count - i,
        {
            proof {
                lemma_linear_index_split(i as int, w as int, h as int);
                before.lemma_mean_blurred_byte(i as int, 0);
                before.lemma_mean_blurred_byte(i as int, 1);
                before.lemma_mean_blurred_byte(i as int, 2);
                if ch == 4 {
                    before.lemma_mean_blurred_byte(i as int, 3);
                }
                assert((i + 1) * ch == i * ch + ch) by (nonlinear_arith);
            }
            let x = i % w;
            let y = i / w;
            let red = self.neighbor_mean(x, y, 0);
            let green = self.neighbor_mean(x, y, 1);
            let blue = self.neighbor_mean(x, y, 2);
            output_data.push(red);
            output_data.push(green);
            output_data.push(blue);
            if ch == 4 {
                let alpha = self.sample_at(x, y, 3);
                output_data.push(alpha);
            }
            i += 1;
        }
        assert(output_data@ =~= target.data);
        self.data = output_data;
    }

    /// The cells of a square kernel of side `kernel_size`, centred on pixel
    /// `(x, y)`, that lie over a pixel of the image, in row-major order:
    /// for each the index of the cell in the kernel and the byte offset of
    /// the pixel under it. A convolution sums, over these, the kernel's
    /// weight at the index times the byte at the offset, channel by channel.
    pub fn kernel_taps(&self, x: usize, y: usize, kernel_size: usize) -> (taps: Vec<(usize, usize)>)
        requires
            self@.contains(x as int, y as int),
            kernel_size % 2 == 1,
            kernel_size * kernel_size <= usize::MAX,
        ensures
            taps@ == self@.kernel_taps(
                x as int,
                y as int,
                kernel_size as int,
                kernel_size * kernel_size,
            ),
    {
        assert(kernel_size <= 0xffff_ffff) by (nonlinear_arith)
            requires
                kernel_size * kernel_size <= 0xffff_ffff_ffff_ffff,
        ;
        let cells = kernel_size * kernel_size;
        let amplitude = (kernel_size - 1) / 2;
        let mut taps: Vec<(usize, usize)> = Vec::new();
        let mut cell: usize = 0;
        while cell < cells
            invariant
                self@.contains(x as int, y as int),
                0 < kernel_size <= 0xffff_ffff,
                cells == kernel_size * kernel_size,
                amplitude == (kernel_size - 1) / 2,
                cell <= cells,
                taps@ == self@.kernel_taps(x as int, y as int, kernel_size as int, cell as int),
            decreases cells - cell,
        {
            proof {
                lemma_linear_index_split(cell as int, kernel_size as int, kernel_size as int);
            }
            let reach = amplitude as u64;
            let right = x as u64 + (cell % kernel_size) as u64;
            let down = y as u64 + (cell / kernel_size) as u64;
            let inside_x = right >= reach && right - reach < self.width as u64;
            let inside_y = down >= reach && down - reach < self.height as u64;
            if inside_x && inside_y {
                let under_x = (right - reach) as usize;
                let under_y = (down - reach) as usize;
                taps.push((cell, self.pos_to_index(under_x, under_y)));
            }
            cell += 1;
        }
        taps
    }

    /// Replaces the colour channels of every pixel by those in `colors`,
    /// three bytes a pixel in row-major order. Alpha is left as it is.
    pub fn set_colors(&mut self, colors: &Vec<u8>)
        requires
            colors@.len() == old(self)@.pixel_count() * 3,
        ensures
            final(self)@ == old(self)@.with_colors(colors@),
    {
        proof {
            use_type_invariant(&*self);
        }
        let ghost before = self@;
        let count = self.pixel_count();
        let ch = self.channels as usize;
        let mut i: usize = 0;
        while i < count
            invariant
                before.wf(),
                self@.channels == before.channels,
                self@.width == before.width,
                self@.height == before.height,
                self@.data.len() == before.data.len(),
                colors@.len() == count * 3,
                ch == before.channels,
                count == before.width * before.height,
                count * ch <= usize::MAX,
                i <= count,
                forall|k: int|
                    0 <= k < i * ch ==> self@.data[k] == before.with_colors(colors@).data[k],
                forall|k: int| i * ch <= k < before.data.len() ==> self@.data[k] == before.data[k],
            decreases count - i,
        {
            proof {
                before.lemma_with_colors_byte(colors@, i as int, 0);
                before.lemma_with_colors_byte(colors@, i as int, 1);
                before.lemma_with_colors_byte(colors@, i as int, 2);
                if ch == 4 {
                    before.lemma_with_colors_byte(colors@, i as int, 3);
                }
                assert((i + 1) * ch == i * ch + ch) by (nonlinear_arith);
            }
            let pos = i * ch;
            self.data[pos] = colors[i * 3];
            self.data[pos + 1] = colors[i * 3 + 1];
            self.data[pos + 2] = colors[i * 3 + 2];
            i += 1;
        }
        assert(self@.data =~= before.with_colors(colors@).data);
    }
}

} // verus!
