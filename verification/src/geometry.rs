//! Single pixels and circle outlines.

use vstd::prelude::*;
use crate::raster::{lemma_byte_count, lemma_sample_index, Raster};
use crate::Image;

verus! {

/// The greatest radius, and the greatest distance from the centre along one
/// axis, that the exact arithmetic of the circle functions takes.
pub const MAX_RADIUS: usize = 0x7fff_ffff;

/// Whether `k + 1/2` lies above `reach / (2 * sqrt(norm))`, stated without
/// the root: `(2 * k + 1) * sqrt(norm) > reach`, squared.
pub open spec fn exceeds(k: int, reach: int, norm: int) -> bool {
    reach * reach < (2 * k + 1) * (2 * k + 1) * norm
}

/// Whether `n` is the integer nearest to
/// `radius * along / sqrt(along * along + across * across)`: the length
/// along one axis of the point where a circle of that radius meets the ray
/// through `(along, across)`. At the centre itself, where there is no ray,
/// only 0 is.
pub open spec fn is_projection(n: int, radius: int, along: int, across: int) -> bool {
    let reach = 2 * radius * along;
    let norm = along * along + across * across;
    if norm == 0 {
        n == 0
    } else {
        &&& 0 <= n
        &&& exceeds(n, reach, norm)
        &&& (n == 0 || !exceeds(n - 1, reach, norm))
    }
}

/// The integer nearest to `radius * along / sqrt(along * along + across * across)`.
pub open spec fn projection(radius: int, along: int, across: int) -> int {
    choose|n: int| is_projection(n, radius, along, across)
}

proof fn lemma_exceeds_grows(k: int, m: int, reach: int, norm: int)
    requires
        0 <= k <= m,
        0 <= norm,
        exceeds(k, reach, norm),
    ensures
        exceeds(m, reach, norm),
{
    assert((2 * k + 1) * (2 * k + 1) <= (2 * m + 1) * (2 * m + 1)) by (nonlinear_arith)
        requires
            0 <= k <= m,
    ;
    assert((2 * k + 1) * (2 * k + 1) * norm <= (2 * m + 1) * (2 * m + 1) * norm)
        by (nonlinear_arith)
        requires
            (2 * k + 1) * (2 * k + 1) <= (2 * m + 1) * (2 * m + 1),
            0 <= norm,
    ;
}

/// The radius itself exceeds: no point of the circle lies further from the
/// centre along one axis than the radius.
proof fn lemma_radius_exceeds(radius: int, along: int, across: int)
    requires
        0 <= radius,
        0 <= along,
        0 <= across,
        0 < along * along + across * across,
    ensures
        exceeds(radius, 2 * radius * along, along * along + across * across),
{
    let reach = 2 * radius * along;
    let norm = along * along + across * across;
    assert(reach * reach < (2 * radius + 1) * (2 * radius + 1) * norm) by (nonlinear_arith)
        requires
            reach == 2 * radius * along,
            norm == along * along + across * across,
            norm > 0,
            0 <= radius,
            0 <= along,
            0 <= across,
    {
        assert(reach * reach == 4 * (radius * radius) * (along * along));
        assert((2 * radius + 1) * (2 * radius + 1) * norm >= (4 * (radius * radius) + 1) * norm);
        assert((4 * (radius * radius) + 1) * norm > 4 * (radius * radius) * (along * along));
    }
}

/// Below any `k` that exceeds there is a least one.
proof fn lemma_least_exceeding(k: int, reach: int, norm: int) -> (n: int)
    requires
        0 <= k,
        exceeds(k, reach, norm),
    ensures
        0 <= n <= k,
        exceeds(n, reach, norm),
        n == 0 || !exceeds(n - 1, reach, norm),
    decreases k,
{
    if k > 0 && exceeds(k - 1, reach, norm) {
        lemma_least_exceeding(k - 1, reach, norm)
    } else {
        k
    }
}

/// There is a nearest integer, and it is no greater than the radius: a
/// point of the circle lies no further from the centre along one axis than
/// the radius.
pub proof fn lemma_projection_exists(radius: int, along: int, across: int)
    requires
        0 <= radius,
        0 <= along,
        0 <= across,
    ensures
        is_projection(projection(radius, along, across), radius, along, across),
        0 <= projection(radius, along, across) <= radius,
{
    let reach = 2 * radius * along;
    let norm = along * along + across * across;
    if norm == 0 {
        assert(is_projection(0, radius, along, across));
    } else {
        lemma_radius_exceeds(radius, along, across);
        let n = lemma_least_exceeding(radius, reach, norm);
        assert(is_projection(n, radius, along, across));
        lemma_projection_unique(n, radius, along, across);
    }
}

/// At most one integer is the nearest, so `projection` is the one that is.
pub proof fn lemma_projection_unique(n: int, radius: int, along: int, across: int)
    requires
        is_projection(n, radius, along, across),
    ensures
        projection(radius, along, across) == n,
{
    let m = projection(radius, along, across);
    let reach = 2 * radius * along;
    let norm = along * along + across * across;
    assert(is_projection(m, radius, along, across));
    assert(0 <= norm) by (nonlinear_arith)
        requires
            norm == along * along + across * across,
    ;
    if norm != 0 {
        if n < m {
            lemma_exceeds_grows(n, m - 1, reach, norm);
        }
        if m < n {
            lemma_exceeds_grows(m, n - 1, reach, norm);
        }
    }
}

/// The integer nearest to `radius * along / sqrt(along² + across²)`.
fn project(radius: usize, along: usize, across: usize) -> (n: usize)
    requires
        radius <= MAX_RADIUS,
        along <= MAX_RADIUS,
        across <= MAX_RADIUS,
    ensures
        n == projection(radius as int, along as int, across as int),
        n <= radius,
{
    let r = radius as u128;
    let a = along as u128;
    let b = across as u128;
    assert(a * a <= 0x3fff_ffff_0000_0001 && b * b <= 0x3fff_ffff_0000_0001 && r * a
        <= 0x3fff_ffff_0000_0001) by (nonlinear_arith)
        requires
            a <= 0x7fff_ffff,
            b <= 0x7fff_ffff,
            r <= 0x7fff_ffff,
    ;
    let norm = a * a + b * b;
    if norm == 0 {
        proof {
            lemma_projection_unique(0, radius as int, along as int, across as int);
        }
        return 0;
    }
    let reach = 2 * (r * a);
    assert(reach * reach <= 0x3fff_fffe_0000_0005_ffff_fff8_0000_0004) by (nonlinear_arith)
        requires
            reach <= 0x7fff_fffe_0000_0002,
    ;
    let target = reach * reach;
    proof {
        assert(2 * radius * along == 2 * (r * a)) by (nonlinear_arith)
            requires
                r == radius,
                a == along,
        ;
        lemma_radius_exceeds(radius as int, along as int, across as int);
    }
    let mut lo: usize = 0;
    let mut hi: usize = radius;
    while lo < hi
        invariant
            lo <= hi <= radius,
            radius <= MAX_RADIUS,
            0 < norm <= 0x7fff_fffe_0000_0002,
            target == reach * reach,
            exceeds(hi as int, reach as int, norm as int),
            lo == 0 || !exceeds(lo - 1, reach as int, norm as int),
        decreases hi - lo,
    {
        let mid = lo + (hi - lo) / 2;
        let odd = 2 * (mid as u128) + 1;
        assert(odd * odd <= 0xffff_fffe_0000_0001) by (nonlinear_arith)
            requires
                odd <= 0xffff_ffff,
        ;
        assert(odd * odd * norm <= 0x7fff_fffd_0000_0006_7fff_fffa_0000_0002) by (nonlinear_arith)
            requires
                odd * odd <= 0xffff_fffe_0000_0001,
                norm <= 0x7fff_fffe_0000_0002,
        ;
        if target < odd * odd * norm {
            hi = mid;
        } else {
            lo = mid + 1;
        }
    }
    proof {
        lemma_projection_unique(lo as int, radius as int, along as int, across as int);
    }
    lo
}

/// 1, 0 or -1 as `v` is above, at or below zero.
pub open spec fn signum(v: int) -> int {
    if v > 0 {
        1
    } else if v < 0 {
        -1
    } else {
        0
    }
}

/// The distance of `v` from zero.
pub open spec fn magnitude(v: int) -> int {
    if v >= 0 {
        v
    } else {
        -v
    }
}

/// A circle by its centre and its radius; the radius does not count the
/// centre pixel.
pub struct Circle {
    pub center_pos: (usize, usize),
    pub radius: usize,
}

impl Circle {
    /// What the circle functions ask of a circle: a radius within
    /// `MAX_RADIUS`, and every point of the circle within the signed range.
    pub open spec fn fits(&self) -> bool {
        &&& self.radius <= MAX_RADIUS
        &&& self.center_pos.0 + self.radius <= isize::MAX
        &&& self.center_pos.1 + self.radius <= isize::MAX
    }

    /// The point of the circle on the ray from the centre through `edge`:
    /// with `theta` the angle of that ray, `round(radius * cos(theta))` to
    /// the side of `edge` along x and `round(radius * sin(theta))` along y.
    /// Straight above and below the centre the offset along x is 0; left
    /// and right of it the offset along y is 0.
    pub open spec fn circle_point(&self, edge: (int, int)) -> (int, int) {
        let dx = edge.0 - self.center_pos.0;
        let dy = edge.1 - self.center_pos.1;
        (
            self.center_pos.0 + signum(dx) * projection(
                self.radius as int,
                magnitude(dx),
                magnitude(dy),
            ),
            self.center_pos.1 + signum(dy) * projection(
                self.radius as int,
                magnitude(dy),
                magnitude(dx),
            ),
        )
    }

    /// A position in the circle's bounding box, counted from the box's top
    /// left corner, as a position in the image.
    pub open spec fn bounding_point(&self, pos: (int, int)) -> (int, int) {
        (pos.0 + self.center_pos.0 - self.radius, pos.1 + self.center_pos.1 - self.radius)
    }

    /// The `k`-th point of the outline. The points come four at a time, one
    /// for each edge of the bounding box: for offset `k / 4` along the edge,
    /// the points under the top, the bottom, the left and the right edge.
    pub open spec fn outline_point(&self, k: int) -> (int, int) {
        let i = k / 4;
        let side = k % 4;
        let last = 2 * self.radius;
        let edge = if side == 0 {
            (i, 0int)
        } else if side == 1 {
            (i, last)
        } else if side == 2 {
            (0int, i)
        } else {
            (last, i)
        };
        self.circle_point(self.bounding_point(edge))
    }

    /// Whether `(x, y)` is among the first `count` points of the outline.
    pub open spec fn reached(&self, count: int, x: int, y: int) -> bool {
        exists|k: int| 0 <= k < count && #[trigger] self.outline_point(k) == (x, y)
    }

    /// How many points the outline has, counting those that coincide.
    pub open spec fn outline_len(&self) -> int {
        4 * (2 * self.radius + 1)
    }

    /// The circle of the given centre and radius.
    pub fn build(center_pos: (usize, usize), radius: usize) -> (circle: Circle)
        ensures
            circle.center_pos == center_pos,
            circle.radius == radius,
    {
        Circle { center_pos, radius }
    }

    /// The point of the circle on the ray from the centre through
    /// `edge_pos`.
    pub fn circle_pos(&self, edge_pos: (isize, isize)) -> (pos: (isize, isize))
        requires
            self.fits(),
            magnitude(edge_pos.0 - self.center_pos.0) <= MAX_RADIUS,
            magnitude(edge_pos.1 - self.center_pos.1) <= MAX_RADIUS,
        ensures
            pos.0 == self.circle_point((edge_pos.0 as int, edge_pos.1 as int)).0,
            pos.1 == self.circle_point((edge_pos.0 as int, edge_pos.1 as int)).1,
    {
        let center_x = self.center_pos.0 as isize;
        let center_y = self.center_pos.1 as isize;
        let x_displacement = edge_pos.0 - center_x;
        let y_displacement = edge_pos.1 - center_y;
        let along_x = distance_from_zero(x_displacement);
        let along_y = distance_from_zero(y_displacement);
        let x = project(self.radius, along_x, along_y) as isize;
        let y = project(self.radius, along_y, along_x) as isize;
        let x = if x_displacement > 0 {
            x
        } else if x_displacement < 0 {
            -x
        } else {
            0
        };
        let y = if y_displacement > 0 {
            y
        } else if y_displacement < 0 {
            -y
        } else {
            0
        };
        (x + center_x, y + center_y)
    }

    /// Draws the outline of the circle onto `image` in `color`, given as
    /// red, green, blue, alpha. Points outside the image are passed over.
    pub fn draw_outline(&self, image: &mut Image, color: (u8, u8, u8, u8))
        requires
            self.fits(),
        ensures
            final(image)@ == old(image)@.with_outline(
                *self,
                seq![color.0, color.1, color.2, color.3],
            ),
    {
        let ghost before = image@;
        let ghost ink = seq![color.0, color.1, color.2, color.3];
        let width = self.radius * 2 + 1;
        let color = vec![color.0, color.1, color.2, color.3];
        proof {
            use_type_invariant(&*image);
            before.lemma_outline_start(*self, ink);
            assert(color@ =~= ink);
        }
        let mut i: usize = 0;
        while i < width
            invariant
                self.fits(),
                before.wf(),
                width == 2 * self.radius + 1,
                i <= width,
                color@ == ink,
                ink.len() == 4,
                image@ == before.with_outline_partly(*self, ink, 4 * i),
            decreases width - i,
        {
            let top_pos = self.bounding_pos_to_pos((i, 0));
            let bottom_pos = self.bounding_pos_to_pos((i, width - 1));
            let left_pos = self.bounding_pos_to_pos((0, i));
            let right_pos = self.bounding_pos_to_pos((width - 1, i));
            proof {
                before.lemma_outline_step(*self, ink, 4 * i);
                before.lemma_outline_step(*self, ink, 4 * i + 1);
                before.lemma_outline_step(*self, ink, 4 * i + 2);
                before.lemma_outline_step(*self, ink, 4 * i + 3);
                use_type_invariant(&*image);
            }
            image.replace_pixel_if_viable(self.circle_pos(top_pos), &color);
            proof {
                use_type_invariant(&*image);
            }
            image.replace_pixel_if_viable(self.circle_pos(bottom_pos), &color);
            proof {
                use_type_invariant(&*image);
            }
            image.replace_pixel_if_viable(self.circle_pos(left_pos), &color);
            proof {
                use_type_invariant(&*image);
            }
            image.replace_pixel_if_viable(self.circle_pos(right_pos), &color);
            i += 1;
        }
    }

    /// A position in the circle's bounding box as a position in the image.
    pub fn bounding_pos_to_pos(&self, pos: (usize, usize)) -> (abs_pos: (isize, isize))
        requires
            self.fits(),
            pos.0 <= 2 * self.radius,
            pos.1 <= 2 * self.radius,
        ensures
            abs_pos.0 == self.bounding_point((pos.0 as int, pos.1 as int)).0,
            abs_pos.1 == self.bounding_point((pos.0 as int, pos.1 as int)).1,
    {
        let abs_pos = Image::sum_pos(pos, self.center_pos);
        Image::subtract_pos(abs_pos, (self.radius, self.radius))
    }
}

impl Raster {
    /// This raster with the first `count` points of `circle`'s outline in
    /// `color`, as far as they lie inside.
    pub open spec fn with_outline_partly(self, circle: Circle, color: Seq<u8>, count: int) -> Raster {
        Raster::from_samples(
            self.channels,
            self.width,
            self.height,
            |x: int, y: int, c: int|
                if circle.reached(count, x, y) {
                    color[c]
                } else {
                    self.sample(x, y, c)
                },
        )
    }

    /// This raster with the outline of `circle` in `color`: every pixel that
    /// is a point of the outline has the leading bytes of `color`, one per
    /// channel; every other pixel is as it was.
    pub open spec fn with_outline(self, circle: Circle, color: Seq<u8>) -> Raster {
        self.with_outline_partly(circle, color, circle.outline_len())
    }

    proof fn lemma_sample_of_with_outline_partly(
        self,
        circle: Circle,
        color: Seq<u8>,
        count: int,
        x: int,
        y: int,
        c: int,
    )
        requires
            self.wf(),
            self.contains(x, y),
            0 <= c < self.channels,
        ensures
            self.with_outline_partly(circle, color, count).wf(),
            self.with_outline_partly(circle, color, count).sample(x, y, c) == if circle.reached(
                count,
                x,
                y,
            ) {
                color[c]
            } else {
                self.sample(x, y, c)
            },
    {
        lemma_byte_count(self.channels, self.width, self.height);
        lemma_sample_index(self.channels, self.width, self.height, x, y, c);
    }

    proof fn lemma_outline_start(self, circle: Circle, color: Seq<u8>)
        requires
            self.wf(),
        ensures
            self.with_outline_partly(circle, color, 0) == self,
    {
        let start = self.with_outline_partly(circle, color, 0);
        lemma_byte_count(self.channels, self.width, self.height);
        assert forall|x: int, y: int, c: int|
            start.contains(x, y) && 0 <= c < start.channels implies #[trigger] start.sample(x, y, c)
            == self.sample(x, y, c) by {
            self.lemma_sample_of_with_outline_partly(circle, color, 0, x, y, c);
        }
        start.lemma_equal_by_samples(self);
    }

    /// Drawing the next point of the outline, if it lies inside, moves the
    /// outline on by one point.
    proof fn lemma_outline_step(self, circle: Circle, color: Seq<u8>, count: int)
        requires
            self.wf(),
            0 <= count,
        ensures
            self.with_outline_partly(circle, color, count + 1) == ({
                let now = self.with_outline_partly(circle, color, count);
                let point = circle.outline_point(count);
                if now.contains(point.0, point.1) {
                    now.with_pixel(point.0, point.1, color)
                } else {
                    now
                }
            }),
    {
        let now = self.with_outline_partly(circle, color, count);
        let point = circle.outline_point(count);
        let next = if now.contains(point.0, point.1) {
            now.with_pixel(point.0, point.1, color)
        } else {
            now
        };
        let goal = self.with_outline_partly(circle, color, count + 1);
        lemma_byte_count(self.channels, self.width, self.height);
        assert forall|x: int, y: int, c: int|
            goal.contains(x, y) && 0 <= c < goal.channels implies #[trigger] goal.sample(x, y, c)
            == next.sample(x, y, c) by {
            self.lemma_sample_of_with_outline_partly(circle, color, count, x, y, c);
            self.lemma_sample_of_with_outline_partly(circle, color, count + 1, x, y, c);
            if now.contains(point.0, point.1) {
                now.lemma_sample_of_with_pixel(point.0, point.1, color, x, y, c);
            }
            if circle.reached(count + 1, x, y) {
                let k = choose|k: int| 0 <= k < count + 1 && #[trigger] circle.outline_point(k) == (x, y);
                if k < count {
                    assert(circle.reached(count, x, y));
                } else {
                    assert(point == (x, y));
                }
            }
            if circle.reached(count, x, y) {
                let k = choose|k: int| 0 <= k < count && #[trigger] circle.outline_point(k) == (x, y);
                assert(0 <= k < count + 1 && circle.outline_point(k) == (x, y));
            }
            if point == (x, y) {
                assert(0 <= count < count + 1 && circle.outline_point(count) == (x, y));
            }
        }
        if now.contains(point.0, point.1) {
            now.lemma_sample_of_with_pixel(point.0, point.1, color, point.0, point.1, 0);
        }
        goal.lemma_equal_by_samples(next);
    }
}

fn distance_from_zero(v: isize) -> (d: usize)
    requires
        magnitude(v as int) <= MAX_RADIUS,
    ensures
        d == magnitude(v as int),
{
    if v >= 0 {
        v as usize
    } else {
        (-v) as usize
    }
}

impl Image {
    /// Channel `c` of pixel `(x, y)`.
    pub fn sample_at(&self, x: usize, y: usize, c: usize) -> (value: u8)
        requires
            self@.contains(x as int, y as int),
            c < self@.channels,
        ensures
            value == self@.sample(x as int, y as int, c as int),
    {
        proof {
            use_type_invariant(self);
            assert(self.data@.len() == self.data.len());
        }
        let at = self.pos_to_index(x, y);
        self.data[at + c]
    }

    /// The channels of pixel `(x, y)`, in order.
    pub fn pixel_at(&self, x: usize, y: usize) -> (value: Vec<u8>)
        requires
            self@.contains(x as int, y as int),
        ensures
            value@ == self@.pixel(x as int, y as int),
    {
        proof {
            use_type_invariant(self);
            assert(self.data@.len() == self.data.len());
        }
        let at = self.pos_to_index(x, y);
        let mut value: Vec<u8> = Vec::with_capacity(4);
        value.push(self.data[at]);
        value.push(self.data[at + 1]);
        value.push(self.data[at + 2]);
        if self.channels == 4 {
            value.push(self.data[at + 3]);
        }
        assert(value@ =~= self@.pixel(x as int, y as int));
        value
    }

    /// Overwrites the pixel at `pos` with the leading bytes of `value`, one
    /// per channel of the image.
    pub fn replace_pixel_at(&mut self, pos: (u32, u32), value: &Vec<u8>)
        requires
            old(self)@.contains(pos.0 as int, pos.1 as int),
            value@.len() >= old(self)@.channels,
        ensures
            final(self)@ == old(self)@.with_pixel(pos.0 as int, pos.1 as int, value@),
    {
        proof {
            use_type_invariant(&*self);
            assert(self.data@.len() == self.data.len());
            self@.lemma_with_pixel_data(pos.0 as int, pos.1 as int, value@);
        }
        let ghost before = self@;
        let index = self.pos_to_index(pos.0 as usize, pos.1 as usize);
        self.data[index] = value[0];
        self.data[index + 1] = value[1];
        self.data[index + 2] = value[2];
        if self.channels == 4 {
            self.data[index + 3] = value[3];
        }
        assert(self@.data =~= before.with_pixel(pos.0 as int, pos.1 as int, value@).data);
    }

    /// Overwrites the pixel at `pos` if there is one; a position outside the
    /// image is passed over.
    pub fn replace_pixel_if_viable(&mut self, pos: (isize, isize), color: &Vec<u8>)
        requires
            color@.len() >= old(self)@.channels,
        ensures
            final(self)@ == if old(self)@.contains(pos.0 as int, pos.1 as int) {
                old(self)@.with_pixel(pos.0 as int, pos.1 as int, color@)
            } else {
                old(self)@
            },
    {
        if self.is_pos_in_image(pos) {
            self.replace_pixel_at((pos.0 as u32, pos.1 as u32), color);
        }
    }

    /// Draws the outline of the circle of the given centre and radius in
    /// `color`. Points outside the image are passed over.
    pub fn draw_circle_outline(
        &mut self,
        center_pos: (usize, usize),
        radius: usize,
        color: (u8, u8, u8, u8),
    )
        requires
            (Circle { center_pos, radius }).fits(),
        ensures
            final(self)@ == old(self)@.with_outline(
                Circle { center_pos, radius },
                seq![color.0, color.1, color.2, color.3],
            ),
    {
        Circle::build(center_pos, radius).draw_outline(self, color);
    }
}

} // verus!
