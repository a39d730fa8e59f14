use vstd::prelude::*;
use vstd::arithmetic::div_mod::lemma_multiply_divide_lt;
use vstd::arithmetic::div_mod::lemma_div_pos_is_pos;
use crate::draw2d::{
    Draw2D, bresenham, disk_shape, is_circle_octant, midpoint_octant, octant_shape, points_of, pt, triangle_shape,
};
use crate::framebuffer::{
    FrameBuffer, drawn, fill, plot, union, lemma_drawn_none, lemma_drawn_then, lemma_drawn_plot, lemma_drawn_same,
};
use crate::texture::{Texture, alpha};

verus! {

/// The texel that sprite pixel `(u, v)` of a `size` x `size` blit samples:
/// column `u * width / size` and row `v * height / size`, rounded down.
pub open spec fn sprite_texel(tex: Texture, size: int, u: int, v: int) -> u32 {
    let tx = u * tex.width / size;
    let ty = v * tex.height / size;
    tex.pixels@[ty * tex.width + tx]
}

/// What a blit of `tex` as a `size` x `size` square centred on `(cx, cy)`
/// writes at screen point `(x, y)`: the sampled texel, unless the point lies
/// outside the square or the texel's alpha is below 10.
pub open spec fn sprite_at(tex: Texture, cx: int, cy: int, size: int) -> spec_fn(int, int) -> Option<u32> {
    |x: int, y: int|
        {
            let u = x - (cx - size / 2);
            let v = y - (cy - size / 2);
            if 0 <= u < size && 0 <= v < size && tex.width > 0 && tex.height > 0 && alpha(
                sprite_texel(tex, size, u, v),
            ) >= 10 {
                Some(sprite_texel(tex, size, u, v))
            } else {
                None
            }
        }
}

/// The part of `sprite_at` that a row-by-row scan reaches before
/// `(col, row)` of the square.
pub open spec fn sprite_upto(tex: Texture, cx: int, cy: int, size: int, row: int, col: int) -> spec_fn(
    int,
    int,
) -> Option<u32> {
    |x: int, y: int|
        {
            let u = x - (cx - size / 2);
            let v = y - (cy - size / 2);
            if v < row || (v == row && u < col) {
                sprite_at(tex, cx, cy, size)(x, y)
            } else {
                None
            }
        }
}

/// A texel coordinate scaled from `[0, size)` onto `[0, n)` fits, and is
/// below `n` when `n` is positive.
proof fn lemma_scaled_texel(u: int, n: int, size: int)
    requires
        0 <= u < size <= 0x8000_0000,
        0 <= n <= usize::MAX,
    ensures
        0 <= u * n <= 0x8000_0000 * 0x1_0000_0000_0000_0000,
        0 <= u * n / size <= n,
        n > 0 ==> u * n / size < n,
{
    assert(0 <= u * n <= 0x8000_0000 * 0x1_0000_0000_0000_0000) by (nonlinear_arith)
        requires
            0 <= u < size <= 0x8000_0000,
            0 <= n <= usize::MAX,
    ;
    lemma_div_pos_is_pos(u * n, size);
    if n == 0 {
        assert(u * n == 0);
    }
    if n > 0 {
        assert(u * n < size * n) by (nonlinear_arith)
            requires
                0 <= u < size,
                0 < n,
        ;
        lemma_multiply_divide_lt(u * n, size, n);
    }
}

/// Entries `i` and `i + 1` of a strip are both present, so a segment joins
/// them.
pub open spec fn joined(pts: Seq<Option<(i32, i32)>>, i: int) -> bool {
    0 <= i < pts.len() - 1 && pts[i] is Some && pts[i + 1] is Some
}

/// The Bresenham points of segment `i` of a strip.
pub open spec fn strip_segment(pts: Seq<Option<(i32, i32)>>, i: int) -> Seq<(int, int)> {
    bresenham(pt(pts[i]->0), pt(pts[i + 1]->0))
}

/// The points of the joined segments of a strip before segment `n`.
pub open spec fn strip_shape(pts: Seq<Option<(i32, i32)>>, n: int) -> spec_fn(int, int) -> bool {
    |x: int, y: int| exists|i: int| 0 <= i < n && joined(pts, i) && #[trigger] strip_segment(pts, i).contains((x, y))
}

proof fn lemma_strip_step(pts: Seq<Option<(i32, i32)>>, n: int)
    ensures
        forall|x: int, y: int|
            #[trigger] strip_shape(pts, n + 1)(x, y) == (strip_shape(pts, n)(x, y) || (joined(pts, n)
                && strip_segment(pts, n).contains((x, y)))),
{
    assert forall|x: int, y: int|
        #[trigger] strip_shape(pts, n + 1)(x, y) == (strip_shape(pts, n)(x, y) || (joined(pts, n)
            && strip_segment(pts, n).contains((x, y)))) by {
        if strip_shape(pts, n + 1)(x, y) {
            let i = choose|i: int|
                0 <= i < n + 1 && joined(pts, i) && #[trigger] strip_segment(pts, i).contains((x, y));
            if i < n {
                assert(strip_shape(pts, n)(x, y));
            }
        }
    }
}

/// A screen of `width` x `height` packed pixels and the drawing operations on
/// it.
pub struct Renderer {
    pub width: usize,
    pub height: usize,
    pub fb: FrameBuffer,
}

impl Renderer {
    /// The frame is well formed and matches the declared size.
    pub open spec fn wf(&self) -> bool {
        &&& self.fb.wf()
        &&& self.fb.width == self.width
        &&& self.fb.height == self.height
    }

    /// The pixels of the frame.
    pub open spec fn pixels(&self) -> Seq<u32> {
        self.fb.pixels@
    }

    /// A `width` x `height` screen, all black.
    pub fn new(width: usize, height: usize) -> (r: Self)
        requires
            width * height <= usize::MAX,
        ensures
            r.wf(),
            r.width == width,
            r.height == height,
            r.pixels() == Seq::new((width * height) as nat, |k: int| 0u32),
    {
        Renderer { width, height, fb: FrameBuffer::new(width, height) }
    }

    /// Sets every pixel to `color`.
    pub fn clear(&mut self, color: u32)
        requires
            old(self).wf(),
        ensures
            final(self).wf(),
            final(self).width == old(self).width,
            final(self).height == old(self).height,
            final(self).pixels() == Seq::new(old(self).pixels().len(), |k: int| color),
    {
        self.fb.clear(color);
    }

    /// The frame's pixels, row-major, for presentation.
    pub fn buffer(&self) -> (r: &[u32])
        ensures
            r@ == self.pixels(),
    {
        self.fb.pixels.as_slice()
    }

    /// Writes `color` at `(x, y)`; a point outside the screen is dropped.
    pub fn put_pixel(&mut self, x: i32, y: i32, color: u32)
        requires
            old(self).wf(),
        ensures
            final(self).wf(),
            final(self).width == old(self).width,
            final(self).height == old(self).height,
            final(self).pixels() == plot(
                old(self).pixels(),
                old(self).width as int,
                old(self).height as int,
                x as int,
                y as int,
                color,
            ),
    {
        self.fb.put_pixel(x, y, color);
    }

    /// Fills the disk of `radius` about `center`, as `Draw2D::filled_circle`.
    pub fn draw_filled_circle(&mut self, center: (i32, i32), radius: i32, color: u32)
        requires
            old(self).wf(),
        ensures
            final(self).wf(),
            final(self).width == old(self).width,
            final(self).height == old(self).height,
            drawn(
                old(self).pixels(),
                final(self).pixels(),
                old(self).width as int,
                fill(disk_shape(center.0 as int, center.1 as int, radius as int), color),
            ),
    {
        let mut d = Draw2D::new(&mut self.fb);
        d.filled_circle(center, radius, color);
    }

    /// The midpoint circle outline of `radius` about `center`, as
    /// `Draw2D::circle`.
    pub fn draw_circle(&mut self, center: (i32, i32), radius: i32, color: u32)
        requires
            old(self).wf(),
        ensures
            final(self).wf(),
            final(self).width == old(self).width,
            final(self).height == old(self).height,
            drawn(
                old(self).pixels(),
                final(self).pixels(),
                old(self).width as int,
                fill(octant_shape(center.0 as int, center.1 as int, midpoint_octant(radius as int)), color),
            ),
            is_circle_octant(midpoint_octant(radius as int), radius as int),
    {
        let mut d = Draw2D::new(&mut self.fb);
        d.circle(center, radius, color);
    }

    /// The segment from `p0` to `p1`, as `Draw2D::line`.
    pub fn draw_line(&mut self, p0: (i32, i32), p1: (i32, i32), color: u32)
        requires
            old(self).wf(),
        ensures
            final(self).wf(),
            final(self).width == old(self).width,
            final(self).height == old(self).height,
            drawn(
                old(self).pixels(),
                final(self).pixels(),
                old(self).width as int,
                fill(points_of(bresenham(pt(p0), pt(p1))), color),
            ),
    {
        let mut d = Draw2D::new(&mut self.fb);
        d.line(p0, p1, color);
    }

    /// The outline of the triangle `p0, p1, p2`, as `Draw2D::triangle`.
    pub fn draw_triangle(&mut self, p0: (i32, i32), p1: (i32, i32), p2: (i32, i32), color: u32)
        requires
            old(self).wf(),
        ensures
            final(self).wf(),
            final(self).width == old(self).width,
            final(self).height == old(self).height,
            drawn(
                old(self).pixels(),
                final(self).pixels(),
                old(self).width as int,
                fill(triangle_shape(pt(p0), pt(p1), pt(p2)), color),
            ),
    {
        let mut d = Draw2D::new(&mut self.fb);
        d.triangle(p0, p1, p2, color);
    }

    /// Blits `tex` as a `size` x `size` square centred on `center`
    /// (top-left corner at `center - size / 2`), sampling the nearest texel
    /// and skipping texels whose alpha is below 10. A non-positive size
    /// draws nothing.
    /// The texel for sprite pixel `(u, v)` is column `u * width / size` and
    /// row `v * height / size` in exact integer arithmetic, rounded down;
    /// a float computation of `u / size * width` can land one column lower
    /// (at `u = 7`, `size = 12`, `width = 108` it gives 62, this gives 63).
    pub fn blit_sprite(&mut self, tex: &Texture, center: (i32, i32), size: i32)
        requires
            old(self).wf(),
            tex.wf(),
        ensures
            final(self).wf(),
            final(self).width == old(self).width,
            final(self).height == old(self).height,
            drawn(
                old(self).pixels(),
                final(self).pixels(),
                old(self).width as int,
                sprite_at(*tex, center.0 as int, center.1 as int, size as int),
            ),
    {
        let ghost old_px = self.fb.pixels@;
        let ghost w = self.fb.width as int;
        let ghost h = self.fb.height as int;
        let ghost cx = center.0 as int;
        let ghost cy = center.1 as int;
        let ghost sz = size as int;
        if size <= 0 {
            proof {
                lemma_drawn_none(old_px, w, sprite_at(*tex, cx, cy, sz));
            }
            return;
        }
        let half = size / 2;
        assert(half == sz / 2);
        let start_x = center.0 as i64 - half as i64;
        let start_y = center.1 as i64 - half as i64;
        let tw = tex.width;
        let th = tex.height;
        let tlen = tex.pixels.len();
        proof {
            lemma_drawn_none(old_px, w, sprite_upto(*tex, cx, cy, sz, 0, 0));
        }
        let mut y: i32 = 0;
        while y < size
            invariant
                self.wf(),
                self.fb.width == w,
                self.fb.height == h,
                old_px.len() == w * h,
                0 <= y <= size,
                half == size / 2,
                cx == center.0,
                cy == center.1,
                sz == size,
                start_x == center.0 - half,
                start_y == center.1 - half,
                tw == tex.width,
                th == tex.height,
                tlen == tex.pixels@.len(),
                tex.wf(),
                drawn(old_px, self.fb.pixels@, w, sprite_upto(*tex, cx, cy, sz, y as int, 0)),
            decreases size - y,
        {
            let mut x: i32 = 0;
            while x < size
                invariant
                    self.wf(),
                    self.fb.width == w,
                    self.fb.height == h,
                    old_px.len() == w * h,
                    0 <= y < size,
                    0 <= x <= size,
                    half == size / 2,
                    cx == center.0,
                    cy == center.1,
                    sz == size,
                    start_x == center.0 - half,
                    start_y == center.1 - half,
                    tw == tex.width,
                    th == tex.height,
                    tlen == tex.pixels@.len(),
                    tex.wf(),
                    drawn(old_px, self.fb.pixels@, w, sprite_upto(*tex, cx, cy, sz, y as int, x as int)),
                decreases size - x,
            {
                let ghost f = sprite_upto(*tex, cx, cy, sz, y as int, x as int);
                let ghost g = sprite_upto(*tex, cx, cy, sz, y as int, x + 1);
                proof {
                    lemma_scaled_texel(x as int, tw as int, size as int);
                    lemma_scaled_texel(y as int, th as int, size as int);
                }
                let tx = ((x as u128) * (tw as u128) / (size as u128)) as usize;
                let ty = ((y as u128) * (th as u128) / (size as u128)) as usize;
                if tx < tw && ty < th {
                    proof {
                        crate::framebuffer::lemma_index_in_range(tw as int, th as int, tx as int, ty as int);
                    }
                    let idx = ty * tw + tx;
                    let color = tex.pixels[idx];
                    if (color >> 24u32) & 0xffu32 >= 10 {
                        let ghost cur = self.fb.pixels@;
                        self.fb.plot(start_x + x as i64, start_y + y as i64, color);
                        proof {
                            lemma_drawn_plot(
                                old_px,
                                cur,
                                w,
                                h,
                                f,
                                g,
                                start_x + x,
                                start_y + y,
                                color,
                            );
                        }
                    } else {
                        proof {
                            lemma_drawn_same(old_px, self.fb.pixels@, w, f, g);
                        }
                    }
                } else {
                    proof {
                        lemma_drawn_same(old_px, self.fb.pixels@, w, f, g);
                    }
                }
                x = x + 1;
            }
            proof {
                lemma_drawn_same(
                    old_px,
                    self.fb.pixels@,
                    w,
                    sprite_upto(*tex, cx, cy, sz, y as int, sz),
                    sprite_upto(*tex, cx, cy, sz, y + 1, 0),
                );
            }
            y = y + 1;
        }
        proof {
            lemma_drawn_same(
                old_px,
                self.fb.pixels@,
                w,
                sprite_upto(*tex, cx, cy, sz, sz, 0),
                sprite_at(*tex, cx, cy, sz),
            );
        }
    }

    /// Draws a strip through `pts`: a `line` between each two consecutive
    /// entries that are both present. A missing entry breaks the strip; the
    /// points on either side of it are not joined.
    pub fn draw_strip(&mut self, pts: &Vec<Option<(i32, i32)>>, color: u32)
        requires
            old(self).wf(),
        ensures
            final(self).wf(),
            final(self).width == old(self).width,
            final(self).height == old(self).height,
            drawn(
                old(self).pixels(),
                final(self).pixels(),
                old(self).width as int,
                fill(strip_shape(pts@, pts@.len() - 1), color),
            ),
    {
        let ghost old_px = self.fb.pixels@;
        let ghost w = self.fb.width as int;
        let ghost h = self.fb.height as int;
        let n = pts.len();
        if n == 0 {
            proof {
                lemma_drawn_none(old_px, w, fill(strip_shape(pts@, n - 1), color));
            }
            return;
        }
        proof {
            lemma_drawn_none(old_px, w, fill(strip_shape(pts@, 0), color));
        }
        let mut i: usize = 0;
        while i + 1 < n
            invariant
                self.wf(),
                self.fb.width == w,
                self.fb.height == h,
                old_px.len() == self.fb.pixels@.len(),
                n == pts@.len(),
                i < n,
                drawn(old_px, self.fb.pixels@, w, fill(strip_shape(pts@, i as int), color)),
            decreases n - i,
        {
            let ghost cur = self.fb.pixels@;
            proof {
                lemma_strip_step(pts@, i as int);
            }
            match (pts[i], pts[i + 1]) {
                (Some(a), Some(b)) => {
                    let mut d = Draw2D::new(&mut self.fb);
                    d.line(a, b, color);
                    proof {
                        lemma_drawn_then(
                            old_px,
                            cur,
                            self.fb.pixels@,
                            w,
                            strip_shape(pts@, i as int),
                            points_of(strip_segment(pts@, i as int)),
                            color,
                        );
                        lemma_drawn_same(
                            old_px,
                            self.fb.pixels@,
                            w,
                            fill(union(strip_shape(pts@, i as int), points_of(strip_segment(pts@, i as int))), color),
                            fill(strip_shape(pts@, i + 1), color),
                        );
                    }
                },
                _ => {
                    proof {
                        lemma_drawn_same(
                            old_px,
                            self.fb.pixels@,
                            w,
                            fill(strip_shape(pts@, i as int), color),
                            fill(strip_shape(pts@, i + 1), color),
                        );
                    }
                },
            }
            i = i + 1;
        }
    }
}

} // verus!
