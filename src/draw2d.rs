use vstd::prelude::*;
use crate::framebuffer::{FrameBuffer, plot, drawn, union, lemma_drawn_then, fill, lemma_drawn_plot, lemma_drawn_same, lemma_drawn_none};

verus! {

/// Screen-space rasterization onto a borrowed frame buffer.
pub struct Draw2D<'a> {
    pub fb: &'a mut FrameBuffer,
}

impl<'a> Draw2D<'a> {
    /// Draws onto `fb`.
    pub fn new(fb: &'a mut FrameBuffer) -> (r: Self)
        ensures
            *r.fb == *old(fb),
            *final(r.fb) == *final(fb),
    {
        Draw2D { fb }
    }

    /// Fills every point whose offset `(dx, dy)` from `center` has
    /// `dx * dx + dy * dy <= radius * radius`.
    pub fn filled_circle(&mut self, center: (i32, i32), radius: i32, color: u32)
        requires
            old(self).fb.wf(),
        ensures
            final(self).fb.wf(),
            final(self).fb.width == old(self).fb.width,
            final(self).fb.height == old(self).fb.height,
            drawn(
                old(self).fb.pixels@,
                final(self).fb.pixels@,
                old(self).fb.width as int,
                fill(disk_shape(center.0 as int, center.1 as int, radius as int), color),
            ),
            *final(final(self).fb) == *final(old(self).fb),
    {
        let ghost old_px = self.fb.pixels@;
        let ghost w = self.fb.width as int;
        let ghost h = self.fb.height as int;
        let cx = center.0 as i64;
        let cy = center.1 as i64;
        let r = radius as i64;
        proof {
            lemma_square_fits(r as int);
        }
        let r2 = r * r;
        proof {
            lemma_drawn_none(old_px, w, fill(disk_upto(cx as int, cy as int, r as int, -r, -r), color));
        }
        let mut dy: i64 = -r;
        while dy <= r
            invariant
                self.fb.wf(),
                self.fb.width == w,
                self.fb.height == h,
                old_px.len() == w * h,
                *final(self.fb) == *final(old(self).fb),
                -r <= dy,
                dy <= r + 1 || dy == -r,
                r2 == r * r,
                r == radius,
                cx == center.0,
                cy == center.1,
                drawn(old_px, self.fb.pixels@, w, fill(disk_upto(cx as int, cy as int, r as int, dy as int, -r), color)),
            decreases r + 1 - dy,
        {
            let mut dx: i64 = -r;
            while dx <= r
                invariant
                    self.fb.wf(),
                    self.fb.width == w,
                    self.fb.height == h,
                    old_px.len() == w * h,
                    *final(self.fb) == *final(old(self).fb),
                    -r <= dy <= r,
                    -r <= dx <= r + 1,
                    r2 == r * r,
                    r == radius,
                    cx == center.0,
                    cy == center.1,
                    drawn(old_px, self.fb.pixels@, w, fill(disk_upto(cx as int, cy as int, r as int, dy as int, dx as int), color)),
                decreases r + 1 - dx,
            {
                let ghost f = fill(disk_upto(cx as int, cy as int, r as int, dy as int, dx as int), color);
                let ghost g = fill(disk_upto(cx as int, cy as int, r as int, dy as int, dx + 1), color);
                proof {
                    lemma_square_le(dx as int, r as int);
                    lemma_square_le(dy as int, r as int);
                    lemma_square_fits(r as int);
                }
                if dx * dx + dy * dy <= r2 {
                    let ghost cur = self.fb.pixels@;
                    self.fb.plot(cx + dx, cy + dy, color);
                    proof {
                        lemma_drawn_plot(old_px, cur, w, h, f, g, (cx + dx) as int, (cy + dy) as int, color);
                    }
                } else {
                    proof {
                        lemma_drawn_same(old_px, self.fb.pixels@, w, f, g);
                    }
                }
                dx = dx + 1;
            }
            proof {
                lemma_drawn_same(
                    old_px,
                    self.fb.pixels@,
                    w,
                    fill(disk_upto(cx as int, cy as int, r as int, dy as int, r + 1), color),
                    fill(disk_upto(cx as int, cy as int, r as int, dy + 1, -r), color),
                );
            }
            dy = dy + 1;
        }
        proof {
            lemma_drawn_same(
                old_px,
                self.fb.pixels@,
                w,
                fill(disk_upto(cx as int, cy as int, r as int, dy as int, -r), color),
                fill(disk_shape(cx as int, cy as int, r as int), color),
            );
        }
    }

    /// Draws the segment from `p0` to `p1` with integer Bresenham steps: the
    /// points of `bresenham(p0, p1)`, which are `max(|dx|, |dy|) + 1` points
    /// from `p0` to `p1`, each a king move that brings neither coordinate
    /// further from `p1`.
    pub fn line(&mut self, p0: (i32, i32), p1: (i32, i32), color: u32)
        requires
            old(self).fb.wf(),
        ensures
            final(self).fb.wf(),
            final(self).fb.width == old(self).fb.width,
            final(self).fb.height == old(self).fb.height,
            is_line_path(bresenham(pt(p0), pt(p1)), pt(p0), pt(p1)),
            drawn(
                old(self).fb.pixels@,
                final(self).fb.pixels@,
                old(self).fb.width as int,
                fill(points_of(bresenham(pt(p0), pt(p1))), color),
            ),
            *final(final(self).fb) == *final(old(self).fb),
    {
        let ghost old_px = self.fb.pixels@;
        let ghost w = self.fb.width as int;
        let ghost h = self.fb.height as int;
        let mut x: i64 = p0.0 as i64;
        let mut y: i64 = p0.1 as i64;
        let x1: i64 = p1.0 as i64;
        let y1: i64 = p1.1 as i64;

        let dx: i64 = if x1 >= x { x1 - x } else { x - x1 };
        let sx: i64 = if x < x1 { 1 } else { -1 };
        let dy: i64 = if y1 >= y { y - y1 } else { y1 - y };
        let sy: i64 = if y < y1 { 1 } else { -1 };
        let mut err: i64 = dx + dy;

        let ghost big_x: int = dx as int;
        let ghost big_y: int = -dy;
        let ghost mut i: int = 0;
        let ghost mut j: int = 0;
        let ghost mut pts: Seq<(int, int)> = Seq::empty();
        let ghost mut fuel: nat = (big_x + big_y + 1) as nat;
        proof {
            lemma_drawn_none(old_px, w, fill(points_of(pts), color));
            assert(pts.push((x as int, y as int))[0] == pt(p0));
            assert(pts + bresenham_from(x as int, y as int, x1 as int, y1 as int, dx as int, dy as int, sx as int, sy as int, err as int, fuel) =~= bresenham(pt(p0), pt(p1)));
        }
        loop
            invariant_except_break
                self.fb.wf(),
                self.fb.width == w,
                self.fb.height == h,
                old_px.len() == w * h,
                *final(self.fb) == *final(old(self).fb),
                x1 == p1.0,
                y1 == p1.1,
                dx == big_x,
                dy == -big_y,
                0 <= big_x <= 0xffff_ffff,
                0 <= big_y <= 0xffff_ffff,
                big_x == abs(p1.0 - p0.0),
                big_y == abs(p1.1 - p0.1),
                0 <= i <= big_x,
                0 <= j <= big_y,
                (sx == 1 && x1 - x == big_x - i) || (sx == -1 && x - x1 == big_x - i),
                (sy == 1 && y1 - y == big_y - j) || (sy == -1 && y - y1 == big_y - j),
                err == big_x * (1 + j) - big_y * (1 + i),
                -2 * (big_x + big_y) <= err <= 2 * (big_x + big_y),
                big_x >= big_y ==> 2 * err >= -big_y && i == pts.len(),
                big_x < big_y ==> 2 * err <= big_x && j == pts.len(),
                path_ok(pts.push((x as int, y as int)), pt(p0), pt(p1)),
                drawn(old_px, self.fb.pixels@, w, fill(points_of(pts), color)),
                sx == (if p0.0 < p1.0 { 1int } else { -1int }),
                sy == (if p0.1 < p1.1 { 1int } else { -1int }),
                fuel >= (big_x - i) + (big_y - j) + 1,
                pts + bresenham_from(x as int, y as int, x1 as int, y1 as int, dx as int, dy as int, sx as int, sy as int, err as int, fuel)
                    == bresenham(pt(p0), pt(p1)),
            ensures
                self.fb.wf(),
                self.fb.width == w,
                self.fb.height == h,
                *final(self.fb) == *final(old(self).fb),
                is_line_path(pts, pt(p0), pt(p1)),
                pts == bresenham(pt(p0), pt(p1)),
                drawn(old_px, self.fb.pixels@, w, fill(points_of(pts), color)),
            decreases (big_x - i) + (big_y - j),
        {
            let ghost cur = self.fb.pixels@;
            let ghost here = (x as int, y as int);
            self.fb.plot(x, y, color);
            proof {
                lemma_push_points(pts, here);
                lemma_drawn_plot(
                    old_px,
                    cur,
                    w,
                    h,
                    fill(points_of(pts), color),
                    fill(points_of(pts.push(here)), color),
                    x as int,
                    y as int,
                    color,
                );
            }
            let ghost rest = bresenham_from(x as int, y as int, x1 as int, y1 as int, dx as int, dy as int, sx as int, sy as int, err as int, fuel);
            proof {
                lemma_bresenham_step(x as int, y as int, x1 as int, y1 as int, dx as int, dy as int, sx as int, sy as int, err as int, fuel);
            }
            if x == x1 && y == y1 {
                proof {
                    lemma_seq_shift(pts, here, rest, Seq::empty());
                    pts = pts.push(here);
                }
                break;
            }
            let e2 = 2 * err;
            let ghost (xo, yo, eo) = (x as int, y as int, err as int);
            proof {
                lemma_bresenham_moves(big_x, big_y, i, j, err as int);
            }
            if e2 >= dy {
                err = err + dy;
                x = x + sx;
                proof {
                    i = i + 1;
                }
            }
            if e2 <= dx {
                err = err + dx;
                y = y + sy;
                proof {
                    j = j + 1;
                }
            }
            proof {
                let next = (x as int, y as int);
                lemma_path_extend(pts.push(here), next, pt(p0), pt(p1));
                assert(x == if 2 * eo >= dy { xo + sx } else { xo });
                assert(y == if 2 * eo <= dx { yo + sy } else { yo });
                assert(err == (if 2 * eo >= dy { eo + dy } else { eo }) + (if 2 * eo <= dx { dx as int } else { 0 }));
                let tail = bresenham_from(x as int, y as int, x1 as int, y1 as int, dx as int, dy as int, sx as int, sy as int, err as int, (fuel - 1) as nat);
                assert(rest == seq![here] + tail);
                lemma_seq_shift(pts, here, rest, tail);
                pts = pts.push(here);
                fuel = (fuel - 1) as nat;
            }
        }
    }

    /// The outline of a triangle: the segments `p0 -> p1`, `p1 -> p2` and
    /// `p2 -> p0`, each as `line` draws it.
    pub fn triangle(&mut self, p0: (i32, i32), p1: (i32, i32), p2: (i32, i32), color: u32)
        requires
            old(self).fb.wf(),
        ensures
            final(self).fb.wf(),
            final(self).fb.width == old(self).fb.width,
            final(self).fb.height == old(self).fb.height,
            drawn(
                old(self).fb.pixels@,
                final(self).fb.pixels@,
                old(self).fb.width as int,
                fill(triangle_shape(pt(p0), pt(p1), pt(p2)), color),
            ),
            *final(final(self).fb) == *final(old(self).fb),
    {
        let ghost w = self.fb.width as int;
        let ghost px0 = self.fb.pixels@;
        self.line(p0, p1, color);
        let ghost px1 = self.fb.pixels@;
        self.line(p1, p2, color);
        let ghost px2 = self.fb.pixels@;
        self.line(p2, p0, color);
        proof {
            let a = points_of(bresenham(pt(p0), pt(p1)));
            let b = points_of(bresenham(pt(p1), pt(p2)));
            let c = points_of(bresenham(pt(p2), pt(p0)));
            lemma_drawn_then(px0, px1, px2, w, a, b, color);
            lemma_drawn_then(px0, px2, self.fb.pixels@, w, union(a, b), c, color);
        }
    }

    /// Draws a midpoint circle outline: the eight mirror images about
    /// `center` of each first-octant point of `midpoint_octant(radius)`, a
    /// scan from `(radius, 0)` with one point per row `y` while `y <= x`, `x`
    /// never above `radius` and dropping by at most one per row. A negative
    /// radius draws nothing.
    pub fn circle(&mut self, center: (i32, i32), radius: i32, color: u32)
        requires
            old(self).fb.wf(),
        ensures
            final(self).fb.wf(),
            final(self).fb.width == old(self).fb.width,
            final(self).fb.height == old(self).fb.height,
            drawn(
                old(self).fb.pixels@,
                final(self).fb.pixels@,
                old(self).fb.width as int,
                fill(octant_shape(center.0 as int, center.1 as int, midpoint_octant(radius as int)), color),
            ),
            is_circle_octant(midpoint_octant(radius as int), radius as int),
            *final(final(self).fb) == *final(old(self).fb),
    {
        let ghost old_px = self.fb.pixels@;
        let ghost w = self.fb.width as int;
        let ghost h = self.fb.height as int;
        let cx = center.0 as i64;
        let cy = center.1 as i64;
        let r = radius as i64;
        let mut x: i64 = r;
        let mut y: i64 = 0;
        let mut err: i64 = 0;
        let ghost mut pts: Seq<(int, int)> = Seq::empty();
        proof {
            lemma_drawn_none(old_px, w, fill(octant_shape(cx as int, cy as int, pts), color));
        }
        while x >= y
            invariant
                self.fb.wf(),
                self.fb.width == w,
                self.fb.height == h,
                old_px.len() == w * h,
                *final(self.fb) == *final(old(self).fb),
                cx == center.0,
                cy == center.1,
                r == radius,
                0 <= y,
                x <= r,
                r >= 0 ==> y - 2 <= x,
                y == pts.len(),
                y == 0 ==> err == 0 && x == r,
                r >= 0 ==> -2 * r - 2 <= err <= 2 * r + 4,
                pts + midpoint_scan(x as int, y as int, err as int) == midpoint_octant(r as int),
                pts.len() > 0 ==> x == pts.last().0 || x == pts.last().0 - 1,
                pts.len() > 0 ==> pts[0] == (r as int, 0int),
                forall|t: int| 0 <= t < pts.len() ==> (#[trigger] pts[t]).1 == t && t <= pts[t].0 <= r,
                forall|t: int|
                    0 <= t < pts.len() - 1 ==> (#[trigger] pts[t + 1]).0 == pts[t].0 || pts[t + 1].0 == pts[t].0
                        - 1,
                drawn(old_px, self.fb.pixels@, w, fill(octant_shape(cx as int, cy as int, pts), color)),
            decreases x - y + 2,
        {
            let ghost cur = self.fb.pixels@;
            self.plot_octants(cx, cy, x, y, color);
            proof {
                let p = (x as int, y as int);
                lemma_drawn_then(
                    old_px,
                    cur,
                    self.fb.pixels@,
                    w,
                    octant_shape(cx as int, cy as int, pts),
                    mirror_shape(cx as int, cy as int, x as int, y as int),
                    color,
                );
                lemma_octants_push(cx as int, cy as int, pts, p);
                lemma_drawn_same(
                    old_px,
                    self.fb.pixels@,
                    w,
                    fill(
                        union(
                            octant_shape(cx as int, cy as int, pts),
                            mirror_shape(cx as int, cy as int, x as int, y as int),
                        ),
                        color,
                    ),
                    fill(octant_shape(cx as int, cy as int, pts.push(p)), color),
                );
            }
            let ghost rest = midpoint_scan(x as int, y as int, err as int);
            y = y + 1;
            if err <= 0 {
                err = err + 2 * y + 1;
            } else {
                x = x - 1;
                err = err - (2 * x + 1);
            }
            proof {
                let p = rest[0];
                assert(rest == seq![p] + midpoint_scan(x as int, y as int, err as int));
                assert(pts + rest =~= pts.push(p) + midpoint_scan(x as int, y as int, err as int));
                pts = pts.push(p);
            }
        }
        proof {
            assert(pts + midpoint_scan(x as int, y as int, err as int) =~= pts);
            assert(is_circle_octant(pts, radius as int));
        }
    }

    /// Plots the eight mirror images of `(x, y)` about `(cx, cy)`.
    fn plot_octants(&mut self, cx: i64, cy: i64, x: i64, y: i64, color: u32)
        requires
            old(self).fb.wf(),
            i32::MIN <= cx <= i32::MAX,
            i32::MIN <= cy <= i32::MAX,
            -0x1_0000_0000 <= x <= 0x1_0000_0000,
            -0x1_0000_0000 <= y <= 0x1_0000_0000,
        ensures
            final(self).fb.wf(),
            final(self).fb.width == old(self).fb.width,
            final(self).fb.height == old(self).fb.height,
            drawn(
                old(self).fb.pixels@,
                final(self).fb.pixels@,
                old(self).fb.width as int,
                fill(mirror_shape(cx as int, cy as int, x as int, y as int), color),
            ),
            *final(final(self).fb) == *final(old(self).fb),
    {
        let ghost old_px = self.fb.pixels@;
        let ghost w = self.fb.width as int;
        let ghost h = self.fb.height as int;
        let ghost (a, b, ox, oy) = (x as int, y as int, cx as int, cy as int);
        let ghost mut before = old_px;
        proof {
            lemma_drawn_none(old_px, w, fill(mirrors_upto(ox, oy, a, b, 0), color));
        }
        proof {
            before = self.fb.pixels@;
        }
        self.fb.plot(cx + x, cy + y, color);
        proof {
            lemma_mirror_step(old_px, before, w, h, ox, oy, a, b, 0, color);
        }
        proof {
            before = self.fb.pixels@;
        }
        self.fb.plot(cx + y, cy + x, color);
        proof {
            lemma_mirror_step(old_px, before, w, h, ox, oy, a, b, 1, color);
        }
        proof {
            before = self.fb.pixels@;
        }
        self.fb.plot(cx - y, cy + x, color);
        proof {
            lemma_mirror_step(old_px, before, w, h, ox, oy, a, b, 2, color);
        }
        proof {
            before = self.fb.pixels@;
        }
        self.fb.plot(cx - x, cy + y, color);
        proof {
            lemma_mirror_step(old_px, before, w, h, ox, oy, a, b, 3, color);
        }
        proof {
            before = self.fb.pixels@;
        }
        self.fb.plot(cx - x, cy - y, color);
        proof {
            lemma_mirror_step(old_px, before, w, h, ox, oy, a, b, 4, color);
        }
        proof {
            before = self.fb.pixels@;
        }
        self.fb.plot(cx - y, cy - x, color);
        proof {
            lemma_mirror_step(old_px, before, w, h, ox, oy, a, b, 5, color);
        }
        proof {
            before = self.fb.pixels@;
        }
        self.fb.plot(cx + y, cy - x, color);
        proof {
            lemma_mirror_step(old_px, before, w, h, ox, oy, a, b, 6, color);
        }
        proof {
            before = self.fb.pixels@;
        }
        self.fb.plot(cx + x, cy - y, color);
        proof {
            lemma_mirror_step(old_px, before, w, h, ox, oy, a, b, 7, color);
        }
        proof {
            reveal_with_fuel(mirrors_upto, 9);
            lemma_drawn_same(
                old_px,
                self.fb.pixels@,
                w,
                fill(mirrors_upto(ox, oy, a, b, 8), color),
                fill(mirror_shape(ox, oy, a, b), color),
            );
        }
    }
}

/// A screen point as a pair of integers.
pub open spec fn pt(p: (i32, i32)) -> (int, int) {
    (p.0 as int, p.1 as int)
}

/// The absolute value of `a`.
pub open spec fn abs(a: int) -> int {
    if a < 0 {
        -a
    } else {
        a
    }
}

/// The set of points that a sequence visits, as a shape.
pub open spec fn points_of(pts: Seq<(int, int)>) -> spec_fn(int, int) -> bool {
    |x: int, y: int| pts.contains((x, y))
}

/// A move of at most one pixel along each axis that brings neither
/// coordinate further from `end`.
pub open spec fn line_step(p: (int, int), q: (int, int), end: (int, int)) -> bool {
    &&& abs(q.0 - p.0) <= 1
    &&& abs(q.1 - p.1) <= 1
    &&& abs(end.0 - q.0) <= abs(end.0 - p.0)
    &&& abs(end.1 - q.1) <= abs(end.1 - p.1)
}

/// `pts` starts at `start` and goes on by steps toward `end`.
pub open spec fn path_ok(pts: Seq<(int, int)>, start: (int, int), end: (int, int)) -> bool {
    &&& pts.len() >= 1
    &&& pts[0] == start
    &&& forall|t: int| 0 <= t < pts.len() - 1 ==> line_step(#[trigger] pts[t], pts[t + 1], end)
}

/// `pts` is a rasterized segment from `start` to `end`: one point per step
/// along the major axis, both endpoints included.
pub open spec fn is_line_path(pts: Seq<(int, int)>, start: (int, int), end: (int, int)) -> bool {
    &&& path_ok(pts, start, end)
    &&& pts.last() == end
    &&& pts.len() == if abs(end.0 - start.0) >= abs(end.1 - start.1) {
        abs(end.0 - start.0) + 1
    } else {
        abs(end.1 - start.1) + 1
    }
}

/// The points of Bresenham's walk from `(x, y)` to `(x1, y1)` with steps
/// `sx`, `sy`, spans `dx >= 0` and `dy <= 0`, and error term `err`: the
/// point is taken; unless it is the end, the walk steps along x when
/// `2 err >= dy` (adding `dy` to `err`) and along y when `2 err <= dx`
/// (adding `dx`), both tests on the error term before the step. `fuel`
/// bounds the number of points.
#[verifier::opaque]
pub open spec fn bresenham_from(
    x: int,
    y: int,
    x1: int,
    y1: int,
    dx: int,
    dy: int,
    sx: int,
    sy: int,
    err: int,
    fuel: nat,
) -> Seq<(int, int)>
    decreases fuel,
{
    if fuel == 0 {
        Seq::empty()
    } else if x == x1 && y == y1 {
        seq![(x, y)]
    } else {
        let e2 = 2 * err;
        let x2 = if e2 >= dy { x + sx } else { x };
        let err1 = if e2 >= dy { err + dy } else { err };
        let y2 = if e2 <= dx { y + sy } else { y };
        let err2 = if e2 <= dx { err1 + dx } else { err1 };
        seq![(x, y)] + bresenham_from(x2, y2, x1, y1, dx, dy, sx, sy, err2, (fuel - 1) as nat)
    }
}

/// The points of the three Bresenham segments `p0 -> p1`, `p1 -> p2` and
/// `p2 -> p0`.
pub open spec fn triangle_shape(p0: (int, int), p1: (int, int), p2: (int, int)) -> spec_fn(int, int) -> bool {
    union(union(points_of(bresenham(p0, p1)), points_of(bresenham(p1, p2))), points_of(bresenham(p2, p0)))
}

/// One step of `bresenham_from`.
proof fn lemma_bresenham_step(
    x: int,
    y: int,
    x1: int,
    y1: int,
    dx: int,
    dy: int,
    sx: int,
    sy: int,
    err: int,
    fuel: nat,
)
    requires
        fuel > 0,
    ensures
        x == x1 && y == y1 ==> bresenham_from(x, y, x1, y1, dx, dy, sx, sy, err, fuel) == seq![(x, y)],
        !(x == x1 && y == y1) ==> bresenham_from(x, y, x1, y1, dx, dy, sx, sy, err, fuel) == seq![(x, y)]
            + bresenham_from(
            if 2 * err >= dy { x + sx } else { x },
            if 2 * err <= dx { y + sy } else { y },
            x1,
            y1,
            dx,
            dy,
            sx,
            sy,
            (if 2 * err >= dy { err + dy } else { err }) + (if 2 * err <= dx { dx } else { 0 }),
            (fuel - 1) as nat,
        ),
{
    reveal(bresenham_from);
}

/// Moving the head of `rest` onto the end of `pts` keeps their
/// concatenation.
proof fn lemma_seq_shift(pts: Seq<(int, int)>, p: (int, int), rest: Seq<(int, int)>, tail: Seq<(int, int)>)
    requires
        rest == seq![p] + tail,
    ensures
        pts + rest == pts.push(p) + tail,
        tail.len() == 0 ==> pts + rest == pts.push(p),
{
    assert(pts + rest =~= pts.push(p) + tail);
    if tail.len() == 0 {
        assert(pts.push(p) + tail =~= pts.push(p));
    }
}

/// The points of the integer Bresenham segment from `p0` to `p1`, in order.
pub open spec fn bresenham(p0: (int, int), p1: (int, int)) -> Seq<(int, int)> {
    let dx = abs(p1.0 - p0.0);
    let dy = -abs(p1.1 - p0.1);
    let sx = if p0.0 < p1.0 { 1int } else { -1int };
    let sy = if p0.1 < p1.1 { 1int } else { -1int };
    bresenham_from(p0.0, p0.1, p1.0, p1.1, dx, dy, sx, sy, dx + dy, (dx - dy + 1) as nat)
}

/// One coordinate of a point: the first when `first` holds, else the second.
spec fn coord(p: (int, int), first: bool) -> int {
    if first {
        p.0
    } else {
        p.1
    }
}

proof fn lemma_axis_lower(pts: Seq<(int, int)>, start: (int, int), end: (int, int), first: bool, t: int)
    requires
        path_ok(pts, start, end),
        0 <= t < pts.len(),
    ensures
        abs(coord(end, first) - coord(pts[t], first)) >= abs(coord(end, first) - coord(start, first)) - t,
    decreases t,
{
    if t > 0 {
        lemma_axis_lower(pts, start, end, first, t - 1);
        assert(line_step(pts[t - 1], pts[t], end));
    }
}

proof fn lemma_axis_upper(pts: Seq<(int, int)>, start: (int, int), end: (int, int), first: bool, t: int)
    requires
        is_line_path(pts, start, end),
        0 <= t < pts.len(),
    ensures
        abs(coord(end, first) - coord(pts[t], first)) <= pts.len() - 1 - t,
    decreases pts.len() - t,
{
    if t < pts.len() - 1 {
        lemma_axis_upper(pts, start, end, first, t + 1);
        assert(line_step(pts[t], pts[t + 1], end));
    }
}

/// A rasterized segment visits each of its points once: along the major
/// axis, the distance to the end drops by exactly one per step.
pub proof fn lemma_line_path_distinct(pts: Seq<(int, int)>, start: (int, int), end: (int, int))
    requires
        is_line_path(pts, start, end),
    ensures
        forall|i: int, j: int| 0 <= i < j < pts.len() ==> pts[i] != pts[j],
{
    let first = abs(end.0 - start.0) >= abs(end.1 - start.1);
    assert forall|i: int, j: int| 0 <= i < j < pts.len() implies pts[i] != pts[j] by {
        lemma_axis_lower(pts, start, end, first, i);
        lemma_axis_upper(pts, start, end, first, i);
        lemma_axis_lower(pts, start, end, first, j);
        lemma_axis_upper(pts, start, end, first, j);
    }
}

proof fn lemma_push_points(pts: Seq<(int, int)>, p: (int, int))
    ensures
        points_of(pts.push(p))(p.0, p.1),
        forall|a: int, b: int|
            (a != p.0 || b != p.1) ==> #[trigger] points_of(pts.push(p))(a, b) == points_of(pts)(a, b),
{
    assert(pts.push(p)[pts.len() as int] == p);
    assert forall|a: int, b: int| (a != p.0 || b != p.1) implies #[trigger] points_of(pts.push(p))(a, b)
        == points_of(pts)(a, b) by {
        if pts.contains((a, b)) {
            let t = choose|t: int| 0 <= t < pts.len() && pts[t] == (a, b);
            assert(pts.push(p)[t] == (a, b));
        }
        if pts.push(p).contains((a, b)) {
            let t = choose|t: int| 0 <= t < pts.push(p).len() && pts.push(p)[t] == (a, b);
            assert(t < pts.len());
            assert(pts[t] == (a, b));
        }
    }
}

proof fn lemma_path_extend(pts: Seq<(int, int)>, q: (int, int), start: (int, int), end: (int, int))
    requires
        path_ok(pts, start, end),
        line_step(pts.last(), q, end),
    ensures
        path_ok(pts.push(q), start, end),
{
    let n = pts.push(q);
    assert forall|t: int| 0 <= t < n.len() - 1 implies line_step(#[trigger] n[t], n[t + 1], end) by {
        if t < pts.len() - 1 {
            assert(n[t] == pts[t] && n[t + 1] == pts[t + 1]);
        } else {
            assert(n[t] == pts.last() && n[t + 1] == q);
        }
    }
}

/// Bresenham's error term never asks for a move past the end of an axis.
proof fn lemma_bresenham_moves(big_x: int, big_y: int, i: int, j: int, err: int)
    requires
        0 <= i <= big_x,
        0 <= j <= big_y,
        i < big_x || j < big_y,
        err == big_x * (1 + j) - big_y * (1 + i),
    ensures
        i == big_x ==> 2 * err < -big_y,
        j == big_y ==> 2 * err > big_x,
        big_x * (1 + j) - big_y * (1 + (i + 1)) == err - big_y,
        big_x * (1 + (j + 1)) - big_y * (1 + i) == err + big_x,
        big_x * (1 + (j + 1)) - big_y * (1 + (i + 1)) == err + big_x - big_y,
{
    if i == big_x {
        assert(big_x * (1 + j) <= big_x * big_y) by (nonlinear_arith)
            requires
                0 <= big_x,
                0 <= j < big_y,
        ;
        assert(big_y * (1 + i) == big_y + big_y * big_x) by (nonlinear_arith)
            requires
                i == big_x,
        ;
        assert(big_x * big_y == big_y * big_x) by (nonlinear_arith);
    }
    if j == big_y {
        assert(big_y * (1 + i) <= big_y * big_x) by (nonlinear_arith)
            requires
                0 <= big_y,
                0 <= i < big_x,
        ;
        assert(big_x * (1 + j) == big_x + big_x * big_y) by (nonlinear_arith)
            requires
                j == big_y,
        ;
        assert(big_x * big_y == big_y * big_x) by (nonlinear_arith);
    }
    assert(big_x * (1 + j) - big_y * (1 + (i + 1)) == err - big_y) by (nonlinear_arith)
        requires
            err == big_x * (1 + j) - big_y * (1 + i),
    ;
    assert(big_x * (1 + (j + 1)) - big_y * (1 + i) == err + big_x) by (nonlinear_arith)
        requires
            err == big_x * (1 + j) - big_y * (1 + i),
    ;
    assert(big_x * (1 + (j + 1)) - big_y * (1 + (i + 1)) == err + big_x - big_y) by (nonlinear_arith)
        requires
            err == big_x * (1 + j) - big_y * (1 + i),
    ;
}

/// The `m`-th of the eight mirror images of `(a, b)`, in the order in
/// which the circle scan plots them.
pub open spec fn mirror(a: int, b: int, m: int) -> (int, int) {
    if m == 0 {
        (a, b)
    } else if m == 1 {
        (b, a)
    } else if m == 2 {
        (-b, a)
    } else if m == 3 {
        (-a, b)
    } else if m == 4 {
        (-a, -b)
    } else if m == 5 {
        (-b, -a)
    } else if m == 6 {
        (b, -a)
    } else {
        (a, -b)
    }
}

/// The eight mirror images of `(a, b)` about the axes and diagonals through
/// `(cx, cy)`.
pub open spec fn mirror_shape(cx: int, cy: int, a: int, b: int) -> spec_fn(int, int) -> bool {
    |x: int, y: int|
        {
            let d = (x - cx, y - cy);
            d == mirror(a, b, 0) || d == mirror(a, b, 1) || d == mirror(a, b, 2) || d == mirror(a, b, 3)
                || d == mirror(a, b, 4) || d == mirror(a, b, 5) || d == mirror(a, b, 6) || d == mirror(
                a,
                b,
                7,
            )
        }
}

/// The first `k` mirror images of `(a, b)` about `(cx, cy)`.
pub open spec fn mirrors_upto(cx: int, cy: int, a: int, b: int, k: int) -> spec_fn(int, int) -> bool
    decreases k,
{
    if k <= 0 {
        |x: int, y: int| false
    } else {
        let prev = mirrors_upto(cx, cy, a, b, k - 1);
        |x: int, y: int| prev(x, y) || (x - cx, y - cy) == mirror(a, b, k - 1)
    }
}

/// The mirror images of every point of `pts` about `(cx, cy)`.
pub open spec fn octant_shape(cx: int, cy: int, pts: Seq<(int, int)>) -> spec_fn(int, int) -> bool {
    |x: int, y: int| exists|t: int| 0 <= t < pts.len() && #[trigger] mirror_shape(cx, cy, pts[t].0, pts[t].1)(x, y)
}

/// The first-octant points of the midpoint scan from `(x, y)` with error
/// term `err`: while `y <= x`, the point is taken, `y` steps up, and then
/// either `err` grows by `2y + 1` (when it was not positive) or `x` steps
/// down and `err` shrinks by `2x + 1`.
pub open spec fn midpoint_scan(x: int, y: int, err: int) -> Seq<(int, int)>
    decreases x - y + 2,
{
    if x >= y {
        let y2 = y + 1;
        if err <= 0 {
            seq![(x, y)] + midpoint_scan(x, y2, err + 2 * y2 + 1)
        } else {
            seq![(x, y)] + midpoint_scan(x - 1, y2, err - (2 * (x - 1) + 1))
        }
    } else {
        Seq::empty()
    }
}

/// `pts` is a first-octant scan of a circle of radius `r`: row `t` holds
/// `(x, t)` with `t <= x <= r`, it starts at `(r, 0)`, and `x` drops by at
/// most one per row. It is empty exactly when `r` is negative.
pub open spec fn is_circle_octant(pts: Seq<(int, int)>, r: int) -> bool {
    &&& (pts.len() > 0) == (r >= 0)
    &&& pts.len() > 0 ==> pts[0] == (r, 0int)
    &&& forall|t: int| 0 <= t < pts.len() ==> (#[trigger] pts[t]).1 == t && t <= pts[t].0 <= r
    &&& forall|t: int|
        0 <= t < pts.len() - 1 ==> (#[trigger] pts[t + 1]).0 == pts[t].0 || pts[t + 1].0 == pts[t].0 - 1
}

/// The first-octant points of the midpoint circle of radius `r`: the scan
/// from `(r, 0)` with error term zero.
pub open spec fn midpoint_octant(r: int) -> Seq<(int, int)> {
    midpoint_scan(r, 0, 0)
}

proof fn lemma_mirror_step(
    old: Seq<u32>,
    cur: Seq<u32>,
    w: int,
    h: int,
    cx: int,
    cy: int,
    a: int,
    b: int,
    k: int,
    c: u32,
)
    requires
        0 <= w,
        0 <= k < 8,
        old.len() == w * h,
        drawn(old, cur, w, fill(mirrors_upto(cx, cy, a, b, k), c)),
    ensures
        drawn(
            old,
            plot(cur, w, h, cx + mirror(a, b, k).0, cy + mirror(a, b, k).1, c),
            w,
            fill(mirrors_upto(cx, cy, a, b, k + 1), c),
        ),
{
    lemma_drawn_plot(
        old,
        cur,
        w,
        h,
        fill(mirrors_upto(cx, cy, a, b, k), c),
        fill(mirrors_upto(cx, cy, a, b, k + 1), c),
        cx + mirror(a, b, k).0,
        cy + mirror(a, b, k).1,
        c,
    );
}

proof fn lemma_octants_push(cx: int, cy: int, pts: Seq<(int, int)>, p: (int, int))
    ensures
        forall|x: int, y: int|
            #[trigger] octant_shape(cx, cy, pts.push(p))(x, y) == union(
                octant_shape(cx, cy, pts),
                mirror_shape(cx, cy, p.0, p.1),
            )(x, y),
{
    let n = pts.push(p);
    assert forall|x: int, y: int|
        #[trigger] octant_shape(cx, cy, n)(x, y) == union(
            octant_shape(cx, cy, pts),
            mirror_shape(cx, cy, p.0, p.1),
        )(x, y) by {
        if octant_shape(cx, cy, n)(x, y) {
            let t = choose|t: int| 0 <= t < n.len() && #[trigger] mirror_shape(cx, cy, n[t].0, n[t].1)(x, y);
            if t < pts.len() {
                assert(n[t] == pts[t]);
            } else {
                assert(n[t] == p);
            }
        }
        if octant_shape(cx, cy, pts)(x, y) {
            let t = choose|t: int| 0 <= t < pts.len() && #[trigger] mirror_shape(cx, cy, pts[t].0, pts[t].1)(x, y);
            assert(n[t] == pts[t]);
        }
        if mirror_shape(cx, cy, p.0, p.1)(x, y) {
            assert(n[pts.len() as int] == p);
        }
    }
}

/// The offset `(dx, dy)` lies in the closed disk of radius `r`.
pub open spec fn in_disk(dx: int, dy: int, r: int) -> bool {
    -r <= dx <= r && -r <= dy <= r && dx * dx + dy * dy <= r * r
}

/// The points of the closed disk of radius `r` about `(cx, cy)`.
pub open spec fn disk_shape(cx: int, cy: int, r: int) -> spec_fn(int, int) -> bool {
    |x: int, y: int| in_disk(x - cx, y - cy, r)
}

/// The points of the disk that a row-by-row scan reaches before offset
/// `(col, row)`.
pub open spec fn disk_upto(cx: int, cy: int, r: int, row: int, col: int) -> spec_fn(int, int) -> bool {
    |x: int, y: int| in_disk(x - cx, y - cy, r) && (y - cy < row || (y - cy == row && x - cx < col))
}

proof fn lemma_square_fits(d: int)
    requires
        -0x8000_0000 <= d <= 0x7fff_ffff,
    ensures
        0 <= d * d <= 0x4000_0000_0000_0000,
        0 <= d ==> d * d <= 0x3fff_ffff_0000_0001,
{
    assert(0 <= d * d <= 0x4000_0000_0000_0000) by (nonlinear_arith)
        requires
            -0x8000_0000 <= d <= 0x7fff_ffff,
    ;
    assert(0 <= d ==> d * d <= 0x3fff_ffff_0000_0001) by (nonlinear_arith)
        requires
            -0x8000_0000 <= d <= 0x7fff_ffff,
    ;
}

proof fn lemma_square_le(d: int, r: int)
    requires
        -r <= d <= r,
    ensures
        0 <= d * d <= r * r,
{
    assert(0 <= d * d <= r * r) by (nonlinear_arith)
        requires
            -r <= d <= r,
    ;
}

} // verus!
