use vstd::prelude::*;
use vstd::arithmetic::div_mod::{lemma_fundamental_div_mod_converse, lemma_div_pos_is_pos, lemma_mod_bound};
use vstd::arithmetic::mul::lemma_mul_is_commutative;

verus! {

/// The pixel index of screen point `(x, y)` in a row-major buffer `w` wide.
pub open spec fn index_of(w: int, x: int, y: int) -> int {
    y * w + x
}

/// What a single write of `c` at `(x, y)` makes of `pixels`: the write is
/// dropped when the point lies outside `[0, w) x [0, h)`.
pub open spec fn plot(pixels: Seq<u32>, w: int, h: int, x: int, y: int, c: u32) -> Seq<u32> {
    if 0 <= x < w && 0 <= y < h {
        pixels.update(index_of(w, x, y), c)
    } else {
        pixels
    }
}

/// `new` is `old` with every pixel `(x, y)` for which `f` gives a color
/// replaced by that color; all other pixels are kept.
pub open spec fn drawn(old: Seq<u32>, new: Seq<u32>, w: int, f: spec_fn(int, int) -> Option<u32>) -> bool {
    &&& new.len() == old.len()
    &&& forall|k: int|
        0 <= k < old.len() ==> #[trigger] new[k] == match f(k % w, k / w) {
            Some(c) => c,
            None => old[k],
        }
}

/// A shape filled with one color: `Some(c)` on the points where `s` holds.
pub open spec fn fill(s: spec_fn(int, int) -> bool, c: u32) -> spec_fn(int, int) -> Option<u32> {
    |x: int, y: int|
        if s(x, y) {
            Some(c)
        } else {
            None
        }
}

/// The points of either shape.
pub open spec fn union(s1: spec_fn(int, int) -> bool, s2: spec_fn(int, int) -> bool) -> spec_fn(int, int) -> bool {
    |x: int, y: int| s1(x, y) || s2(x, y)
}

/// A row-major buffer of packed 32-bit pixels.
pub struct FrameBuffer {
    pub width: usize,
    pub height: usize,
    pub pixels: Vec<u32>,
}

impl FrameBuffer {
    /// One pixel per screen point.
    pub open spec fn wf(&self) -> bool {
        self.pixels@.len() == self.width * self.height
    }

    /// A `width` x `height` buffer of black (zero) pixels.
    pub fn new(width: usize, height: usize) -> (r: Self)
        requires
            width * height <= usize::MAX,
        ensures
            r.wf(),
            r.width == width,
            r.height == height,
            r.pixels@ == Seq::new((width * height) as nat, |k: int| 0u32),
    {
        let n = width * height;
        let pixels = vec![0u32; n];
        FrameBuffer { width, height, pixels }
    }

    /// Sets every pixel to `color`.
    pub fn clear(&mut self, color: u32)
        ensures
            final(self).width == old(self).width,
            final(self).height == old(self).height,
            final(self).pixels@ == Seq::new(old(self).pixels@.len(), |k: int| color),
    {
        let n = self.pixels.len();
        let mut i: usize = 0;
        while i < n
            invariant
                self.width == old(self).width,
                self.height == old(self).height,
                n == self.pixels@.len(),
                n == old(self).pixels@.len(),
                i <= n,
                forall|k: int| 0 <= k < i ==> self.pixels@[k] == color,
            decreases n - i,
        {
            self.pixels.set(i, color);
            i = i + 1;
        }
        assert(self.pixels@ =~= Seq::new(old(self).pixels@.len(), |k: int| color));
    }

    /// Writes `color` at `(x, y)`; a point outside the buffer is silently
    /// dropped.
    pub fn put_pixel(&mut self, x: i32, y: i32, color: u32)
        requires
            old(self).wf(),
        ensures
            final(self).wf(),
            final(self).width == old(self).width,
            final(self).height == old(self).height,
            !(0 <= x < old(self).width && 0 <= y < old(self).height) ==> final(self).pixels@
                == old(self).pixels@,
            final(self).pixels@ == plot(
                old(self).pixels@,
                old(self).width as int,
                old(self).height as int,
                x as int,
                y as int,
                color,
            ),
    {
        self.plot(x as i64, y as i64, color);
    }

    /// `put_pixel` on wide coordinates, so that callers can offset points
    /// without overflow.
    pub fn plot(&mut self, x: i64, y: i64, color: u32)
        requires
            old(self).wf(),
        ensures
            final(self).wf(),
            final(self).width == old(self).width,
            final(self).height == old(self).height,
            final(self).pixels@ == plot(
                old(self).pixels@,
                old(self).width as int,
                old(self).height as int,
                x as int,
                y as int,
                color,
            ),
    {
        if x < 0 || y < 0 {
            return;
        }
        let xu = x as u64;
        let yu = y as u64;
        if xu >= self.width as u64 || yu >= self.height as u64 {
            return;
        }
        let xu = xu as usize;
        let yu = yu as usize;
        let n = self.pixels.len();
        proof {
            lemma_index_in_range(self.width as int, self.height as int, xu as int, yu as int);
            assert(self.pixels@.len() == self.width * self.height);
            assert(yu * self.width + xu < self.pixels@.len());
        }
        let idx = yu * self.width + xu;
        self.pixels.set(idx, color);
    }
}

/// A point inside `[0, w) x [0, h)` has its index inside the buffer.
pub proof fn lemma_index_in_range(w: int, h: int, x: int, y: int)
    requires
        0 <= x < w,
        0 <= y < h,
    ensures
        0 <= index_of(w, x, y) < w * h,
{
    assert(0 <= y * w) by (nonlinear_arith)
        requires
            0 <= y,
            0 < w,
    ;
    assert(y * w + x < w * h) by (nonlinear_arith)
        requires
            0 <= x < w,
            0 <= y < h,
    ;
}

/// The column and row of index `k` of a buffer `w` wide.
pub proof fn lemma_coords_of_index(w: int, h: int, k: int)
    requires
        0 < w,
        0 <= k < w * h,
    ensures
        0 <= k % w < w,
        0 <= k / w < h,
        index_of(w, k % w, k / w) == k,
{
    lemma_mod_bound(k, w);
    lemma_div_pos_is_pos(k, w);
    vstd::arithmetic::div_mod::lemma_fundamental_div_mod(k, w);
    lemma_mul_is_commutative(w, k / w);
    if k / w >= h {
        assert(w * (k / w) >= w * h) by (nonlinear_arith)
            requires
                k / w >= h,
                0 < w,
        ;
    }
}

/// A point inside the buffer is the one that its index names.
pub proof fn lemma_index_coords(w: int, x: int, y: int)
    requires
        0 <= x < w,
    ensures
        index_of(w, x, y) % w == x,
        index_of(w, x, y) / w == y,
{
    lemma_mul_is_commutative(y, w);
    lemma_fundamental_div_mod_converse(index_of(w, x, y), w, y, x);
}

/// One write at `(x, y)` extends a drawing by that point, given the color.
pub proof fn lemma_drawn_plot(
    old: Seq<u32>,
    cur: Seq<u32>,
    w: int,
    h: int,
    f: spec_fn(int, int) -> Option<u32>,
    g: spec_fn(int, int) -> Option<u32>,
    x: int,
    y: int,
    c: u32,
)
    requires
        0 <= w,
        old.len() == w * h,
        drawn(old, cur, w, f),
        g(x, y) == Some(c),
        forall|a: int, b: int| (a != x || b != y) ==> #[trigger] g(a, b) == f(a, b),
    ensures
        drawn(old, plot(cur, w, h, x, y, c), w, g),
{
    let next = plot(cur, w, h, x, y, c);
    if w == 0 {
        assert(old.len() == 0);
        return;
    }
    if 0 <= x < w && 0 <= y < h {
        lemma_index_in_range(w, h, x, y);
    }
    assert forall|k: int| 0 <= k < old.len() implies #[trigger] next[k] == match g(k % w, k / w) {
        Some(v) => v,
        None => old[k],
    } by {
        lemma_coords_of_index(w, h, k);
        assert(cur[k] == match f(k % w, k / w) {
            Some(v) => v,
            None => old[k],
        });
        if 0 <= x < w && 0 <= y < h {
            lemma_index_coords(w, x, y);
            lemma_index_in_range(w, h, x, y);
            if k == index_of(w, x, y) {
                assert(next[k] == c);
            } else {
                assert(next[k] == cur[k]);
                assert(k % w != x || k / w != y);
                assert(g(k % w, k / w) == f(k % w, k / w));
            }
        } else {
            assert(k % w != x || k / w != y);
            assert(g(k % w, k / w) == f(k % w, k / w));
        }
    }
}

/// A drawing stays the same drawing under a function that agrees with it
/// everywhere.
pub proof fn lemma_drawn_same(
    old: Seq<u32>,
    cur: Seq<u32>,
    w: int,
    f: spec_fn(int, int) -> Option<u32>,
    g: spec_fn(int, int) -> Option<u32>,
)
    requires
        drawn(old, cur, w, f),
        forall|a: int, b: int| #[trigger] g(a, b) == f(a, b),
    ensures
        drawn(old, cur, w, g),
{
}

/// Two drawings in one color, one after the other, draw the union of their
/// shapes.
pub proof fn lemma_drawn_then(
    a: Seq<u32>,
    b: Seq<u32>,
    d: Seq<u32>,
    w: int,
    s1: spec_fn(int, int) -> bool,
    s2: spec_fn(int, int) -> bool,
    c: u32,
)
    requires
        drawn(a, b, w, fill(s1, c)),
        drawn(b, d, w, fill(s2, c)),
    ensures
        drawn(a, d, w, fill(union(s1, s2), c)),
{
    assert forall|k: int| 0 <= k < a.len() implies #[trigger] d[k] == match fill(union(s1, s2), c)(k % w, k / w) {
        Some(v) => v,
        None => a[k],
    } by {
        assert(b[k] == match fill(s1, c)(k % w, k / w) {
            Some(v) => v,
            None => a[k],
        });
        assert(d[k] == match fill(s2, c)(k % w, k / w) {
            Some(v) => v,
            None => b[k],
        });
    }
}

/// Nothing is drawn yet.
pub proof fn lemma_drawn_none(old: Seq<u32>, w: int, f: spec_fn(int, int) -> Option<u32>)
    requires
        forall|a: int, b: int| #[trigger] f(a, b) == None::<u32>,
    ensures
        drawn(old, old, w, f),
{
}

} // verus!
