//! Fixed-point plane geometry.
//!
//! Every coordinate is an integer count of micro-units: one drawing unit is
//! `UNIT` = 1_000_000 of them, so the tolerances of the pipeline are exact
//! integer comparisons.
use vstd::prelude::*;

verus! {

/// Micro-units in one drawing unit.
pub const UNIT: i64 = 1_000_000;

/// Largest magnitude of an input coordinate (one million drawing units).
pub const COORD_LIMIT: i64 = 1_000_000_000_000;

/// A point or a vector in the plane, in micro-units.
#[derive(Clone, Copy, Debug, PartialEq, Eq, Structural)]
pub struct Vec2 {
    pub x: i64,
    pub y: i64,
}

impl Vec2 {
    pub fn new(x: i64, y: i64) -> (r: Vec2)
        ensures
            r.x == x,
            r.y == y,
    {
        Vec2 { x, y }
    }

    /// Both coordinates lie within `COORD_LIMIT`.
    pub open spec fn in_range(self) -> bool {
        -COORD_LIMIT <= self.x <= COORD_LIMIT && -COORD_LIMIT <= self.y <= COORD_LIMIT
    }
}

/// Squared euclidean distance of two points.
pub open spec fn dist_sq(a: Vec2, b: Vec2) -> int {
    (a.x - b.x) * (a.x - b.x) + (a.y - b.y) * (a.y - b.y)
}

pub proof fn lemma_dist_sym(a: Vec2, b: Vec2)
    ensures
        dist_sq(a, b) == dist_sq(b, a),
        dist_sq(a, a) == 0,
        dist_sq(a, b) >= 0,
{
    assert((a.x - b.x) * (a.x - b.x) == (b.x - a.x) * (b.x - a.x)) by (nonlinear_arith);
    assert((a.y - b.y) * (a.y - b.y) == (b.y - a.y) * (b.y - a.y)) by (nonlinear_arith);
    assert((a.x - b.x) * (a.x - b.x) >= 0) by (nonlinear_arith);
    assert((a.y - b.y) * (a.y - b.y) >= 0) by (nonlinear_arith);
}

/// The 2D cross product (`perp`) of two vectors given by their components.
pub open spec fn perp(ax: int, ay: int, bx: int, by: int) -> int {
    ax * by - ay * bx
}

pub fn dist_sq_exec(a: Vec2, b: Vec2) -> (r: i128)
    requires
        a.x - b.x <= 16 * COORD_LIMIT && b.x - a.x <= 16 * COORD_LIMIT,
        a.y - b.y <= 16 * COORD_LIMIT && b.y - a.y <= 16 * COORD_LIMIT,
    ensures
        r == dist_sq(a, b),
{
    let dx: i128 = a.x as i128 - b.x as i128;
    let dy: i128 = a.y as i128 - b.y as i128;
    assert(dx * dx <= 256 * COORD_LIMIT * COORD_LIMIT) by (nonlinear_arith)
        requires -16 * COORD_LIMIT <= dx <= 16 * COORD_LIMIT;
    assert(dy * dy <= 256 * COORD_LIMIT * COORD_LIMIT) by (nonlinear_arith)
        requires -16 * COORD_LIMIT <= dy <= 16 * COORD_LIMIT;
    assert(0 <= dx * dx) by (nonlinear_arith);
    assert(0 <= dy * dy) by (nonlinear_arith);
    dx * dx + dy * dy
}


/// An axis-aligned box; it is empty when `min` exceeds `max` on an axis.
#[derive(Clone, Copy, Debug, PartialEq, Eq, Structural)]
pub struct BBox2 {
    pub min: Vec2,
    pub max: Vec2,
}

pub open spec fn min_i(a: int, b: int) -> int {
    if a <= b { a } else { b }
}

pub open spec fn max_i(a: int, b: int) -> int {
    if a >= b { a } else { b }
}

impl BBox2 {
    pub open spec fn spec_is_empty(self) -> bool {
        self.min.x > self.max.x || self.min.y > self.max.y
    }

    /// The box grown to hold `p`.
    pub open spec fn spec_include(self, p: Vec2) -> BBox2 {
        if self.spec_is_empty() {
            BBox2 { min: p, max: p }
        } else {
            BBox2 {
                min: Vec2 { x: min_i(self.min.x as int, p.x as int) as i64, y: min_i(self.min.y as int, p.y as int) as i64 },
                max: Vec2 { x: max_i(self.max.x as int, p.x as int) as i64, y: max_i(self.max.y as int, p.y as int) as i64 },
            }
        }
    }

    /// The smallest box holding both boxes.
    pub open spec fn spec_union(self, o: BBox2) -> BBox2 {
        if self.spec_is_empty() {
            o
        } else if o.spec_is_empty() {
            self
        } else {
            BBox2 {
                min: Vec2 { x: min_i(self.min.x as int, o.min.x as int) as i64, y: min_i(self.min.y as int, o.min.y as int) as i64 },
                max: Vec2 { x: max_i(self.max.x as int, o.max.x as int) as i64, y: max_i(self.max.y as int, o.max.y as int) as i64 },
            }
        }
    }

    /// Squared distance between two boxes (zero where they overlap on both axes).
    pub open spec fn spec_gap_sq(self, o: BBox2) -> int {
        let dx = if self.max.x < o.min.x {
            o.min.x - self.max.x
        } else if o.max.x < self.min.x {
            self.min.x - o.max.x
        } else {
            0
        };
        let dy = if self.max.y < o.min.y {
            o.min.y - self.max.y
        } else if o.max.y < self.min.y {
            self.min.y - o.max.y
        } else {
            0
        };
        dx * dx + dy * dy
    }

    /// Every corner lies within `limit` of the origin on both axes.
    pub open spec fn bounded_by(self, limit: int) -> bool {
        -limit <= self.min.x <= limit && -limit <= self.min.y <= limit && -limit <= self.max.x
            <= limit && -limit <= self.max.y <= limit
    }

    pub fn new(min: Vec2, max: Vec2) -> (r: BBox2)
        ensures
            r.min == min,
            r.max == max,
    {
        BBox2 { min, max }
    }

    pub fn empty() -> (r: BBox2)
        ensures
            r.min == (Vec2 { x: 1, y: 1 }),
            r.max == (Vec2 { x: 0, y: 0 }),
    {
        BBox2 { min: Vec2 { x: 1, y: 1 }, max: Vec2 { x: 0, y: 0 } }
    }

    pub fn is_empty(&self) -> (r: bool)
        ensures
            r == self.spec_is_empty(),
    {
        self.min.x > self.max.x || self.min.y > self.max.y
    }

    pub fn include_point(&mut self, p: Vec2)
        ensures
            *final(self) == old(self).spec_include(p),
    {
        if self.is_empty() {
            self.min = p;
            self.max = p;
        } else {
            if p.x < self.min.x {
                self.min.x = p.x;
            }
            if p.y < self.min.y {
                self.min.y = p.y;
            }
            if p.x > self.max.x {
                self.max.x = p.x;
            }
            if p.y > self.max.y {
                self.max.y = p.y;
            }
        }
    }

    pub fn union(&self, o: &BBox2) -> (r: BBox2)
        ensures
            r == self.spec_union(*o),
            forall|l: int| self.bounded_by(l) && o.bounded_by(l) ==> r.bounded_by(l),
    {
        if self.is_empty() {
            return *o;
        }
        if o.is_empty() {
            return *self;
        }
        BBox2 {
            min: Vec2 {
                x: if self.min.x <= o.min.x { self.min.x } else { o.min.x },
                y: if self.min.y <= o.min.y { self.min.y } else { o.min.y },
            },
            max: Vec2 {
                x: if self.max.x >= o.max.x { self.max.x } else { o.max.x },
                y: if self.max.y >= o.max.y { self.max.y } else { o.max.y },
            },
        }
    }

    /// The centre, rounded toward negative infinity.
    pub open spec fn spec_center(self) -> Vec2 {
        Vec2 { x: ((self.min.x + self.max.x) / 2) as i64, y: ((self.min.y + self.max.y) / 2) as i64 }
    }

    /// The centre, rounded toward negative infinity.
    pub fn center(&self) -> (r: Vec2)
        ensures
            r.x == (self.min.x + self.max.x) / 2,
            r.y == (self.min.y + self.max.y) / 2,
            r == self.spec_center(),
    {
        let sx: i128 = self.min.x as i128 + self.max.x as i128;
        let sy: i128 = self.min.y as i128 + self.max.y as i128;
        Vec2 { x: floor_half(sx), y: floor_half(sy) }
    }

    pub fn width(&self) -> (r: i64)
        requires
            self.bounded_by(4 * COORD_LIMIT),
        ensures
            r == max_i(self.max.x - self.min.x, 0),
    {
        if self.max.x > self.min.x { self.max.x - self.min.x } else { 0 }
    }

    pub fn height(&self) -> (r: i64)
        requires
            self.bounded_by(4 * COORD_LIMIT),
        ensures
            r == max_i(self.max.y - self.min.y, 0),
    {
        if self.max.y > self.min.y { self.max.y - self.min.y } else { 0 }
    }

    /// The box grown by `delta` on every side.
    pub fn expand(&self, delta: i64) -> (r: BBox2)
        requires
            self.bounded_by(4 * COORD_LIMIT),
            0 <= delta <= COORD_LIMIT,
        ensures
            r.min.x == self.min.x - delta,
            r.min.y == self.min.y - delta,
            r.max.x == self.max.x + delta,
            r.max.y == self.max.y + delta,
    {
        BBox2 {
            min: Vec2 { x: self.min.x - delta, y: self.min.y - delta },
            max: Vec2 { x: self.max.x + delta, y: self.max.y + delta },
        }
    }

    /// The length of the diagonal, rounded down.
    pub fn diag(&self) -> (r: u64)
        requires
            self.bounded_by(4 * COORD_LIMIT),
        ensures
            r * r <= max_i(self.max.x - self.min.x, 0) * max_i(self.max.x - self.min.x, 0) + max_i(
                self.max.y - self.min.y,
                0,
            ) * max_i(self.max.y - self.min.y, 0) < (r + 1) * (r + 1),
            r <= 0x10_0000_0000_0000,
    {
        let w = self.width() as i128;
        let h = self.height() as i128;
        assert(0 <= w * w <= 64 * COORD_LIMIT * COORD_LIMIT) by (nonlinear_arith)
            requires 0 <= w <= 8 * COORD_LIMIT;
        assert(0 <= h * h <= 64 * COORD_LIMIT * COORD_LIMIT) by (nonlinear_arith)
            requires 0 <= h <= 8 * COORD_LIMIT;
        let r = isqrt((w * w + h * h) as u128);
        assert(r <= 0x10_0000_0000_0000) by (nonlinear_arith)
            requires r * r <= w * w + h * h, w * w + h * h <= 128 * COORD_LIMIT * COORD_LIMIT, r >= 0;
        r
    }

    /// The distance to another box, rounded down.
    pub fn distance_to(&self, o: &BBox2) -> (r: u64)
        requires
            self.bounded_by(8 * COORD_LIMIT),
            o.bounded_by(8 * COORD_LIMIT),
        ensures
            r * r <= self.spec_gap_sq(*o) < (r + 1) * (r + 1),
    {
        let d = self.distance_sq_to(o);
        assert(0 <= d <= 512 * COORD_LIMIT * COORD_LIMIT) by {
            let dx = if self.max.x < o.min.x {
                o.min.x - self.max.x
            } else if o.max.x < self.min.x {
                self.min.x - o.max.x
            } else {
                0
            };
            let dy = if self.max.y < o.min.y {
                o.min.y - self.max.y
            } else if o.max.y < self.min.y {
                self.min.y - o.max.y
            } else {
                0
            };
            assert(0 <= dx * dx <= 256 * COORD_LIMIT * COORD_LIMIT) by (nonlinear_arith)
                requires 0 <= dx <= 16 * COORD_LIMIT;
            assert(0 <= dy * dy <= 256 * COORD_LIMIT * COORD_LIMIT) by (nonlinear_arith)
                requires 0 <= dy <= 16 * COORD_LIMIT;
        }
        isqrt(d as u128)
    }

    /// Squared distance to another box.
    pub fn distance_sq_to(&self, o: &BBox2) -> (r: i128)
        requires
            self.bounded_by(8 * COORD_LIMIT),
            o.bounded_by(8 * COORD_LIMIT),
        ensures
            r == self.spec_gap_sq(*o),
    {
        let dx: i128 = if self.max.x < o.min.x {
            o.min.x as i128 - self.max.x as i128
        } else if o.max.x < self.min.x {
            self.min.x as i128 - o.max.x as i128
        } else {
            0
        };
        let dy: i128 = if self.max.y < o.min.y {
            o.min.y as i128 - self.max.y as i128
        } else if o.max.y < self.min.y {
            self.min.y as i128 - o.max.y as i128
        } else {
            0
        };
        assert(0 <= dx * dx <= 256 * COORD_LIMIT * COORD_LIMIT) by (nonlinear_arith)
            requires 0 <= dx <= 16 * COORD_LIMIT;
        assert(0 <= dy * dy <= 256 * COORD_LIMIT * COORD_LIMIT) by (nonlinear_arith)
            requires 0 <= dy <= 16 * COORD_LIMIT;
        dx * dx + dy * dy
    }
}

/// `v / 2` rounded toward negative infinity.
pub fn floor_half(v: i128) -> (r: i64)
    requires
        -0x1_0000_0000_0000_0000 <= v <= 0xffff_ffff_ffff_fffe,
    ensures
        r == v / 2,
{
    if v >= 0 {
        (v / 2) as i64
    } else {
        let m: i128 = (-v + 1) / 2;
        assert(-m == v / 2);
        (-m) as i64
    }
}


/// The integer square root: the largest `r` with `r * r <= n`.
pub fn isqrt(n: u128) -> (r: u64)
    requires
        n < 0x1_0000_0000_0000_0000_0000_0000,
    ensures
        r * r <= n < (r + 1) * (r + 1),
{
    let mut lo: u128 = 0;
    let mut hi: u128 = 0x4_0000_0000_0000;
    assert(hi * hi > n) by (nonlinear_arith)
        requires hi == 0x4_0000_0000_0000, n < 0x1_0000_0000_0000_0000_0000_0000;
    while lo + 1 < hi
        invariant
            lo < hi <= 0x4_0000_0000_0000,
            lo * lo <= n,
            n < hi * hi,
        decreases hi - lo,
    {
        let mid: u128 = lo + (hi - lo) / 2;
        assert(mid * mid <= 0x10_0000_0000_0000_0000_0000_0000) by (nonlinear_arith)
            requires mid <= 0x4_0000_0000_0000;
        if mid * mid <= n {
            lo = mid;
        } else {
            hi = mid;
        }
    }
    assert(hi == lo + 1);
    lo as u64
}

} // verus!
