//! Grid coordinates and the distances between them.
use vstd::prelude::*;

verus! {

/// A cell of the grid, addressed by its column `x` and its row `y`.
#[derive(Copy, Clone, PartialEq, Eq, Structural, Debug, PartialOrd, Default)]
pub struct Coordinate2D {
    pub x: i16,
    pub y: i16,
}

/// The absolute value of `a - b`.
pub open spec fn gap(a: int, b: int) -> int {
    if a >= b {
        a - b
    } else {
        b - a
    }
}

/// The number of unit steps along the axes that lead from `a` to `b`.
pub open spec fn manhattan(a: Coordinate2D, b: Coordinate2D) -> int {
    gap(a.x as int, b.x as int) + gap(a.y as int, b.y as int)
}

/// The square of the straight-line distance between `a` and `b`.
pub open spec fn squared_distance(a: Coordinate2D, b: Coordinate2D) -> int {
    (a.x - b.x) * (a.x - b.x) + (a.y - b.y) * (a.y - b.y)
}

/// `r` is the square root of `n`, rounded down.
pub open spec fn is_floor_sqrt(n: int, r: int) -> bool {
    0 <= r && r * r <= n && n < (r + 1) * (r + 1)
}

/// The square root of `n`, rounded down, for `n >= 0`.
pub open spec fn floor_sqrt(n: int) -> int {
    choose|r: int| is_floor_sqrt(n, r)
}

/// The straight-line distance between `a` and `b`, rounded down to a whole
/// number of steps.
pub open spec fn euclid(a: Coordinate2D, b: Coordinate2D) -> int {
    floor_sqrt(squared_distance(a, b))
}

/// At most one number is the rounded-down square root of `n`.
pub proof fn lemma_floor_sqrt_unique(n: int, r1: int, r2: int)
    requires
        is_floor_sqrt(n, r1),
        is_floor_sqrt(n, r2),
    ensures
        r1 == r2,
{
    assert(r1 == r2) by (nonlinear_arith)
        requires
            0 <= r1,
            0 <= r2,
            r1 * r1 <= n,
            n < (r1 + 1) * (r1 + 1),
            r2 * r2 <= n,
            n < (r2 + 1) * (r2 + 1),
    ;
}

/// Every `n >= 0` has a rounded-down square root, and `floor_sqrt` is it.
pub proof fn lemma_floor_sqrt_exists(n: int)
    requires
        n >= 0,
    ensures
        is_floor_sqrt(n, floor_sqrt(n)),
    decreases n,
{
    if n == 0 {
        assert(is_floor_sqrt(0, 0));
    } else {
        lemma_floor_sqrt_exists(n - 1);
        let r = floor_sqrt(n - 1);
        if (r + 1) * (r + 1) <= n {
            assert(n < (r + 2) * (r + 2)) by (nonlinear_arith)
                requires
                    0 <= r,
                    n - 1 < (r + 1) * (r + 1),
            ;
            assert(is_floor_sqrt(n, r + 1));
        } else {
            assert(is_floor_sqrt(n, r));
        }
    }
}

/// The rounded-down straight-line distance is never negative, is zero from a
/// cell to itself, and never exceeds the number of axis steps.
pub proof fn lemma_euclid_bounds(a: Coordinate2D, b: Coordinate2D)
    ensures
        0 <= euclid(a, b) <= manhattan(a, b),
        a == b ==> euclid(a, b) == 0,
{
    let dx = gap(a.x as int, b.x as int);
    let dy = gap(a.y as int, b.y as int);
    let n = squared_distance(a, b);
    assert(n == dx * dx + dy * dy) by (nonlinear_arith)
        requires
            n == (a.x - b.x) * (a.x - b.x) + (a.y - b.y) * (a.y - b.y),
            dx == a.x - b.x || dx == b.x - a.x,
            dy == a.y - b.y || dy == b.y - a.y,
    ;
    assert(n >= 0) by (nonlinear_arith)
        requires
            n == dx * dx + dy * dy,
    ;
    lemma_floor_sqrt_exists(n);
    let r = floor_sqrt(n);
    assert(r <= dx + dy) by (nonlinear_arith)
        requires
            0 <= r,
            0 <= dx,
            0 <= dy,
            r * r <= dx * dx + dy * dy,
    ;
    if a == b {
        assert(is_floor_sqrt(n, 0));
        lemma_floor_sqrt_unique(n, r, 0);
    }
}

impl Coordinate2D {
    /// Whether both components fit again in sixteen bits after adding
    /// `other`.
    pub open spec fn can_add(self, other: Coordinate2D) -> bool {
        &&& i16::MIN <= self.x + other.x <= i16::MAX
        &&& i16::MIN <= self.y + other.y <= i16::MAX
    }

    /// The component-wise sum.
    pub open spec fn sum(self, other: Coordinate2D) -> Coordinate2D {
        Coordinate2D { x: (self.x + other.x) as i16, y: (self.y + other.y) as i16 }
    }

    /// Whether `self` and `other` are the same cell.
    pub fn is_at(self, other: Coordinate2D) -> (same: bool)
        ensures
            same == (self == other),
    {
        self.x == other.x && self.y == other.y
    }

    /// The straight-line distance to `other`, the square root of the sum of
    /// the squares of the two differences, rounded down.
    ///
    /// It is the search's estimate of the steps still to go. It is zero
    /// exactly at `other`, and on a grid whose moves follow the axes it never
    /// exceeds the true number of steps, which a search needs of its estimate
    /// to find a shortest path.
    pub fn distance(self, other: Coordinate2D) -> (d: i32)
        ensures
            d == euclid(self, other),
            is_floor_sqrt(squared_distance(self, other), d as int),
            0 <= d <= manhattan(self, other),
    {
        let dx: i64 = self.x as i64 - other.x as i64;
        let dy: i64 = self.y as i64 - other.y as i64;
        assert(dx * dx <= 65535 * 65535) by (nonlinear_arith)
            requires
                -65535 <= dx <= 65535,
        ;
        assert(dy * dy <= 65535 * 65535) by (nonlinear_arith)
            requires
                -65535 <= dy <= 65535,
        ;
        assert(dx * dx >= 0 && dy * dy >= 0) by (nonlinear_arith);
        let n: i64 = dx * dx + dy * dy;
        let mut lo: i64 = 0;
        let mut hi: i64 = 92682;
        while hi - lo > 1
            invariant
                0 <= lo < hi <= 92682,
                lo * lo <= n,
                n < hi * hi,
            decreases hi - lo,
        {
            let mid: i64 = lo + (hi - lo) / 2;
            assert(mid * mid <= 92682 * 92682) by (nonlinear_arith)
                requires
                    0 <= mid <= 92682,
            ;
            if mid * mid <= n {
                lo = mid;
            } else {
                hi = mid;
            }
        }
        proof {
            assert(is_floor_sqrt(n as int, lo as int));
            lemma_floor_sqrt_exists(n as int);
            lemma_floor_sqrt_unique(n as int, lo as int, floor_sqrt(n as int));
            lemma_euclid_bounds(self, other);
        }
        lo as i32
    }
}

impl vstd::std_specs::ops::AddSpecImpl<Coordinate2D> for Coordinate2D {
    open spec fn obeys_add_spec() -> bool {
        true
    }

    open spec fn add_req(self, rhs: Coordinate2D) -> bool {
        self.can_add(rhs)
    }

    open spec fn add_spec(self, rhs: Coordinate2D) -> Coordinate2D {
        self.sum(rhs)
    }
}

impl std::ops::Add<Coordinate2D> for Coordinate2D {
    type Output = Coordinate2D;

    /// The component-wise sum of two coordinates.
    fn add(self, other: Coordinate2D) -> (total: Coordinate2D) {
        Coordinate2D { x: self.x + other.x, y: self.y + other.y }
    }
}

} // verus!
