//! Fixed-point vectors, the toroidal domain, and the integer helpers that the
//! steering rule is built from.
use vstd::prelude::*;

verus! {

/// Number of fixed-point units in one pixel.
pub const UNIT: i64 = 1_000_000;

/// Largest magnitude of any coordinate the simulation works with.
pub const MAX_COORD: i64 = 1_099_511_627_776;

/// A 2D vector in fixed-point units.
#[derive(Clone, Copy, Debug, PartialEq, Eq, Structural)]
pub struct Vec2 {
    pub x: i64,
    pub y: i64,
}

impl Vec2 {
    pub fn new(x: i64, y: i64) -> (r: Vec2)
        ensures
            r.x == x,
            r.y == y,
    {
        Vec2 { x, y }
    }
}

/// The axis-aligned rectangle that the agents live in; its opposite edges are
/// glued together.  `top` is the larger `y`, as on screen with y pointing up.
#[derive(Clone, Copy, Debug, PartialEq, Eq, Structural)]
pub struct Bounds {
    pub left: i64,
    pub right: i64,
    pub bottom: i64,
    pub top: i64,
}

pub open spec fn coord_ok(c: int) -> bool {
    -MAX_COORD <= c <= MAX_COORD
}

impl Bounds {
    /// A rectangle of non-zero area whose edges stay within the coordinate range.
    pub open spec fn wf(self) -> bool {
        &&& coord_ok(self.left as int)
        &&& coord_ok(self.right as int)
        &&& coord_ok(self.bottom as int)
        &&& coord_ok(self.top as int)
        &&& self.left < self.right
        &&& self.bottom < self.top
    }

    /// Whether a point lies in the closed rectangle.
    pub open spec fn contains(self, p: Vec2) -> bool {
        self.left <= p.x <= self.right && self.bottom <= p.y <= self.top
    }

    pub fn new(left: i64, right: i64, bottom: i64, top: i64) -> (r: Bounds)
        ensures
            r == (Bounds { left, right, bottom, top }),
    {
        Bounds { left, right, bottom, top }
    }

    /// Checks `wf`, for callers outside the verified code.
    pub fn is_valid(&self) -> (r: bool)
        ensures
            r == self.wf(),
    {
        -MAX_COORD <= self.left && self.left <= MAX_COORD && -MAX_COORD <= self.right
            && self.right <= MAX_COORD && -MAX_COORD <= self.bottom && self.bottom <= MAX_COORD
            && -MAX_COORD <= self.top && self.top <= MAX_COORD && self.left < self.right
            && self.bottom < self.top
    }
}

/// Wrap one coordinate: leaving past one edge re-enters at the opposite one.
/// A value exactly on an edge stays where it is.
pub open spec fn wrap_coord(c: int, lo: int, hi: int) -> int {
    if c < lo {
        hi
    } else if c > hi {
        lo
    } else {
        c
    }
}

/// Toroidal wraparound of a point into `b`.
pub open spec fn wrap_spec(x: int, y: int, b: Bounds) -> Vec2 {
    Vec2 {
        x: wrap_coord(x, b.left as int, b.right as int) as i64,
        y: wrap_coord(y, b.bottom as int, b.top as int) as i64,
    }
}

pub fn wrap(x: i64, y: i64, b: &Bounds) -> (r: Vec2)
    requires
        b.wf(),
    ensures
        r == wrap_spec(x as int, y as int, *b),
        b.contains(r),
{
    let nx: i64 = if x < b.left {
        b.right
    } else if x > b.right {
        b.left
    } else {
        x
    };
    let ny: i64 = if y < b.bottom {
        b.top
    } else if y > b.top {
        b.bottom
    } else {
        y
    };
    Vec2 { x: nx, y: ny }
}

pub open spec fn abs(a: int) -> int {
    if a < 0 {
        -a
    } else {
        a
    }
}

/// Integer division rounded toward zero, as Rust's `/` does.
pub open spec fn tdiv(a: int, b: int) -> int {
    if a >= 0 {
        a / b
    } else {
        -((-a) / b)
    }
}

pub fn div_trunc(a: i128, b: i128) -> (r: i128)
    requires
        b > 0,
        a > i128::MIN,
    ensures
        r == tdiv(a as int, b as int),
{
    if a >= 0 {
        a / b
    } else {
        let m: i128 = -a;
        -(m / b)
    }
}

/// Rounding toward zero never increases the magnitude of the quotient.
pub proof fn lemma_tdiv_bounds(a: int, b: int)
    requires
        b > 0,
    ensures
        a >= 0 ==> 0 <= tdiv(a, b) && tdiv(a, b) * b <= a && a < tdiv(a, b) * b + b,
        a < 0 ==> tdiv(a, b) <= 0 && a <= tdiv(a, b) * b && tdiv(a, b) * b < a + b,
{
    if a >= 0 {
        assert(0 <= a / b) by (nonlinear_arith) requires a >= 0, b > 0;
        assert((a / b) * b <= a && a < (a / b) * b + b) by (nonlinear_arith) requires a >= 0, b > 0;
    } else {
        let m = -a;
        assert(0 <= m / b) by (nonlinear_arith) requires m >= 0, b > 0;
        assert((m / b) * b <= m && m < (m / b) * b + b) by (nonlinear_arith) requires m >= 0, b > 0;
        assert(-(m / b) * b == -((m / b) * b)) by (nonlinear_arith);
    }
}

/// A quotient rounded toward zero is no larger in magnitude than its dividend.
pub proof fn lemma_tdiv_abs(a: int, b: int)
    requires
        b > 0,
    ensures
        abs(tdiv(a, b)) <= abs(a),
        abs(tdiv(a, b)) * b <= abs(a),
{
    lemma_tdiv_bounds(a, b);
    let t = abs(tdiv(a, b));
    assert(t <= t * b) by (nonlinear_arith) requires t >= 0, b >= 1;
    if a < 0 {
        assert(tdiv(a, b) * b == -(t * b)) by (nonlinear_arith) requires t == -tdiv(a, b);
    }
}

/// `r` is the square root of `n` rounded up.
pub open spec fn is_ceil_sqrt(n: int, r: int) -> bool {
    r >= 1 && (r - 1) * (r - 1) < n && n <= r * r
}

/// Square root rounded up, for `n >= 1`.
pub open spec fn ceil_sqrt(n: int) -> int {
    choose|r: int| is_ceil_sqrt(n, r)
}

/// Every `n >= 1` has a rounded-up square root.
pub proof fn lemma_ceil_sqrt_exists(n: int)
    requires
        n >= 1,
    ensures
        is_ceil_sqrt(n, ceil_sqrt(n)),
    decreases n,
{
    if n == 1 {
        assert(is_ceil_sqrt(1, 1));
    } else {
        lemma_ceil_sqrt_exists(n - 1);
        let p = ceil_sqrt(n - 1);
        if n <= p * p {
            assert(is_ceil_sqrt(n, p));
        } else {
            assert((p + 1) * (p + 1) == p * p + 2 * p + 1) by (nonlinear_arith);
            assert(is_ceil_sqrt(n, p + 1));
        }
    }
}

pub proof fn lemma_square_monotone(a: int, b: int)
    requires
        0 <= a <= b,
    ensures
        a * a <= b * b,
{
    assert(a * a <= b * b) by (nonlinear_arith) requires 0 <= a <= b;
}

/// The rounded-up square root is unique.
pub proof fn lemma_ceil_sqrt_unique(n: int, r: int)
    requires
        is_ceil_sqrt(n, r),
    ensures
        ceil_sqrt(n) == r,
{
    let s = ceil_sqrt(n);
    assert(is_ceil_sqrt(n, s));
    if s < r {
        lemma_square_monotone(s, r - 1);
    } else if r < s {
        lemma_square_monotone(r, s - 1);
    }
}

/// Square root rounded up, by bisection, for `1 <= n < 2^66`.
pub fn ceil_sqrt_exec(n: i128) -> (r: i128)
    requires
        1 <= n <= 0x3_FFFF_FFFF_FFFF_FFFF,
    ensures
        r == ceil_sqrt(n as int),
        1 <= r <= 0x4_0000_0000,
{
    let mut lo: i128 = 1;
    let mut hi: i128 = 0x4_0000_0000;
    assert(hi * hi == 0x10_0000_0000_0000_0000);
    while lo < hi
        invariant
            1 <= lo <= hi <= 0x4_0000_0000,
            n <= hi * hi,
            (lo - 1) * (lo - 1) < n,
        decreases hi - lo,
    {
        let mid: i128 = lo + (hi - lo) / 2;
        assert(mid * mid <= 0x10_0000_0000_0000_0000) by (nonlinear_arith)
            requires 1 <= mid <= 0x4_0000_0000;
        if mid * mid >= n {
            hi = mid;
        } else {
            lo = mid + 1;
        }
    }
    proof {
        lemma_ceil_sqrt_unique(n as int, lo as int);
    }
    lo
}

} // verus!
