//! Rescaling a steering vector to the constant cruising speed.
use vstd::prelude::*;

use crate::geometry::{
    abs, ceil_sqrt, ceil_sqrt_exec, div_trunc, lemma_ceil_sqrt_exists, lemma_square_monotone,
    Vec2, is_ceil_sqrt, lemma_tdiv_bounds, tdiv,
};

verus! {

/// The cruising speed of every agent, in fixed-point units per tick (1.5 pixels).
pub const SPEED: i64 = 1_500_000;

/// Largest magnitude of a steering component that `renormalize` accepts.
pub const STEER_LIMIT: i128 = 0x10_0000_0000_0000_0000_0000_0000;

/// Below this magnitude a vector is doubled before it is measured.
pub const SCALE_LOW: i128 = 0x8000_0000;

/// At or above this magnitude a vector is halved before it is measured.
pub const SCALE_HIGH: i128 = 0x1_0000_0000;

/// A velocity whose length is `SPEED`, up to the rounding of fixed-point
/// arithmetic: its squared length lies in `[SPEED² - 5·SPEED, SPEED²]`, that
/// is, its length is at most 2.5 units (2.5 millionths of a pixel) short.
pub open spec fn speed_ok(v: Vec2) -> bool {
    SPEED * SPEED - 5 * SPEED <= v.x * v.x + v.y * v.y <= SPEED * SPEED
}

/// Halve both components until both are below `SCALE_HIGH`.
pub open spec fn shrink(x: int, y: int) -> (int, int)
    decreases abs(x) + abs(y),
{
    if abs(x) >= SCALE_HIGH || abs(y) >= SCALE_HIGH {
        shrink(tdiv(x, 2), tdiv(y, 2))
    } else {
        (x, y)
    }
}

/// Double both components of a non-zero vector until one reaches `SCALE_LOW`.
pub open spec fn grow(x: int, y: int) -> (int, int)
    decreases 2 * SCALE_HIGH - abs(x) - abs(y),
{
    if (x != 0 || y != 0) && abs(x) < SCALE_LOW && abs(y) < SCALE_LOW {
        grow(2 * x, 2 * y)
    } else {
        (x, y)
    }
}

/// The direction of `(x, y)` scaled to `SPEED`; a zero vector has no
/// direction, and then `fallback` is kept.
pub open spec fn normalize_spec(x: int, y: int, fallback: Vec2) -> Vec2 {
    if x == 0 && y == 0 {
        fallback
    } else {
        let s = shrink(x, y);
        let g = grow(s.0, s.1);
        to_speed(g.0, g.1)
    }
}

/// `(a, b)` divided by its rounded-up length and multiplied by `SPEED`.
pub open spec fn to_speed(a: int, b: int) -> Vec2 {
    let r = ceil_sqrt(a * a + b * b);
    Vec2 { x: tdiv(a * SPEED, r) as i64, y: tdiv(b * SPEED, r) as i64 }
}

/// The cross product of `v` and `(x, y)`: zero exactly when they are parallel.
pub open spec fn cross(v: Vec2, x: int, y: int) -> int {
    v.x * y - v.y * x
}

/// `v` points into the same closed quadrant as `(x, y)`.
pub open spec fn same_signs(v: Vec2, x: int, y: int) -> bool {
    &&& (x >= 0 ==> v.x >= 0)
    &&& (x <= 0 ==> v.x <= 0)
    &&& (y >= 0 ==> v.y >= 0)
    &&& (y <= 0 ==> v.y <= 0)
}

proof fn lemma_shrink(x: int, y: int)
    requires
        x != 0 || y != 0,
    ensures
        shrink(x, y).0 != 0 || shrink(x, y).1 != 0,
        abs(shrink(x, y).0) < SCALE_HIGH,
        abs(shrink(x, y).1) < SCALE_HIGH,
        abs(shrink(x, y).0) <= abs(x),
        abs(shrink(x, y).1) <= abs(y),
        (abs(x) >= SCALE_HIGH || abs(y) >= SCALE_HIGH) ==> (abs(shrink(x, y).0) >= SCALE_LOW
            || abs(shrink(x, y).1) >= SCALE_LOW),
    decreases abs(x) + abs(y),
{
    if abs(x) >= SCALE_HIGH || abs(y) >= SCALE_HIGH {
        lemma_shrink(tdiv(x, 2), tdiv(y, 2));
        if abs(tdiv(x, 2)) >= SCALE_HIGH || abs(tdiv(y, 2)) >= SCALE_HIGH {
        } else {
            assert(shrink(tdiv(x, 2), tdiv(y, 2)) == (tdiv(x, 2), tdiv(y, 2)));
        }
    }
}

proof fn lemma_grow(x: int, y: int)
    requires
        x != 0 || y != 0,
        abs(x) < SCALE_HIGH,
        abs(y) < SCALE_HIGH,
    ensures
        abs(grow(x, y).0) < SCALE_HIGH,
        abs(grow(x, y).1) < SCALE_HIGH,
        abs(grow(x, y).0) >= SCALE_LOW || abs(grow(x, y).1) >= SCALE_LOW,
    decreases 2 * SCALE_HIGH - abs(x) - abs(y),
{
    if (x != 0 || y != 0) && abs(x) < SCALE_LOW && abs(y) < SCALE_LOW {
        lemma_grow(2 * x, 2 * y);
    }
}

/// `u = ⌊a·s / r⌋` squared, times `r²`, is at least `(a·s)² - 2·r·a·s`.
proof fn lemma_quotient_square(a: int, s: int, r: int, u: int)
    requires
        a >= 0,
        s > 0,
        r > 0,
        u * r <= a * s,
        a * s < u * r + r,
        u >= 0,
    ensures
        (u * r) * (u * r) >= (a * s) * (a * s) - 2 * r * (a * s),
{
    let p = a * s;
    let q = u * r;
    if p >= r {
        assert(q * q >= (p - r) * (p - r)) by (nonlinear_arith) requires q >= p - r, p - r >= 0;
        assert((p - r) * (p - r) == p * p - 2 * r * p + r * r) by (nonlinear_arith);
        assert(r * r >= 0) by (nonlinear_arith);
    } else {
        assert(p * p - 2 * r * p <= 0) by (nonlinear_arith) requires 0 <= p < r;
        assert(q * q >= 0) by (nonlinear_arith);
    }
}

/// A non-zero vector with one component of magnitude at least `SCALE_LOW`,
/// divided by its rounded-up length and multiplied by `SPEED`, has speed
/// `SPEED` up to rounding.
proof fn lemma_scaled_speed(a: int, b: int)
    requires
        abs(a) < SCALE_HIGH,
        abs(b) < SCALE_HIGH,
        abs(a) >= SCALE_LOW || abs(b) >= SCALE_LOW,
    ensures
        ({
            let v = to_speed(a, b);
            speed_ok(v) && abs(v.x as int) <= SPEED && abs(v.y as int) <= SPEED
        }),
{
    let s = SPEED as int;
    let aa = abs(a);
    let bb = abs(b);
    let m2 = a * a + b * b;
    assert(aa * aa == a * a && bb * bb == b * b) by (nonlinear_arith)
        requires aa == abs(a), bb == abs(b);
    assert(m2 >= SCALE_LOW * SCALE_LOW) by (nonlinear_arith)
        requires m2 == aa * aa + bb * bb, aa >= 0, bb >= 0, aa >= SCALE_LOW || bb >= SCALE_LOW;
    assert(m2 <= 2 * SCALE_HIGH * SCALE_HIGH) by (nonlinear_arith)
        requires m2 == aa * aa + bb * bb, 0 <= aa < SCALE_HIGH, 0 <= bb < SCALE_HIGH;
    lemma_ceil_sqrt_exists(m2);
    let r = ceil_sqrt(m2);
    assert(is_ceil_sqrt(m2, r));
    assert(r >= SCALE_LOW) by (nonlinear_arith)
        requires m2 <= r * r, m2 >= SCALE_LOW * SCALE_LOW, r >= 1;
    let ux = (aa * s) / r;
    let uy = (bb * s) / r;
    assert(ux * r <= aa * s && aa * s < ux * r + r && ux >= 0) by (nonlinear_arith)
        requires ux == (aa * s) / r, r > 0, aa >= 0, s > 0;
    assert(uy * r <= bb * s && bb * s < uy * r + r && uy >= 0) by (nonlinear_arith)
        requires uy == (bb * s) / r, r > 0, bb >= 0, s > 0;
    // The quotients rounded toward zero have magnitudes ux and uy.
    assert(abs(tdiv(a * s, r)) == ux) by {
        if a >= 0 {
            assert(a * s >= 0) by (nonlinear_arith) requires a >= 0, s > 0;
        } else {
            assert(a * s < 0 && -(a * s) == aa * s) by (nonlinear_arith) requires a < 0, s > 0, aa == -a;
        }
    }
    assert(abs(tdiv(b * s, r)) == uy) by {
        if b >= 0 {
            assert(b * s >= 0) by (nonlinear_arith) requires b >= 0, s > 0;
        } else {
            assert(b * s < 0 && -(b * s) == bb * s) by (nonlinear_arith) requires b < 0, s > 0, bb == -b;
        }
    }
    let qx = tdiv(a * s, r);
    let qy = tdiv(b * s, r);
    assert(qx * qx == ux * ux && qy * qy == uy * uy) by (nonlinear_arith)
        requires abs(qx) == ux, abs(qy) == uy;
    // Upper bound: the rounded quotients are no longer than the exact ones.
    let x = ux * r;
    let y = uy * r;
    let r2 = r * r;
    let p = ux * ux + uy * uy;
    assert(x * x + y * y == r2 * p) by (nonlinear_arith)
        requires x == ux * r, y == uy * r, r2 == r * r, p == ux * ux + uy * uy;
    assert(ux * r >= 0 && uy * r >= 0) by (nonlinear_arith) requires ux >= 0, uy >= 0, r > 0;
    lemma_square_monotone(x, aa * s);
    lemma_square_monotone(y, bb * s);
    assert((aa * s) * (aa * s) + (bb * s) * (bb * s) == (s * s) * m2) by (nonlinear_arith)
        requires m2 == aa * aa + bb * bb;
    assert((s * s) * m2 <= (s * s) * r2) by (nonlinear_arith) requires m2 <= r2;
    assert(p <= s * s) by (nonlinear_arith) requires r2 * p <= (s * s) * r2, r2 > 0;
    // Lower bound: each rounding loses less than one unit.
    lemma_quotient_square(aa, s, r, ux);
    lemma_quotient_square(bb, s, r, uy);
    assert(aa <= r && bb <= r) by (nonlinear_arith)
        requires aa * aa + bb * bb <= r * r, aa >= 0, bb >= 0, r > 0;
    let ss = s * s;
    assert(2 * r * (aa * s) + 2 * r * (bb * s) == 2 * r * s * (aa + bb)) by (nonlinear_arith);
    assert(2 * r * s * (aa + bb) <= 4 * r2 * s) by (nonlinear_arith)
        requires aa + bb <= 2 * r, r > 0, s > 0, r2 == r * r;
    assert(r2 * p >= ss * m2 - 4 * r2 * s);
    assert(m2 >= r2 - 2 * r + 2) by (nonlinear_arith) requires (r - 1) * (r - 1) < m2, r2 == r * r;
    assert(ss * m2 >= ss * (r2 - 2 * r + 2)) by (nonlinear_arith)
        requires m2 >= r2 - 2 * r + 2, ss >= 0;
    assert(r2 * (s + 1) >= 2 * r * ss) by (nonlinear_arith)
        requires r2 == r * r, r >= SCALE_LOW, ss == s * s, s == SPEED;
    assert(p >= s * s - 5 * s) by (nonlinear_arith)
        requires
            r2 * p >= ss * (r2 - 2 * r + 2) - 4 * r2 * s,
            r2 * (s + 1) >= 2 * r * ss,
            r2 > 0,
            ss == s * s,
            s > 0;
    assert(ux * ux + uy * uy <= s * s);
    assert(ux <= s && uy <= s) by (nonlinear_arith)
        requires ux * ux + uy * uy <= s * s, ux >= 0, uy >= 0, s > 0;
}

/// Renormalisation always yields cruising speed, up to rounding, unless the
/// vector is zero, in which case the fallback is returned unchanged.
pub proof fn lemma_normalize_speed(x: int, y: int, fallback: Vec2)
    ensures
        (x != 0 || y != 0) ==> speed_ok(normalize_spec(x, y, fallback)),
        (x != 0 || y != 0) ==> abs(normalize_spec(x, y, fallback).x as int) <= SPEED,
        (x != 0 || y != 0) ==> abs(normalize_spec(x, y, fallback).y as int) <= SPEED,
        (x == 0 && y == 0) ==> normalize_spec(x, y, fallback) == fallback,
{
    if x != 0 || y != 0 {
        lemma_shrink(x, y);
        let s = shrink(x, y);
        lemma_grow(s.0, s.1);
        let g = grow(s.0, s.1);
        lemma_scaled_speed(g.0, g.1);
    }
}

/// Scaling a vector in range to `SPEED` keeps its direction: the cross
/// product of the two is at most the sum of the vector's magnitudes.
proof fn lemma_to_speed_direction(a: int, b: int)
    requires
        abs(a) < SCALE_HIGH,
        abs(b) < SCALE_HIGH,
        abs(a) >= SCALE_LOW || abs(b) >= SCALE_LOW,
    ensures
        abs(cross(to_speed(a, b), a, b)) <= abs(a) + abs(b),
        same_signs(to_speed(a, b), a, b),
{
    lemma_scaled_speed(a, b);
    let n = a * a + b * b;
    assert(n >= 1) by (nonlinear_arith)
        requires n == a * a + b * b, a >= SCALE_LOW || a <= -SCALE_LOW || b >= SCALE_LOW || b
            <= -SCALE_LOW;
    lemma_ceil_sqrt_exists(n);
    let r = ceil_sqrt(n);
    let s = SPEED as int;
    let qx = tdiv(a * s, r);
    let qy = tdiv(b * s, r);
    lemma_tdiv_bounds(a * s, r);
    lemma_tdiv_bounds(b * s, r);
    let fx = a * s - qx * r;
    let fy = b * s - qy * r;
    assert(abs(fx) < r && abs(fy) < r);
    assert(a >= 0 ==> a * s >= 0) by (nonlinear_arith) requires s > 0;
    assert(a <= 0 ==> a * s <= 0) by (nonlinear_arith) requires s > 0;
    assert(b >= 0 ==> b * s >= 0) by (nonlinear_arith) requires s > 0;
    assert(b <= 0 ==> b * s <= 0) by (nonlinear_arith) requires s > 0;
    let c = qx * b - qy * a;
    assert(c * r == fy * a - fx * b) by (nonlinear_arith)
        requires c == qx * b - qy * a, fx == a * s - qx * r, fy == b * s - qy * r;
    assert(abs(fy * a - fx * b) <= r * (abs(a) + abs(b))) by (nonlinear_arith)
        requires abs(fx) < r, abs(fy) < r, r > 0;
    assert(abs(c) <= abs(a) + abs(b)) by (nonlinear_arith)
        requires abs(c * r) <= r * (abs(a) + abs(b)), r > 0, c * r == fy * a - fx * b;
}

/// Doubling before scaling changes nothing that the cross product sees.
proof fn lemma_grow_direction(x: int, y: int)
    requires
        x != 0 || y != 0,
        abs(x) < SCALE_HIGH,
        abs(y) < SCALE_HIGH,
    ensures
        abs(cross(to_speed(grow(x, y).0, grow(x, y).1), x, y)) <= abs(x) + abs(y),
        same_signs(to_speed(grow(x, y).0, grow(x, y).1), x, y),
    decreases 2 * SCALE_HIGH - abs(x) - abs(y),
{
    if abs(x) < SCALE_LOW && abs(y) < SCALE_LOW {
        lemma_grow_direction(2 * x, 2 * y);
        let g = grow(x, y);
        let v = to_speed(g.0, g.1);
        assert(cross(v, 2 * x, 2 * y) == 2 * cross(v, x, y)) by (nonlinear_arith);
    } else {
        lemma_to_speed_direction(x, y);
    }
}

/// Halving before scaling loses less than a unit per halving, which the
/// bound absorbs.
proof fn lemma_shrink_direction(x: int, y: int)
    requires
        abs(x) >= SCALE_LOW || abs(y) >= SCALE_LOW,
    ensures
        ({
            let s = shrink(x, y);
            let g = grow(s.0, s.1);
            let v = to_speed(g.0, g.1);
            abs(cross(v, x, y)) <= 2 * (abs(x) + abs(y)) - 2 * SPEED && same_signs(v, x, y)
        }),
    decreases abs(x) + abs(y),
{
    let s = shrink(x, y);
    lemma_shrink(x, y);
    lemma_grow(s.0, s.1);
    let g = grow(s.0, s.1);
    let v = to_speed(g.0, g.1);
    lemma_scaled_speed(g.0, g.1);
    if abs(x) >= SCALE_HIGH || abs(y) >= SCALE_HIGH {
        let hx = tdiv(x, 2);
        let hy = tdiv(y, 2);
        lemma_tdiv_bounds(x, 2);
        lemma_tdiv_bounds(y, 2);
        lemma_shrink_direction(hx, hy);
        let ex = x - 2 * hx;
        let ey = y - 2 * hy;
        assert(cross(v, x, y) == 2 * cross(v, hx, hy) + (v.x * ey - v.y * ex)) by (nonlinear_arith)
            requires ex == x - 2 * hx, ey == y - 2 * hy;
        assert(abs(v.x * ey - v.y * ex) <= 2 * SPEED) by (nonlinear_arith)
            requires abs(ex) <= 1, abs(ey) <= 1, abs(v.x as int) <= SPEED, abs(v.y as int) <= SPEED;
    } else {
        assert(s == (x, y));
        assert(grow(x, y) == (x, y));
        lemma_to_speed_direction(x, y);
    }
}

/// Renormalisation keeps direction: the result lies in the quadrant of
/// `(x, y)`, and their cross product is at most twice the sum of the
/// magnitudes of `x` and `y`, which at cruising speed puts the angle between
/// them under `3 / SPEED` radians.
pub proof fn lemma_normalize_direction(x: int, y: int, fallback: Vec2)
    requires
        x != 0 || y != 0,
    ensures
        abs(cross(normalize_spec(x, y, fallback), x, y)) <= 2 * (abs(x) + abs(y)),
        same_signs(normalize_spec(x, y, fallback), x, y),
{
    if abs(x) >= SCALE_LOW || abs(y) >= SCALE_LOW {
        lemma_shrink_direction(x, y);
    } else {
        assert(shrink(x, y) == (x, y));
        lemma_grow_direction(x, y);
    }
}

/// Scales `(x, y)` to length `SPEED`, keeping its direction up to rounding.
/// The zero vector has no direction: `fallback` is returned for it.
pub fn renormalize(x: i128, y: i128, fallback: Vec2) -> (r: Vec2)
    requires
        abs(x as int) <= STEER_LIMIT,
        abs(y as int) <= STEER_LIMIT,
    ensures
        r == normalize_spec(x as int, y as int, fallback),
        (x != 0 || y != 0) ==> speed_ok(r),
        (x != 0 || y != 0) ==> abs(cross(r, x as int, y as int)) <= 2 * (abs(x as int) + abs(
            y as int,
        )),
        (x != 0 || y != 0) ==> same_signs(r, x as int, y as int),
        x == 0 && y == 0 ==> r == fallback,
{
    proof {
        lemma_normalize_speed(x as int, y as int, fallback);
        if x != 0 || y != 0 {
            lemma_normalize_direction(x as int, y as int, fallback);
        }
    }
    if x == 0 && y == 0 {
        return fallback;
    }
    let mut a: i128 = x;
    let mut b: i128 = y;
    while a >= SCALE_HIGH || a <= -SCALE_HIGH || b >= SCALE_HIGH || b <= -SCALE_HIGH
        invariant
            shrink(a as int, b as int) == shrink(x as int, y as int),
            abs(a as int) <= STEER_LIMIT,
            abs(b as int) <= STEER_LIMIT,
        decreases abs(a as int) + abs(b as int),
    {
        proof {
            lemma_tdiv_bounds(a as int, 2);
            lemma_tdiv_bounds(b as int, 2);
        }
        a = div_trunc(a, 2);
        b = div_trunc(b, 2);
    }
    assert(shrink(a as int, b as int) == (a as int, b as int));
    proof {
        lemma_shrink(x as int, y as int);
    }
    let ghost s = (a as int, b as int);
    while a > -SCALE_LOW && a < SCALE_LOW && b > -SCALE_LOW && b < SCALE_LOW
        invariant
            grow(a as int, b as int) == grow(s.0, s.1),
            a != 0 || b != 0,
            abs(a as int) < SCALE_HIGH,
            abs(b as int) < SCALE_HIGH,
        decreases 2 * SCALE_HIGH - abs(a as int) - abs(b as int),
    {
        a = 2 * a;
        b = 2 * b;
    }
    assert(grow(a as int, b as int) == (a as int, b as int));
    assert(a * a <= 0x1_0000_0000_0000_0000) by (nonlinear_arith)
        requires abs(a as int) < SCALE_HIGH;
    assert(b * b <= 0x1_0000_0000_0000_0000) by (nonlinear_arith)
        requires abs(b as int) < SCALE_HIGH;
    assert(a * a + b * b >= 1) by (nonlinear_arith) requires a != 0 || b != 0;
    let n: i128 = a * a + b * b;
    let r: i128 = ceil_sqrt_exec(n);
    assert(abs(a * SPEED) <= 0x1_0000_0000 * SPEED) by (nonlinear_arith)
        requires abs(a as int) < SCALE_HIGH;
    assert(abs(b * SPEED) <= 0x1_0000_0000 * SPEED) by (nonlinear_arith)
        requires abs(b as int) < SCALE_HIGH;
    let qx: i128 = div_trunc(a * (SPEED as i128), r);
    let qy: i128 = div_trunc(b * (SPEED as i128), r);
    Vec2 { x: qx as i64, y: qy as i64 }
}

} // verus!
