//! One agent and the steering rule that moves it through one tick.
use vstd::prelude::*;

use crate::geometry::{
    abs, ceil_sqrt, ceil_sqrt_exec, coord_ok, div_trunc, lemma_ceil_sqrt_exists,
    lemma_square_monotone, lemma_tdiv_abs, tdiv, wrap, wrap_spec, Bounds,
    Vec2, MAX_COORD, UNIT,
};
use crate::heading::{lemma_normalize_speed, normalize_spec, renormalize, speed_ok, SPEED};

verus! {

/// Another agent closer than this (60 pixels) is a neighbour.
pub const DETECTION_RADIUS: i64 = 60_000_000;

/// A neighbour closer than this (30 pixels) adds a sideways push.
pub const MIN_DISTANCE: i64 = 30_000_000;

/// The sideways push is `SEPARATION_NUM / SEPARATION_DEN` (0.3) of the
/// running velocity sum, scaled by `distance / MIN_DISTANCE`.
pub const SEPARATION_NUM: i64 = 3;

pub const SEPARATION_DEN: i64 = 10;

/// Each tick the velocity moves `1 / ALIGNMENT_DIVISOR` of the way towards
/// the neighbours' average velocity.
pub const ALIGNMENT_DIVISOR: i64 = 100;

/// Each tick the velocity is pulled by `1 / COHESION_DIVISOR` of the offset
/// to the neighbours' average position.
pub const COHESION_DIVISOR: i64 = 10_000;

/// Largest magnitude of a component of the neighbour velocity sum.  Past it
/// the fixed-point sum can no longer be trusted, and the agent keeps its
/// heading for that tick.  Since the sideways pushes are perpendicular, the
/// sum grows by under 5% per neighbour, so flocks of fewer than about a
/// thousand agents never reach it.
pub const ACC_LIMIT: i128 = 0x400_0000_0000_0000_0000_0000;

#[derive(Clone, Copy, Debug, PartialEq, Eq, Structural)]
pub struct Agent {
    pub position: Vec2,
    pub velocity: Vec2,
}

/// Squared distance between two points.
pub open spec fn dist2(p: Vec2, q: Vec2) -> int {
    (q.x - p.x) * (q.x - p.x) + (q.y - p.y) * (q.y - p.y)
}

/// `q` is a neighbour of `p`: closer than the detection radius, and not at
/// the very same point.
pub open spec fn is_neighbor(p: Vec2, q: Vec2) -> bool {
    0 < dist2(p, q) < DETECTION_RADIUS * DETECTION_RADIUS
}

/// Running sums of a neighbour scan: velocity x and y, position x and y, and
/// the number of neighbours.
pub type Sums = (int, int, int, int, int);

/// Adds one agent of the snapshot to the sums of an agent now at `p`; `None`
/// once the velocity sum leaves the fixed-point range.
pub open spec fn absorb(s: Sums, p: Vec2, other: Agent) -> Option<Sums> {
    if !is_neighbor(p, other.position) {
        Some(s)
    } else {
        let vx = s.0 + other.velocity.x;
        let vy = s.1 + other.velocity.y;
        let d2 = dist2(p, other.position);
        let nudged = if d2 < MIN_DISTANCE * MIN_DISTANCE {
            let d = ceil_sqrt(d2);
            let den = (SEPARATION_DEN * MIN_DISTANCE) as int;
            (vx + tdiv(-vy * SEPARATION_NUM * d, den), vy + tdiv(vx * SEPARATION_NUM * d, den))
        } else {
            (vx, vy)
        };
        if abs(nudged.0) > ACC_LIMIT || abs(nudged.1) > ACC_LIMIT {
            None
        } else {
            Some(
                (
                    nudged.0,
                    nudged.1,
                    s.2 + other.position.x,
                    s.3 + other.position.y,
                    s.4 + 1,
                ),
            )
        }
    }
}

/// The sums over the first `k` agents of the snapshot, leaving out the
/// agent's own entry, at index `me`.
pub open spec fn scan(p: Vec2, snap: Seq<Agent>, me: int, k: int) -> Option<Sums>
    decreases k,
{
    if k <= 0 {
        Some((0, 0, 0, 0, 0))
    } else {
        match scan(p, snap, me, k - 1) {
            None => None,
            Some(s) => if k - 1 == me {
                Some(s)
            } else {
                absorb(s, p, snap[k - 1])
            },
        }
    }
}

/// The velocity before renormalisation, for an agent with at least one
/// neighbour: blended towards the neighbours' average velocity, then pulled
/// towards their average position.
pub open spec fn steering(v: Vec2, p: Vec2, s: Sums) -> (int, int) {
    let n = s.4;
    let avx = tdiv(s.0, n);
    let avy = tdiv(s.1, n);
    let apx = tdiv(s.2, n);
    let apy = tdiv(s.3, n);
    (
        v.x + tdiv(avx - v.x, ALIGNMENT_DIVISOR as int) + tdiv(apx - p.x, COHESION_DIVISOR as int),
        v.y + tdiv(avy - v.y, ALIGNMENT_DIVISOR as int) + tdiv(apy - p.y, COHESION_DIVISOR as int),
    )
}

/// Translate by the velocity, then wrap around the edges.
pub open spec fn moved(a: Agent, b: Bounds) -> Vec2 {
    wrap_spec(a.position.x + a.velocity.x, a.position.y + a.velocity.y, b)
}

/// The state of `a`, entry `me` of the snapshot `snap`, after one tick.  An
/// agent without neighbours has no flock to align with or move towards, and
/// keeps its velocity.
pub open spec fn steer(a: Agent, b: Bounds, snap: Seq<Agent>, me: int) -> Agent {
    let p = moved(a, b);
    match scan(p, snap, me, snap.len() as int) {
        None => Agent { position: p, velocity: a.velocity },
        Some(s) => if s.4 == 0 {
            Agent { position: p, velocity: a.velocity }
        } else {
            let w = steering(a.velocity, p, s);
            Agent { position: p, velocity: normalize_spec(w.0, w.1, a.velocity) }
        },
    }
}

impl Agent {
    /// A position in the coordinate range and a velocity at cruising speed.
    pub open spec fn wf(self) -> bool {
        &&& coord_ok(self.position.x as int)
        &&& coord_ok(self.position.y as int)
        &&& speed_ok(self.velocity)
    }

    pub fn new_at(position: Vec2, velocity: Vec2) -> (r: Agent)
        ensures
            r == (Agent { position, velocity }),
    {
        Agent { position, velocity }
    }

    /// Checks `wf`, for callers outside the verified code.
    pub fn is_valid(&self) -> (r: bool)
        ensures
            r == self.wf(),
    {
        let px: i64 = self.position.x;
        let py: i64 = self.position.y;
        let vx: i128 = self.velocity.x as i128;
        let vy: i128 = self.velocity.y as i128;
        let s: i128 = SPEED as i128;
        assert(s == 1_500_000);
        let lo: i128 = s * s - 5 * s;
        let hi: i128 = s * s;
        proof {
            if speed_ok(self.velocity) {
                lemma_speed_components(self.velocity);
            }
        }
        if vx < -s || vx > s || vy < -s || vy > s {
            return false;
        }
        assert(0 <= vx * vx <= 2_250_000_000_000) by (nonlinear_arith)
            requires -1_500_000 <= vx <= 1_500_000;
        assert(0 <= vy * vy <= 2_250_000_000_000) by (nonlinear_arith)
            requires -1_500_000 <= vy <= 1_500_000;
        let m2: i128 = vx * vx + vy * vy;
        -MAX_COORD <= px && px <= MAX_COORD && -MAX_COORD <= py && py <= MAX_COORD && lo <= m2
            && m2 <= hi
    }

    /// Moves the agent by its velocity and wraps it around the edges of `b`.
    pub fn step(&mut self, b: &Bounds)
        requires
            b.wf(),
            old(self).wf(),
        ensures
            final(self).position == moved(*old(self), *b),
            final(self).velocity == old(self).velocity,
            b.contains(final(self).position),
    {
        proof {
            lemma_speed_components(self.velocity);
        }
        let x: i64 = self.position.x + self.velocity.x;
        let y: i64 = self.position.y + self.velocity.y;
        self.position = wrap(x, y, b);
    }
}

/// Largest magnitude of a position sum over any snapshot that fits in memory.
pub const POS_SUM_LIMIT: i128 = 0x100_0000_0000_0000_0000_0000_0000;

pub open spec fn sums_view(s: (i128, i128, i128, i128, i128)) -> Sums {
    (s.0 as int, s.1 as int, s.2 as int, s.3 as int, s.4 as int)
}

/// `absorb`, on machine integers.
fn absorb_exec(s: (i128, i128, i128, i128, i128), p: Vec2, other: Agent) -> (r: Option<
    (i128, i128, i128, i128, i128),
>)
    requires
        coord_ok(p.x as int),
        coord_ok(p.y as int),
        other.wf(),
        abs(s.0 as int) <= ACC_LIMIT,
        abs(s.1 as int) <= ACC_LIMIT,
        abs(s.2 as int) <= POS_SUM_LIMIT - MAX_COORD,
        abs(s.3 as int) <= POS_SUM_LIMIT - MAX_COORD,
        0 <= s.4 < i128::MAX,
    ensures
        absorb(sums_view(s), p, other) == match r {
            None => None::<Sums>,
            Some(t) => Some(sums_view(t)),
        },
        r matches Some(t) ==> {
            &&& abs(t.0 as int) <= ACC_LIMIT
            &&& abs(t.1 as int) <= ACC_LIMIT
            &&& abs(t.2 as int) <= abs(s.2 as int) + MAX_COORD
            &&& abs(t.3 as int) <= abs(s.3 as int) + MAX_COORD
            &&& s.4 <= t.4 <= s.4 + 1
        },
{
    proof {
        lemma_speed_components(other.velocity);
    }
    let r2: i128 = 3_600_000_000_000_000;
    let m2: i128 = 900_000_000_000_000;
    let den: i128 = 300_000_000;
    let strength: i128 = SEPARATION_NUM as i128;
    assert(r2 == DETECTION_RADIUS * DETECTION_RADIUS);
    assert(m2 == MIN_DISTANCE * MIN_DISTANCE);
    assert(den == SEPARATION_DEN * MIN_DISTANCE);
    let dx: i128 = other.position.x as i128 - p.x as i128;
    let dy: i128 = other.position.y as i128 - p.y as i128;
    assert(0 <= dx * dx <= 0x10_0000_0000_0000_0000_0000) by (nonlinear_arith)
        requires abs(dx as int) <= 2 * MAX_COORD;
    assert(0 <= dy * dy <= 0x10_0000_0000_0000_0000_0000) by (nonlinear_arith)
        requires abs(dy as int) <= 2 * MAX_COORD;
    let d2: i128 = dx * dx + dy * dy;
    assert(d2 == dist2(p, other.position));
    if !(0 < d2 && d2 < r2) {
        return Some(s);
    }
    let mut nx: i128 = s.0 + other.velocity.x as i128;
    let mut ny: i128 = s.1 + other.velocity.y as i128;
    if d2 < m2 {
        let d: i128 = ceil_sqrt_exec(d2);
        proof {
            lemma_ceil_sqrt_exists(d2 as int);
            if d > MIN_DISTANCE {
                lemma_square_monotone(MIN_DISTANCE as int, d - 1);
            }
        }
        assert(abs(nx * strength * d) <= 0x1000_0000_0000_0000_0000_0000_0000_0000)
            by (nonlinear_arith)
            requires
                abs(nx as int) <= ACC_LIMIT + SPEED,
                1 <= d <= MIN_DISTANCE,
                strength == SEPARATION_NUM;
        assert(abs(-ny * strength * d) <= 0x1000_0000_0000_0000_0000_0000_0000_0000)
            by (nonlinear_arith)
            requires
                abs(ny as int) <= ACC_LIMIT + SPEED,
                1 <= d <= MIN_DISTANCE,
                strength == SEPARATION_NUM;
        let tx: i128 = div_trunc(-ny * strength * d, den);
        let ty: i128 = div_trunc(nx * strength * d, den);
        proof {
            lemma_tdiv_abs(-ny * strength * d, den as int);
            lemma_tdiv_abs(nx * strength * d, den as int);
        }
        nx = nx + tx;
        ny = ny + ty;
    }
    if nx > ACC_LIMIT || nx < -ACC_LIMIT || ny > ACC_LIMIT || ny < -ACC_LIMIT {
        None
    } else {
        Some(
            (
                nx,
                ny,
                s.2 + other.position.x as i128,
                s.3 + other.position.y as i128,
                s.4 + 1,
            ),
        )
    }
}

/// The renormalised velocity that `steer` gives an agent with velocity `v`,
/// now at `p`, whose scan found the sums `s` of at least one neighbour.
fn steer_velocity(v: Vec2, p: Vec2, s: (i128, i128, i128, i128, i128)) -> (r: Vec2)
    requires
        speed_ok(v),
        coord_ok(p.x as int),
        coord_ok(p.y as int),
        abs(s.0 as int) <= ACC_LIMIT,
        abs(s.1 as int) <= ACC_LIMIT,
        abs(s.2 as int) <= POS_SUM_LIMIT,
        abs(s.3 as int) <= POS_SUM_LIMIT,
        s.4 > 0,
    ensures
        r == ({
            let w = steering(v, p, sums_view(s));
            normalize_spec(w.0, w.1, v)
        }),
        speed_ok(r),
{
    let (vx, vy, px, py, count) = s;
    let avx: i128 = div_trunc(vx, count);
    let avy: i128 = div_trunc(vy, count);
    let apx: i128 = div_trunc(px, count);
    let apy: i128 = div_trunc(py, count);
    proof {
        lemma_tdiv_abs(vx as int, count as int);
        lemma_tdiv_abs(vy as int, count as int);
        lemma_tdiv_abs(px as int, count as int);
        lemma_tdiv_abs(py as int, count as int);
        lemma_speed_components(v);
        lemma_tdiv_abs(avx - v.x, ALIGNMENT_DIVISOR as int);
        lemma_tdiv_abs(avy - v.y, ALIGNMENT_DIVISOR as int);
        lemma_tdiv_abs(apx - p.x, COHESION_DIVISOR as int);
        lemma_tdiv_abs(apy - p.y, COHESION_DIVISOR as int);
    }
    let ax: i128 = div_trunc(avx - v.x as i128, ALIGNMENT_DIVISOR as i128);
    let ay: i128 = div_trunc(avy - v.y as i128, ALIGNMENT_DIVISOR as i128);
    let cx: i128 = div_trunc(apx - p.x as i128, COHESION_DIVISOR as i128);
    let cy: i128 = div_trunc(apy - p.y as i128, COHESION_DIVISOR as i128);
    let wx: i128 = v.x as i128 + ax + cx;
    let wy: i128 = v.y as i128 + ay + cy;
    proof {
        lemma_normalize_speed(wx as int, wy as int, v);
    }
    renormalize(wx, wy, v)
}

impl Agent {
    /// Advances this agent by one tick: it moves by its velocity, wraps around
    /// the edges of `b`, and steers by the other agents of `snapshot`, the
    /// state of the whole flock at the start of the tick.  Entry `me` of the
    /// snapshot is this agent itself, and is left out (any index past the end
    /// leaves out nothing).
    pub fn update(&mut self, b: &Bounds, snapshot: &Vec<Agent>, me: usize)
        requires
            b.wf(),
            old(self).wf(),
            forall|j: int| 0 <= j < snapshot.len() ==> (#[trigger] snapshot[j]).wf(),
        ensures
            *final(self) == steer(*old(self), *b, snapshot@, me as int),
            final(self).wf(),
            b.contains(final(self).position),
    {
        let ghost a0 = *self;
        self.step(b);
        let p = self.position;
        let mut sums: (i128, i128, i128, i128, i128) = (0, 0, 0, 0, 0);
        let mut saturated = false;
        let mut i: usize = 0;
        while i < snapshot.len()
            invariant
                0 <= i <= snapshot.len(),
                p == moved(a0, *b),
                coord_ok(p.x as int),
                coord_ok(p.y as int),
                forall|j: int| 0 <= j < snapshot.len() ==> (#[trigger] snapshot[j]).wf(),
                saturated ==> scan(p, snapshot@, me as int, i as int) is None,
                !saturated ==> scan(p, snapshot@, me as int, i as int) == Some(sums_view(sums)),
                abs(sums.0 as int) <= ACC_LIMIT,
                abs(sums.1 as int) <= ACC_LIMIT,
                abs(sums.2 as int) <= i * MAX_COORD,
                abs(sums.3 as int) <= i * MAX_COORD,
                0 <= sums.4 <= i,
            decreases snapshot.len() - i,
        {
            assert(i * MAX_COORD <= POS_SUM_LIMIT - MAX_COORD) by (nonlinear_arith)
                requires 0 <= i < 0x1_0000_0000_0000_0000;
            if !saturated && i != me {
                match absorb_exec(sums, p, snapshot[i]) {
                    None => {
                        saturated = true;
                    },
                    Some(t) => {
                        sums = t;
                    },
                }
            }
            i = i + 1;
        }
        assert(i * MAX_COORD <= POS_SUM_LIMIT) by (nonlinear_arith)
            requires 0 <= i <= 0x1_0000_0000_0000_0000;
        if !saturated && sums.4 > 0 {
            self.velocity = steer_velocity(self.velocity, p, sums);
        }
    }
}

/// Relies on nannou::rand::random_range: it returns a value drawn from
/// `[min, max)` by the thread-local generator.  It swaps reversed bounds and
/// panics on equal ones; `requires` admits neither.
#[verifier::external_body]
fn random_range(min: i64, max: i64) -> (r: i64)
    requires
        min < max,
    ensures
        min <= r < max,
{
    nannou::rand::random_range(min, max)
}

/// Most draws of a heading that `Agent::new` makes before it gives up.
pub const HEADING_TRIES: usize = 64;

/// The heading given to an agent whose sampled direction is the zero vector.
pub open spec fn default_heading() -> Vec2 {
    Vec2 { x: SPEED, y: 0 }
}

impl Agent {
    /// An agent at `(x, y)` heading along the direction `(hx, hy)` at cruising
    /// speed; a zero direction falls back to heading along the x axis.
    pub fn from_samples(b: &Bounds, x: i64, y: i64, hx: i64, hy: i64) -> (r: Agent)
        requires
            b.wf(),
            b.contains(Vec2 { x, y }),
            -UNIT <= hx <= UNIT,
            -UNIT <= hy <= UNIT,
        ensures
            r == (Agent {
                position: Vec2 { x, y },
                velocity: normalize_spec(hx as int, hy as int, default_heading()),
            }),
            r.wf(),
    {
        let fallback = Vec2 { x: SPEED, y: 0 };
        assert(speed_ok(fallback));
        proof {
            lemma_normalize_speed(hx as int, hy as int, fallback);
        }
        let velocity = renormalize(hx as i128, hy as i128, fallback);
        Agent { position: Vec2 { x, y }, velocity }
    }

    /// A new agent at a uniformly random point of `b`, heading in a uniformly
    /// random direction at cruising speed.  The direction is a point drawn
    /// from the unit disc, by rejection from the enclosing square; in the
    /// vanishing case that `HEADING_TRIES` draws all miss the disc, the agent
    /// heads along the x axis.
    pub fn new(b: &Bounds) -> (r: Agent)
        requires
            b.wf(),
        ensures
            r.wf(),
            b.contains(r.position),
    {
        let x = random_range(b.left, b.right);
        let y = random_range(b.bottom, b.top);
        let unit2: i128 = (UNIT as i128) * (UNIT as i128);
        let mut hx: i64 = 0;
        let mut hy: i64 = 0;
        let mut found = false;
        let mut tries: usize = 0;
        while tries < HEADING_TRIES && !found
            invariant
                -UNIT <= hx <= UNIT,
                -UNIT <= hy <= UNIT,
                unit2 == UNIT * UNIT,
            decreases HEADING_TRIES - tries,
        {
            let cx = random_range(-UNIT, UNIT);
            let cy = random_range(-UNIT, UNIT);
            let wx: i128 = cx as i128;
            let wy: i128 = cy as i128;
            assert(0 <= wx * wx <= UNIT * UNIT) by (nonlinear_arith) requires -UNIT <= wx <= UNIT;
            assert(0 <= wy * wy <= UNIT * UNIT) by (nonlinear_arith) requires -UNIT <= wy <= UNIT;
            let m2: i128 = wx * wx + wy * wy;
            if 0 < m2 && m2 <= unit2 {
                hx = cx;
                hy = cy;
                found = true;
            }
            tries = tries + 1;
        }
        Agent::from_samples(b, x, y, hx, hy)
    }
}

/// One tick keeps an agent well formed: it ends inside `b`, at cruising
/// speed.
pub proof fn lemma_steer_wf(a: Agent, b: Bounds, snap: Seq<Agent>, me: int)
    requires
        a.wf(),
        b.wf(),
    ensures
        steer(a, b, snap, me).wf(),
        b.contains(steer(a, b, snap, me).position),
{
    lemma_speed_components(a.velocity);
    let p = moved(a, b);
    match scan(p, snap, me, snap.len() as int) {
        None => {},
        Some(s) => {
            let w = steering(a.velocity, p, s);
            lemma_normalize_speed(w.0, w.1, a.velocity);
        },
    }
}

/// Wraparound is exact: an agent that steps past an edge reappears exactly
/// on the opposite edge.
pub proof fn lemma_wraparound(a: Agent, b: Bounds, snap: Seq<Agent>, me: int)
    requires
        a.wf(),
        b.wf(),
    ensures
        a.position.x + a.velocity.x > b.right ==> steer(a, b, snap, me).position.x == b.left,
        a.position.x + a.velocity.x < b.left ==> steer(a, b, snap, me).position.x == b.right,
        a.position.y + a.velocity.y > b.top ==> steer(a, b, snap, me).position.y == b.bottom,
        a.position.y + a.velocity.y < b.bottom ==> steer(a, b, snap, me).position.y == b.top,
{
}

/// With no neighbour in the snapshot the scan finds nothing.
proof fn lemma_scan_empty(p: Vec2, snap: Seq<Agent>, me: int, k: int)
    requires
        0 <= k <= snap.len(),
        forall|j: int|
            0 <= j < snap.len() && j != me ==> !is_neighbor(p, #[trigger] snap[j].position),
    ensures
        scan(p, snap, me, k) == Some((0int, 0int, 0int, 0int, 0int)),
    decreases k,
{
    if k > 0 {
        lemma_scan_empty(p, snap, me, k - 1);
    }
}

/// An isolated agent, with no neighbour within the detection radius, moves by
/// exactly its velocity (wrapping at the edges) and keeps its velocity: with
/// no flock, alignment and cohesion contribute nothing.
pub proof fn lemma_isolated(a: Agent, b: Bounds, snap: Seq<Agent>, me: int)
    requires
        a.wf(),
        b.wf(),
        forall|j: int|
            0 <= j < snap.len() && j != me ==> !is_neighbor(moved(a, b), #[trigger] snap[j].position),
    ensures
        steer(a, b, snap, me).position == moved(a, b),
        b.left <= a.position.x + a.velocity.x <= b.right ==> steer(a, b, snap, me).position.x
            == a.position.x + a.velocity.x,
        b.bottom <= a.position.y + a.velocity.y <= b.top ==> steer(a, b, snap, me).position.y
            == a.position.y + a.velocity.y,
        steer(a, b, snap, me).velocity == a.velocity,
{
    lemma_scan_empty(moved(a, b), snap, me, snap.len() as int);
}

/// A velocity at cruising speed has components no larger than `SPEED`.
pub proof fn lemma_speed_components(v: Vec2)
    requires
        speed_ok(v),
    ensures
        abs(v.x as int) <= SPEED,
        abs(v.y as int) <= SPEED,
{
    let x = v.x as int;
    let y = v.y as int;
    assert(abs(x) <= SPEED && abs(y) <= SPEED) by (nonlinear_arith)
        requires x * x + y * y <= SPEED * SPEED;
}

} // verus!
