//! Fixed-point plane geometry: positions, vectors, integer square roots,
//! and the kinematics controller that chooses each train's acceleration.
use vstd::prelude::*;
use vstd::arithmetic::mul::*;
use vstd::arithmetic::div_mod::*;

verus! {

/// Coordinates, speeds and accelerations are fixed-point integers in
/// thousandths of a length unit (or unit per second); times are in
/// milliseconds.
pub const SCALE: i64 = 1000;

/// Integer square root, defined by recursion so that spec-level reasoning
/// can pin down its exact value.
pub open spec fn isqrt_spec(n: nat) -> nat
    decreases n,
{
    if n == 0 {
        0
    } else {
        let r = isqrt_spec((n - 1) as nat);
        if (r + 1) * (r + 1) <= n {
            r + 1
        } else {
            r
        }
    }
}

pub proof fn lemma_isqrt_bounds(n: nat)
    ensures
        isqrt_spec(n) * isqrt_spec(n) <= n,
        n < (isqrt_spec(n) + 1) * (isqrt_spec(n) + 1),
    decreases n,
{
    reveal_with_fuel(isqrt_spec, 1);
    if n == 0 {
        assert(isqrt_spec(n) == 0);
        assert((isqrt_spec(n) + 1) * (isqrt_spec(n) + 1) == 1) by (nonlinear_arith)
            requires isqrt_spec(n) == 0;
    } else {
        lemma_isqrt_bounds((n - 1) as nat);
        let r = isqrt_spec((n - 1) as nat);
        if (r + 1) * (r + 1) <= n {
            assert(isqrt_spec(n) == r + 1);
            assert((r + 2) * (r + 2) > (r + 1) * (r + 1)) by (nonlinear_arith);
            assert(n <= (r + 1) * (r + 1)) by {
                assert(n - 1 < (r + 1) * (r + 1));
            }
            assert(n < (r + 2) * (r + 2));
            assert((isqrt_spec(n) + 1) * (isqrt_spec(n) + 1) == (r + 2) * (r + 2));
        } else {
            assert(isqrt_spec(n) == r);
            assert(r * r <= n - 1 <= n);
            assert(n < (r + 1) * (r + 1));
        }
    }
}

pub proof fn lemma_isqrt_unique(n: nat, r: nat)
    requires
        r * r <= n,
        n < (r + 1) * (r + 1),
    ensures
        r == isqrt_spec(n),
{
    lemma_isqrt_bounds(n);
    let s = isqrt_spec(n);
    assert(r == s) by {
        if r < s {
            assert((r + 1) * (r + 1) <= s * s) by (nonlinear_arith)
                requires r + 1 <= s;
            assert(false);
        }
        if s < r {
            assert((s + 1) * (s + 1) <= r * r) by (nonlinear_arith)
                requires s + 1 <= r;
            assert(false);
        }
    }
}

/// Floor of the square root of `n`.
pub fn isqrt(n: u128) -> (r: u64)
    ensures
        r as nat == isqrt_spec(n as nat),
        (r as int) * (r as int) <= n as int,
        n < (r as int + 1) * (r as int + 1),
{
    let mut lo: u128 = 0;
    let mut hi: u128 = 0x1_0000_0000_0000_0000u128;
    assert((hi as int) * (hi as int) > n as int) by (nonlinear_arith)
        requires
            hi == 0x1_0000_0000_0000_0000u128,
            n <= u128::MAX,
    ;
    while lo + 1 < hi
        invariant
            lo < hi,
            hi <= 0x1_0000_0000_0000_0000u128,
            (lo as int) * (lo as int) <= n as int,
            (hi as int) * (hi as int) > n as int,
        decreases hi - lo,
    {
        let mid = lo + (hi - lo) / 2;
        assert(mid * mid <= u128::MAX) by (nonlinear_arith)
            requires mid <= 0xffff_ffff_ffff_ffffu128;
        if mid * mid <= n {
            lo = mid;
        } else {
            hi = mid;
        }
    }
    proof {
        lemma_isqrt_unique(n as nat, lo as nat);
    }
    lo as u64
}

/// Absolute value as a spec-level integer.
pub open spec fn iabs(x: int) -> int {
    if x < 0 {
        -x
    } else {
        x
    }
}

/// Euclidean norm of `(x, y)`, rounded down.
pub open spec fn norm_spec(x: int, y: int) -> int {
    isqrt_spec((x * x + y * y) as nat) as int
}

/// Each component of a vector is bounded by the vector's norm.
pub proof fn lemma_component_le_norm(x: int, y: int)
    ensures
        iabs(x) <= norm_spec(x, y),
        iabs(y) <= norm_spec(x, y),
{
    let n = (x * x + y * y) as nat;
    lemma_isqrt_bounds(n);
    let r = isqrt_spec(n) as int;
    assert(x * x >= 0 && y * y >= 0) by (nonlinear_arith);
    assert(iabs(x) * iabs(x) == x * x && iabs(y) * iabs(y) == y * y) by (nonlinear_arith);
    if iabs(x) > r {
        assert(iabs(x) * iabs(x) >= (r + 1) * (r + 1)) by (nonlinear_arith)
            requires iabs(x) >= r + 1 >= 0;
    }
    if iabs(y) > r {
        assert(iabs(y) * iabs(y) >= (r + 1) * (r + 1)) by (nonlinear_arith)
            requires iabs(y) >= r + 1 >= 0;
    }
}

/// Truncating (toward zero) multiply-then-divide: `a * b / d` for `d > 0`.
pub open spec fn mul_div_tz(a: int, b: int, d: int) -> int {
    let m = (iabs(a) * iabs(b)) / d;
    if (a < 0) != (b < 0) {
        -m
    } else {
        m
    }
}

/// `a * b / d <= c * b / d` when `0 <= a <= c`, `0 <= b`, `0 < d`.
pub proof fn lemma_mul_div_le(a: int, c: int, b: int, d: int)
    requires
        0 <= a <= c,
        0 <= b,
        0 < d,
    ensures
        (a * b) / d <= (c * b) / d,
{
    lemma_mul_inequality(a, c, b);
    lemma_div_is_ordered(a * b, c * b, d);
}

/// A vector in the plane; components are thousandths of a length unit.
#[derive(Clone, Copy, PartialEq, Eq, Structural, Debug)]
pub struct Vector {
    pub x: i64,
    pub y: i64,
}

/// A point in the plane; components are thousandths of a length unit.
#[derive(Clone, Copy, PartialEq, Eq, Structural, Debug)]
pub struct Position {
    pub x: i64,
    pub y: i64,
}

/// Spec-level result of scaling `(x, y)` to Euclidean length `target`
/// (componentwise truncating arithmetic; the zero vector stays zero).
pub open spec fn scale_spec(x: int, y: int, target: int) -> (int, int) {
    let len = norm_spec(x, y);
    if len == 0 {
        (0, 0)
    } else {
        (mul_div_tz(x, target, len), mul_div_tz(y, target, len))
    }
}

/// Magnitude part of one scaled component: `|c| * |t| / len`.
fn scale_component(c: i64, t: i64, len: u64) -> (r: i64)
    requires
        len > 0,
        iabs(c as int) <= len as int,
        t != i64::MIN,
    ensures
        r as int == mul_div_tz(c as int, t as int, len as int),
        iabs(r as int) <= iabs(t as int),
{
    let ac: u128 = if c >= 0 { c as u128 } else { (-(c as i128)) as u128 };
    let at: u128 = if t >= 0 { t as u128 } else { (-(t as i128)) as u128 };
    assert(ac * at <= u128::MAX) by (nonlinear_arith)
        requires
            ac <= 0x8000_0000_0000_0000u128,
            at <= 0x8000_0000_0000_0000u128,
    ;
    let q: u128 = ac * at / (len as u128);
    proof {
        lemma_mul_div_le(ac as int, len as int, at as int, len as int);
        lemma_div_by_multiple(at as int, len as int);
        lemma_mul_is_commutative(len as int, at as int);
        assert(q <= at);
    }
    let m = q as i64;
    if (c < 0) != (t < 0) {
        -m
    } else {
        m
    }
}

impl Vector {
    pub open spec fn norm(&self) -> int {
        norm_spec(self.x as int, self.y as int)
    }

    pub fn zero() -> (r: Self)
        ensures
            r.x == 0 && r.y == 0,
    {
        Self { x: 0, y: 0 }
    }

    /// Euclidean length, rounded down to a whole number of thousandths.
    pub fn length(&self) -> (r: u64)
        ensures
            r as int == self.norm(),
    {
        let ax: u128 = if self.x >= 0 { self.x as u128 } else { (-(self.x as i128)) as u128 };
        let ay: u128 = if self.y >= 0 { self.y as u128 } else { (-(self.y as i128)) as u128 };
        assert(ax * ax + ay * ay <= u128::MAX) by (nonlinear_arith)
            requires
                ax <= 0x8000_0000_0000_0000u128,
                ay <= 0x8000_0000_0000_0000u128,
        ;
        let n = ax * ax + ay * ay;
        assert(n == self.x as int * self.x as int + self.y as int * self.y as int)
            by (nonlinear_arith)
            requires
                ax == iabs(self.x as int),
                ay == iabs(self.y as int),
                n == ax * ax + ay * ay;
        isqrt(n)
    }

    /// The parallel vector of Euclidean length `target` (negative `target`
    /// reverses the direction); the zero vector is left unchanged.
    pub fn scale_to_length(&self, target: i64) -> (r: Vector)
        requires
            target != i64::MIN,
        ensures
            (r.x as int, r.y as int) == scale_spec(self.x as int, self.y as int, target as int),
            iabs(r.x as int) <= iabs(target as int),
            iabs(r.y as int) <= iabs(target as int),
    {
        let len = self.length();
        if len == 0 {
            return Vector { x: 0, y: 0 };
        }
        proof {
            lemma_component_le_norm(self.x as int, self.y as int);
        }
        Vector {
            x: scale_component(self.x, target, len),
            y: scale_component(self.y, target, len),
        }
    }
}

impl Position {
    pub fn zero() -> (r: Self)
        ensures
            r.x == 0 && r.y == 0,
    {
        Self { x: 0, y: 0 }
    }

    pub fn new(x: i64, y: i64) -> (r: Self)
        ensures
            r.x == x && r.y == y,
    {
        Self { x, y }
    }

    /// The displacement vector from `other` to `self`, saturated to the
    /// coordinate range (exact whenever both points lie in it).
    pub fn distance_to(&self, other: &Position) -> (r: Vector)
        ensures
            r.x as int == clamp_spec(self.x as int - other.x as int, CAP_COORD as int),
            r.y as int == clamp_spec(self.y as int - other.y as int, CAP_COORD as int),
    {
        Vector {
            x: clamp_i64(self.x as i128 - other.x as i128, CAP_COORD),
            y: clamp_i64(self.y as i128 - other.y as i128, CAP_COORD),
        }
    }

    /// Straight-line distance from `self` to `other`, rounded down.
    pub fn distance_length_to(&self, other: &Position) -> (r: u64)
        ensures
            r as int == norm_spec(
                clamp_spec(self.x as int - other.x as int, CAP_COORD as int),
                clamp_spec(self.y as int - other.y as int, CAP_COORD as int),
            ),
    {
        self.distance_to(other).length()
    }
}

/// Largest coordinate magnitude the simulation stores.
pub const CAP_COORD: i64 = 0x100_0000_0000;

/// Largest velocity component magnitude the simulation stores.
pub const CAP_VEL: i64 = 0x400_0000_0000;

/// Largest speed, acceleration or speed-limit magnitude accepted for a train.
pub const CAP_RATE: i64 = 0x10_0000;

/// Largest elapsed time, in milliseconds, accepted for one tick.
pub const MAX_TICK_MS: i64 = 60000;

/// Clamp `x` into `[-cap, cap]`.
pub open spec fn clamp_spec(x: int, cap: int) -> int {
    if x > cap {
        cap
    } else if x < -cap {
        -cap
    } else {
        x
    }
}

/// Clamp a wide intermediate into `[-cap, cap]` before storing it.
pub fn clamp_i64(x: i128, cap: i64) -> (r: i64)
    requires
        cap >= 0,
    ensures
        r as int == clamp_spec(x as int, cap as int),
{
    if x > cap as i128 {
        cap
    } else if x < -(cap as i128) {
        -cap
    } else {
        x as i64
    }
}

/// A bound on the norm from a bound on both components.
pub proof fn lemma_norm_bound(x: int, y: int, b: int)
    requires
        iabs(x) <= b,
        iabs(y) <= b,
        0 <= b,
    ensures
        0 <= norm_spec(x, y) <= 2 * b,
{
    let n = (x * x + y * y) as nat;
    lemma_isqrt_bounds(n);
    assert(x * x >= 0 && y * y >= 0) by (nonlinear_arith);
    assert(x * x + y * y <= 2 * b * b) by (nonlinear_arith)
        requires iabs(x) <= b && iabs(y) <= b && 0 <= b;
    assert(2 * b * b < (2 * b + 1) * (2 * b + 1)) by (nonlinear_arith)
        requires 0 <= b;
    if isqrt_spec(n) as int > 2 * b {
        assert(isqrt_spec(n) * isqrt_spec(n) >= (2 * b + 1) * (2 * b + 1)) by (nonlinear_arith)
            requires isqrt_spec(n) >= 2 * b + 1 && b >= 0;
    }
}

/// The throttle, braking ability and speed bounds of one train.
#[derive(Clone, Copy, PartialEq, Eq, Structural, Debug)]
pub struct TrainEngine {
    pub velocity: Vector,
    pub acceleration: Vector,
    pub vmax: i64,
    pub amax: i64,
}

/// A speed limit imposed on a train by the signal system.
#[derive(Clone, Copy, PartialEq, Eq, Structural, Debug)]
pub struct SpeedLimit {
    pub vmax: i64,
}

/// Extra stopping distance kept in front of every signal, in thousandths.
pub const BRAKING_MARGIN: i64 = 12000;

/// Distance below which a train counts as having reached its station berth.
pub const STATION_EPSILON: i64 = 200;

pub open spec fn coord_ok(p: Position) -> bool {
    &&& iabs(p.x as int) <= CAP_COORD as int
    &&& iabs(p.y as int) <= CAP_COORD as int
}

pub open spec fn vel_ok(v: Vector) -> bool {
    &&& iabs(v.x as int) <= CAP_VEL as int
    &&& iabs(v.y as int) <= CAP_VEL as int
}

pub open spec fn rate_ok(r: int) -> bool {
    0 <= r <= CAP_RATE as int
}

pub open spec fn engine_ok(e: TrainEngine) -> bool {
    &&& vel_ok(e.velocity)
    &&& iabs(e.acceleration.x as int) <= CAP_RATE as int
    &&& iabs(e.acceleration.y as int) <= CAP_RATE as int
    &&& rate_ok(e.vmax as int)
    &&& 1 <= e.amax <= CAP_RATE
}

/// Straight-line distance from `from` to `to`, rounded down (the length of
/// the clamped displacement).
pub open spec fn distance_spec(from: Position, to: Position) -> int {
    let d = direction_spec(from, to);
    norm_spec(d.0, d.1)
}

/// Displacement from `from` to `to`, clamped into the coordinate range.
pub open spec fn direction_spec(from: Position, to: Position) -> (int, int) {
    (
        clamp_spec(to.x as int - from.x as int, CAP_COORD as int),
        clamp_spec(to.y as int - from.y as int, CAP_COORD as int),
    )
}

/// The velocity a driven train stores this tick: its previous speed, re-aimed
/// at the next hop and clamped into the velocity range.
pub open spec fn aimed_velocity_spec(pos: Position, next: Position, e: TrainEngine) -> Vector {
    let (dx, dy) = direction_spec(pos, next);
    let vlen0 = norm_spec(e.velocity.x as int, e.velocity.y as int);
    let (nvx, nvy) = scale_spec(dx, dy, vlen0);
    Vector {
        x: clamp_spec(nvx, CAP_VEL as int) as i64,
        y: clamp_spec(nvy, CAP_VEL as int) as i64,
    }
}

/// Stopping distance needed to fall from `v` to `v_up` at deceleration `amax`,
/// plus the fixed safety margin.
pub open spec fn braking_distance_spec(v: int, v_up: int, amax: int) -> int {
    (v - v_up) * (v - v_up) / amax + BRAKING_MARGIN as int
}

/// The acceleration an en-route train chooses, as a function of its re-aimed
/// velocity: brake when over the current limit; brake when inside braking
/// distance of a speed drop ahead; accelerate when below every limit; else
/// coast.
pub open spec fn chosen_acceleration_spec(
    pos: Position,
    next: Position,
    e: TrainEngine,
    nv: Vector,
    next_is_halt: bool,
    limit_cur: Option<SpeedLimit>,
    limit_up: Option<SpeedLimit>,
) -> (int, int) {
    let (dx, dy) = direction_spec(pos, next);
    let dist = norm_spec(dx, dy);
    let vlen = norm_spec(nv.x as int, nv.y as int);
    let v_target: int = match limit_cur {
        Some(l) => l.vmax as int,
        None => e.vmax as int,
    };
    if vlen > v_target {
        scale_spec(dx, dy, -(e.amax as int))
    } else {
        let v_up: int = if next_is_halt {
            0
        } else {
            match limit_up {
                Some(l) => l.vmax as int,
                None => e.vmax as int,
            }
        };
        if vlen > v_up && dist < braking_distance_spec(vlen, v_up, e.amax as int) {
            scale_spec(dx, dy, -(e.amax as int))
        } else if vlen < v_target && vlen < v_up {
            scale_spec(dx, dy, e.amax as int)
        } else {
            (0, 0)
        }
    }
}

/// One open-road controller step: re-aim the velocity at the next hop, then
/// choose this tick's acceleration.
pub fn plan_movement(
    pos: Position,
    next: Position,
    e: &TrainEngine,
    next_is_halt: bool,
    limit_cur: Option<SpeedLimit>,
    limit_up: Option<SpeedLimit>,
) -> (r: (Vector, Vector))
    requires
        engine_ok(*e),
        limit_cur matches Some(l) ==> rate_ok(l.vmax as int),
        limit_up matches Some(l) ==> rate_ok(l.vmax as int),
    ensures
        r.0 == aimed_velocity_spec(pos, next, *e),
        (r.1.x as int, r.1.y as int) == chosen_acceleration_spec(
            pos, next, *e, r.0, next_is_halt, limit_cur, limit_up),
        vel_ok(r.0),
        iabs(r.1.x as int) <= e.amax as int,
        iabs(r.1.y as int) <= e.amax as int,
{
    let direction = next.distance_to(&pos);
    let dist = direction.length();
    let vlen0 = e.velocity.length();
    proof {
        lemma_norm_bound(e.velocity.x as int, e.velocity.y as int, CAP_VEL as int);
    }
    let scaled = direction.scale_to_length(vlen0 as i64);
    let nv = Vector {
        x: clamp_i64(scaled.x as i128, CAP_VEL),
        y: clamp_i64(scaled.y as i128, CAP_VEL),
    };
    let vlen = nv.length();
    proof {
        lemma_norm_bound(nv.x as int, nv.y as int, CAP_VEL as int);
    }
    let v_target: i64 = match limit_cur {
        Some(l) => l.vmax,
        None => e.vmax,
    };
    if vlen > v_target as u64 {
        return (nv, direction.scale_to_length(-e.amax));
    }
    let v_up: i64 = if next_is_halt {
        0
    } else {
        match limit_up {
            Some(l) => l.vmax,
            None => e.vmax,
        }
    };
    if vlen > v_up as u64 {
        let gap: u128 = (vlen - v_up as u64) as u128;
        assert(gap * gap + BRAKING_MARGIN <= u128::MAX) by (nonlinear_arith)
            requires gap <= 0x2_0000_0000_0000u128 && BRAKING_MARGIN == 12000i64;
        let braking_distance: u128 = gap * gap / (e.amax as u128) + BRAKING_MARGIN as u128;
        proof {
            lemma_div_nonincreasing((gap * gap) as int, e.amax as int);
            lemma_div_pos_is_pos((gap * gap) as int, e.amax as int);
        }
        if (dist as u128) < braking_distance {
            return (nv, direction.scale_to_length(-e.amax));
        }
    }
    if vlen < v_target as u64 && vlen < v_up as u64 {
        return (nv, direction.scale_to_length(e.amax));
    }
    (nv, Vector::zero())
}

/// One in-station repositioning step: snap the velocity to zero inside the
/// station epsilon, otherwise head straight for the berth.
pub open spec fn station_movement_spec(pos: Position, berth: Position) -> (Vector, Vector) {
    let (dx, dy) = direction_spec(pos, berth);
    let dist = norm_spec(dx, dy);
    if dist < STATION_EPSILON as int {
        (Vector { x: 0, y: 0 }, Vector { x: 0, y: 0 })
    } else {
        (
            Vector {
                x: clamp_spec(dx, CAP_VEL as int) as i64,
                y: clamp_spec(dy, CAP_VEL as int) as i64,
            },
            Vector { x: 0, y: 0 },
        )
    }
}

pub fn station_movement(pos: Position, berth: Position) -> (r: (Vector, Vector))
    ensures
        (r.0, r.1) == station_movement_spec(pos, berth),
        vel_ok(r.0),
        r.1.x == 0 && r.1.y == 0,
{
    let direction = berth.distance_to(&pos);
    let dist = direction.length();
    if dist < STATION_EPSILON as u64 {
        (Vector::zero(), Vector::zero())
    } else {
        (
            Vector {
                x: clamp_i64(direction.x as i128, CAP_VEL),
                y: clamp_i64(direction.y as i128, CAP_VEL),
            },
            Vector::zero(),
        )
    }
}

/// Truncating `a * dt / SCALE`, exact in wide arithmetic.
fn scaled_delta(a: i64, dt: i64) -> (r: i128)
    requires
        dt >= 0,
        iabs(a as int) <= CAP_VEL as int,
    ensures
        r as int == mul_div_tz(a as int, dt as int, SCALE as int),
        iabs(r as int) <= 0x2000_0000_0000_0000_0000_0000_0000i128 as int,
{
    let aa: u128 = if a >= 0 { a as u128 } else { (-(a as i128)) as u128 };
    assert(aa * (dt as u128) <= 0x2000_0000_0000_0000_0000_0000_0000u128) by (nonlinear_arith)
        requires
            aa <= 0x400_0000_0000u128,
            dt as u128 <= 0x8000_0000_0000_0000u128,
    ;
    let mag: u128 = aa * (dt as u128) / (SCALE as u128);
    proof {
        lemma_div_nonincreasing((aa * (dt as u128)) as int, SCALE as int);
        lemma_div_pos_is_pos((aa * (dt as u128)) as int, SCALE as int);
        assert(aa as int == iabs(a as int));
        assert(iabs(dt as int) == dt as int);
        assert((aa * (dt as u128)) as int == iabs(a as int) * iabs(dt as int));
        assert(mag as int == (iabs(a as int) * iabs(dt as int)) / (SCALE as int));
        if dt == 0 {
            lemma_mul_by_zero_is_zero(aa as int);
            lemma_div_of0(SCALE as int);
            assert(mag == 0);
        }
    }
    if a < 0 && dt > 0 {
        -(mag as i128)
    } else {
        mag as i128
    }
}

/// Symplectic Euler integration of one train over `dt` milliseconds: the
/// velocity absorbs the acceleration first, then the position absorbs the new
/// velocity; both stores are clamped into the simulation's ranges.
pub open spec fn integrate_spec(pos: Position, e: TrainEngine, dt: int) -> (Position, Vector) {
    let vx = clamp_spec(
        e.velocity.x + mul_div_tz(e.acceleration.x as int, dt, SCALE as int),
        CAP_VEL as int,
    );
    let vy = clamp_spec(
        e.velocity.y + mul_div_tz(e.acceleration.y as int, dt, SCALE as int),
        CAP_VEL as int,
    );
    let px = clamp_spec(pos.x + mul_div_tz(vx, dt, SCALE as int), CAP_COORD as int);
    let py = clamp_spec(pos.y + mul_div_tz(vy, dt, SCALE as int), CAP_COORD as int);
    (
        Position { x: px as i64, y: py as i64 },
        Vector { x: vx as i64, y: vy as i64 },
    )
}

pub fn integrate(pos: Position, e: &TrainEngine, dt: i64) -> (r: (Position, Vector))
    requires
        dt >= 0,
        engine_ok(*e),
    ensures
        (r.0, r.1) == integrate_spec(pos, *e, dt as int),
        coord_ok(r.0),
        vel_ok(r.1),
{
    let vx = clamp_i64(e.velocity.x as i128 + scaled_delta(e.acceleration.x, dt), CAP_VEL);
    let vy = clamp_i64(e.velocity.y as i128 + scaled_delta(e.acceleration.y, dt), CAP_VEL);
    let px = clamp_i64(pos.x as i128 + scaled_delta(vx, dt), CAP_COORD);
    let py = clamp_i64(pos.y as i128 + scaled_delta(vy, dt), CAP_COORD);
    (Position { x: px, y: py }, Vector { x: vx, y: vy })
}

} // verus!
