//! A ball's state and its motion over one time step.
use vstd::prelude::*;
use crate::arith::{Vec2, tdiv, lemma_tdiv_bounds, div_trunc, floor_sqrt, is_floor_sqrt, isqrt, lemma_floor_sqrt_unique};

verus! {

/// Radius shared by every ball, in position units.
pub const RADIUS: i64 = 30_000;

/// Mass shared by every ball, in grams.
pub const BALL_MASS: i64 = 170;

/// A ball moving at velocity `v` travels `v * dt / TIME_SCALE` position units in `dt` ms.
pub const TIME_SCALE: i64 = 1_000_000;

/// Longest step, in milliseconds, that the table is advanced by at once; a
/// longer frame is split into steps of at most this length.
pub const MAX_STEP: i64 = 1000;

/// Linear speed lost per millisecond to rolling friction, in velocity units.
pub const FRICTION: i64 = 100_000;

/// Spin lost per millisecond, in velocity units of surface speed.
pub const SPIN_FRICTION: i64 = 100_000;

/// Speeds below this are snapped to exactly zero.
pub const STOP_SPEED: i64 = 1000;

/// One full turn of a ball's roll angle, in milliradians.
pub const FULL_TURN: i64 = 6283;

/// Surface travel (velocity units times milliseconds) that turns a ball by one milliradian.
pub const ROLL_DIVISOR: i64 = 30_000_000;

/// Bound on each velocity and spin component that the energy budget keeps.
pub const SPEED_BOUND: i64 = 4_000_000_000;

/// Bound on each coordinate of any ball, pocketed or not.
pub const POS_BOUND: i64 = 100_000_000;

/// Bound on each coordinate of a ball in play before it moves.
pub const REACH: i64 = 10_000_000;

/// State of one ball. `spin` is the surface speed of its roll, in velocity units;
/// `orientation` is its roll angle in milliradians.
#[derive(Clone, Copy, Debug, PartialEq, Eq, Structural)]
pub struct Ball {
    pub number: u8,
    pub is_solid: bool,
    pub position: Vec2,
    pub orientation: i64,
    pub velocity: Vec2,
    pub spin: i64,
    pub active: bool,
}

pub open spec fn abs(a: int) -> int {
    if a < 0 {
        -a
    } else {
        a
    }
}

pub open spec fn max(a: int, b: int) -> int {
    if a < b {
        b
    } else {
        a
    }
}

/// Largest magnitude among the two velocity components.
pub open spec fn speed_measure(v: Vec2) -> int {
    max(abs(v.x as int), abs(v.y as int))
}

/// `c` moved toward zero by `amt`, never past it.
pub open spec fn decay(c: int, amt: int) -> int {
    if c > amt {
        c - amt
    } else if c < -amt {
        c + amt
    } else {
        0
    }
}

/// `c` limited to the range `-m..=m`.
pub open spec fn clamp_mag(c: int, m: int) -> int {
    if c > m {
        m
    } else if c < -m {
        -m
    } else {
        c
    }
}

/// Speed of a velocity, rounded down.
pub open spec fn speed(vx: int, vy: int) -> int {
    floor_sqrt(vx * vx + vy * vy)
}

/// Velocity after `dt` ms of friction: the speed drops by `FRICTION * dt`
/// and the direction is kept (each component scaled by the new speed over the
/// old, rounded toward zero); a ball that would be left slower than
/// `STOP_SPEED`, before or after the rounding, stops.
pub open spec fn slowed(vx: int, vy: int, dt: int) -> (int, int) {
    let s = speed(vx, vy);
    let t = s - FRICTION * dt;
    if dt == 0 {
        (vx, vy)
    } else if t < STOP_SPEED {
        (0, 0)
    } else {
        let x = tdiv(vx * t, s);
        let y = tdiv(vy * t, s);
        if speed(x, y) < STOP_SPEED {
            (0, 0)
        } else {
            (x, y)
        }
    }
}

/// Kinetic energy of a ball, scaled by 10 / mass: `5 |v|^2 + 2 spin^2`
/// (a solid sphere's rolling energy is two fifths of its linear energy).
pub open spec fn energy(b: Ball) -> int {
    5 * (b.velocity.x * b.velocity.x + b.velocity.y * b.velocity.y) + 2 * (b.spin * b.spin)
}

/// Total energy that the balls on the table may hold at once: what the
/// strongest shot gives a ball at rest.
pub open spec fn energy_budget() -> int {
    10_000_000_000_000_000_000
}

pub proof fn lemma_energy_nonneg(b: Ball)
    ensures
        energy(b) >= 0,
{
    assert(b.velocity.x * b.velocity.x >= 0) by (nonlinear_arith);
    assert(b.velocity.y * b.velocity.y >= 0) by (nonlinear_arith);
    assert(b.spin * b.spin >= 0) by (nonlinear_arith);
}

pub proof fn lemma_component_bound(c: int, k: int)
    requires
        k * (c * c) <= energy_budget(),
        k >= 2,
    ensures
        -SPEED_BOUND <= c <= SPEED_BOUND,
{
    if c > SPEED_BOUND || c < -SPEED_BOUND {
        assert(c * c > SPEED_BOUND * SPEED_BOUND) by (nonlinear_arith)
            requires
                c > SPEED_BOUND || c < -SPEED_BOUND,
        ;
        assert(k * (c * c) >= 2 * (c * c)) by (nonlinear_arith)
            requires
                k >= 2,
        ;
    }
}

impl Ball {
    /// Bounds that every ball's state keeps.
    pub open spec fn ok(self) -> bool {
        &&& self.number < 16
        &&& -POS_BOUND <= self.position.x <= POS_BOUND
        &&& -POS_BOUND <= self.position.y <= POS_BOUND
        &&& -SPEED_BOUND <= self.velocity.x <= SPEED_BOUND
        &&& -SPEED_BOUND <= self.velocity.y <= SPEED_BOUND
        &&& -SPEED_BOUND <= self.spin <= SPEED_BOUND
        &&& 0 <= self.orientation < FULL_TURN
        &&& !self.active ==> self.velocity.is_zero() && self.spin == 0
    }

    pub open spec fn at_rest(self) -> bool {
        self.velocity.is_zero() && self.spin == 0
    }
}

/// Velocity after steps of friction lasting `dts[0]`, `dts[1]`, ... ms.
pub open spec fn coast(vx: int, vy: int, dts: Seq<int>) -> (int, int)
    decreases dts.len(),
{
    if dts.len() == 0 {
        (vx, vy)
    } else {
        let v = slowed(vx, vy, dts[0]);
        coast(v.0, v.1, dts.drop_first())
    }
}

/// `v * t / s` rounded toward zero is at most `v * t / s` in magnitude.
proof fn lemma_tdiv_scaled(v: int, t: int, s: int)
    requires
        s > 0,
        t >= 0,
    ensures
        s * abs(tdiv(v * t, s)) <= abs(v) * t,
{
    let a = abs(v) * t;
    assert(abs(v * t) == a) by (nonlinear_arith)
        requires
            a == abs(v) * t,
            t >= 0,
    ;
    assert(a >= 0) by (nonlinear_arith)
        requires
            a == abs(v) * t,
            t >= 0,
    ;
    vstd::arithmetic::div_mod::lemma_fundamental_div_mod(a, s);
    vstd::arithmetic::div_mod::lemma_div_pos_is_pos(a, s);
    assert(abs(tdiv(v * t, s)) == a / s);
    assert(s * (a / s) <= a);
}

/// One step of friction either stops a ball or takes at least `FRICTION * dt`
/// off its speed.
pub proof fn lemma_slowed_progress(vx: int, vy: int, dt: int)
    requires
        dt > 0,
    ensures
        slowed(vx, vy, dt) == (0int, 0int) || speed(slowed(vx, vy, dt).0, slowed(vx, vy, dt).1)
            <= speed(vx, vy) - FRICTION * dt,
{
    let n = vx * vx + vy * vy;
    assert(n >= 0) by (nonlinear_arith)
        requires
            n == vx * vx + vy * vy,
    ;
    let s = speed(vx, vy);
    lemma_floor_sqrt_exists(n);
    let t = s - FRICTION * dt;
    if t >= STOP_SPEED {
        let nx = tdiv(vx * t, s);
        let ny = tdiv(vy * t, s);
        let n2 = nx * nx + ny * ny;
        assert(n2 >= 0) by (nonlinear_arith)
            requires
                n2 == nx * nx + ny * ny,
        ;
        lemma_floor_sqrt_exists(n2);
        let m = floor_sqrt(n2);
        lemma_tdiv_scaled(vx, t, s);
        lemma_tdiv_scaled(vy, t, s);
        lemma_square_le_nonneg(s * abs(nx), abs(vx) * t);
        lemma_square_le_nonneg(s * abs(ny), abs(vy) * t);
        assert(s * s * (nx * nx) == (s * abs(nx)) * (s * abs(nx))) by (nonlinear_arith);
        assert(s * s * (ny * ny) == (s * abs(ny)) * (s * abs(ny))) by (nonlinear_arith);
        assert(t * t * (vx * vx) == (abs(vx) * t) * (abs(vx) * t)) by (nonlinear_arith);
        assert(t * t * (vy * vy) == (abs(vy) * t) * (abs(vy) * t)) by (nonlinear_arith);
        assert(s * s * n2 == s * s * (nx * nx) + s * s * (ny * ny)) by (nonlinear_arith)
            requires
                n2 == nx * nx + ny * ny,
        ;
        assert(t * t * n == t * t * (vx * vx) + t * t * (vy * vy)) by (nonlinear_arith)
            requires
                n == vx * vx + vy * vy,
        ;
        assert(s * s * n2 <= t * t * n) by (nonlinear_arith)
            requires
                s * s * n2 == s * s * (nx * nx) + s * s * (ny * ny),
                t * t * n == t * t * (vx * vx) + t * t * (vy * vy),
                s * s * (nx * nx) == (s * abs(nx)) * (s * abs(nx)),
                s * s * (ny * ny) == (s * abs(ny)) * (s * abs(ny)),
                t * t * (vx * vx) == (abs(vx) * t) * (abs(vx) * t),
                t * t * (vy * vy) == (abs(vy) * t) * (abs(vy) * t),
                (s * abs(nx)) * (s * abs(nx)) <= (abs(vx) * t) * (abs(vx) * t),
                (s * abs(ny)) * (s * abs(ny)) <= (abs(vy) * t) * (abs(vy) * t),
                n2 == nx * nx + ny * ny,
                n == vx * vx + vy * vy,
        ;
        if m > t {
            assert(false) by (nonlinear_arith)
                requires
                    m >= t + 1,
                    m * m <= n2,
                    n < (s + 1) * (s + 1),
                    s * s * n2 <= t * t * n,
                    0 < t < s,
            ;
        }
    }
}

proof fn lemma_square_le_nonneg(a: int, b: int)
    requires
        0 <= a <= b,
    ensures
        a * a <= b * b,
{
    assert(a * a <= b * b) by (nonlinear_arith)
        requires
            0 <= a <= b,
    ;
}

/// Every non-negative integer has a square root rounded down.
pub proof fn lemma_floor_sqrt_exists(n: int)
    requires
        n >= 0,
    ensures
        is_floor_sqrt(floor_sqrt(n), n),
    decreases n,
{
    if n == 0 {
        assert(is_floor_sqrt(0, 0));
    } else {
        lemma_floor_sqrt_exists(n - 1);
        let r = floor_sqrt(n - 1);
        if n < (r + 1) * (r + 1) {
            assert(is_floor_sqrt(r, n));
        } else {
            assert(is_floor_sqrt(r + 1, n)) by (nonlinear_arith)
                requires
                    r >= 0,
                    n - 1 < (r + 1) * (r + 1),
                    n >= (r + 1) * (r + 1),
            ;
        }
    }
}

/// A ball coasting on friction alone comes to rest exactly, not
/// asymptotically: after steps each at least `d > 0` ms long, once friction
/// over the steps reaches its speed, its velocity is exactly zero.
pub proof fn lemma_comes_to_rest(vx: int, vy: int, dts: Seq<int>, d: int)
    requires
        d > 0,
        forall|i: int| 0 <= i < dts.len() ==> #[trigger] dts[i] >= d,
        dts.len() * (FRICTION * d) >= speed(vx, vy),
    ensures
        coast(vx, vy, dts) == (0int, 0int),
    decreases dts.len(),
{
    let f = FRICTION * d;
    let k = dts.len();
    if k == 0 {
        assert(k * f == 0) by (nonlinear_arith)
            requires
                k == 0,
        ;
        let n = vx * vx + vy * vy;
        assert(n >= 0) by (nonlinear_arith)
            requires
                n == vx * vx + vy * vy,
        ;
        lemma_floor_sqrt_exists(n);
        assert(speed(vx, vy) == 0);
        assert(n < 1) by (nonlinear_arith)
            requires
                n < (0 + 1) * (0 + 1),
        ;
        assert(vx * vx + vy * vy == 0 ==> vx == 0 && vy == 0) by (nonlinear_arith);
    } else {
        let dt = dts[0];
        let v = slowed(vx, vy, dt);
        lemma_slowed_progress(vx, vy, dt);
        assert(FRICTION * dt >= f) by (nonlinear_arith)
            requires
                dt >= d,
                f == FRICTION * d,
        ;
        let rest = dts.drop_first();
        assert forall|i: int| 0 <= i < rest.len() implies #[trigger] rest[i] >= d by {
            assert(rest[i] == dts[i + 1]);
        }
        assert((k - 1) * f == k * f - f) by (nonlinear_arith);
        if v.0 == 0 && v.1 == 0 {
            lemma_rest_stays(rest, d);
        } else {
            lemma_comes_to_rest(v.0, v.1, rest, d);
        }
    }
}

proof fn lemma_rest_stays(dts: Seq<int>, d: int)
    requires
        d > 0,
        forall|i: int| 0 <= i < dts.len() ==> #[trigger] dts[i] >= d,
    ensures
        coast(0, 0, dts) == (0int, 0int),
    decreases dts.len(),
{
    if dts.len() > 0 {
        lemma_floor_sqrt_unique(0, 0);
        assert(speed(0, 0) == 0);
        assert(FRICTION * dts[0] > 0) by (nonlinear_arith)
            requires
                dts[0] >= d > 0,
        ;
        let rest = dts.drop_first();
        assert forall|i: int| 0 <= i < rest.len() implies #[trigger] rest[i] >= d by {
            assert(rest[i] == dts[i + 1]);
        }
        lemma_rest_stays(rest, d);
    }
}

pub proof fn lemma_square_le(a: int, b: int)
    requires
        abs(a) <= abs(b),
    ensures
        a * a <= b * b,
{
    assert(abs(a) * abs(a) <= abs(b) * abs(b)) by (nonlinear_arith)
        requires
            0 <= abs(a) <= abs(b),
    ;
    assert(a * a == abs(a) * abs(a)) by (nonlinear_arith);
    assert(b * b == abs(b) * abs(b)) by (nonlinear_arith);
}

fn decay_exec(c: i64, amt: i64) -> (r: i64)
    requires
        amt >= 0,
    ensures
        r == decay(c as int, amt as int),
{
    if c > amt {
        c - amt
    } else if c < -amt {
        c + amt
    } else {
        0
    }
}

fn clamp_exec(c: i64, m: i64) -> (r: i64)
    requires
        m >= 0,
    ensures
        r == clamp_mag(c as int, m as int),
{
    if c > m {
        m
    } else if c < -m {
        -m
    } else {
        c
    }
}

fn abs_exec(c: i64) -> (r: i64)
    requires
        c > i64::MIN,
    ensures
        r == abs(c as int),
{
    if c < 0 {
        -c
    } else {
        c
    }
}

/// The velocity `(vx, vy)` after `dt` ms of friction.
fn slow_exec(vx: i64, vy: i64, dt: i64, spin: i64) -> (r: (i64, i64))
    requires
        5 * (vx * vx + vy * vy) + 2 * (spin * spin) <= energy_budget(),
        0 <= dt <= MAX_STEP,
    ensures
        (r.0 as int, r.1 as int) == slowed(vx as int, vy as int, dt as int),
        abs(r.0 as int) <= abs(vx as int),
        abs(r.1 as int) <= abs(vy as int),
{
    if dt == 0 {
        return (vx, vy);
    }
    assert(0 <= vx * vx && 0 <= vy * vy && 0 <= spin * spin) by (nonlinear_arith);
    let n = (vx as i128 * vx as i128 + vy as i128 * vy as i128) as u64;
    assert(n <= 2_000_000_000_000_000_000);
    let root = isqrt(n);
    assert(root < 2_000_000_000) by (nonlinear_arith)
        requires
            root * root <= n,
            n <= 2_000_000_000_000_000_000,
            root >= 0,
    ;
    let s = root as i64;
    assert(s == speed(vx as int, vy as int));
    let t = s - FRICTION * dt;
    if t < STOP_SPEED {
        return (0, 0);
    }
    proof {
        lemma_component_bound(vx as int, 5);
        lemma_component_bound(vy as int, 5);
    }
    assert(-8_000_000_000_000_000_000 <= vx * t <= 8_000_000_000_000_000_000) by (nonlinear_arith)
        requires
            -SPEED_BOUND <= vx <= SPEED_BOUND,
            0 < t < 2_000_000_000,
    ;
    assert(-8_000_000_000_000_000_000 <= vy * t <= 8_000_000_000_000_000_000) by (nonlinear_arith)
        requires
            -SPEED_BOUND <= vy <= SPEED_BOUND,
            0 < t < 2_000_000_000,
    ;
    proof {
        lemma_scaled_down(vx as int, t as int, s as int);
        lemma_scaled_down(vy as int, t as int, s as int);
    }
    let x = div_trunc(vx * t, s);
    let y = div_trunc(vy * t, s);
    proof {
        lemma_square_le(x as int, vx as int);
        lemma_square_le(y as int, vy as int);
    }
    assert(0 <= x * x && 0 <= y * y) by (nonlinear_arith);
    let n2 = (x as i128 * x as i128 + y as i128 * y as i128) as u64;
    let root2 = isqrt(n2);
    assert(root2 == speed(x as int, y as int));
    if root2 < STOP_SPEED as u64 {
        return (0, 0);
    }
    (x, y)
}

/// `|v * num / den|`, rounded toward zero, is at most `|v|` when `num <= den`.
pub proof fn lemma_scaled_down(v: int, num: int, den: int)
    requires
        0 <= num <= den,
        den > 0,
    ensures
        abs(tdiv(v * num, den)) <= abs(v),
{
    let a = abs(v);
    assert(abs(v * num) == a * num) by (nonlinear_arith)
        requires
            a == abs(v),
            num >= 0,
    ;
    assert(0 <= a * num <= a * den) by (nonlinear_arith)
        requires
            a >= 0,
            0 <= num <= den,
    ;
    vstd::arithmetic::div_mod::lemma_div_is_ordered(a * num, a * den, den);
    vstd::arithmetic::div_mod::lemma_div_by_multiple(a, den);
    vstd::arithmetic::div_mod::lemma_div_pos_is_pos(a * num, den);
    assert(abs(tdiv(v * num, den)) == (a * num) / den);
}

/// A ball advanced by `dt` milliseconds: it moves by its velocity, turns by
/// its spin, and friction slows both; the spin never exceeds the larger
/// component of the new velocity, so a ball that stops also stops turning.
/// A pocketed ball stays as it is.
pub open spec fn integrated(b: Ball, dt: int) -> Ball {
    if !b.active {
        b
    } else {
        let v = slowed(b.velocity.x as int, b.velocity.y as int, dt);
        let nv = Vec2 { x: v.0 as i64, y: v.1 as i64 };
        Ball {
            position: Vec2 {
                x: (b.position.x + tdiv(b.velocity.x * dt, TIME_SCALE as int)) as i64,
                y: (b.position.y + tdiv(b.velocity.y * dt, TIME_SCALE as int)) as i64,
            },
            velocity: nv,
            spin: clamp_mag(decay(b.spin as int, SPIN_FRICTION * dt), speed_measure(nv)) as i64,
            orientation: ((b.orientation + tdiv(b.spin * dt, ROLL_DIVISOR as int)) % (FULL_TURN as int)) as i64,
            ..b
        }
    }
}

/// Advances one ball by `dt` milliseconds: it moves by its velocity, turns by
/// its spin, and friction slows both. A pocketed ball is returned unchanged.
pub fn integrate(b: Ball, dt: i64) -> (r: Ball)
    requires
        b.ok(),
        energy(b) <= energy_budget(),
        b.active ==> -REACH <= b.position.x <= REACH && -REACH <= b.position.y <= REACH,
        0 <= dt <= MAX_STEP,
    ensures
        r == integrated(b, dt as int),
        !b.active ==> r == b,
        b.active ==> {
            &&& r.number == b.number && r.is_solid == b.is_solid && r.active
            &&& r.position.x == b.position.x + tdiv(b.velocity.x * dt, TIME_SCALE as int)
            &&& r.position.y == b.position.y + tdiv(b.velocity.y * dt, TIME_SCALE as int)
            &&& (r.velocity.x as int, r.velocity.y as int) == slowed(b.velocity.x as int, b.velocity.y as int, dt as int)
            &&& r.spin == clamp_mag(
                decay(b.spin as int, SPIN_FRICTION * dt),
                speed_measure(r.velocity),
            )
            &&& r.orientation == (b.orientation + tdiv(b.spin * dt, ROLL_DIVISOR as int)) % (
            FULL_TURN as int)
        },
        r.ok(),
        energy(r) <= energy(b),
        dt == 0 ==> r.position == b.position && r.velocity == b.velocity,
        dt > 0 && !r.velocity.is_zero() ==> speed(r.velocity.x as int, r.velocity.y as int) >= STOP_SPEED,
        r.velocity.is_zero() ==> r.spin == 0,
        b.active && -REACH <= b.position.x <= REACH ==> -REACH - 4_000_000 <= r.position.x <= REACH
            + 4_000_000,
        b.active && -REACH <= b.position.y <= REACH ==> -REACH - 4_000_000 <= r.position.y <= REACH
            + 4_000_000,
{
    if !b.active {
        return b;
    }
    let vx = b.velocity.x;
    let vy = b.velocity.y;
    assert(-4_000_000_000_000 <= vx * dt <= 4_000_000_000_000) by (nonlinear_arith)
        requires
            -SPEED_BOUND <= vx <= SPEED_BOUND,
            0 <= dt <= MAX_STEP,
    ;
    assert(-4_000_000_000_000 <= vy * dt <= 4_000_000_000_000) by (nonlinear_arith)
        requires
            -SPEED_BOUND <= vy <= SPEED_BOUND,
            0 <= dt <= MAX_STEP,
    ;
    assert(-4_000_000_000_000 <= b.spin * dt <= 4_000_000_000_000) by (nonlinear_arith)
        requires
            -SPEED_BOUND <= b.spin <= SPEED_BOUND,
            0 <= dt <= MAX_STEP,
    ;
    let mx = div_trunc(vx * dt, TIME_SCALE);
    let my = div_trunc(vy * dt, TIME_SCALE);
    proof {
        lemma_tdiv_bounds(vx * dt, TIME_SCALE as int);
        lemma_tdiv_bounds(vy * dt, TIME_SCALE as int);
        lemma_tdiv_bounds(b.spin * dt, ROLL_DIVISOR as int);
        vstd::arithmetic::div_mod::lemma_div_is_ordered(vx * dt, 4_000_000_000_000, TIME_SCALE as int);
        vstd::arithmetic::div_mod::lemma_div_is_ordered(-(vx * dt), 4_000_000_000_000, TIME_SCALE as int);
        vstd::arithmetic::div_mod::lemma_div_is_ordered(vy * dt, 4_000_000_000_000, TIME_SCALE as int);
        vstd::arithmetic::div_mod::lemma_div_is_ordered(-(vy * dt), 4_000_000_000_000, TIME_SCALE as int);
        vstd::arithmetic::div_mod::lemma_div_is_ordered(b.spin * dt, 4_000_000_000_000, ROLL_DIVISOR as int);
        vstd::arithmetic::div_mod::lemma_div_is_ordered(-(b.spin * dt), 4_000_000_000_000, ROLL_DIVISOR as int);
    }
    let turn = div_trunc(b.spin * dt, ROLL_DIVISOR);
    let (nx, ny) = slow_exec(vx, vy, dt, b.spin);
    let measure = if abs_exec(nx) < abs_exec(ny) {
        abs_exec(ny)
    } else {
        abs_exec(nx)
    };
    let spin = clamp_exec(decay_exec(b.spin, SPIN_FRICTION * dt), measure);
    // 100 full turns exceed any single step's turn, so the sum stays non-negative.
    let angle = (b.orientation + turn + 100 * FULL_TURN) as u64 % (FULL_TURN as u64);
    let r = Ball {
        number: b.number,
        is_solid: b.is_solid,
        position: Vec2 { x: b.position.x + mx, y: b.position.y + my },
        orientation: angle as i64,
        velocity: Vec2 { x: nx, y: ny },
        spin,
        active: true,
    };
    proof {
        let o = b.orientation + turn;
        vstd::arithmetic::div_mod::lemma_mod_add_multiples_vanish(o + 99 * FULL_TURN, FULL_TURN as int);
        lemma_mod_shift(o, FULL_TURN as int, 100);
        lemma_square_le(nx as int, vx as int);
        lemma_square_le(ny as int, vy as int);
        lemma_square_le(spin as int, b.spin as int);
    }
    r
}

proof fn lemma_mod_shift(a: int, m: int, k: nat)
    requires
        m > 0,
    ensures
        (a + k * m) % m == a % m,
    decreases k,
{
    if k > 0 {
        let b = a + (k - 1) * m;
        lemma_mod_shift(a, m, (k - 1) as nat);
        vstd::arithmetic::div_mod::lemma_mod_add_multiples_vanish(b, m);
        assert(m + b == a + k * m) by (nonlinear_arith)
            requires
                b == a + (k - 1) * m,
        ;
    } else {
        assert(k * m == 0) by (nonlinear_arith)
            requires
                k == 0,
        ;
    }
}

} // verus!
