//! Detection and resolution of ball-ball and ball-cushion contacts.
use vstd::prelude::*;
use crate::arith::{Vec2, tdiv, div_trunc, lemma_tdiv_bounds, floor_sqrt, isqrt, lemma_floor_sqrt_unique};
use crate::ball::{Ball, RADIUS, energy, abs, lemma_square_le, lemma_scaled_down, clamp_mag, energy_budget, lemma_component_bound};
use crate::table::Table;

verus! {

/// Bound on each coordinate that contact resolution keeps a ball within.
pub const SEPARATION_LIMIT: i64 = 50_000_000;

/// Length of a contact normal, in its integer units.
pub const NORMAL_SCALE: i64 = 1000;

/// A ball's coordinate `p` and velocity component `v` along one axis after a
/// bounce off the cushions at `lo` and `hi`: the center is pushed back to one
/// radius from the cushion it crossed, and a velocity into that cushion is
/// reversed and scaled by `num / den`.
pub open spec fn bounce(p: int, v: int, lo: int, hi: int, num: int, den: int) -> (int, int) {
    if p < lo + RADIUS {
        (lo + RADIUS, if v < 0 { -tdiv(v * num, den) } else { v })
    } else if p > hi - RADIUS {
        (hi - RADIUS, if v > 0 { -tdiv(v * num, den) } else { v })
    } else {
        (p, v)
    }
}


fn bounce_axis(p: i64, v: i64, lo: i64, hi: i64, num: i64, den: i64) -> (r: (i64, i64))
    requires
        lo + 2 * RADIUS < hi,
        -SEPARATION_LIMIT <= lo,
        hi <= SEPARATION_LIMIT,
        -4_000_000_000 <= v <= 4_000_000_000,
        0 <= num <= den <= 1000,
        den > 0,
    ensures
        (r.0 as int, r.1 as int) == bounce(p as int, v as int, lo as int, hi as int, num as int, den as int),
        lo + RADIUS <= r.0 <= hi - RADIUS,
        abs(r.1 as int) <= abs(v as int),
{
    assert(-4_000_000_000_000 <= v * num <= 4_000_000_000_000) by (nonlinear_arith)
        requires
            -4_000_000_000 <= v <= 4_000_000_000,
            0 <= num <= 1000,
    ;
    proof {
        lemma_scaled_down(v as int, num as int, den as int);
    }
    if p < lo + RADIUS {
        (lo + RADIUS, if v < 0 { -div_trunc(v * num, den) } else { v })
    } else if p > hi - RADIUS {
        (hi - RADIUS, if v > 0 { -div_trunc(v * num, den) } else { v })
    } else {
        (p, v)
    }
}

/// A ball after its cushion contacts: a ball in play is pushed back inside the
/// cushions and bounced off each one it crossed; a pocketed ball stays as it is.
pub open spec fn cushioned(table: &Table, b: Ball) -> Ball {
    if !b.active {
        b
    } else {
        let n = table.restitution_num as int;
        let d = table.restitution_den as int;
        let bx = bounce(b.position.x as int, b.velocity.x as int, table.bounds.min.x as int, table.bounds.max.x as int, n, d);
        let by = bounce(b.position.y as int, b.velocity.y as int, table.bounds.min.y as int, table.bounds.max.y as int, n, d);
        Ball {
            position: Vec2 { x: bx.0 as i64, y: by.0 as i64 },
            velocity: Vec2 { x: bx.1 as i64, y: by.1 as i64 },
            ..b
        }
    }
}

/// Pushes a ball in play back inside the cushions and bounces its velocity
/// off each cushion it crossed. A pocketed ball is returned unchanged.
pub fn resolve_cushions(table: &Table, b: Ball) -> (r: Ball)
    requires
        table.wf(),
        b.ok(),
    ensures
        r == cushioned(table, b),
        !b.active ==> r == b,
        b.active ==> {
            let n = table.restitution_num as int;
            let d = table.restitution_den as int;
            let bx = bounce(b.position.x as int, b.velocity.x as int, table.bounds.min.x as int, table.bounds.max.x as int, n, d);
            let by = bounce(b.position.y as int, b.velocity.y as int, table.bounds.min.y as int, table.bounds.max.y as int, n, d);
            &&& r.position.x == bx.0 && r.velocity.x == bx.1
            &&& r.position.y == by.0 && r.velocity.y == by.1
            &&& r.number == b.number && r.is_solid == b.is_solid && r.active
            &&& r.spin == b.spin && r.orientation == b.orientation
            &&& table.bounds.holds_center(r.position)
        },
        r.ok(),
        energy(r) <= energy(b),
{
    if !b.active {
        return b;
    }
    let lo = table.bounds.min;
    let hi = table.bounds.max;
    let (px, vx) = bounce_axis(b.position.x, b.velocity.x, lo.x, hi.x, table.restitution_num, table.restitution_den);
    let (py, vy) = bounce_axis(b.position.y, b.velocity.y, lo.y, hi.y, table.restitution_num, table.restitution_den);
    proof {
        lemma_square_le(vx as int, b.velocity.x as int);
        lemma_square_le(vy as int, b.velocity.y as int);
    }
    Ball { position: Vec2 { x: px, y: py }, velocity: Vec2 { x: vx, y: vy }, ..b }
}

/// Squared distance between the centers of two balls.
pub open spec fn center_dist2(a: Ball, b: Ball) -> int {
    let dx = b.position.x - a.position.x;
    let dy = b.position.y - a.position.y;
    dx * dx + dy * dy
}

/// Two balls in play whose centers are closer than two radii.
pub open spec fn overlapping(a: Ball, b: Ball) -> bool {
    a.active && b.active && center_dist2(a, b) < 4 * RADIUS * RADIUS
}

/// The contact normal from `a` toward `b`, about `NORMAL_SCALE` long; when the
/// centers coincide it is the default normal, straight up.
pub open spec fn contact_normal(a: Ball, b: Ball) -> (int, int) {
    let dx = b.position.x - a.position.x;
    let dy = b.position.y - a.position.y;
    let dist = floor_sqrt(dx * dx + dy * dy);
    let n = if dist == 0 {
        (0int, 0int)
    } else {
        (tdiv(dx * NORMAL_SCALE, dist), tdiv(dy * NORMAL_SCALE, dist))
    };
    if n.0 == 0 && n.1 == 0 {
        (0, NORMAL_SCALE as int)
    } else {
        n
    }
}

/// Closing speed of `a` toward `b` along the contact normal, times the normal's length.
pub open spec fn closing(a: Ball, b: Ball) -> int {
    let n = contact_normal(a, b);
    (a.velocity.x - b.velocity.x) * n.0 + (a.velocity.y - b.velocity.y) * n.1
}

/// Multiple of the contact normal that passes from `a` to `b`: the closing
/// velocity's component along the normal, rounded down; zero for balls that
/// are already separating.
pub open spec fn impulse(a: Ball, b: Ball) -> int {
    let n = contact_normal(a, b);
    if closing(a, b) > 0 {
        closing(a, b) / (n.0 * n.0 + n.1 * n.1)
    } else {
        0
    }
}

/// How far `b` is pushed along the normal (and `a` the other way): half the
/// penetration depth.
pub open spec fn push(a: Ball, b: Ball) -> (int, int) {
    let n = contact_normal(a, b);
    let pen = 2 * RADIUS - floor_sqrt(center_dist2(a, b));
    (tdiv(n.0 * pen, 2 * NORMAL_SCALE), tdiv(n.1 * pen, 2 * NORMAL_SCALE))
}

proof fn lemma_exchange_energy(ax: int, ay: int, bx: int, by: int, nx: int, ny: int, j: int, k: int, dd: int)
    requires
        k == (ax - bx) * nx + (ay - by) * ny,
        dd == nx * nx + ny * ny,
        j >= 0,
        j == 0 || j * dd <= k,
    ensures
        (ax - j * nx) * (ax - j * nx) + (ay - j * ny) * (ay - j * ny) + (bx + j * nx) * (bx + j * nx)
            + (by + j * ny) * (by + j * ny) <= ax * ax + ay * ay + bx * bx + by * by,
{
    let u = j * nx;
    let w = j * ny;
    assert((ax - u) * (ax - u) + (bx + u) * (bx + u) == ax * ax + bx * bx + 2 * (u * u) - 2 * (u * (ax - bx)))
        by (nonlinear_arith);
    assert((ay - w) * (ay - w) + (by + w) * (by + w) == ay * ay + by * by + 2 * (w * w) - 2 * (w * (ay - by)))
        by (nonlinear_arith);
    assert(u * u + w * w == j * (j * dd)) by (nonlinear_arith)
        requires
            u == j * nx,
            w == j * ny,
            dd == nx * nx + ny * ny,
    ;
    assert(u * (ax - bx) + w * (ay - by) == j * k) by (nonlinear_arith)
        requires
            u == j * nx,
            w == j * ny,
            k == (ax - bx) * nx + (ay - by) * ny,
    ;
    assert(j * (j * dd) <= j * k) by (nonlinear_arith)
        requires
            j >= 0,
            j == 0 || j * dd <= k,
    ;
}

fn clamp_limit(c: i64) -> (r: i64)
    ensures
        r == clamp_mag(c as int, SEPARATION_LIMIT as int),
{
    if c > SEPARATION_LIMIT {
        SEPARATION_LIMIT
    } else if c < -SEPARATION_LIMIT {
        -SEPARATION_LIMIT
    } else {
        c
    }
}

pub open spec fn within_limit(b: Ball) -> bool {
    &&& -SEPARATION_LIMIT <= b.position.x <= SEPARATION_LIMIT
    &&& -SEPARATION_LIMIT <= b.position.y <= SEPARATION_LIMIT
}

/// Two balls after their contact is resolved: when they overlap, `impulse`
/// times the contact normal passes from `a` to `b`, and they are pushed apart
/// by `push`, each coordinate kept within `SEPARATION_LIMIT`. Balls that do
/// not overlap stay as they are.
pub open spec fn collided(a: Ball, b: Ball) -> (Ball, Ball) {
    if !overlapping(a, b) {
        (a, b)
    } else {
        let n = contact_normal(a, b);
        let j = impulse(a, b);
        let s = push(a, b);
        (
            Ball {
                position: Vec2 {
                    x: clamp_mag(a.position.x - s.0, SEPARATION_LIMIT as int) as i64,
                    y: clamp_mag(a.position.y - s.1, SEPARATION_LIMIT as int) as i64,
                },
                velocity: Vec2 { x: (a.velocity.x - j * n.0) as i64, y: (a.velocity.y - j * n.1) as i64 },
                ..a
            },
            Ball {
                position: Vec2 {
                    x: clamp_mag(b.position.x + s.0, SEPARATION_LIMIT as int) as i64,
                    y: clamp_mag(b.position.y + s.1, SEPARATION_LIMIT as int) as i64,
                },
                velocity: Vec2 { x: (b.velocity.x + j * n.0) as i64, y: (b.velocity.y + j * n.1) as i64 },
                ..b
            },
        )
    }
}

/// Resolves a contact between two balls: when they overlap, their velocity
/// components along the contact normal are exchanged (an equal-mass elastic
/// collision) and each is pushed half the penetration depth apart. Balls
/// that do not overlap are returned unchanged.
#[verifier::rlimit(40)]
pub fn resolve_pair(a: Ball, b: Ball) -> (r: (Ball, Ball))
    requires
        a.ok(),
        b.ok(),
        within_limit(a),
        within_limit(b),
        energy(a) + energy(b) <= energy_budget(),
    ensures
        r == collided(a, b),
        !overlapping(a, b) ==> r == (a, b),
        overlapping(a, b) ==> {
            let n = contact_normal(a, b);
            let j = impulse(a, b);
            let s = push(a, b);
            &&& r.0.velocity.x == a.velocity.x - j * n.0
            &&& r.0.velocity.y == a.velocity.y - j * n.1
            &&& r.1.velocity.x == b.velocity.x + j * n.0
            &&& r.1.velocity.y == b.velocity.y + j * n.1
            &&& r.0.position.x == clamp_mag(a.position.x - s.0, SEPARATION_LIMIT as int)
            &&& r.0.position.y == clamp_mag(a.position.y - s.1, SEPARATION_LIMIT as int)
            &&& r.1.position.x == clamp_mag(b.position.x + s.0, SEPARATION_LIMIT as int)
            &&& r.1.position.y == clamp_mag(b.position.y + s.1, SEPARATION_LIMIT as int)
            &&& r.0 == (Ball { position: r.0.position, velocity: r.0.velocity, ..a })
            &&& r.1 == (Ball { position: r.1.position, velocity: r.1.velocity, ..b })
        },
        r.0.velocity.x + r.1.velocity.x == a.velocity.x + b.velocity.x,
        r.0.velocity.y + r.1.velocity.y == a.velocity.y + b.velocity.y,
        energy(r.0) + energy(r.1) <= energy(a) + energy(b),
        r.0.ok(),
        r.1.ok(),
        within_limit(r.0),
        within_limit(r.1),
{
    if !a.active || !b.active {
        return (a, b);
    }
    let dx = b.position.x - a.position.x;
    let dy = b.position.y - a.position.y;
    let two_r = 2 * RADIUS;
    if dx <= -two_r || dx >= two_r || dy <= -two_r || dy >= two_r {
        proof {
            assert(dx * dx >= 0 && dy * dy >= 0) by (nonlinear_arith);
            if dx <= -two_r || dx >= two_r {
                assert(dx * dx >= two_r * two_r) by (nonlinear_arith)
                    requires
                        dx <= -two_r || dx >= two_r,
                        two_r > 0,
                ;
            } else {
                assert(dy * dy >= two_r * two_r) by (nonlinear_arith)
                    requires
                        dy <= -two_r || dy >= two_r,
                        two_r > 0,
                ;
            }
        }
        return (a, b);
    }
    assert(0 <= dx * dx < 3_600_000_000 && 0 <= dy * dy < 3_600_000_000) by (nonlinear_arith)
        requires
            -60_000 < dx < 60_000,
            -60_000 < dy < 60_000,
    ;
    let d2 = dx * dx + dy * dy;
    if d2 >= two_r * two_r {
        return (a, b);
    }
    let root = isqrt(d2 as u64);
    assert(root < two_r) by (nonlinear_arith)
        requires
            root * root <= d2,
            d2 < two_r * two_r,
            two_r > 0,
            root >= 0,
    ;
    let dist = root as i64;
    assert(dist == floor_sqrt(dx * dx + dy * dy));
    assert(dist == floor_sqrt(center_dist2(a, b)));
    let mut nx: i64 = 0;
    let mut ny: i64 = 0;
    if dist > 0 {
        proof {
            lemma_tdiv_bounds(dx * NORMAL_SCALE, dist as int);
            lemma_tdiv_bounds(dy * NORMAL_SCALE, dist as int);
            vstd::arithmetic::div_mod::lemma_div_is_ordered_by_denominator(abs(dx * NORMAL_SCALE), 1, dist as int);
            vstd::arithmetic::div_mod::lemma_div_is_ordered_by_denominator(abs(dy * NORMAL_SCALE), 1, dist as int);
        }
        nx = div_trunc(dx * NORMAL_SCALE, dist);
        ny = div_trunc(dy * NORMAL_SCALE, dist);
    }
    if nx == 0 && ny == 0 {
        ny = NORMAL_SCALE;
    }
    assert(-60_000_000 <= nx <= 60_000_000 && -60_000_000 <= ny <= 60_000_000);
    let ghost n = contact_normal(a, b);
    assert(nx == n.0 && ny == n.1);
    let wx = a.velocity.x - b.velocity.x;
    let wy = a.velocity.y - b.velocity.y;
    assert(-480_000_000_000_000_000 <= wx * nx <= 480_000_000_000_000_000) by (nonlinear_arith)
        requires
            -8_000_000_000 <= wx <= 8_000_000_000,
            -60_000_000 <= nx <= 60_000_000,
    ;
    assert(-480_000_000_000_000_000 <= wy * ny <= 480_000_000_000_000_000) by (nonlinear_arith)
        requires
            -8_000_000_000 <= wy <= 8_000_000_000,
            -60_000_000 <= ny <= 60_000_000,
    ;
    assert(0 <= nx * nx <= 3_600_000_000_000_000 && 0 <= ny * ny <= 3_600_000_000_000_000) by (nonlinear_arith)
        requires
            -60_000_000 <= nx <= 60_000_000,
            -60_000_000 <= ny <= 60_000_000,
    ;
    let k = wx * nx + wy * ny;
    let dd = nx * nx + ny * ny;
    assert(dd > 0) by (nonlinear_arith)
        requires
            dd == nx * nx + ny * ny,
            nx != 0 || ny != 0,
    ;
    let j: i64 = if k > 0 {
        k / dd
    } else {
        0
    };
    proof {
        if k > 0 {
            vstd::arithmetic::div_mod::lemma_fundamental_div_mod(k as int, dd as int);
            vstd::arithmetic::div_mod::lemma_div_pos_is_pos(k as int, dd as int);
            vstd::arithmetic::div_mod::lemma_div_is_ordered_by_denominator(k as int, 1, dd as int);
            assert(j * dd <= k) by (nonlinear_arith)
                requires
                    k == dd * (k / dd) + k % dd,
                    0 <= k % dd,
                    j == k / dd,
            ;
        }
    }
    assert(j == impulse(a, b));
    assert(0 <= j <= 960_000_000_000_000_000);
    let ghost ax = a.velocity.x as int;
    let ghost ay = a.velocity.y as int;
    let ghost bx = b.velocity.x as int;
    let ghost by = b.velocity.y as int;
    proof {
        lemma_exchange_energy(ax, ay, bx, by, nx as int, ny as int, j as int, k as int, dd as int);
        let sa = a.spin as int;
        let sb = b.spin as int;
        let ex = ax - j * nx;
        let ey = ay - j * ny;
        let fx = bx + j * nx;
        let fy = by + j * ny;
        assert(ex * ex >= 0 && ey * ey >= 0 && fx * fx >= 0 && fy * fy >= 0 && sa * sa >= 0 && sb * sb >= 0)
            by (nonlinear_arith);
        lemma_component_bound(ex, 5);
        lemma_component_bound(ey, 5);
        lemma_component_bound(fx, 5);
        lemma_component_bound(fy, 5);
    }
    let jx = (j as i128) * (nx as i128);
    let jy = (j as i128) * (ny as i128);
    let avx = ((a.velocity.x as i128) - jx) as i64;
    let avy = ((a.velocity.y as i128) - jy) as i64;
    let bvx = ((b.velocity.x as i128) + jx) as i64;
    let bvy = ((b.velocity.y as i128) + jy) as i64;
    let pen = two_r - dist;
    assert(0 < pen <= two_r);
    assert(-3_600_000_000_000 <= nx * pen <= 3_600_000_000_000) by (nonlinear_arith)
        requires
            -60_000_000 <= nx <= 60_000_000,
            0 < pen <= 60_000,
    ;
    assert(-3_600_000_000_000 <= ny * pen <= 3_600_000_000_000) by (nonlinear_arith)
        requires
            -60_000_000 <= ny <= 60_000_000,
            0 < pen <= 60_000,
    ;
    let sx = div_trunc(nx * pen, 2 * NORMAL_SCALE);
    let sy = div_trunc(ny * pen, 2 * NORMAL_SCALE);
    proof {
        lemma_tdiv_bounds(nx * pen, 2 * NORMAL_SCALE);
        lemma_tdiv_bounds(ny * pen, 2 * NORMAL_SCALE);
    }
    let ra = Ball {
        position: Vec2 { x: clamp_limit(a.position.x - sx), y: clamp_limit(a.position.y - sy) },
        velocity: Vec2 { x: avx, y: avy },
        ..a
    };
    let rb = Ball {
        position: Vec2 { x: clamp_limit(b.position.x + sx), y: clamp_limit(b.position.y + sy) },
        velocity: Vec2 { x: bvx, y: bvy },
        ..b
    };
    (ra, rb)
}

/// A head-on collision along the x axis exchanges the balls' x velocities,
/// up to the rounding of the impulse to a multiple of `NORMAL_SCALE`, and
/// exactly when the closing speed is such a multiple: the moving ball stops
/// and the struck one leaves with its speed. Balls already separating are
/// left alone.
pub proof fn lemma_head_on_exchange(a: Ball, b: Ball)
    requires
        a.active,
        b.active,
        a.position.y == b.position.y,
        a.position.x < b.position.x < a.position.x + 2 * RADIUS,
    ensures
        overlapping(a, b),
        contact_normal(a, b) == (NORMAL_SCALE as int, 0int),
        a.velocity.x <= b.velocity.x ==> impulse(a, b) == 0,
        a.velocity.x > b.velocity.x ==> {
            let ax = a.velocity.x - impulse(a, b) * NORMAL_SCALE;
            let bx = b.velocity.x + impulse(a, b) * NORMAL_SCALE;
            &&& b.velocity.x <= ax < b.velocity.x + NORMAL_SCALE
            &&& a.velocity.x - NORMAL_SCALE < bx <= a.velocity.x
            &&& (a.velocity.x - b.velocity.x) % (NORMAL_SCALE as int) == 0 ==> ax == b.velocity.x && bx
                == a.velocity.x
        },
{
    let dx = b.position.x - a.position.x;
    let sc = NORMAL_SCALE as int;
    assert(0 < dx * dx < 4 * RADIUS * RADIUS) by (nonlinear_arith)
        requires
            0 < dx < 2 * RADIUS,
    ;
    assert(center_dist2(a, b) == dx * dx);
    assert(dx * dx < (dx + 1) * (dx + 1)) by (nonlinear_arith)
        requires
            dx > 0,
    ;
    lemma_floor_sqrt_unique(dx, dx * dx);
    assert(floor_sqrt(dx * dx + 0 * 0) == dx);
    vstd::arithmetic::div_mod::lemma_div_by_multiple(sc, dx);
    assert(dx * sc == sc * dx) by (nonlinear_arith);
    assert(tdiv(dx * sc, dx) == sc);
    assert(tdiv(0 * sc, dx) == 0);
    let w = a.velocity.x - b.velocity.x;
    assert(contact_normal(a, b) == (sc, 0int));
    let wy = a.velocity.y - b.velocity.y;
    assert(wy * 0 == 0) by (nonlinear_arith);
    assert(closing(a, b) == w * sc);
    if w > 0 {
        let k = w * sc;
        let dd = sc * sc;
        let j = k / dd;
        assert(impulse(a, b) == j);
        vstd::arithmetic::div_mod::lemma_fundamental_div_mod(k, dd);
        let r = k % dd;
        assert(0 <= r < dd);
        assert(0 <= w - sc * j < sc) by (nonlinear_arith)
            requires
                w * sc == sc * sc * j + r,
                0 <= r < sc * sc,
                sc == 1000,
        ;
        assert(j * sc == sc * j) by (nonlinear_arith);
        if w % sc == 0 {
            vstd::arithmetic::div_mod::lemma_fundamental_div_mod(w, sc);
            let q = w / sc;
            assert(sc * j == sc * q) by (nonlinear_arith)
                requires
                    0 <= w - sc * j < sc,
                    w == sc * q,
                    sc == 1000,
            ;
        }
    } else {
        assert(w * sc <= 0) by (nonlinear_arith)
            requires
                w <= 0,
                sc == 1000,
        ;
    }
}

} // verus!
