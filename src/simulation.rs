//! The frame driver: the ball store, shots, and one simulation step per tick.
use vstd::prelude::*;
use crate::arith::Vec2;
use crate::ball::{Ball, integrate, integrated, energy, energy_budget, MAX_STEP, RADIUS, FULL_TURN, SPEED_BOUND, lemma_energy_nonneg};
use crate::collision::{resolve_pair, resolve_cushions, within_limit, overlapping, collided, cushioned, SEPARATION_LIMIT};
use crate::table::{Table, Pocket, in_pocket_zone, HALF_LENGTH, HALF_WIDTH, POCKET_RADIUS};
use crate::store::{total_energy, lemma_total_update, lemma_pair_le_total, lemma_single_le_total, lemma_rest_total_zero};

verus! {

/// Number of balls on the table: the cue ball and fifteen object balls.
pub const BALL_COUNT: usize = 16;

/// Sixteen balls, each at the index of its number, within the bounds every
/// ball keeps.
pub open spec fn balls_ok(s: Seq<Ball>) -> bool {
    &&& s.len() == BALL_COUNT
    &&& forall|k: int|
        0 <= k < s.len() ==> {
            &&& (#[trigger] s[k]).ok()
            &&& s[k].number == k
            &&& within_limit(s[k])
        }
}

/// Balls in play stand inside the cushions and outside every pocket.
pub open spec fn in_play_ok(table: &Table, s: Seq<Ball>) -> bool {
    forall|k: int|
        0 <= k < s.len() && (#[trigger] s[k]).active ==> table.bounds.holds_center(s[k].position)
            && !table.pocketed_at(s[k].position)
}

/// A ball taken off the table: inactive and at rest where it dropped.
pub open spec fn dropped(b: Ball) -> Ball {
    Ball { active: false, velocity: Vec2 { x: 0, y: 0 }, spin: 0, ..b }
}

/// Every ball advanced by `dt` milliseconds.
pub open spec fn integrate_seq(s: Seq<Ball>, dt: int) -> Seq<Ball> {
    s.map_values(|b: Ball| integrated(b, dt))
}

/// Every ball in play whose center lies in a pocket's capture zone taken off the table.
pub open spec fn drop_seq(table: &Table, s: Seq<Ball>) -> Seq<Ball> {
    s.map_values(|b: Ball| if b.active && table.pocketed_at(b.position) { dropped(b) } else { b })
}

/// Every ball after its cushion contacts.
pub open spec fn bounce_seq(table: &Table, s: Seq<Ball>) -> Seq<Ball> {
    s.map_values(|b: Ball| cushioned(table, b))
}

/// The contacts of the pairs from `(i, j)` on resolved one after another, in
/// ascending order: `(i, j), (i, j + 1), ..., (i + 1, i + 2), ...`.
pub open spec fn sweep_from(s: Seq<Ball>, i: int, j: int) -> Seq<Ball>
    decreases BALL_COUNT - i, BALL_COUNT - j,
{
    if i >= BALL_COUNT || i < 0 {
        s
    } else if j >= BALL_COUNT {
        sweep_from(s, i + 1, i + 2)
    } else if j < 0 {
        s
    } else {
        let r = collided(s[i], s[j]);
        sweep_from(s.update(i, r.0).update(j, r.1), i, j + 1)
    }
}

/// The balls after one step of `dt` milliseconds: integrate, drop what is
/// over a pocket, resolve ball-ball contacts, then cushion contacts, and drop
/// what ends over a pocket.
pub open spec fn stepped(table: &Table, s: Seq<Ball>, dt: int) -> Seq<Ball> {
    drop_seq(table, bounce_seq(table, sweep_from(drop_seq(table, integrate_seq(s, dt)), 0, 1)))
}

/// Advances every ball in play by `dt` milliseconds.
fn integrate_all(balls: &mut Vec<Ball>, table: &Table, dt: i64)
    requires
        table.wf(),
        balls_ok(old(balls)@),
        in_play_ok(table, old(balls)@),
        total_energy(old(balls)@) <= energy_budget(),
        0 <= dt <= MAX_STEP,
    ensures
        balls_ok(final(balls)@),
        total_energy(final(balls)@) <= total_energy(old(balls)@),
        final(balls)@ == integrate_seq(old(balls)@, dt as int),
        forall|k: int|
            0 <= k < BALL_COUNT ==> (#[trigger] final(balls)@[k]).active == old(balls)@[k].active,
        forall|k: int|
            0 <= k < BALL_COUNT && !old(balls)@[k].active ==> #[trigger] final(balls)@[k] == old(balls)@[k],
{
    let mut i: usize = 0;
    while i < BALL_COUNT
        invariant
            table.wf(),
            0 <= i <= BALL_COUNT,
            old(balls)@.len() == BALL_COUNT,
            0 <= dt <= MAX_STEP,
            forall|k: int| 0 <= k < i ==> #[trigger] balls@[k] == integrated(old(balls)@[k], dt as int),
            balls_ok(balls@),
            total_energy(balls@) <= total_energy(old(balls)@),
            forall|k: int| i <= k < BALL_COUNT ==> #[trigger] balls@[k] == old(balls)@[k],
            in_play_ok(table, old(balls)@),
            total_energy(old(balls)@) <= energy_budget(),
            forall|k: int| 0 <= k < BALL_COUNT ==> (#[trigger] balls@[k]).active == old(balls)@[k].active,
            forall|k: int|
                0 <= k < BALL_COUNT && !old(balls)@[k].active ==> #[trigger] balls@[k] == old(balls)@[k],
        decreases BALL_COUNT - i,
    {
        let b = balls[i];
        assert(b == old(balls)@[i as int]);
        assert(b.active ==> table.bounds.holds_center(b.position));
        proof {
            lemma_single_le_total(balls@, i as int);
        }
        let nb = integrate(b, dt);
        proof {
            lemma_total_update(balls@, i as int, nb);
        }
        balls.set(i, nb);
        assert(balls_ok(balls@)) by {
            assert forall|k: int| 0 <= k < balls@.len() implies {
                &&& (#[trigger] balls@[k]).ok()
                &&& balls@[k].number == k
                &&& within_limit(balls@[k])
            } by {
                if k == i {
                    assert(balls@[k] == nb);
                }
            }
        }
        i += 1;
    }
    assert(balls@ =~= integrate_seq(old(balls)@, dt as int));
}

/// Takes off the table every ball in play whose center lies in a pocket's
/// capture zone.
fn drop_pocketed(balls: &mut Vec<Ball>, table: &Table)
    requires
        table.wf(),
        balls_ok(old(balls)@),
    ensures
        balls_ok(final(balls)@),
        total_energy(final(balls)@) <= total_energy(old(balls)@),
        final(balls)@ == drop_seq(table, old(balls)@),
        forall|k: int|
            0 <= k < BALL_COUNT ==> {
                let b = old(balls)@[k];
                #[trigger] final(balls)@[k] == if b.active && table.pocketed_at(b.position) {
                    dropped(b)
                } else {
                    b
                }
            },
{
    let mut i: usize = 0;
    while i < BALL_COUNT
        invariant
            table.wf(),
            0 <= i <= BALL_COUNT,
            old(balls)@.len() == BALL_COUNT,
            balls_ok(balls@),
            total_energy(balls@) <= total_energy(old(balls)@),
            forall|k: int| i <= k < BALL_COUNT ==> #[trigger] balls@[k] == old(balls)@[k],
            forall|k: int|
                0 <= k < i ==> {
                    let b = old(balls)@[k];
                    #[trigger] balls@[k] == if b.active && table.pocketed_at(b.position) {
                        dropped(b)
                    } else {
                        b
                    }
                },
        decreases BALL_COUNT - i,
    {
        let b = balls[i];
        if b.active && table.pocket_captures(b.position) {
            let nb = Ball { active: false, velocity: Vec2 { x: 0, y: 0 }, spin: 0, ..b };
            proof {
                lemma_total_update(balls@, i as int, nb);
                lemma_energy_nonneg(b);
                assert(energy(nb) == 0);
            }
            balls.set(i, nb);
            assert(balls_ok(balls@)) by {
                assert forall|k: int| 0 <= k < balls@.len() implies {
                    &&& (#[trigger] balls@[k]).ok()
                    &&& balls@[k].number == k
                    &&& within_limit(balls@[k])
                } by {
                    if k == i {
                        assert(balls@[k] == nb);
                    }
                }
            }
        }
        i += 1;
    }
    assert(balls@ =~= drop_seq(table, old(balls)@));
}

/// Pushes every ball in play back inside the cushions, bouncing it off them.
fn bounce_all(balls: &mut Vec<Ball>, table: &Table)
    requires
        table.wf(),
        balls_ok(old(balls)@),
    ensures
        balls_ok(final(balls)@),
        total_energy(final(balls)@) <= total_energy(old(balls)@),
        final(balls)@ == bounce_seq(table, old(balls)@),
        forall|k: int|
            0 <= k < BALL_COUNT ==> (#[trigger] final(balls)@[k]).active == old(balls)@[k].active,
        forall|k: int|
            0 <= k < BALL_COUNT && !old(balls)@[k].active ==> #[trigger] final(balls)@[k] == old(balls)@[k],
        forall|k: int|
            0 <= k < BALL_COUNT && (#[trigger] final(balls)@[k]).active ==> table.bounds.holds_center(
                final(balls)@[k].position,
            ),
{
    let mut i: usize = 0;
    while i < BALL_COUNT
        invariant
            table.wf(),
            0 <= i <= BALL_COUNT,
            old(balls)@.len() == BALL_COUNT,
            balls_ok(balls@),
            total_energy(balls@) <= total_energy(old(balls)@),
            forall|k: int| i <= k < BALL_COUNT ==> #[trigger] balls@[k] == old(balls)@[k],
            forall|k: int| 0 <= k < BALL_COUNT ==> (#[trigger] balls@[k]).active == old(balls)@[k].active,
            forall|k: int|
                0 <= k < BALL_COUNT && !old(balls)@[k].active ==> #[trigger] balls@[k] == old(balls)@[k],
            forall|k: int|
                0 <= k < i && (#[trigger] balls@[k]).active ==> table.bounds.holds_center(balls@[k].position),
            forall|k: int| 0 <= k < i ==> #[trigger] balls@[k] == cushioned(table, old(balls)@[k]),
        decreases BALL_COUNT - i,
    {
        let b = balls[i];
        let nb = resolve_cushions(table, b);
        proof {
            lemma_total_update(balls@, i as int, nb);
        }
        balls.set(i, nb);
        assert(balls_ok(balls@)) by {
            assert forall|k: int| 0 <= k < balls@.len() implies {
                &&& (#[trigger] balls@[k]).ok()
                &&& balls@[k].number == k
                &&& within_limit(balls@[k])
            } by {
                if k == i {
                    assert(balls@[k] == nb);
                }
            }
        }
        i += 1;
    }
    assert(balls@ =~= bounce_seq(table, old(balls)@));
}

/// Resolves every ball-ball contact, pair by pair in ascending index order.
fn collide_all(balls: &mut Vec<Ball>)
    requires
        balls_ok(old(balls)@),
        total_energy(old(balls)@) <= energy_budget(),
    ensures
        balls_ok(final(balls)@),
        total_energy(final(balls)@) <= total_energy(old(balls)@),
        final(balls)@ == sweep_from(old(balls)@, 0, 1),
        forall|k: int|
            0 <= k < BALL_COUNT ==> (#[trigger] final(balls)@[k]).active == old(balls)@[k].active,
        forall|k: int|
            0 <= k < BALL_COUNT && !old(balls)@[k].active ==> #[trigger] final(balls)@[k] == old(balls)@[k],
{
    let mut i: usize = 0;
    while i < BALL_COUNT
        invariant
            sweep_from(balls@, i as int, i + 1) == sweep_from(old(balls)@, 0, 1),
            0 <= i <= BALL_COUNT,
            old(balls)@.len() == BALL_COUNT,
            balls_ok(balls@),
            total_energy(balls@) <= total_energy(old(balls)@),
            total_energy(old(balls)@) <= energy_budget(),
            forall|k: int| 0 <= k < BALL_COUNT ==> (#[trigger] balls@[k]).active == old(balls)@[k].active,
            forall|k: int|
                0 <= k < BALL_COUNT && !old(balls)@[k].active ==> #[trigger] balls@[k] == old(balls)@[k],
        decreases BALL_COUNT - i,
    {
        let mut j: usize = i + 1;
        while j < BALL_COUNT
            invariant
                sweep_from(balls@, i as int, j as int) == sweep_from(old(balls)@, 0, 1),
                0 <= i < BALL_COUNT,
                i + 1 <= j <= BALL_COUNT,
                old(balls)@.len() == BALL_COUNT,
                balls_ok(balls@),
                total_energy(balls@) <= total_energy(old(balls)@),
                total_energy(old(balls)@) <= energy_budget(),
                forall|k: int| 0 <= k < BALL_COUNT ==> (#[trigger] balls@[k]).active == old(balls)@[k].active,
                forall|k: int|
                    0 <= k < BALL_COUNT && !old(balls)@[k].active ==> #[trigger] balls@[k] == old(balls)@[k],
            decreases BALL_COUNT - j,
        {
            let a = balls[i];
            let b = balls[j];
            proof {
                lemma_pair_le_total(balls@, i as int, j as int);
            }
            let (na, nb) = resolve_pair(a, b);
            assert(sweep_from(balls@, i as int, j as int) == sweep_from(
                balls@.update(i as int, na).update(j as int, nb),
                i as int,
                j + 1,
            ));
            proof {
                lemma_total_update(balls@, i as int, na);
                lemma_total_update(balls@.update(i as int, na), j as int, nb);
            }
            balls.set(i, na);
            balls.set(j, nb);
            assert(balls_ok(balls@)) by {
                assert forall|k: int| 0 <= k < balls@.len() implies {
                    &&& (#[trigger] balls@[k]).ok()
                    &&& balls@[k].number == k
                    &&& within_limit(balls@[k])
                } by {
                    if k == i {
                        assert(balls@[k] == na);
                    } else if k == j {
                        assert(balls@[k] == nb);
                    }
                }
            }
            j += 1;
        }
        i += 1;
    }
}

/// Largest magnitude of each component of the velocity a shot gives the cue ball.
pub const SHOT_LIMIT: i64 = 1_000_000_000;

/// Offset between neighbouring rows of the rack: the ball radius times 1.732.
pub const ROW_STEP: i64 = 51_960;

/// Where ball `n` stands in the starting rack: the cue ball apart on the
/// right, the fifteen object balls in a triangle pointing at it.
pub open spec fn rack_spot(n: int) -> (int, int) {
    if n == 0 {
        (10 * RADIUS, 0)
    } else if n == 1 {
        (0, -2 * RADIUS)
    } else if n == 2 {
        (-2 * ROW_STEP, -2 * RADIUS)
    } else if n == 3 {
        (-ROW_STEP, -RADIUS)
    } else if n == 4 {
        (-2 * ROW_STEP, 2 * RADIUS)
    } else if n == 5 {
        (-2 * ROW_STEP, 4 * RADIUS)
    } else if n == 6 {
        (-ROW_STEP, 3 * RADIUS)
    } else if n == 7 {
        (ROW_STEP as int, RADIUS as int)
    } else if n == 8 {
        (0, 0)
    } else if n == 9 {
        (2 * ROW_STEP, 0)
    } else if n == 10 {
        (-ROW_STEP, RADIUS as int)
    } else if n == 11 {
        (-2 * ROW_STEP, -4 * RADIUS)
    } else if n == 12 {
        (ROW_STEP as int, -RADIUS)
    } else if n == 13 {
        (-2 * ROW_STEP, 0)
    } else if n == 14 {
        (-ROW_STEP, -3 * RADIUS)
    } else {
        (0, 2 * RADIUS)
    }
}

/// Ball `n` as the rack sets it up: in play, at rest, at its rack spot.
/// Balls up to the eight are solid, the rest striped.
pub open spec fn racked(n: int) -> Ball {
    Ball {
        number: n as u8,
        is_solid: n <= 8,
        position: Vec2 { x: rack_spot(n).0 as i64, y: rack_spot(n).1 as i64 },
        orientation: 0,
        velocity: Vec2 { x: 0, y: 0 },
        spin: 0,
        active: true,
    }
}

/// Whether every rack spot lies inside the cushions and outside the pockets.
pub open spec fn holds_rack(table: &Table) -> bool {
    forall|n: int|
        0 <= n < BALL_COUNT ==> table.bounds.holds_center(#[trigger] racked(n).position)
            && !table.pocketed_at(racked(n).position)
}

fn rack_ball(n: usize) -> (r: Ball)
    requires
        n < BALL_COUNT,
    ensures
        r == racked(n as int),
{
    let (x, y) = if n == 0 {
        (10 * RADIUS, 0)
    } else if n == 1 {
        (0, -2 * RADIUS)
    } else if n == 2 {
        (-2 * ROW_STEP, -2 * RADIUS)
    } else if n == 3 {
        (-ROW_STEP, -RADIUS)
    } else if n == 4 {
        (-2 * ROW_STEP, 2 * RADIUS)
    } else if n == 5 {
        (-2 * ROW_STEP, 4 * RADIUS)
    } else if n == 6 {
        (-ROW_STEP, 3 * RADIUS)
    } else if n == 7 {
        (ROW_STEP, RADIUS)
    } else if n == 8 {
        (0, 0)
    } else if n == 9 {
        (2 * ROW_STEP, 0)
    } else if n == 10 {
        (-ROW_STEP, RADIUS)
    } else if n == 11 {
        (-2 * ROW_STEP, -4 * RADIUS)
    } else if n == 12 {
        (ROW_STEP, -RADIUS)
    } else if n == 13 {
        (-2 * ROW_STEP, 0)
    } else if n == 14 {
        (-ROW_STEP, -3 * RADIUS)
    } else {
        (0, 2 * RADIUS)
    };
    Ball {
        number: n as u8,
        is_solid: n <= 8,
        position: Vec2 { x, y },
        orientation: 0,
        velocity: Vec2 { x: 0, y: 0 },
        spin: 0,
        active: true,
    }
}

/// The sixteen balls of a fresh rack.
fn rack_balls() -> (r: Vec<Ball>)
    ensures
        r@.len() == BALL_COUNT,
        forall|k: int| 0 <= k < BALL_COUNT ==> #[trigger] r@[k] == racked(k),
{
    let mut v: Vec<Ball> = Vec::new();
    let mut i: usize = 0;
    while i < BALL_COUNT
        invariant
            0 <= i <= BALL_COUNT,
            v@.len() == i,
            forall|k: int| 0 <= k < i ==> #[trigger] v@[k] == racked(k),
        decreases BALL_COUNT - i,
    {
        v.push(rack_ball(i));
        i += 1;
    }
    v
}

proof fn lemma_far_from_pocket(pk: Pocket, p: Vec2)
    requires
        pk.center.y == HALF_WIDTH || pk.center.y == -HALF_WIDTH,
        pk.capture_radius == POCKET_RADIUS,
        -4 * RADIUS <= p.y <= 4 * RADIUS,
    ensures
        !in_pocket_zone(pk, p),
{
    let dx = p.x - pk.center.x;
    let dy = p.y - pk.center.y;
    assert(dx * dx >= 0) by (nonlinear_arith);
    assert(dy * dy >= 180_000 * 180_000) by (nonlinear_arith)
        requires
            dy >= 180_000 || dy <= -180_000,
    ;
}

/// The standard table holds the rack.
proof fn lemma_standard_holds_rack(table: &Table)
    requires
        table.wf(),
        table.bounds.min.x == -HALF_LENGTH && table.bounds.min.y == -HALF_WIDTH,
        table.bounds.max.x == HALF_LENGTH && table.bounds.max.y == HALF_WIDTH,
        forall|i: int|
            0 <= i < table.pockets@.len() ==> (#[trigger] table.pockets@[i]).capture_radius == POCKET_RADIUS
                && (table.pockets@[i].center.y == HALF_WIDTH || table.pockets@[i].center.y == -HALF_WIDTH),
    ensures
        holds_rack(table),
{
    assert forall|n: int| 0 <= n < BALL_COUNT implies table.bounds.holds_center(#[trigger] racked(n).position)
        && !table.pocketed_at(racked(n).position) by {
        let p = racked(n).position;
        assert forall|i: int| 0 <= i < table.pockets@.len() implies !in_pocket_zone(
            #[trigger] table.pockets@[i],
            p,
        ) by {
            lemma_far_from_pocket(table.pockets@[i], p);
        }
    }
}

/// Whether the frame driver is waiting for a shot or moving balls.
#[derive(Clone, Copy, Debug, PartialEq, Eq, Structural)]
pub enum Phase {
    /// No ball is moving; a shot may be taken.
    Idle,
    /// Some ball may be moving; each tick advances the table.
    Simulating,
}

/// What the simulation refuses.
#[derive(Clone, Copy, Debug, PartialEq, Eq, Structural)]
pub enum SimError {
    /// A tick with a negative elapsed time; the tick does nothing.
    InvalidTick,
    /// A ball number outside `0..16`.
    OutOfRangeBallNumber,
    /// A shot while balls are moving, with the cue ball off the table, or
    /// stronger than `SHOT_LIMIT` allows.
    ShotIgnored,
    /// A ball state that `set` does not accept.
    InvalidBall,
}

/// The table, its sixteen balls (index = ball number) and the frame driver's phase.
pub struct Simulation {
    table: Table,
    balls: Vec<Ball>,
    phase: Phase,
}

pub open spec fn all_at_rest(s: Seq<Ball>) -> bool {
    forall|k: int| 0 <= k < s.len() ==> (#[trigger] s[k]).at_rest()
}

impl Simulation {
    pub closed spec fn table_view(&self) -> &Table {
        &self.table
    }

    /// The balls, index = ball number.
    pub closed spec fn balls_view(&self) -> Seq<Ball> {
        self.balls@
    }

    pub closed spec fn phase_view(&self) -> Phase {
        self.phase
    }

    pub open spec fn wf(&self) -> bool {
        &&& self.table_view().wf()
        &&& holds_rack(self.table_view())
        &&& balls_ok(self.balls_view())
        &&& in_play_ok(self.table_view(), self.balls_view())
        &&& total_energy(self.balls_view()) <= energy_budget()
        &&& (self.phase_view() == Phase::Idle <==> all_at_rest(self.balls_view()))
    }

    /// A simulation on `table`, with the balls racked.
    pub fn new(table: Table) -> (r: Simulation)
        requires
            table.wf(),
            holds_rack(&table),
        ensures
            r.wf(),
            r.table_view() == &table,
            r.phase_view() == Phase::Idle,
            forall|k: int| 0 <= k < BALL_COUNT ==> #[trigger] r.balls_view()[k] == racked(k),
    {
        let balls = rack_balls();
        proof {
            lemma_rack_ok(&table, balls@);
        }
        Simulation { table, balls, phase: Phase::Idle }
    }

    /// A simulation on the standard table, with the balls racked.
    pub fn standard() -> (r: Simulation)
        ensures
            r.wf(),
            r.phase_view() == Phase::Idle,
            forall|k: int| 0 <= k < BALL_COUNT ==> #[trigger] r.balls_view()[k] == racked(k),
    {
        let table = Table::standard();
        proof {
            lemma_standard_holds_rack(&table);
        }
        Simulation::new(table)
    }

    /// Puts all sixteen balls back at their rack spots, in play and at rest.
    pub fn rerack(&mut self)
        requires
            old(self).wf(),
        ensures
            final(self).wf(),
            final(self).table_view() == old(self).table_view(),
            final(self).phase_view() == Phase::Idle,
            final(self).balls_view().len() == BALL_COUNT,
            forall|k: int| 0 <= k < BALL_COUNT ==> #[trigger] final(self).balls_view()[k] == racked(k),
    {
        let balls = rack_balls();
        proof {
            lemma_rack_ok(&self.table, balls@);
        }
        self.balls = balls;
        self.phase = Phase::Idle;
    }

    pub fn table(&self) -> (r: &Table)
        ensures
            r == self.table_view(),
    {
        &self.table
    }

    pub fn phase(&self) -> (r: Phase)
        ensures
            r == self.phase_view(),
    {
        self.phase
    }

    /// All sixteen balls, index = ball number.
    pub fn get_all(&self) -> (r: &Vec<Ball>)
        ensures
            r@ == self.balls_view(),
    {
        &self.balls
    }

    /// The state of ball `number`.
    pub fn get(&self, number: usize) -> (r: Result<Ball, SimError>)
        requires
            self.wf(),
        ensures
            number < BALL_COUNT ==> r == Ok::<Ball, SimError>(self.balls_view()[number as int]),
            number >= BALL_COUNT ==> r == Err::<Ball, SimError>(SimError::OutOfRangeBallNumber),
    {
        if number >= BALL_COUNT {
            return Err(SimError::OutOfRangeBallNumber);
        }
        Ok(self.balls[number])
    }
    /// Strikes the cue ball: while every ball is at rest (the table is idle)
    /// and the cue ball is in play, it takes `velocity` (each component at
    /// most `SHOT_LIMIT` in magnitude) with no spin, and the table starts
    /// moving unless `velocity` is zero. Otherwise the shot is ignored.
    pub fn shoot(&mut self, velocity: Vec2) -> (r: Result<(), SimError>)
        requires
            old(self).wf(),
        ensures
            final(self).wf(),
            final(self).table_view() == old(self).table_view(),
            ({
                let cue = old(self).balls_view()[0];
                let accepted = all_at_rest(old(self).balls_view()) && cue.active && -SHOT_LIMIT
                    <= velocity.x <= SHOT_LIMIT && -SHOT_LIMIT <= velocity.y <= SHOT_LIMIT;
                &&& accepted ==> r == Ok::<(), SimError>(())
                    && final(self).balls_view() == old(self).balls_view().update(0, Ball { velocity, spin: 0, ..cue })
                    && final(self).phase_view() == (if velocity.is_zero() { Phase::Idle } else { Phase::Simulating })
                &&& !accepted ==> r == Err::<(), SimError>(SimError::ShotIgnored)
                    && final(self).balls_view() == old(self).balls_view()
                    && final(self).phase_view() == old(self).phase_view()
            }),
    {
        let cue = self.balls[0];
        if self.phase != Phase::Idle || !cue.active || velocity.x < -SHOT_LIMIT || velocity.x > SHOT_LIMIT
            || velocity.y < -SHOT_LIMIT || velocity.y > SHOT_LIMIT {
            return Err(SimError::ShotIgnored);
        }
        let struck = Ball { velocity, spin: 0, ..cue };
        proof {
            lemma_rest_total_zero(self.balls@);
            lemma_total_update(self.balls@, 0, struck);
            assert(5 * (velocity.x * velocity.x + velocity.y * velocity.y) <= energy_budget()) by (nonlinear_arith)
                requires
                    -SHOT_LIMIT <= velocity.x <= SHOT_LIMIT,
                    -SHOT_LIMIT <= velocity.y <= SHOT_LIMIT,
            ;
        }
        self.balls.set(0, struck);
        if velocity.x != 0 || velocity.y != 0 {
            self.phase = Phase::Simulating;
        }
        proof {
            let t = self.balls@;
            assert forall|k: int| 0 <= k < t.len() implies {
                &&& (#[trigger] t[k]).ok()
                &&& t[k].number == k
                &&& within_limit(t[k])
            } by {
                if k == 0 {
                    assert(t[k] == struck);
                }
            }
            if self.phase == Phase::Idle {
                assert forall|k: int| 0 <= k < t.len() implies (#[trigger] t[k]).at_rest() by {
                    if k == 0 {
                        assert(t[k] == struck);
                    }
                }
            } else {
                assert(!t[0].at_rest());
            }
        }
        Ok(())
    }

    /// Takes ball `number` off the table: it leaves play and stops. Afterwards
    /// the table is idle exactly when every ball is at rest.
    pub fn pocket(&mut self, number: usize) -> (r: Result<(), SimError>)
        requires
            old(self).wf(),
        ensures
            final(self).wf(),
            final(self).table_view() == old(self).table_view(),
            final(self).phase_view() == (if all_at_rest(final(self).balls_view()) { Phase::Idle } else { Phase::Simulating }),
            number < BALL_COUNT ==> r == Ok::<(), SimError>(()) && final(self).balls_view()
                == old(self).balls_view().update(number as int, dropped(old(self).balls_view()[number as int])),
            number >= BALL_COUNT ==> r == Err::<(), SimError>(SimError::OutOfRangeBallNumber)
                && final(self).balls_view() == old(self).balls_view(),
    {
        if number >= BALL_COUNT {
            return Err(SimError::OutOfRangeBallNumber);
        }
        let b = self.balls[number];
        let nb = Ball { active: false, velocity: Vec2 { x: 0, y: 0 }, spin: 0, ..b };
        proof {
            lemma_total_update(self.balls@, number as int, nb);
            lemma_energy_nonneg(b);
        }
        self.balls.set(number, nb);
        proof {
            let t = self.balls@;
            assert forall|k: int| 0 <= k < t.len() implies {
                &&& (#[trigger] t[k]).ok()
                &&& t[k].number == k
                &&& within_limit(t[k])
            } by {
                if k == number {
                    assert(t[k] == nb);
                }
            }
        }
        if resting(&self.balls) {
            self.phase = Phase::Idle;
        } else {
            self.phase = Phase::Simulating;
        }
        Ok(())
    }

    /// Replaces the state of ball `number` with `ball`. Accepted is a ball
    /// that carries that number, has an orientation in `0..FULL_TURN`, a
    /// position within `SEPARATION_LIMIT` and velocity and spin components
    /// within `SPEED_BOUND`, and keeps the total energy within the budget; a
    /// ball off the table must be at rest, and one in play must stand inside
    /// the cushions and outside every pocket. Afterwards the table is idle
    /// exactly when every ball is at rest.
    pub fn set(&mut self, number: usize, ball: Ball) -> (r: Result<(), SimError>)
        requires
            old(self).wf(),
        ensures
            final(self).wf(),
            final(self).table_view() == old(self).table_view(),
            number >= BALL_COUNT ==> r == Err::<(), SimError>(SimError::OutOfRangeBallNumber)
                && final(self).balls_view() == old(self).balls_view()
                && final(self).phase_view() == old(self).phase_view(),
            ({
                let acceptable = ball.number == number && ball.ok() && within_limit(ball)
                    && (ball.active ==> old(self).table_view().bounds.holds_center(ball.position)
                    && !old(self).table_view().pocketed_at(ball.position))
                    && total_energy(old(self).balls_view().update(number as int, ball)) <= energy_budget();
                &&& number < BALL_COUNT && acceptable ==> r == Ok::<(), SimError>(())
                    && final(self).balls_view() == old(self).balls_view().update(number as int, ball)
                    && final(self).phase_view() == (if all_at_rest(final(self).balls_view()) { Phase::Idle } else { Phase::Simulating })
                &&& number < BALL_COUNT && !acceptable ==> r == Err::<(), SimError>(SimError::InvalidBall)
                    && final(self).balls_view() == old(self).balls_view()
                    && final(self).phase_view() == old(self).phase_view()
            }),
    {
        if number >= BALL_COUNT {
            return Err(SimError::OutOfRangeBallNumber);
        }
        let moving = ball.velocity.x != 0 || ball.velocity.y != 0 || ball.spin != 0;
        if ball.number as usize != number || ball.orientation < 0 || ball.orientation >= FULL_TURN
            || ball.position.x < -SEPARATION_LIMIT || ball.position.x > SEPARATION_LIMIT
            || ball.position.y < -SEPARATION_LIMIT || ball.position.y > SEPARATION_LIMIT
            || ball.velocity.x < -SPEED_BOUND || ball.velocity.x > SPEED_BOUND
            || ball.velocity.y < -SPEED_BOUND || ball.velocity.y > SPEED_BOUND
            || ball.spin < -SPEED_BOUND || ball.spin > SPEED_BOUND || (!ball.active && moving) {
            return Err(SimError::InvalidBall);
        }
        if ball.active {
            let lo = self.table.bounds.min;
            let hi = self.table.bounds.max;
            if ball.position.x < lo.x + RADIUS || ball.position.x > hi.x - RADIUS || ball.position.y < lo.y
                + RADIUS || ball.position.y > hi.y - RADIUS {
                return Err(SimError::InvalidBall);
            }
            if self.table.pocket_captures(ball.position) {
                return Err(SimError::InvalidBall);
            }
        }
        let total = total_of(&self.balls);
        proof {
            lemma_single_le_total(self.balls@, number as int);
            lemma_energy_nonneg(self.balls@[number as int]);
            lemma_total_update(self.balls@, number as int, ball);
        }
        let candidate = total - ball_energy(&self.balls[number]) + ball_energy(&ball);
        if candidate > 10_000_000_000_000_000_000i128 {
            return Err(SimError::InvalidBall);
        }
        self.balls.set(number, ball);
        if resting(&self.balls) {
            self.phase = Phase::Idle;
        } else {
            self.phase = Phase::Simulating;
        }
        proof {
            let t = self.balls@;
            assert forall|k: int| 0 <= k < t.len() implies {
                &&& (#[trigger] t[k]).ok()
                &&& t[k].number == k
                &&& within_limit(t[k])
            } by {
                if k == number {
                    assert(t[k] == ball);
                }
            }
        }
        Ok(())
    }

    /// One frame of `dt` milliseconds. While some ball moves, the table is
    /// advanced in steps of at most `MAX_STEP` ms that add up to `dt`,
    /// stopping early once every ball is at rest. In each step every ball in
    /// play is integrated; balls over a pocket drop and take no part in the
    /// contacts that follow; ball-ball contacts are resolved, then cushion
    /// contacts; balls that end over a pocket drop. The table goes idle once
    /// every ball is at rest. A negative `dt` is refused; a zero `dt`, or an
    /// idle table, changes nothing.
    pub fn tick(&mut self, dt: i64) -> (r: Result<(), SimError>)
        requires
            old(self).wf(),
        ensures
            final(self).wf(),
            final(self).table_view() == old(self).table_view(),
            dt < 0 ==> r == Err::<(), SimError>(SimError::InvalidTick),
            dt >= 0 ==> r == Ok::<(), SimError>(()),
            dt <= 0 || old(self).phase_view() == Phase::Idle ==> final(self).balls_view() == old(self).balls_view()
                && final(self).phase_view() == old(self).phase_view(),
            dt > 0 && old(self).phase_view() == Phase::Simulating ==> {
                &&& final(self).balls_view() == run(old(self).table_view(), old(self).balls_view(), dt as int)
                &&& (final(self).phase_view() == Phase::Idle <==> all_at_rest(final(self).balls_view()))
            },
            total_energy(final(self).balls_view()) <= total_energy(old(self).balls_view()),
            forall|k: int|
                0 <= k < BALL_COUNT && !old(self).balls_view()[k].active ==> #[trigger] final(self).balls_view()[k]
                    == old(self).balls_view()[k],
    {
        if dt < 0 {
            return Err(SimError::InvalidTick);
        }
        if dt == 0 || self.phase == Phase::Idle {
            return Ok(());
        }
        let mut remaining = dt;
        while remaining > 0 && !resting(&self.balls)
            invariant
                0 <= remaining <= dt,
                self.phase == Phase::Simulating,
                self.table.wf(),
                self.table == old(self).table,
                balls_ok(self.balls@),
                in_play_ok(&self.table, self.balls@),
                total_energy(self.balls@) <= total_energy(old(self).balls@),
                total_energy(old(self).balls@) <= energy_budget(),
                run(&self.table, self.balls@, remaining as int) == run(&old(self).table, old(self).balls@, dt as int),
                old(self).balls@.len() == BALL_COUNT,
                forall|k: int|
                    0 <= k < BALL_COUNT && !old(self).balls@[k].active ==> #[trigger] self.balls@[k]
                        == old(self).balls@[k],
            decreases remaining,
        {
            let step = if remaining > MAX_STEP {
                MAX_STEP
            } else {
                remaining
            };
            step_balls(&mut self.balls, &self.table, step);
            remaining = remaining - step;
        }
        assert(run(&self.table, self.balls@, remaining as int) == self.balls@);
        if resting(&self.balls) {
            self.phase = Phase::Idle;
        }
        Ok(())
    }

}

proof fn lemma_rack_ok(table: &Table, s: Seq<Ball>)
    requires
        holds_rack(table),
        table.wf(),
        s.len() == BALL_COUNT,
        forall|k: int| 0 <= k < BALL_COUNT ==> #[trigger] s[k] == racked(k),
    ensures
        balls_ok(s),
        in_play_ok(table, s),
        all_at_rest(s),
        total_energy(s) == 0,
{
    assert forall|k: int| 0 <= k < s.len() implies {
        &&& (#[trigger] s[k]).ok()
        &&& s[k].number == k
        &&& within_limit(s[k])
    } by {
        assert(s[k] == racked(k));
    }
    assert forall|k: int| 0 <= k < s.len() && (#[trigger] s[k]).active implies table.bounds.holds_center(s[k].position)
        && !table.pocketed_at(s[k].position) by {
        assert(s[k] == racked(k));
    }
    assert forall|k: int| 0 <= k < s.len() implies (#[trigger] s[k]).at_rest() by {
        assert(s[k] == racked(k));
    }
    lemma_rest_total_zero(s);
}

/// Whatever shots, ticks, reracks and edits came before, every ball in play
/// has its center within the table's bounds grown by one radius.
pub proof fn lemma_in_play_within_bounds(sim: &Simulation)
    requires
        sim.wf(),
    ensures
        forall|k: int|
            0 <= k < sim.balls_view().len() && (#[trigger] sim.balls_view()[k]).active
                ==> sim.table_view().bounds.holds_with_radius(sim.balls_view()[k].position),
{
}

/// Every ball in play lies outside every pocket's capture zone, so a ball
/// whose center enters one is off the table by the end of that tick; a ball
/// off the table touches no other ball.
pub proof fn lemma_pocketed_leaves_play(sim: &Simulation, a: Ball, b: Ball)
    requires
        sim.wf(),
    ensures
        forall|k: int|
            0 <= k < sim.balls_view().len() && (#[trigger] sim.balls_view()[k]).active
                ==> !sim.table_view().pocketed_at(sim.balls_view()[k].position),
        !a.active || !b.active ==> !overlapping(a, b) && collided(a, b) == (a, b),
{
}

/// A ball off the table is left exactly as it is by every ball-ball contact
/// of a step, and so pushes no other ball.
pub proof fn lemma_sweep_keeps_pocketed(s: Seq<Ball>, i: int, j: int, k: int)
    requires
        s.len() == BALL_COUNT,
        0 <= k < BALL_COUNT,
        !s[k].active,
    ensures
        sweep_from(s, i, j).len() == BALL_COUNT,
        sweep_from(s, i, j)[k] == s[k],
    decreases BALL_COUNT - i, BALL_COUNT - j,
{
    if i >= BALL_COUNT || i < 0 {
    } else if j >= BALL_COUNT {
        lemma_sweep_keeps_pocketed(s, i + 1, i + 2, k);
    } else if j < 0 {
    } else {
        let r = collided(s[i], s[j]);
        let t = s.update(i, r.0).update(j, r.1);
        if k == i || k == j {
            assert(!overlapping(s[i], s[j]));
        }
        assert(t[k] == s[k]);
        lemma_sweep_keeps_pocketed(t, i, j + 1, k);
    }
}

/// The balls after `dt` ms in steps of at most `MAX_STEP` ms, stopping once
/// every ball is at rest.
pub open spec fn run(table: &Table, s: Seq<Ball>, dt: int) -> Seq<Ball>
    decreases dt,
{
    if dt <= 0 || all_at_rest(s) {
        s
    } else if dt <= MAX_STEP {
        stepped(table, s, dt)
    } else {
        run(table, stepped(table, s, MAX_STEP as int), dt - MAX_STEP)
    }
}

/// Advances the table by one step of `dt` ms.
fn step_balls(balls: &mut Vec<Ball>, table: &Table, dt: i64)
    requires
        table.wf(),
        balls_ok(old(balls)@),
        in_play_ok(table, old(balls)@),
        total_energy(old(balls)@) <= energy_budget(),
        0 < dt <= MAX_STEP,
    ensures
        balls_ok(final(balls)@),
        in_play_ok(table, final(balls)@),
        total_energy(final(balls)@) <= total_energy(old(balls)@),
        final(balls)@ == stepped(table, old(balls)@, dt as int),
        forall|k: int|
            0 <= k < BALL_COUNT && !old(balls)@[k].active ==> #[trigger] final(balls)@[k] == old(balls)@[k],
{
    integrate_all(balls, table, dt);
    drop_pocketed(balls, table);
    collide_all(balls);
    bounce_all(balls, table);
    let ghost bounced = balls@;
    drop_pocketed(balls, table);
    proof {
        let t = balls@;
        assert forall|k: int| 0 <= k < t.len() && (#[trigger] t[k]).active implies table.bounds.holds_center(
            t[k].position,
        ) && !table.pocketed_at(t[k].position) by {
            assert(bounced[k].active);
        }
    }
}

/// Energy of a ball whose components lie within `SPEED_BOUND`.
fn ball_energy(b: &Ball) -> (r: i128)
    requires
        -SPEED_BOUND <= b.velocity.x <= SPEED_BOUND,
        -SPEED_BOUND <= b.velocity.y <= SPEED_BOUND,
        -SPEED_BOUND <= b.spin <= SPEED_BOUND,
    ensures
        r == energy(*b),
        0 <= r <= 200_000_000_000_000_000_000,
{
    let vx = b.velocity.x as i128;
    let vy = b.velocity.y as i128;
    let s = b.spin as i128;
    assert(0 <= vx * vx <= 16_000_000_000_000_000_000 && 0 <= vy * vy <= 16_000_000_000_000_000_000 && 0 <= s * s
        <= 16_000_000_000_000_000_000) by (nonlinear_arith)
        requires
            -4_000_000_000 <= vx <= 4_000_000_000,
            -4_000_000_000 <= vy <= 4_000_000_000,
            -4_000_000_000 <= s <= 4_000_000_000,
    ;
    5 * (vx * vx + vy * vy) + 2 * (s * s)
}

/// Total energy of the balls.
fn total_of(balls: &Vec<Ball>) -> (r: i128)
    requires
        balls_ok(balls@),
    ensures
        r == total_energy(balls@),
{
    let mut sum: i128 = 0;
    let mut i: usize = 0;
    while i < BALL_COUNT
        invariant
            0 <= i <= BALL_COUNT,
            balls_ok(balls@),
            sum == total_energy(balls@.subrange(0, i as int)),
            0 <= sum <= i * 200_000_000_000_000_000_000,
        decreases BALL_COUNT - i,
    {
        let e = ball_energy(&balls[i]);
        assert(balls@.subrange(0, i + 1).drop_last() =~= balls@.subrange(0, i as int));
        sum = sum + e;
        i += 1;
    }
    assert(balls@.subrange(0, BALL_COUNT as int) =~= balls@);
    sum
}

fn resting(balls: &Vec<Ball>) -> (r: bool)
    ensures
        r == all_at_rest(balls@),
{
    let mut i: usize = 0;
    while i < balls.len()
        invariant
            0 <= i <= balls@.len(),
            forall|k: int| 0 <= k < i ==> (#[trigger] balls@[k]).at_rest(),
        decreases balls@.len() - i,
    {
        let b = balls[i];
        if b.velocity.x != 0 || b.velocity.y != 0 || b.spin != 0 {
            return false;
        }
        i += 1;
    }
    true
}

} // verus!
