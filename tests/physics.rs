use billiards::arith::{div_trunc, isqrt, Vec2};
use billiards::ball::{integrate, Ball, FULL_TURN, RADIUS};
use billiards::collision::{resolve_cushions, resolve_pair};
use billiards::simulation::{Phase, SimError, Simulation, BALL_COUNT, SHOT_LIMIT};
use billiards::table::{Table, HALF_LENGTH, HALF_WIDTH};

fn ball_at(number: u8, x: i64, y: i64, vx: i64, vy: i64) -> Ball {
    Ball {
        number,
        is_solid: true,
        position: Vec2::new(x, y),
        orientation: 0,
        velocity: Vec2::new(vx, vy),
        spin: 0,
        active: true,
    }
}

fn energy(b: &Ball) -> i128 {
    let vx = b.velocity.x as i128;
    let vy = b.velocity.y as i128;
    let s = b.spin as i128;
    5 * (vx * vx + vy * vy) + 2 * s * s
}

fn total_energy(sim: &Simulation) -> i128 {
    sim.get_all().iter().map(energy).sum()
}

fn check_table_state(sim: &Simulation) {
    let table = sim.table();
    for b in sim.get_all().iter() {
        if b.active {
            assert!(b.position.x >= table.bounds.min.x - RADIUS && b.position.x <= table.bounds.max.x + RADIUS);
            assert!(b.position.y >= table.bounds.min.y - RADIUS && b.position.y <= table.bounds.max.y + RADIUS);
            assert!(!table.pocket_captures(b.position));
        } else {
            assert_eq!(b.velocity, Vec2::zero());
            assert_eq!(b.spin, 0);
        }
    }
}

#[test]
fn square_root_rounds_down() {
    assert_eq!(isqrt(0), 0);
    assert_eq!(isqrt(1), 1);
    assert_eq!(isqrt(15), 3);
    assert_eq!(isqrt(16), 4);
    assert_eq!(isqrt(3_600_000_000), 60_000);
    assert_eq!(isqrt(3_599_999_999), 59_999);
}

#[test]
fn division_truncates_toward_zero() {
    assert_eq!(div_trunc(7, 2), 3);
    assert_eq!(div_trunc(-7, 2), -3);
    assert_eq!(div_trunc(0, 5), 0);
}

#[test]
fn integrate_moves_and_slows() {
    let b = ball_at(3, 1000, -2000, 30_000_000, -40_000_000);
    let r = integrate(b, 100);
    assert_eq!(r.position, Vec2::new(4000, -6000));
    // speed 50_000_000 drops by 10_000_000; the direction is kept
    assert_eq!(r.velocity, Vec2::new(24_000_000, -32_000_000));
    assert_eq!(r.number, 3);
    assert!(r.active);
}

#[test]
fn friction_keeps_direction() {
    let b = ball_at(1, 0, 0, 3_000_000, 4_000_000);
    let r = integrate(b, 10);
    assert_eq!(r.velocity, Vec2::new(2_400_000, 3_200_000));
}

#[test]
fn integrate_turns_and_slows_spin() {
    let mut b = ball_at(1, 0, 0, 60_000_000, 0);
    b.spin = 30_000_000;
    let r = integrate(b, 100);
    // 30_000_000 * 100 / 30_000_000 = 100 milliradians
    assert_eq!(r.orientation, 100);
    assert_eq!(r.spin, 20_000_000);
    let mut c = ball_at(1, 0, 0, 0, 0);
    c.orientation = FULL_TURN - 10;
    c.spin = -3_000_000;
    c.velocity = Vec2::new(50_000_000, 0);
    let r = integrate(c, 100);
    // the spin turns the ball back by 10 milliradians
    assert_eq!(r.orientation, FULL_TURN - 20);
}

#[test]
fn integrate_with_zero_step_changes_nothing() {
    let b = ball_at(2, 1234, 5678, 123, -456);
    let r = integrate(b, 0);
    assert_eq!(r.position, b.position);
    assert_eq!(r.velocity, b.velocity);
}

#[test]
fn slow_ball_snaps_to_rest() {
    let b = ball_at(2, 0, 0, 1_500_000, 0);
    let r = integrate(b, 10);
    assert_eq!(r.velocity, Vec2::new(500_000, 0));
    let r = integrate(r, 10);
    assert_eq!(r.velocity, Vec2::zero());
    let c = ball_at(2, 0, 0, 707_500, 707_500);
    // speed 1_000_556 less 1_000_000 leaves 556, below the stop speed
    let r = integrate(c, 10);
    assert_eq!(r.velocity, Vec2::zero());
    assert_eq!(r.spin, 0);
}

#[test]
fn pocketed_ball_does_not_move() {
    let mut b = ball_at(4, 10, 10, 0, 0);
    b.active = false;
    assert_eq!(integrate(b, 500), b);
}

#[test]
fn head_on_collision_exchanges_velocities() {
    let a = ball_at(0, 0, 0, 5_000_000, 0);
    let b = ball_at(1, 59_000, 0, 0, 0);
    let (ra, rb) = resolve_pair(a, b);
    assert_eq!(ra.velocity, Vec2::new(0, 0));
    assert_eq!(rb.velocity, Vec2::new(5_000_000, 0));
    // each pushed apart by half the 1000-unit penetration
    assert_eq!(ra.position, Vec2::new(-500, 0));
    assert_eq!(rb.position, Vec2::new(59_500, 0));
}

#[test]
fn separating_balls_keep_their_velocities() {
    let a = ball_at(0, 0, 0, -5_000_000, 0);
    let b = ball_at(1, 59_000, 0, 0, 0);
    let (ra, rb) = resolve_pair(a, b);
    assert_eq!(ra.velocity, a.velocity);
    assert_eq!(rb.velocity, b.velocity);
    assert_eq!(ra.position, Vec2::new(-500, 0));
}

#[test]
fn distant_balls_are_untouched() {
    let a = ball_at(0, 0, 0, 5_000_000, 0);
    let b = ball_at(1, 60_000, 0, 0, 0);
    assert_eq!(resolve_pair(a, b), (a, b));
}

#[test]
fn pocketed_ball_takes_no_part_in_contacts() {
    let a = ball_at(0, 0, 0, 5_000_000, 0);
    let mut b = ball_at(1, 10_000, 0, 0, 0);
    b.velocity = Vec2::zero();
    b.active = false;
    assert_eq!(resolve_pair(a, b), (a, b));
}

#[test]
fn coincident_centers_use_the_default_normal() {
    let a = ball_at(0, 100, 100, 0, 2_000_000);
    let b = ball_at(1, 100, 100, 0, 0);
    let (ra, rb) = resolve_pair(a, b);
    assert_eq!(ra.velocity, Vec2::new(0, 0));
    assert_eq!(rb.velocity, Vec2::new(0, 2_000_000));
    assert_eq!(ra.position, Vec2::new(100, 100 - RADIUS));
    assert_eq!(rb.position, Vec2::new(100, 100 + RADIUS));
}

#[test]
fn oblique_collision_keeps_momentum_and_loses_no_more_than_rounding() {
    let a = ball_at(0, 0, 0, 7_000_003, 1_234_567);
    let b = ball_at(1, 40_000, 30_000, -1_000_001, 99);
    let (ra, rb) = resolve_pair(a, b);
    assert_eq!(ra.velocity.x + rb.velocity.x, a.velocity.x + b.velocity.x);
    assert_eq!(ra.velocity.y + rb.velocity.y, a.velocity.y + b.velocity.y);
    assert!(energy(&ra) + energy(&rb) <= energy(&a) + energy(&b));
    assert!(ra.velocity != a.velocity);
}

#[test]
fn cushion_bounce_reverses_and_damps() {
    let table = Table::standard();
    let b = ball_at(5, HALF_LENGTH - 10_000, 0, 100_000_000, 3);
    let r = resolve_cushions(&table, b);
    assert_eq!(r.position, Vec2::new(HALF_LENGTH - RADIUS, 0));
    assert_eq!(r.velocity, Vec2::new(-90_000_000, 3));
    let c = ball_at(5, 0, -HALF_WIDTH, 0, -7);
    let r = resolve_cushions(&table, c);
    assert_eq!(r.position, Vec2::new(0, -HALF_WIDTH + RADIUS));
    assert_eq!(r.velocity, Vec2::new(0, 6));
}

#[test]
fn standard_table_geometry() {
    let table = Table::standard();
    assert_eq!(table.pockets().len(), 6);
    let cushions = table.cushions();
    assert_eq!(cushions.len(), 4);
    assert_eq!(cushions[1].normal, Vec2::new(1, 0));
    assert_eq!(table.bounds().max, Vec2::new(HALF_LENGTH, HALF_WIDTH));
    assert!(table.pocket_captures(Vec2::new(HALF_LENGTH - 10, HALF_WIDTH - 10)));
    assert!(!table.pocket_captures(Vec2::new(0, 0)));
}

#[test]
fn rerack_gives_sixteen_balls_at_rest() {
    let mut sim = Simulation::standard();
    sim.shoot(Vec2::new(-SHOT_LIMIT, 0)).unwrap();
    for _ in 0..20 {
        sim.tick(16).unwrap();
    }
    sim.rerack();
    let balls = sim.get_all();
    assert_eq!(balls.len(), BALL_COUNT);
    for (i, b) in balls.iter().enumerate() {
        assert_eq!(b.number as usize, i);
        assert!(b.active);
        assert_eq!(b.velocity, Vec2::zero());
        assert_eq!(b.spin, 0);
        assert_eq!(b.is_solid, i <= 8);
    }
    assert_eq!(balls[0].position, Vec2::new(300_000, 0));
    assert_eq!(balls[8].position, Vec2::new(0, 0));
    assert_eq!(balls[9].position, Vec2::new(103_920, 0));
    assert_eq!(balls[5].position, Vec2::new(-103_920, 120_000));
    assert_eq!(sim.phase(), Phase::Idle);
}

#[test]
fn zero_tick_changes_nothing() {
    let mut sim = Simulation::standard();
    sim.shoot(Vec2::new(-200_000_000, 1000)).unwrap();
    sim.tick(16).unwrap();
    let before = sim.get_all().clone();
    sim.tick(0).unwrap();
    assert_eq!(*sim.get_all(), before);
}

#[test]
fn negative_tick_is_refused() {
    let mut sim = Simulation::standard();
    sim.shoot(Vec2::new(-200_000_000, 0)).unwrap();
    let before = sim.get_all().clone();
    assert_eq!(sim.tick(-1), Err(SimError::InvalidTick));
    assert_eq!(*sim.get_all(), before);
}

#[test]
fn break_shot_keeps_table_invariants() {
    let mut sim = Simulation::standard();
    sim.shoot(Vec2::new(-SHOT_LIMIT, 3_000_000)).unwrap();
    assert_eq!(sim.phase(), Phase::Simulating);
    let mut last = total_energy(&sim);
    for _ in 0..400 {
        sim.tick(16).unwrap();
        let now = total_energy(&sim);
        assert!(now <= last);
        last = now;
        check_table_state(&sim);
    }
}

#[test]
fn shot_comes_to_rest_exactly() {
    let mut sim = Simulation::standard();
    sim.shoot(Vec2::new(-50_000_000, 0)).unwrap();
    let mut ticks = 0;
    while sim.phase() == Phase::Simulating && ticks < 1000 {
        sim.tick(16).unwrap();
        ticks += 1;
    }
    assert_eq!(sim.phase(), Phase::Idle);
    for b in sim.get_all().iter() {
        assert_eq!(b.velocity, Vec2::zero());
        assert_eq!(b.spin, 0);
    }
}

#[test]
fn shots_are_ignored_while_moving_or_too_strong() {
    let mut sim = Simulation::standard();
    assert_eq!(sim.shoot(Vec2::new(SHOT_LIMIT + 1, 0)), Err(SimError::ShotIgnored));
    assert_eq!(sim.phase(), Phase::Idle);
    assert_eq!(sim.shoot(Vec2::new(-100_000_000, 0)), Ok(()));
    assert_eq!(sim.get(0).unwrap().velocity, Vec2::new(-100_000_000, 0));
    assert_eq!(sim.shoot(Vec2::new(-100_000_000, 0)), Err(SimError::ShotIgnored));
}

#[test]
fn ball_entering_pocket_is_taken_off() {
    let mut sim = Simulation::standard();
    let mut cue = sim.get(0).unwrap();
    cue.position = Vec2::new(540_000, 240_000);
    assert_eq!(sim.set(0, cue), Ok(()));
    sim.shoot(Vec2::new(100_000_000, 100_000_000)).unwrap();
    let mut ticks = 0;
    while sim.get(0).unwrap().active && ticks < 20 {
        sim.tick(100).unwrap();
        ticks += 1;
    }
    let cue = sim.get(0).unwrap();
    assert!(!cue.active);
    assert_eq!(cue.velocity, Vec2::zero());
    assert_eq!(sim.phase(), Phase::Idle);
    assert_eq!(sim.shoot(Vec2::new(1, 0)), Err(SimError::ShotIgnored));
}

#[test]
fn store_access_errors() {
    let mut sim = Simulation::standard();
    assert_eq!(sim.get(16), Err(SimError::OutOfRangeBallNumber));
    assert_eq!(sim.pocket(16), Err(SimError::OutOfRangeBallNumber));
    let b = sim.get(3).unwrap();
    assert_eq!(sim.set(16, b), Err(SimError::OutOfRangeBallNumber));
    assert_eq!(sim.set(4, b), Err(SimError::InvalidBall));
    let mut too_fast = b;
    too_fast.velocity = Vec2::new(4_000_000_000, 0);
    assert_eq!(sim.set(3, too_fast), Err(SimError::InvalidBall));
    let mut off_but_moving = b;
    off_but_moving.active = false;
    off_but_moving.spin = 5;
    assert_eq!(sim.set(3, off_but_moving), Err(SimError::InvalidBall));
    let mut in_pocket = b;
    in_pocket.position = Vec2::new(HALF_LENGTH - RADIUS, HALF_WIDTH - RADIUS);
    assert_eq!(sim.set(3, in_pocket), Err(SimError::InvalidBall));
    assert_eq!(sim.pocket(3), Ok(()));
    let p = sim.get(3).unwrap();
    assert!(!p.active);
    assert_eq!(p.position, b.position);
}

#[test]
fn set_with_a_moving_ball_starts_the_table() {
    let mut sim = Simulation::standard();
    let mut b = sim.get(8).unwrap();
    b.velocity = Vec2::new(0, 1_000_000);
    assert_eq!(sim.set(8, b), Ok(()));
    assert_eq!(sim.phase(), Phase::Simulating);
    assert_eq!(sim.get(8).unwrap(), b);
}

#[test]
fn long_frame_runs_in_steps() {
    let mut whole = Simulation::standard();
    let mut parts = Simulation::standard();
    whole.shoot(Vec2::new(-300_000_000, 20_000_000)).unwrap();
    parts.shoot(Vec2::new(-300_000_000, 20_000_000)).unwrap();
    whole.tick(2500).unwrap();
    parts.tick(1000).unwrap();
    parts.tick(1000).unwrap();
    parts.tick(500).unwrap();
    assert_eq!(*whole.get_all(), *parts.get_all());
}

#[test]
fn rounding_below_stop_speed_stops_the_ball() {
    // speed 101_001 less 100_000 leaves 1001, but the rounded (707, 707)
    // moves at 999, below the stop speed
    let b = ball_at(2, 0, 0, 71_419, 71_419);
    let r = integrate(b, 1);
    assert_eq!(r.velocity, Vec2::zero());
    assert_eq!(r.spin, 0);
}

#[test]
fn pocketing_the_only_moving_ball_idles_the_table() {
    let mut sim = Simulation::standard();
    sim.shoot(Vec2::new(-100_000_000, 0)).unwrap();
    assert_eq!(sim.phase(), Phase::Simulating);
    assert_eq!(sim.pocket(0), Ok(()));
    assert_eq!(sim.phase(), Phase::Idle);
    let mut cue = sim.get(0).unwrap();
    cue.active = true;
    assert_eq!(sim.set(0, cue), Ok(()));
    assert_eq!(sim.phase(), Phase::Idle);
    assert_eq!(sim.shoot(Vec2::new(-100_000_000, 0)), Ok(()));
}

#[test]
fn stopping_the_only_moving_ball_by_set_idles_the_table() {
    let mut sim = Simulation::standard();
    sim.shoot(Vec2::new(-100_000_000, 0)).unwrap();
    let mut cue = sim.get(0).unwrap();
    cue.velocity = Vec2::zero();
    assert_eq!(sim.set(0, cue), Ok(()));
    assert_eq!(sim.phase(), Phase::Idle);
    assert_eq!(sim.shoot(Vec2::new(0, 50_000_000)), Ok(()));
}
