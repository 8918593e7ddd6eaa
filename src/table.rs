//! The table: its playing rectangle, cushions and pockets.
use vstd::prelude::*;
use crate::arith::Vec2;
use crate::ball::{RADIUS, REACH};

verus! {

/// Half the length of the standard table's playing surface, in position units.
pub const HALF_LENGTH: i64 = 600_000;

/// Half the width of the standard table's playing surface, in position units.
pub const HALF_WIDTH: i64 = 300_000;

/// Capture radius of each pocket of the standard table.
pub const POCKET_RADIUS: i64 = 60_000;

/// Largest capture radius a table may give a pocket.
pub const MAX_POCKET_RADIUS: i64 = 1_000_000;

/// Largest denominator of a cushion's restitution coefficient.
pub const MAX_RESTITUTION_DEN: i64 = 1000;

/// A pocket: a ball whose center comes closer than `capture_radius` to `center` drops.
#[derive(Clone, Copy, Debug, PartialEq, Eq, Structural)]
pub struct Pocket {
    pub center: Vec2,
    pub capture_radius: i64,
}

/// A cushion segment from `start` to `end`; `normal` points away from the playing area.
#[derive(Clone, Copy, Debug, PartialEq, Eq, Structural)]
pub struct Cushion {
    pub start: Vec2,
    pub end: Vec2,
    pub normal: Vec2,
}

/// Rectangular playing bounds, with corners `min` and `max`.
#[derive(Clone, Copy, Debug, PartialEq, Eq, Structural)]
pub struct Bounds {
    pub min: Vec2,
    pub max: Vec2,
}

/// Table geometry. A cushion bounce keeps `restitution_num / restitution_den`
/// of the speed across the cushion.
#[derive(Debug)]
pub struct Table {
    pub bounds: Bounds,
    pub pockets: Vec<Pocket>,
    pub restitution_num: i64,
    pub restitution_den: i64,
}

impl Bounds {
    /// Whether `p` lies in the rectangle shrunk by one ball radius on each side:
    /// where a ball touching no cushion may stand.
    pub open spec fn holds_center(self, p: Vec2) -> bool {
        &&& self.min.x + RADIUS <= p.x <= self.max.x - RADIUS
        &&& self.min.y + RADIUS <= p.y <= self.max.y - RADIUS
    }

    /// Whether `p` lies in the rectangle grown by one ball radius on each side.
    pub open spec fn holds_with_radius(self, p: Vec2) -> bool {
        &&& self.min.x - RADIUS <= p.x <= self.max.x + RADIUS
        &&& self.min.y - RADIUS <= p.y <= self.max.y + RADIUS
    }
}

pub open spec fn in_pocket_zone(pk: Pocket, p: Vec2) -> bool {
    (p.x - pk.center.x) * (p.x - pk.center.x) + (p.y - pk.center.y) * (p.y - pk.center.y) < pk.capture_radius * pk.capture_radius
}

impl Table {
    pub open spec fn wf(&self) -> bool {
        &&& -REACH <= self.bounds.min.x
        &&& self.bounds.min.x + 2 * RADIUS < self.bounds.max.x
        &&& self.bounds.max.x <= REACH
        &&& -REACH <= self.bounds.min.y
        &&& self.bounds.min.y + 2 * RADIUS < self.bounds.max.y
        &&& self.bounds.max.y <= REACH
        &&& 0 <= self.restitution_num <= self.restitution_den <= MAX_RESTITUTION_DEN
        &&& self.restitution_den > 0
        &&& forall|i: int|
            0 <= i < self.pockets@.len() ==> {
                let pk = #[trigger] self.pockets@[i];
                &&& self.bounds.min.x <= pk.center.x <= self.bounds.max.x
                &&& self.bounds.min.y <= pk.center.y <= self.bounds.max.y
                &&& 0 < pk.capture_radius <= MAX_POCKET_RADIUS
            }
    }

    /// Whether `p` lies in the capture zone of some pocket.
    pub open spec fn pocketed_at(&self, p: Vec2) -> bool {
        exists|i: int| 0 <= i < self.pockets@.len() && in_pocket_zone(#[trigger] self.pockets@[i], p)
    }

    /// The standard table: 1200 by 600 table units (units of 1000 position
    /// units), six pockets at the corners and the middles of the long sides,
    /// and cushions that keep nine tenths of the speed across them.
    pub fn standard() -> (r: Table)
        ensures
            r.wf(),
            r.bounds.min.x == -HALF_LENGTH && r.bounds.min.y == -HALF_WIDTH,
            r.bounds.max.x == HALF_LENGTH && r.bounds.max.y == HALF_WIDTH,
            r.pockets@.len() == 6,
            forall|i: int|
                0 <= i < r.pockets@.len() ==> (#[trigger] r.pockets@[i]).capture_radius == POCKET_RADIUS
                    && (r.pockets@[i].center.y == HALF_WIDTH || r.pockets@[i].center.y == -HALF_WIDTH),
            r.restitution_num == 9,
            r.restitution_den == 10,
    {
        let mut pockets: Vec<Pocket> = Vec::new();
        pockets.push(Pocket { center: Vec2 { x: -HALF_LENGTH, y: -HALF_WIDTH }, capture_radius: POCKET_RADIUS });
        pockets.push(Pocket { center: Vec2 { x: 0, y: -HALF_WIDTH }, capture_radius: POCKET_RADIUS });
        pockets.push(Pocket { center: Vec2 { x: HALF_LENGTH, y: -HALF_WIDTH }, capture_radius: POCKET_RADIUS });
        pockets.push(Pocket { center: Vec2 { x: -HALF_LENGTH, y: HALF_WIDTH }, capture_radius: POCKET_RADIUS });
        pockets.push(Pocket { center: Vec2 { x: 0, y: HALF_WIDTH }, capture_radius: POCKET_RADIUS });
        pockets.push(Pocket { center: Vec2 { x: HALF_LENGTH, y: HALF_WIDTH }, capture_radius: POCKET_RADIUS });
        Table {
            bounds: Bounds {
                min: Vec2 { x: -HALF_LENGTH, y: -HALF_WIDTH },
                max: Vec2 { x: HALF_LENGTH, y: HALF_WIDTH },
            },
            pockets,
            restitution_num: 9,
            restitution_den: 10,
        }
    }

    pub fn bounds(&self) -> (r: Bounds)
        ensures
            r == self.bounds,
    {
        self.bounds
    }

    pub fn pockets(&self) -> (r: Vec<Pocket>)
        ensures
            r@ == self.pockets@,
    {
        self.pockets.clone()
    }

    /// The four cushions, bottom, right, top and left, each with its outward normal.
    pub fn cushions(&self) -> (r: Vec<Cushion>)
        ensures
            r@.len() == 4,
            r@[0] == (Cushion { start: self.bounds.min, end: Vec2 { x: self.bounds.max.x, y: self.bounds.min.y }, normal: Vec2 { x: 0, y: -1i64 } }),
            r@[1] == (Cushion { start: Vec2 { x: self.bounds.max.x, y: self.bounds.min.y }, end: self.bounds.max, normal: Vec2 { x: 1, y: 0 } }),
            r@[2] == (Cushion { start: self.bounds.max, end: Vec2 { x: self.bounds.min.x, y: self.bounds.max.y }, normal: Vec2 { x: 0, y: 1 } }),
            r@[3] == (Cushion { start: Vec2 { x: self.bounds.min.x, y: self.bounds.max.y }, end: self.bounds.min, normal: Vec2 { x: -1i64, y: 0 } }),
    {
        let lo = self.bounds.min;
        let hi = self.bounds.max;
        let lo_hi = Vec2 { x: lo.x, y: hi.y };
        let hi_lo = Vec2 { x: hi.x, y: lo.y };
        let mut r: Vec<Cushion> = Vec::new();
        r.push(Cushion { start: lo, end: hi_lo, normal: Vec2 { x: 0, y: -1 } });
        r.push(Cushion { start: hi_lo, end: hi, normal: Vec2 { x: 1, y: 0 } });
        r.push(Cushion { start: hi, end: lo_hi, normal: Vec2 { x: 0, y: 1 } });
        r.push(Cushion { start: lo_hi, end: lo, normal: Vec2 { x: -1, y: 0 } });
        r
    }

    /// Whether `p` lies in the capture zone of some pocket.
    pub fn pocket_captures(&self, p: Vec2) -> (r: bool)
        requires
            self.wf(),
            -REACH * 10 <= p.x <= REACH * 10,
            -REACH * 10 <= p.y <= REACH * 10,
        ensures
            r == self.pocketed_at(p),
    {
        let mut i: usize = 0;
        while i < self.pockets.len()
            invariant
                self.wf(),
                -REACH * 10 <= p.x <= REACH * 10,
                -REACH * 10 <= p.y <= REACH * 10,
                0 <= i <= self.pockets@.len(),
                forall|k: int| 0 <= k < i ==> !in_pocket_zone(#[trigger] self.pockets@[k], p),
            decreases self.pockets@.len() - i,
        {
            let pk = self.pockets[i];
            let dx = p.x - pk.center.x;
            let dy = p.y - pk.center.y;
            assert(0 <= dx * dx <= 121 * REACH * REACH && 0 <= dy * dy <= 121 * REACH * REACH) by (nonlinear_arith)
                requires
                    -11 * REACH <= dx <= 11 * REACH,
                    -11 * REACH <= dy <= 11 * REACH,
            ;
            assert(0 < pk.capture_radius * pk.capture_radius <= MAX_POCKET_RADIUS * MAX_POCKET_RADIUS) by (nonlinear_arith)
                requires
                    0 < pk.capture_radius <= MAX_POCKET_RADIUS,
            ;
            if dx * dx + dy * dy < pk.capture_radius * pk.capture_radius {
                return true;
            }
            i += 1;
        }
        false
    }
}

} // verus!
