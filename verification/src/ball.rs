//! Balls, the rectangle that confines them, and the geometric tests on them.

use vstd::prelude::*;
use crate::vector::{clamp, clamp_int, product, Vec2, LIMIT, UNIT};

verus! {

/// Largest radius, in world units.
pub const MAX_RADIUS: u32 = 100_000;

/// A velocity, in grid steps per tick.
#[derive(Clone, Copy, Debug, PartialEq, Eq, Structural)]
pub struct Velocity(pub Vec2);

/// A radius, in world units.
#[derive(Clone, Copy, Debug, PartialEq, Eq, Structural)]
pub struct Size(pub u32);

/// A mass.
#[derive(Clone, Copy, Debug, PartialEq, Eq, Structural)]
pub struct Mass(pub u32);

/// A circular particle.
#[derive(Clone, Copy, Debug, PartialEq, Eq, Structural)]
pub struct Ball {
    pub position: Vec2,
    pub velocity: Velocity,
    pub size: Size,
    pub mass: Mass,
}

/// The rectangle that confines the balls, given by two opposite corners.
#[derive(Clone, Copy, Debug, PartialEq, Eq, Structural)]
pub struct Bounds {
    pub min: Vec2,
    pub max: Vec2,
}

impl Bounds {
    /// Every corner coordinate lies within `LIMIT` of zero.
    pub open spec fn valid(self) -> bool {
        self.min.within(LIMIT as int) && self.max.within(LIMIT as int)
    }

    /// Builds the rectangle; `None` exactly where a coordinate is out of range.
    pub fn new(min: Vec2, max: Vec2) -> (r: Option<Bounds>)
        ensures
            r == (if (Bounds { min, max }).valid() {
                Some(Bounds { min, max })
            } else {
                None
            }),
    {
        if -LIMIT <= min.x && min.x <= LIMIT && -LIMIT <= min.y && min.y <= LIMIT && -LIMIT
            <= max.x && max.x <= LIMIT && -LIMIT <= max.y && max.y <= LIMIT {
            Some(Bounds { min, max })
        } else {
            None
        }
    }
}

impl Ball {
    /// Radius and mass are positive, and every quantity is in range.
    pub open spec fn valid(self) -> bool {
        &&& 1 <= self.size.0 <= MAX_RADIUS
        &&& 1 <= self.mass.0
        &&& self.position.within(2 * LIMIT)
        &&& self.velocity.0.within(LIMIT as int)
    }

    /// The radius in grid steps.
    pub open spec fn reach(self) -> int {
        self.size.0 * UNIT
    }

    /// The two discs overlap: their centres are closer than the sum of the radii.
    pub open spec fn overlaps(self, other: Ball) -> bool {
        self.position.distance_squared(other.position) < (self.reach() + other.reach()) * (
        self.reach() + other.reach())
    }

    /// The rectangle has room for the ball once `margin` grid steps are
    /// taken off its radius.
    pub open spec fn fits(self, bounds: Bounds, margin: int) -> bool {
        &&& bounds.min.x + (self.reach() - margin) <= bounds.max.x - (self.reach() - margin)
        &&& bounds.min.y + (self.reach() - margin) <= bounds.max.y - (self.reach() - margin)
    }

    /// The centre keeps a distance of the radius less `margin` from every
    /// side of the rectangle.
    pub open spec fn inside(self, bounds: Bounds, margin: int) -> bool {
        &&& bounds.min.x + (self.reach() - margin) <= self.position.x <= bounds.max.x - (
        self.reach() - margin)
        &&& bounds.min.y + (self.reach() - margin) <= self.position.y <= bounds.max.y - (
        self.reach() - margin)
    }

    /// The ball moved to `target` and then clamped into the rectangle, the
    /// effective radius being the radius less `margin`.
    pub open spec fn confined(self, target_x: int, target_y: int, bounds: Bounds, margin: int) -> Ball {
        Ball {
            position: Vec2 {
                x: clamp_int(
                    target_x,
                    bounds.min.x + (self.reach() - margin),
                    bounds.max.x - (self.reach() - margin),
                ) as i64,
                y: clamp_int(
                    target_y,
                    bounds.min.y + (self.reach() - margin),
                    bounds.max.y - (self.reach() - margin),
                ) as i64,
            },
            ..self
        }
    }

    /// Builds a ball; `None` exactly where the values do not make a valid one.
    pub fn new(position: Vec2, velocity: Velocity, size: Size, mass: Mass) -> (r: Option<Ball>)
        ensures
            r == (if (Ball { position, velocity, size, mass }).valid() {
                Some(Ball { position, velocity, size, mass })
            } else {
                None
            }),
    {
        let ball = Ball { position, velocity, size, mass };
        if ball.is_valid() {
            Some(ball)
        } else {
            None
        }
    }

    /// Tests `valid`.
    pub fn is_valid(&self) -> (r: bool)
        ensures
            r == self.valid(),
    {
        1 <= self.size.0 && self.size.0 <= MAX_RADIUS && 1 <= self.mass.0 && -2 * LIMIT
            <= self.position.x && self.position.x <= 2 * LIMIT && -2 * LIMIT <= self.position.y
            && self.position.y <= 2 * LIMIT && -LIMIT <= self.velocity.0.x && self.velocity.0.x
            <= LIMIT && -LIMIT <= self.velocity.0.y && self.velocity.0.y <= LIMIT
    }

    /// The radius in grid steps.
    pub fn radius(&self) -> (r: i64)
        requires
            self.valid(),
        ensures
            r == self.reach(),
            UNIT <= r <= LIMIT,
    {
        self.size.0 as i64 * UNIT
    }

    /// Tests `overlaps`.
    pub fn touches(&self, other: &Ball) -> (r: bool)
        requires
            self.valid(),
            other.valid(),
        ensures
            r == self.overlaps(*other),
    {
        let dx: i128 = (self.position.x - other.position.x) as i128;
        let dy: i128 = (self.position.y - other.position.y) as i128;
        let sum: i128 = (self.radius() + other.radius()) as i128;
        let dx2: i128 = product(dx, dx, Ghost(4 * LIMIT), Ghost(4 * LIMIT));
        let dy2: i128 = product(dy, dy, Ghost(4 * LIMIT), Ghost(4 * LIMIT));
        let sum2: i128 = product(sum, sum, Ghost(2 * LIMIT), Ghost(2 * LIMIT));
        dx2 + dy2 < sum2
    }

    /// Tests `inside` with no margin.
    pub fn is_inside(&self, bounds: &Bounds) -> (r: bool)
        requires
            self.valid(),
            bounds.valid(),
        ensures
            r == self.inside(*bounds, 0),
    {
        let reach: i64 = self.radius();
        bounds.min.x + reach <= self.position.x && self.position.x <= bounds.max.x - reach
            && bounds.min.y + reach <= self.position.y && self.position.y <= bounds.max.y
            - reach
    }

    /// Moves the ball to the target and clamps it into the rectangle, the
    /// effective radius being the radius less `margin`.  Where the
    /// rectangle has room for the ball, the result is inside it.
    pub fn place(&self, target_x: i128, target_y: i128, bounds: &Bounds, margin: i64) -> (r: Ball)
        requires
            self.valid(),
            bounds.valid(),
            0 <= margin <= UNIT,
        ensures
            r == self.confined(target_x as int, target_y as int, *bounds, margin as int),
            r.valid(),
            self.fits(*bounds, margin as int) ==> r.inside(*bounds, margin as int),
    {
        let reach: i64 = self.radius() - margin;
        let x: i64 = clamp(target_x, bounds.min.x + reach, bounds.max.x - reach);
        let y: i64 = clamp(target_y, bounds.min.y + reach, bounds.max.y - reach);
        Ball { position: Vec2 { x, y }, velocity: self.velocity, size: self.size, mass: self.mass }
    }
}

} // verus!
