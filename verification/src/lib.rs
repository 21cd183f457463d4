//! A fixed-point core for a toy two-dimensional particle simulation:
//! circular balls are packed into a rectangle without overlaps and then
//! advanced tick by tick with wall bounces and pairwise elastic collisions.
//!
//! Every length is an integer count of grid steps, [`vector::UNIT`] of them
//! to one world unit, so that all results are exact and reproducible.

use vstd::prelude::*;
use std::ops::Range;
use crate::ball::{Bounds, MAX_RADIUS};
use crate::packing::apart;
use crate::particle_sim::{all_inside, ran, set_up, ticked, ParticleSim, SimState};
use crate::random::RandomSource;
use crate::spawn::room_for;
use crate::store::Store;
use crate::vector::LIMIT;

pub mod ball;
pub mod impulses;
pub mod isqrt;
pub mod packing;
pub mod particle_sim;
pub mod random;
pub mod spawn;
pub mod store;
pub mod vector;

verus! {

/// The configuration of a simulation.  Each range leaves out its upper end.
pub struct Simulation {
    /// The number of balls created at setup.
    pub num_balls: u32,
    /// The range of the radii, in world units.
    pub size_range: Range<u32>,
    /// The range of the masses.
    pub mass_range: Range<u32>,
    /// The range of both components of the first velocities, in grid
    /// steps per tick.
    pub velocity_range: Range<i64>,
}

impl Default for Simulation {
    fn default() -> (sim: Simulation)
        ensures
            sim.num_balls == 10,
            sim.size_range.start == 10 && sim.size_range.end == 20,
            sim.mass_range.start == 4 && sim.mass_range.end == 5,
            sim.velocity_range.start == -1000 && sim.velocity_range.end == 1000,
            sim.valid(),
    {
        Simulation {
            num_balls: 10,
            size_range: Range { start: 10, end: 20 },
            mass_range: Range { start: 4, end: 5 },
            velocity_range: Range { start: -1000, end: 1000 },
        }
    }
}

impl Simulation {
    /// No range is empty, and every value of a range makes a valid ball:
    /// radii from 1 to `MAX_RADIUS`, masses from 1, velocities within `LIMIT`.
    pub open spec fn valid(&self) -> bool {
        &&& 1 <= self.size_range.start < self.size_range.end <= MAX_RADIUS + 1
        &&& 1 <= self.mass_range.start < self.mass_range.end
        &&& -LIMIT <= self.velocity_range.start < self.velocity_range.end <= LIMIT + 1
    }

    /// A configuration of the given values, valid or not.
    pub fn new(
        num_balls: u32,
        size_range: Range<u32>,
        mass_range: Range<u32>,
        velocity_range: Range<i64>,
    ) -> (sim: Simulation)
        ensures
            sim.num_balls == num_balls,
            sim.size_range == size_range,
            sim.mass_range == mass_range,
            sim.velocity_range == velocity_range,
    {
        Simulation { num_balls, size_range, mass_range, velocity_range }
    }

    /// Tests `valid`.
    pub fn is_valid(&self) -> (r: bool)
        ensures
            r == self.valid(),
    {
        1 <= self.size_range.start && self.size_range.start < self.size_range.end
            && self.size_range.end <= MAX_RADIUS + 1 && 1 <= self.mass_range.start
            && self.mass_range.start < self.mass_range.end && -LIMIT <= self.velocity_range.start
            && self.velocity_range.start < self.velocity_range.end && self.velocity_range.end
            <= LIMIT + 1
    }

    /// Runs a whole simulation without a window: the balls are created,
    /// scattered over the rectangle and packed, and then advanced by
    /// `ticks` ticks.  `delta` is the time that one relaxation pass of the
    /// packing counts as, in microseconds.
    ///
    /// Returns `None` where the configuration asks for a ball and is
    /// invalid, and where the rectangle lacks room for one of the balls
    /// that were created; it has room for them all where it has room for
    /// the largest radius of the configuration, and for none where it lacks
    /// room for the smallest.  Otherwise the balls are returned as the
    /// setup and the ticks left them: they are valid and inside the
    /// rectangle up to `EPSILON`, and where no tick was asked for no two of
    /// them overlap.
    pub fn simulate(self, bounds: &Bounds, rng: &mut RandomSource, delta: u64, ticks: u32) -> (r:
        Option<Store>)
        requires
            bounds.valid(),
        ensures
            self.num_balls == 0 || (self.valid() && room_for(self.size_range.end - 1, *bounds))
                ==> r is Some,
            self.num_balls > 0 && (!self.valid() || !room_for(
                self.size_range.start as int,
                *bounds,
            )) ==> r is None,
            r is Some ==> {
                &&& ran(self, *bounds, delta, ticks as int, r->0@)
                &&& r->0.wf()
                &&& r->0@.len() == self.num_balls
                &&& all_inside(r->0@, *bounds)
                &&& ticks == 0 ==> apart(r->0@)
            },
    {
        let mut run: ParticleSim = ParticleSim::new();
        if !run.setup(&self, bounds, rng, delta) {
            return None;
        }
        let ghost start = run.store@;
        let mut done: u32 = 0;
        while done < ticks
            invariant
                0 <= done <= ticks,
                bounds.valid(),
                run.store.wf(),
                run.state == SimState::Simulate,
                run.store@.len() == self.num_balls,
                run.store@ == ticked(start, *bounds, done as int),
                all_inside(run.store@, *bounds),
                ticks == 0 ==> apart(run.store@),
            decreases ticks - done,
        {
            run.update(bounds);
            done += 1;
        }
        assert(set_up(self, *bounds, delta, start) && run.store@ == ticked(
            start,
            *bounds,
            ticks as int,
        ));
        Some(run.store)
    }
}

} // verus!
