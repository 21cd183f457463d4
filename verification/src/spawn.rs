//! The setup of a simulation: the balls are created with random
//! attributes and then scattered over the rectangle.

use vstd::prelude::*;
use crate::ball::{Ball, Bounds, Mass, Size, Velocity};
use crate::packing::same_balls;
use crate::random::RandomSource;
use crate::store::{Entity, Store};
use crate::vector::{Vec2, UNIT};
use crate::Simulation;

verus! {

/// The ball was drawn from the ranges of `sim` and lies at the origin.
pub open spec fn drawn_from(ball: Ball, sim: Simulation) -> bool {
    &&& sim.size_range.start <= ball.size.0 < sim.size_range.end
    &&& sim.mass_range.start <= ball.mass.0 < sim.mass_range.end
    &&& sim.velocity_range.start <= ball.velocity.0.x < sim.velocity_range.end
    &&& sim.velocity_range.start <= ball.velocity.0.y < sim.velocity_range.end
    &&& ball.position == (Vec2 { x: 0, y: 0 })
}

/// Creates the balls of a simulation: radius, mass and both velocity
/// components of each are drawn from the configured ranges, and every ball
/// starts at the origin.  Where no ball is asked for, none is created and
/// the ranges are not looked at; otherwise an invalid configuration gives
/// `None`.
pub fn create_balls(sim: &Simulation, rng: &mut RandomSource) -> (r: Option<Store>)
    ensures
        r is Some <==> (sim.num_balls == 0 || sim.valid()),
        r is Some ==> {
            &&& r->0.wf()
            &&& r->0@.len() == sim.num_balls
            &&& forall|i: int|
                0 <= i < sim.num_balls ==> (#[trigger] r->0@[i]) is Some && drawn_from(
                    r->0@[i]->0,
                    *sim,
                )
        },
{
    if sim.num_balls == 0 {
        return Some(Store::new());
    }
    if !sim.is_valid() {
        return None;
    }
    let mut store: Store = Store::new();
    let mut created: u32 = 0;
    while created < sim.num_balls
        invariant
            sim.valid(),
            0 <= created <= sim.num_balls,
            store.wf(),
            store@.len() == created,
            forall|i: int|
                0 <= i < created ==> (#[trigger] store@[i]) is Some && drawn_from(
                    store@[i]->0,
                    *sim,
                ),
        decreases sim.num_balls - created,
    {
        let size: i64 = rng.pick(sim.size_range.start as i64, sim.size_range.end as i64);
        let mass: i64 = rng.pick(sim.mass_range.start as i64, sim.mass_range.end as i64);
        let vx: i64 = rng.pick(sim.velocity_range.start, sim.velocity_range.end);
        let vy: i64 = rng.pick(sim.velocity_range.start, sim.velocity_range.end);
        let ball = Ball {
            position: Vec2 { x: 0, y: 0 },
            velocity: Velocity(Vec2 { x: vx, y: vy }),
            size: Size(size as u32),
            mass: Mass(mass as u32),
        };
        store.spawn(ball);
        created += 1;
    }
    Some(store)
}

/// The rectangle has room to scatter a ball of the given radius, in world
/// units: the range of positions that keep it inside is not empty in
/// either direction.
pub open spec fn room_for(radius: int, bounds: Bounds) -> bool {
    &&& bounds.min.x + radius * UNIT < bounds.max.x - radius * UNIT
    &&& bounds.min.y + radius * UNIT < bounds.max.y - radius * UNIT
}

/// The rectangle has room to scatter the ball.
pub open spec fn roomy(ball: Ball, bounds: Bounds) -> bool {
    room_for(ball.size.0 as int, bounds)
}

/// The rectangle has room to scatter every ball.
pub open spec fn all_roomy(slots: Seq<Option<Ball>>, bounds: Bounds) -> bool {
    forall|i: int| 0 <= i < slots.len() && (#[trigger] slots[i]) is Some ==> roomy(slots[i]->0, bounds)
}

/// The ball lies where scattering puts one: inside the rectangle, and
/// short of the upper end of its range in both directions.
pub open spec fn scattered(ball: Ball, bounds: Bounds) -> bool {
    &&& ball.inside(bounds, 0)
    &&& ball.position.x < bounds.max.x - ball.reach()
    &&& ball.position.y < bounds.max.y - ball.reach()
}

/// Tests `all_roomy`.
pub fn has_room(store: &Store, bounds: &Bounds) -> (r: bool)
    requires
        store.wf(),
        bounds.valid(),
    ensures
        r == all_roomy(store@, *bounds),
{
    let n: usize = store.slot_count();
    let mut i: usize = 0;
    while i < n
        invariant
            0 <= i <= n,
            n == store@.len(),
            store.wf(),
            bounds.valid(),
            forall|k: int|
                0 <= k < i && (#[trigger] store@[k]) is Some ==> roomy(store@[k]->0, *bounds),
        decreases n - i,
    {
        if let Some(ball) = store.get(Entity(i)) {
            let reach: i64 = ball.radius();
            if !(bounds.min.x + reach < bounds.max.x - reach && bounds.min.y + reach < bounds.max.y
                - reach) {
                return false;
            }
        }
        i += 1;
    }
    true
}

/// Scatters the balls: each is given a random position that keeps it
/// inside the rectangle.  The rectangle must have room for every ball;
/// `has_room` tells whether it has.
pub fn space_balls(store: &mut Store, bounds: &Bounds, rng: &mut RandomSource)
    requires
        old(store).wf(),
        bounds.valid(),
        all_roomy(old(store)@, *bounds),
    ensures
        final(store).wf(),
        same_balls(old(store)@, final(store)@),
        forall|i: int|
            0 <= i < final(store)@.len() && (#[trigger] final(store)@[i]) is Some
                ==> scattered(final(store)@[i]->0, *bounds),
{
    let n: usize = store.slot_count();
    let mut i: usize = 0;
    while i < n
        invariant
            0 <= i <= n,
            n == store@.len(),
            store.wf(),
            bounds.valid(),
            same_balls(old(store)@, store@),
            all_roomy(old(store)@, *bounds),
            forall|k: int|
                0 <= k < i && (#[trigger] store@[k]) is Some ==> scattered(store@[k]->0, *bounds),
        decreases n - i,
    {
        if let Some(ball) = store.get(Entity(i)) {
            assert(roomy(old(store)@[i as int]->0, *bounds));
            let reach: i64 = ball.radius();
            let x: i64 = rng.pick(bounds.min.x + reach, bounds.max.x - reach);
            let y: i64 = rng.pick(bounds.min.y + reach, bounds.max.y - reach);
            let moved = Ball {
                position: Vec2 { x, y },
                velocity: ball.velocity,
                size: ball.size,
                mass: ball.mass,
            };
            store.replace(Entity(i), moved);
        }
        i += 1;
    }
}

} // verus!
