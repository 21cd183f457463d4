//! The arena that owns every ball.  A ball keeps its slot for life, so an
//! identifier stays stable; a removed ball leaves its slot empty.

use vstd::prelude::*;
use crate::ball::Ball;

verus! {

/// The stable identifier of a ball: the index of its slot.
#[derive(Clone, Copy, Debug, PartialEq, Eq, Structural)]
pub struct Entity(pub usize);

/// The ball that `slots` holds under index `i`, if any.
pub open spec fn lookup(slots: Seq<Option<Ball>>, i: int) -> Option<Ball> {
    if 0 <= i < slots.len() {
        slots[i]
    } else {
        None
    }
}

/// Every ball in `slots` is valid.
pub open spec fn all_valid(slots: Seq<Option<Ball>>) -> bool {
    forall|i: int| 0 <= i < slots.len() && slots[i] is Some ==> (#[trigger] slots[i])->0.valid()
}

/// The number of balls among the first `n` slots.
pub open spec fn live_count(slots: Seq<Option<Ball>>, n: int) -> nat
    decreases n,
{
    if n <= 0 || n > slots.len() {
        0
    } else {
        live_count(slots, n - 1) + if slots[n - 1] is Some {
            1nat
        } else {
            0nat
        }
    }
}

/// The arena of balls.
pub struct Store {
    slots: Vec<Option<Ball>>,
}

impl View for Store {
    type V = Seq<Option<Ball>>;

    closed spec fn view(&self) -> Seq<Option<Ball>> {
        self.slots@
    }
}

impl Store {
    /// Every ball of the arena is valid.
    pub open spec fn wf(&self) -> bool {
        all_valid(self@)
    }

    /// An arena without slots.
    pub fn new() -> (s: Store)
        ensures
            s@ == Seq::<Option<Ball>>::empty(),
            s.wf(),
    {
        Store { slots: Vec::new() }
    }

    /// The number of slots, empty ones included.
    pub fn slot_count(&self) -> (n: usize)
        ensures
            n == self@.len(),
    {
        self.slots.len()
    }

    /// The ball under `entity`, if there is one.
    pub fn get(&self, entity: Entity) -> (r: Option<Ball>)
        ensures
            r == lookup(self@, entity.0 as int),
    {
        if entity.0 < self.slots.len() {
            self.slots[entity.0]
        } else {
            None
        }
    }

    /// Adds a valid ball in a new slot and returns its identifier; an
    /// invalid ball is refused and the arena is left as it was.
    pub fn spawn(&mut self, ball: Ball) -> (r: Option<Entity>)
        requires
            old(self).wf(),
        ensures
            final(self).wf(),
            ball.valid() ==> r == Some(Entity(old(self)@.len() as usize)) && final(self)@ == old(
                self,
            )@.push(Some(ball)),
            !ball.valid() ==> r is None && final(self)@ == old(self)@,
    {
        if ball.is_valid() {
            let index: usize = self.slots.len();
            self.slots.push(Some(ball));
            Some(Entity(index))
        } else {
            None
        }
    }

    /// Replaces the ball under `entity` by a valid one.  Returns whether
    /// that was done: it is not where the slot is empty or missing, or
    /// where `ball` is invalid.
    pub fn replace(&mut self, entity: Entity, ball: Ball) -> (done: bool)
        requires
            old(self).wf(),
        ensures
            final(self).wf(),
            done == (lookup(old(self)@, entity.0 as int) is Some && ball.valid()),
            final(self)@ == (if done {
                old(self)@.update(entity.0 as int, Some(ball))
            } else {
                old(self)@
            }),
    {
        if entity.0 < self.slots.len() && self.slots[entity.0].is_some() && ball.is_valid() {
            self.slots.set(entity.0, Some(ball));
            true
        } else {
            false
        }
    }

    /// Removes the ball under `entity`.  Returns whether there was one.
    pub fn despawn(&mut self, entity: Entity) -> (done: bool)
        requires
            old(self).wf(),
        ensures
            final(self).wf(),
            done == (lookup(old(self)@, entity.0 as int) is Some),
            final(self)@ == (if done {
                old(self)@.update(entity.0 as int, None)
            } else {
                old(self)@
            }),
    {
        if entity.0 < self.slots.len() && self.slots[entity.0].is_some() {
            self.slots.set(entity.0, None);
            true
        } else {
            false
        }
    }

    /// The identifiers of the balls, in rising order.
    pub fn entities(&self) -> (ids: Vec<Entity>)
        ensures
            ids@.len() == live_count(self@, self@.len() as int),
            forall|k: int| 0 <= k < ids@.len() ==> lookup(self@, (#[trigger] ids@[k]).0 as int) is Some,
            forall|k: int, l: int| 0 <= k < l < ids@.len() ==> ids@[k].0 < ids@[l].0,
            forall|i: int|
                0 <= i < self@.len() && self@[i] is Some ==> ids@.contains(Entity(i as usize)),
    {
        let mut ids: Vec<Entity> = Vec::new();
        let mut i: usize = 0;
        while i < self.slots.len()
            invariant
                0 <= i <= self.slots.len(),
                ids@.len() == live_count(self@, i as int),
                forall|k: int| 0 <= k < ids@.len() ==> (#[trigger] ids@[k]).0 < i && lookup(self@, ids@[k].0 as int) is Some,
                forall|k: int, l: int| 0 <= k < l < ids@.len() ==> ids@[k].0 < ids@[l].0,
                forall|j: int|
                    0 <= j < i && self@[j] is Some ==> ids@.contains(Entity(j as usize)),
            decreases self.slots.len() - i,
        {
            if self.slots[i].is_some() {
                let ghost before = ids@;
                ids.push(Entity(i));
                proof {
                    assert(ids@[before.len() as int] == Entity(i));
                    assert forall|j: int|
                        0 <= j < i + 1 && self@[j] is Some implies ids@.contains(
                        Entity(j as usize),
                    ) by {
                        if j < i {
                            let k = choose|k: int| 0 <= k < before.len() && before[k] == Entity(j as usize);
                            assert(ids@[k] == Entity(j as usize));
                        }
                    }
                }
            }
            i += 1;
        }
        ids
    }
}

} // verus!
