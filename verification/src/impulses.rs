//! The impulses that wait for the balls between two relaxation passes,
//! kept in a hash map under the slot of their ball.

use vstd::prelude::*;
use crate::vector::Vec2;

verus! {

/// The waiting impulses, held in a `bevy::utils::HashMap`.  The map is
/// opaque to the verifier: all that is known of it is what the four
/// functions at the end of this file state of `held`.
#[verifier::external_body]
pub struct Impulses {
    map: bevy::utils::HashMap<usize, Vec2>,
}

/// What the map of `impulses` holds: its keys and the value under each.
pub uninterp spec fn held(impulses: Impulses) -> Map<usize, Vec2>;

impl View for Impulses {
    type V = Map<usize, Vec2>;

    open spec fn view(&self) -> Map<usize, Vec2> {
        held(*self)
    }
}

/// The map that holds nothing.
pub open spec fn no_impulses() -> Map<usize, Vec2> {
    Map::empty()
}

/// `pending` holds no impulse.
pub open spec fn vacant(pending: Map<usize, Vec2>) -> bool {
    forall|slot: usize| !pending.contains_key(slot)
}

/// The impulse that `pending` holds for slot `i`, if any.
pub open spec fn waiting(pending: Map<usize, Vec2>, i: int) -> Option<Vec2> {
    if 0 <= i <= usize::MAX && pending.contains_key(i as usize) {
        Some(pending[i as usize])
    } else {
        None
    }
}

impl Impulses {
    /// No impulse waits.
    pub fn new() -> (r: Impulses)
        ensures
            r@ == no_impulses(),
    {
        empty_map()
    }

    /// The impulse that waits for `slot`, if any.
    pub fn get(&self, slot: usize) -> (r: Option<Vec2>)
        ensures
            r == waiting(self@, slot as int),
    {
        map_get(self, slot)
    }

    /// Lets `push` wait for `slot`, in place of what waited for it before.
    pub fn insert(&mut self, slot: usize, push: Vec2)
        ensures
            final(self)@ == old(self)@.insert(slot, push),
    {
        map_insert(self, slot, push)
    }

    /// Tells whether no impulse waits.
    pub fn is_empty(&self) -> (r: bool)
        ensures
            r == vacant(self@),
    {
        map_is_empty(self)
    }
}

/// `Default::default` of `hashbrown::HashMap`, which creates an empty map:
/// the new map holds no key.
#[verifier::external_body]
fn empty_map() -> (r: Impulses)
    ensures
        held(r) == no_impulses(),
{
    Impulses { map: bevy::utils::HashMap::default() }
}

/// `hashbrown::HashMap::get`, which returns a reference to the value
/// under the key, or `None` where the map does not hold the key.  The value
/// is copied out.
#[verifier::external_body]
fn map_get(impulses: &Impulses, slot: usize) -> (r: Option<Vec2>)
    ensures
        r == (if held(*impulses).contains_key(slot) {
            Some(held(*impulses)[slot])
        } else {
            None
        }),
{
    impulses.map.get(&slot).copied()
}

/// `hashbrown::HashMap::insert`, which puts the value under the key and
/// replaces the value that the key had, if it had one.  Every other key
/// keeps its value.
#[verifier::external_body]
fn map_insert(impulses: &mut Impulses, slot: usize, push: Vec2)
    ensures
        held(*final(impulses)) == held(*old(impulses)).insert(slot, push),
{
    impulses.map.insert(slot, push);
}

/// `hashbrown::HashMap::is_empty`, which tells whether the map holds no
/// element.
#[verifier::external_body]
fn map_is_empty(impulses: &Impulses) -> (r: bool)
    ensures
        r == vacant(held(*impulses)),
{
    impulses.map.is_empty()
}

} // verus!
