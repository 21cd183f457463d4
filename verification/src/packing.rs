//! The packing engine: a time-boxed relaxation that nudges overlapping
//! balls, followed by a forced resolution that removes what still overlaps.

use vstd::prelude::*;
use crate::ball::{Ball, Bounds};
use crate::impulses::{vacant, waiting, Impulses};
use crate::isqrt::{floor_sqrt, is_floor_sqrt, isqrt, isqrt_wide};
use crate::random::RandomSource;
use crate::store::{live_count, lookup, Entity, Store};
use crate::vector::{
    div_toward_zero, divide, lemma_div_toward_zero_bound, lemma_product_bound, product, Vec2,
    LIMIT, UNIT,
};

verus! {

/// The floor under the squared distance that weighs an impulse: a
/// hundredth of a square world unit.
pub const NEAR_FLOOR: i64 = 10_000;

/// The cap on the weight of a single impulse, in grid steps.
pub const WEIGHT_CAP: i64 = 1_000_000_000;

/// The length to which an accumulated impulse is cut: ten thousand world units.
pub const MAX_IMPULSE: i64 = 10_000_000;

/// The largest component of an accumulated impulse: the cut length and
/// one world unit of jitter.
pub const MAX_PENDING: i64 = 10_001_000;

/// The time budget of the relaxation, in microseconds.
pub const RELAX_BUDGET: u64 = 100_000;

/// The weight of the impulse that `other` exerts on `subject`: the squared
/// distance between them, floored, over the squared distance of `subject`
/// from the origin, in grid steps and capped.
pub open spec fn impulse_weight(subject: Ball, other: Ball) -> int {
    let dist = other.position.distance_squared(subject.position);
    let floored = if dist < NEAR_FLOOR { NEAR_FLOOR as int } else { dist };
    let origin = subject.position.length_squared();
    let divisor = if origin < 1 { 1 } else { origin };
    let weight = floored * UNIT / divisor;
    if weight > WEIGHT_CAP { WEIGHT_CAP as int } else { weight }
}

/// The impulse that a contact with `other` adds to `subject`: the unit
/// vector from `subject` to `other` (zero where the centres are less than a
/// grid step apart) times the weight.
pub open spec fn impulse(subject: Ball, other: Ball) -> Vec2 {
    let dx = other.position.x - subject.position.x;
    let dy = other.position.y - subject.position.y;
    let len = floor_sqrt(dx * dx + dy * dy);
    let weight = impulse_weight(subject, other);
    if len == 0 {
        Vec2 { x: 0, y: 0 }
    } else {
        Vec2 {
            x: div_toward_zero(dx * weight, len) as i64,
            y: div_toward_zero(dy * weight, len) as i64,
        }
    }
}

/// The vector `(x, y)` cut to length `max` where it is longer, its
/// direction kept.
pub open spec fn cut_length(x: int, y: int, max: int) -> Vec2 {
    let len_sq = x * x + y * y;
    if len_sq > max * max {
        let len = floor_sqrt(len_sq);
        Vec2 { x: div_toward_zero(x * max, len) as i64, y: div_toward_zero(y * max, len) as i64 }
    } else {
        Vec2 { x: x as i64, y: y as i64 }
    }
}

/// The accumulator after one contact: the impulse is added, the sum is
/// cut to `MAX_IMPULSE`, and the jitter is added on top.
pub open spec fn nudged(pending: Vec2, push: Vec2, jitter: Vec2) -> Vec2 {
    let cut = cut_length(pending.x + push.x, pending.y + push.y, MAX_IMPULSE as int);
    Vec2 { x: (jitter.x + cut.x) as i64, y: (jitter.y + cut.y) as i64 }
}

/// A component of a vector is no longer than the vector.
pub proof fn lemma_component_below_length(x: int, y: int, len: int)
    requires
        is_floor_sqrt(x * x + y * y, len),
    ensures
        -len <= x <= len,
        -len <= y <= len,
{
    assert(-len <= x <= len) by (nonlinear_arith)
        requires
            0 <= len,
            x * x + y * y < (len + 1) * (len + 1),
    ;
    assert(-len <= y <= len) by (nonlinear_arith)
        requires
            0 <= len,
            x * x + y * y < (len + 1) * (len + 1),
    ;
}

/// Computes `impulse`.
pub fn contact_impulse(subject: &Ball, other: &Ball) -> (push: Vec2)
    requires
        subject.valid(),
        other.valid(),
    ensures
        push == impulse(*subject, *other),
        push.within(WEIGHT_CAP as int),
{
    let dx: i128 = (other.position.x - subject.position.x) as i128;
    let dy: i128 = (other.position.y - subject.position.y) as i128;
    let dx2: i128 = product(dx, dx, Ghost(4 * LIMIT), Ghost(4 * LIMIT));
    let dy2: i128 = product(dy, dy, Ghost(4 * LIMIT), Ghost(4 * LIMIT));
    let dist: i128 = dx2 + dy2;
    assert(dx2 >= 0 && dy2 >= 0) by (nonlinear_arith)
        requires
            dx2 == dx * dx,
            dy2 == dy * dy,
    ;
    let px: i128 = subject.position.x as i128;
    let py: i128 = subject.position.y as i128;
    let px2: i128 = product(px, px, Ghost(2 * LIMIT), Ghost(2 * LIMIT));
    let py2: i128 = product(py, py, Ghost(2 * LIMIT), Ghost(2 * LIMIT));
    let origin: i128 = px2 + py2;
    let floored: i128 = if dist < NEAR_FLOOR as i128 { NEAR_FLOOR as i128 } else { dist };
    let divisor: i128 = if origin < 1 { 1 } else { origin };
    let raw: i128 = floored * (UNIT as i128) / divisor;
    assert(raw >= 0) by (nonlinear_arith)
        requires
            raw == (floored * UNIT) / (divisor as int),
            floored >= 0,
            divisor > 0,
    ;
    let weight: i128 = if raw > WEIGHT_CAP as i128 { WEIGHT_CAP as i128 } else { raw };
    assert(weight == impulse_weight(*subject, *other));
    let len: u64 = isqrt(dist as u64);
    if len == 0 {
        Vec2 { x: 0, y: 0 }
    } else {
        proof {
            lemma_component_below_length(dx as int, dy as int, len as int);
            lemma_product_bound(dx as int, weight as int, len as int, weight as int);
            lemma_product_bound(dy as int, weight as int, len as int, weight as int);
            lemma_div_toward_zero_bound(dx * weight, len as int, weight as int);
            lemma_div_toward_zero_bound(dy * weight, len as int, weight as int);
        }
        let nx: i128 = product(dx, weight, Ghost(4 * LIMIT), Ghost(WEIGHT_CAP as int));
        let ny: i128 = product(dy, weight, Ghost(4 * LIMIT), Ghost(WEIGHT_CAP as int));
        let x: i128 = divide(nx, len as i128);
        let y: i128 = divide(ny, len as i128);
        Vec2 { x: x as i64, y: y as i64 }
    }
}

/// Computes `cut_length`.  No component of the result is longer than `max`.
pub fn limit_length(x: i64, y: i64, max: i64) -> (cut: Vec2)
    requires
        0 <= max,
    ensures
        cut == cut_length(x as int, y as int, max as int),
        cut.within(max as int),
{
    let x2: i128 = product(
        x as i128,
        x as i128,
        Ghost(0x8000_0000_0000_0000),
        Ghost(0x8000_0000_0000_0000),
    );
    let y2: i128 = product(
        y as i128,
        y as i128,
        Ghost(0x8000_0000_0000_0000),
        Ghost(0x8000_0000_0000_0000),
    );
    let m2: i128 = product(
        max as i128,
        max as i128,
        Ghost(0x8000_0000_0000_0000),
        Ghost(0x8000_0000_0000_0000),
    );
    assert(x2 >= 0 && y2 >= 0 && m2 >= 0) by (nonlinear_arith)
        requires
            x2 == x * x,
            y2 == y * y,
            m2 == max * max,
    ;
    let len_sq: u128 = x2 as u128 + y2 as u128;
    if len_sq > m2 as u128 {
        let len: u128 = isqrt_wide(len_sq);
        proof {
            lemma_component_below_length(x as int, y as int, len as int);
            assert(len > 0) by (nonlinear_arith)
                requires
                    len_sq < (len + 1) * (len + 1),
                    len_sq > 0,
                    len >= 0,
            ;
            lemma_product_bound(x as int, max as int, len as int, max as int);
            lemma_product_bound(y as int, max as int, len as int, max as int);
            lemma_div_toward_zero_bound(x * max, len as int, max as int);
            lemma_div_toward_zero_bound(y * max, len as int, max as int);
        }
        let nx: i128 = product(
            x as i128,
            max as i128,
            Ghost(0x8000_0000_0000_0000),
            Ghost(0x8000_0000_0000_0000),
        );
        let ny: i128 = product(
            y as i128,
            max as i128,
            Ghost(0x8000_0000_0000_0000),
            Ghost(0x8000_0000_0000_0000),
        );
        let cx: i128 = divide(nx, len as i128);
        let cy: i128 = divide(ny, len as i128);
        Vec2 { x: cx as i64, y: cy as i64 }
    } else {
        assert(-max <= x <= max && -max <= y <= max) by (nonlinear_arith)
            requires
                x * x + y * y <= max * max,
                0 <= max,
        ;
        Vec2 { x, y }
    }
}

/// Computes `nudged`: folds one contact's impulse and jitter into the
/// accumulator, which stays within `MAX_PENDING`.
pub fn nudge(pending: Vec2, push: Vec2, jitter: Vec2) -> (next: Vec2)
    requires
        pending.within(MAX_PENDING as int),
        push.within(WEIGHT_CAP as int),
        jitter.within(UNIT as int),
    ensures
        next == nudged(pending, push, jitter),
        next.within(MAX_PENDING as int),
{
    let x: i64 = pending.x + push.x;
    let y: i64 = pending.y + push.y;
    let cut: Vec2 = limit_length(x, y, MAX_IMPULSE);
    Vec2 { x: jitter.x + cut.x, y: jitter.y + cut.y }
}

/// Slots `i` and `j` hold two different balls that overlap.
pub open spec fn in_contact(slots: Seq<Option<Ball>>, i: int, j: int) -> bool {
    &&& i != j
    &&& lookup(slots, i) is Some
    &&& lookup(slots, j) is Some
    &&& lookup(slots, i)->0.overlaps(lookup(slots, j)->0)
}

/// No two balls of `slots` overlap.
pub open spec fn apart(slots: Seq<Option<Ball>>) -> bool {
    forall|i: int, j: int| !in_contact(slots, i, j)
}

/// Ball `i` overlaps one of the balls in the first `n` slots.
pub open spec fn touched(slots: Seq<Option<Ball>>, i: int, n: int) -> bool {
    exists|j: int| 0 <= j < n && in_contact(slots, i, j)
}

/// `after` holds the same balls as `before` in the same slots, each with at
/// most its position changed.
pub open spec fn same_balls(before: Seq<Option<Ball>>, after: Seq<Option<Ball>>) -> bool {
    &&& after.len() == before.len()
    &&& forall|i: int|
        0 <= i < before.len() ==> ((#[trigger] after[i]) is Some <==> before[i] is Some)
    &&& forall|i: int|
        0 <= i < before.len() && before[i] is Some ==> {
            &&& (#[trigger] after[i])->0.velocity == before[i]->0.velocity
            &&& after[i]->0.size == before[i]->0.size
            &&& after[i]->0.mass == before[i]->0.mass
        }
}

/// Every ball of `before` that was inside the rectangle is inside it in `after`.
pub open spec fn stays_inside(
    before: Seq<Option<Ball>>,
    after: Seq<Option<Ball>>,
    bounds: Bounds,
) -> bool {
    forall|i: int|
        0 <= i < before.len() && i < after.len() && before[i] is Some && (
        #[trigger] after[i]) is Some && before[i]->0.inside(bounds, 0) ==> after[i]->0.inside(
            bounds,
            0,
        )
}

/// The balls after every waiting impulse was added to the position of its
/// ball and the ball clamped into the rectangle by its full radius.
pub open spec fn shifted(
    slots: Seq<Option<Ball>>,
    pending: Map<usize, Vec2>,
    bounds: Bounds,
) -> Seq<Option<Ball>> {
    Seq::new(
        slots.len(),
        |i: int|
            match (slots[i], waiting(pending, i)) {
                (Some(ball), Some(push)) => Some(
                    ball.confined(ball.position.x + push.x, ball.position.y + push.y, bounds, 0),
                ),
                _ => slots[i],
            },
    )
}

/// Adds each waiting impulse to its ball's position and clamps the ball
/// into the rectangle.
pub fn apply_impulses(store: &mut Store, pending: &Impulses, bounds: &Bounds)
    requires
        old(store).wf(),
        bounds.valid(),
    ensures
        final(store).wf(),
        final(store)@ == shifted(old(store)@, pending@, *bounds),
{
    let n: usize = store.slot_count();
    let mut i: usize = 0;
    while i < n
        invariant
            0 <= i <= n,
            n == store@.len(),
            n == old(store)@.len(),
            store.wf(),
            bounds.valid(),
            forall|k: int|
                0 <= k < i ==> (#[trigger] store@[k]) == shifted(old(store)@, pending@, *bounds)[k],
            forall|k: int| i <= k < n ==> (#[trigger] store@[k]) == old(store)@[k],
        decreases n - i,
    {
        if let Some(push) = pending.get(i) {
            if let Some(ball) = store.get(Entity(i)) {
                let moved: Ball = ball.place(
                    ball.position.x as i128 + push.x as i128,
                    ball.position.y as i128 + push.y as i128,
                    bounds,
                    0,
                );
                store.replace(Entity(i), moved);
            }
        }
        i += 1;
    }
    assert(store@ =~= shifted(old(store)@, pending@, *bounds));
}

/// The accumulator of ball `i` after its pairs with the first `n` slots
/// were looked at in order, `jitters[j]` being the jitter drawn for the
/// pair with slot `j`: every contact folds its impulse and its jitter into
/// the accumulator, which starts from zero at the first contact.
pub open spec fn accumulated(slots: Seq<Option<Ball>>, i: int, n: int, jitters: Seq<Vec2>) -> Option<
    Vec2,
>
    decreases n,
{
    if n <= 0 {
        None
    } else {
        let before = accumulated(slots, i, n - 1, jitters);
        if in_contact(slots, i, n - 1) {
            let so_far = match before {
                Some(sum) => sum,
                None => Vec2 { x: 0, y: 0 },
            };
            Some(
                nudged(
                    so_far,
                    impulse(lookup(slots, i)->0, lookup(slots, n - 1)->0),
                    jitters[n - 1],
                ),
            )
        } else {
            before
        }
    }
}

/// There are `n` jitters, each component of each at least minus one world
/// unit and less than one.
pub open spec fn jitters_in_range(jitters: Seq<Vec2>, n: int) -> bool {
    &&& jitters.len() == n
    &&& forall|j: int|
        0 <= j < n ==> -UNIT <= (#[trigger] jitters[j]).x < UNIT && -UNIT <= jitters[j].y < UNIT
}

/// `sum` is what a scan of `slots` can leave for slot `i`: the accumulator
/// of its ball over all its pairs, for some jitters in range.
pub open spec fn scanned_at(slots: Seq<Option<Ball>>, i: int, sum: Option<Vec2>) -> bool {
    exists|jitters: Seq<Vec2>|
        jitters_in_range(jitters, slots.len() as int) && sum == #[trigger] accumulated(
            slots,
            i,
            slots.len() as int,
            jitters,
        )
}

/// `pending` is what a scan of `slots` can leave: impulses wait for slots
/// of `slots` only, and what waits for each slot is what a scan can leave
/// for it.
pub open spec fn scanned(slots: Seq<Option<Ball>>, pending: Map<usize, Vec2>) -> bool {
    &&& forall|slot: usize| pending.contains_key(slot) ==> slot < slots.len()
    &&& forall|i: int| 0 <= i < slots.len() ==> scanned_at(slots, i, #[trigger] waiting(pending, i))
}

/// The accumulator over the first `n` pairs reads the first `n` jitters only.
pub proof fn lemma_accumulated_prefix(
    slots: Seq<Option<Ball>>,
    i: int,
    n: int,
    first: Seq<Vec2>,
    second: Seq<Vec2>,
)
    requires
        n <= first.len(),
        n <= second.len(),
        forall|j: int| 0 <= j < n ==> first[j] == second[j],
    ensures
        accumulated(slots, i, n, first) == accumulated(slots, i, n, second),
    decreases n,
{
    if n > 0 {
        lemma_accumulated_prefix(slots, i, n - 1, first, second);
    }
}

/// Scans every ordered pair of balls.  Each contact folds its impulse and a
/// fresh jitter of up to one world unit into the accumulator of its first
/// ball.  A ball has an accumulator afterwards exactly where it overlaps
/// another ball, and the accumulator is what the contacts of the ball give
/// in order with the jitters that were drawn.
pub fn scan_contacts(store: &Store, rng: &mut RandomSource) -> (pending: Impulses)
    requires
        store.wf(),
    ensures
        scanned(store@, pending@),
        forall|i: int|
            0 <= i < store@.len() ==> ((#[trigger] waiting(pending@, i)) is Some <==> touched(
                store@,
                i,
                store@.len() as int,
            )),
        forall|i: int|
            0 <= i < store@.len() && (#[trigger] waiting(pending@, i)) is Some ==> waiting(
                pending@,
                i,
            )->0.within(MAX_PENDING as int),
{
    let n: usize = store.slot_count();
    let mut pending: Impulses = Impulses::new();
    let mut i: usize = 0;
    while i < n
        invariant
            0 <= i <= n,
            n == store@.len(),
            store.wf(),
            forall|slot: usize| pending@.contains_key(slot) ==> slot < i,
            forall|k: int| 0 <= k < i ==> scanned_at(store@, k, #[trigger] waiting(pending@, k)),
            forall|k: int|
                0 <= k < i ==> ((#[trigger] waiting(pending@, k)) is Some <==> touched(
                    store@,
                    k,
                    n as int,
                )),
            forall|k: int|
                0 <= k < i && (#[trigger] waiting(pending@, k)) is Some ==> waiting(
                    pending@,
                    k,
                )->0.within(MAX_PENDING as int),
        decreases n - i,
    {
        let mut sum: Option<Vec2> = None;
        let subject: Option<Ball> = store.get(Entity(i));
        let ghost mut drawn: Seq<Vec2> = Seq::empty();
        let ghost earlier = pending@;
        let mut j: usize = 0;
        while j < n
            invariant
                0 <= j <= n,
                0 <= i < n,
                n == store@.len(),
                store.wf(),
                subject == store@[i as int],
                jitters_in_range(drawn, j as int),
                sum == accumulated(store@, i as int, j as int, drawn),
                sum is Some <==> touched(store@, i as int, j as int),
                sum is Some ==> sum->0.within(MAX_PENDING as int),
            decreases n - j,
        {
            let ghost so_far_drawn = drawn;
            let ghost mut used: Vec2 = Vec2 { x: 0, y: 0 };
            if let Some(first) = subject {
                if let Some(second) = store.get(Entity(j)) {
                    if i != j && first.touches(&second) {
                        let push: Vec2 = contact_impulse(&first, &second);
                        let jitter: Vec2 = Vec2 { x: rng.pick(-UNIT, UNIT), y: rng.pick(-UNIT, UNIT) };
                        let so_far: Vec2 = match sum {
                            Some(v) => v,
                            None => Vec2 { x: 0, y: 0 },
                        };
                        sum = Some(nudge(so_far, push, jitter));
                        proof {
                            used = jitter;
                        }
                    }
                }
            }
            proof {
                drawn = so_far_drawn.push(used);
                lemma_accumulated_prefix(store@, i as int, j as int, so_far_drawn, drawn);
                let s = store@;
                if touched(s, i as int, j as int + 1) {
                    let w = choose|w: int| 0 <= w < j + 1 && in_contact(s, i as int, w);
                    if w < j {
                        assert(touched(s, i as int, j as int));
                    }
                }
                if touched(s, i as int, j as int) {
                    let w = choose|w: int| 0 <= w < j && in_contact(s, i as int, w);
                    assert(0 <= w < j + 1 && in_contact(s, i as int, w));
                }
                if in_contact(s, i as int, j as int) {
                    assert(touched(s, i as int, j as int + 1));
                }
            }
            j += 1;
        }
        if let Some(total) = sum {
            pending.insert(i, total);
        }
        proof {
            assert(waiting(pending@, i as int) == sum);
            assert(jitters_in_range(drawn, store@.len() as int) && sum == accumulated(
                store@,
                i as int,
                store@.len() as int,
                drawn,
            ));
            assert(scanned_at(store@, i as int, sum));
            assert forall|k: int| 0 <= k < i + 1 implies scanned_at(
                store@,
                k,
                #[trigger] waiting(pending@, k),
            ) && (waiting(pending@, k) is Some <==> touched(store@, k, n as int)) && (waiting(
                pending@,
                k,
            ) is Some ==> waiting(pending@, k)->0.within(MAX_PENDING as int)) by {
                if k < i {
                    assert(waiting(pending@, k) == waiting(earlier, k));
                }
            }
        }
        i += 1;
    }
    proof {
        assert forall|k: int| n <= k implies waiting(pending@, k) is None by {}
    }
    pending
}

/// Tells whether any impulse is waiting.
pub fn any_waiting(pending: &Impulses) -> (found: bool)
    ensures
        found == !vacant(pending@),
{
    !pending.is_empty()
}

/// A ball that the rectangle has room for ends up inside it when clamped.
pub proof fn lemma_confined_inside(ball: Ball, x: int, y: int, bounds: Bounds, margin: int)
    requires
        ball.valid(),
        bounds.valid(),
        0 <= margin <= UNIT,
        ball.fits(bounds, margin),
    ensures
        ball.confined(x, y, bounds, margin).inside(bounds, margin),
{
}

/// The time that one relaxation pass counts as, in microseconds: `delta`,
/// or one where `delta` is zero.
pub open spec fn tick_of(delta: u64) -> int {
    if delta == 0 {
        1
    } else {
        delta as int
    }
}

/// One relaxation step leads from `before` to `after`: a scan of `before`
/// leaves its accumulators, and each is added to the position of its ball,
/// which is then clamped into the rectangle.
pub open spec fn relax_step(
    before: Seq<Option<Ball>>,
    after: Seq<Option<Ball>>,
    bounds: Bounds,
) -> bool {
    exists|pending: Map<usize, Vec2>| #[trigger]
        scanned(before, pending) && after == shifted(before, pending, bounds)
}

/// Each state of the trace but the last has balls that overlap, and one
/// relaxation step leads from it to the next.
pub open spec fn relaxation(trace: Seq<Seq<Option<Ball>>>, bounds: Bounds) -> bool {
    forall|k: int|
        0 <= k < trace.len() - 1 ==> !apart(#[trigger] trace[k]) && relax_step(
            trace[k],
            trace[k + 1],
            bounds,
        )
}

/// The relaxation leads from `before` to `after`: through one state for
/// every pass, each pass but the last followed by a step.  Every pass but
/// the last began within the budget, and the last either found no two
/// balls that overlap or used the budget up.
pub open spec fn relaxed(
    before: Seq<Option<Ball>>,
    after: Seq<Option<Ball>>,
    bounds: Bounds,
    delta: u64,
) -> bool {
    exists|trace: Seq<Seq<Option<Ball>>>|
        {
            &&& trace.len() >= 1
            &&& trace[0] == before
            &&& trace[trace.len() - 1] == after
            &&& #[trigger] relaxation(trace, bounds)
            &&& (trace.len() - 1) * tick_of(delta) < RELAX_BUDGET
            &&& (apart(after) || trace.len() * tick_of(delta) >= RELAX_BUDGET)
        }
}

/// A scan leaves an impulse exactly where balls overlap.
pub proof fn lemma_scan_finds(slots: Seq<Option<Ball>>, pending: Map<usize, Vec2>)
    requires
        forall|slot: usize| pending.contains_key(slot) ==> slot < slots.len(),
        forall|i: int|
            0 <= i < slots.len() ==> ((#[trigger] waiting(pending, i)) is Some <==> touched(
                slots,
                i,
                slots.len() as int,
            )),
    ensures
        apart(slots) <==> vacant(pending),
{
    if apart(slots) {
        assert forall|slot: usize| !pending.contains_key(slot) by {
            if pending.contains_key(slot) {
                assert(waiting(pending, slot as int) is Some);
                assert(touched(slots, slot as int, slots.len() as int));
            }
        }
    }
    if vacant(pending) {
        assert forall|i: int, j: int| !in_contact(slots, i, j) by {
            if in_contact(slots, i, j) {
                assert(0 <= j < slots.len() && in_contact(slots, i, j));
                assert(touched(slots, i, slots.len() as int));
                assert(waiting(pending, i) is Some);
            }
        }
    }
}

/// The relaxation.  Passes alternate between applying the waiting impulses
/// and scanning for contacts; they stop once a scan finds no contact, or
/// once the passes have used up `RELAX_BUDGET`, each pass taking `delta`
/// microseconds (a `delta` of zero counts as one).  Impulses still waiting
/// at the end are dropped.
///
/// The balls are left as the steps of the passes leave them, see
/// `relaxed`.  No ball is added or removed and only positions change.  A
/// ball that was inside the rectangle stays inside.  Nothing changes at all
/// where no two balls overlap at the start, or where the budget allows a
/// single pass.
pub fn relax(store: &mut Store, bounds: &Bounds, rng: &mut RandomSource, delta: u64)
    requires
        old(store).wf(),
        bounds.valid(),
    ensures
        final(store).wf(),
        relaxed(old(store)@, final(store)@, *bounds, delta),
        same_balls(old(store)@, final(store)@),
        stays_inside(old(store)@, final(store)@, *bounds),
        apart(old(store)@) || delta >= RELAX_BUDGET ==> final(store)@ == old(store)@,
{
    let tick: u64 = if delta == 0 { 1 } else { delta };
    let mut pending: Impulses = scan_contacts(store, rng);
    let mut found: bool = any_waiting(&pending);
    let mut elapsed: u64 = if tick >= RELAX_BUDGET { RELAX_BUDGET } else { tick };
    let ghost mut trace: Seq<Seq<Option<Ball>>> = seq![store@];
    proof {
        lemma_scan_finds(store@, pending@);
        assert(trace.len() == 1 && trace[0] == store@);
        assert((trace.len() - 1) * tick == 0 && trace.len() * tick == tick) by (nonlinear_arith)
            requires
                trace.len() == 1,
        ;
    }
    while found && elapsed < RELAX_BUDGET
        invariant
            store.wf(),
            bounds.valid(),
            same_balls(old(store)@, store@),
            stays_inside(old(store)@, store@, *bounds),
            tick == tick_of(delta),
            elapsed <= RELAX_BUDGET,
            delta >= RELAX_BUDGET ==> elapsed >= RELAX_BUDGET,
            found <==> !apart(store@),
            apart(old(store)@) || delta >= RELAX_BUDGET ==> store@ == old(store)@,
            scanned(store@, pending@),
            trace.len() >= 1,
            trace[0] == old(store)@,
            trace[trace.len() - 1] == store@,
            relaxation(trace, *bounds),
            (trace.len() - 1) * tick < RELAX_BUDGET,
            elapsed == (if trace.len() * tick >= RELAX_BUDGET {
                RELAX_BUDGET as int
            } else {
                trace.len() * tick
            }),
        decreases RELAX_BUDGET - elapsed,
    {
        let ghost before = store@;
        let ghost applied = pending@;
        apply_impulses(store, &pending, bounds);
        proof {
            assert forall|i: int| 0 <= i < before.len() && before[i] is Some implies (
            #[trigger] store@[i]) is Some && store@[i]->0.velocity == before[i]->0.velocity
                && store@[i]->0.size == before[i]->0.size && store@[i]->0.mass
                == before[i]->0.mass && (before[i]->0.inside(*bounds, 0) ==> store@[i]->0.inside(
                *bounds,
                0,
            )) by {
                let ball = before[i]->0;
                assert(ball.valid());
                if let Some(push) = waiting(pending@, i) {
                    if ball.inside(*bounds, 0) {
                        lemma_confined_inside(
                            ball,
                            ball.position.x + push.x,
                            ball.position.y + push.y,
                            *bounds,
                            0,
                        );
                    }
                }
            }
            assert(scanned(before, applied) && store@ == shifted(before, applied, *bounds));
            assert(relax_step(before, store@, *bounds));
            let longer = trace.push(store@);
            assert forall|k: int| 0 <= k < longer.len() - 1 implies !apart(#[trigger] longer[k])
                && relax_step(longer[k], longer[k + 1], *bounds) by {
                if k < trace.len() - 1 {
                    assert(longer[k] == trace[k]);
                    assert(longer[k + 1] == trace[k + 1]);
                } else {
                    assert(longer[k] == before);
                    assert(longer[k + 1] == store@);
                }
            }
            assert((trace.len() + 1) * tick == trace.len() * tick + tick) by (nonlinear_arith);
            assert((longer.len() - 1) * tick == trace.len() * tick);
            trace = longer;
        }
        elapsed = if tick >= RELAX_BUDGET - elapsed { RELAX_BUDGET } else { elapsed + tick };
        pending = scan_contacts(store, rng);
        found = any_waiting(&pending);
        proof {
            lemma_scan_finds(store@, pending@);
        }
    }
    assert(relaxation(trace, *bounds));
}

/// Overlap does not depend on the order of the two balls.
pub proof fn lemma_contact_symmetric(slots: Seq<Option<Ball>>, i: int, j: int)
    ensures
        in_contact(slots, i, j) == in_contact(slots, j, i),
{
    if lookup(slots, i) is Some && lookup(slots, j) is Some {
        let a = lookup(slots, i)->0;
        let b = lookup(slots, j)->0;
        assert(a.position.distance_squared(b.position) == b.position.distance_squared(a.position))
            by (nonlinear_arith);
        assert((a.reach() + b.reach()) * (a.reach() + b.reach()) == (b.reach() + a.reach()) * (
        b.reach() + a.reach()));
    }
}

/// One of the balls that are kept among the first `n` slots overlaps ball `k`.
pub open spec fn blocked(slots: Seq<Option<Ball>>, k: int, n: int) -> bool
    decreases n, 0int,
{
    if n <= 0 {
        false
    } else {
        blocked(slots, k, n - 1) || (kept(slots, n - 1) && in_contact(slots, n - 1, k))
    }
}

/// Ball `i` survives the forced resolution: it overlaps no ball of a lower
/// slot that survives itself.
pub open spec fn kept(slots: Seq<Option<Ball>>, i: int) -> bool
    decreases i, 1int,
{
    &&& 0 <= i < slots.len()
    &&& slots[i] is Some
    &&& !blocked(slots, i, i)
}

/// The balls that the forced resolution leaves: going up through the
/// slots, each ball stays unless it overlaps one that stayed before it.
pub open spec fn survivors(slots: Seq<Option<Ball>>) -> Seq<Option<Ball>> {
    Seq::new(
        slots.len(),
        |i: int|
            if kept(slots, i) {
                slots[i]
            } else {
                None
            },
    )
}

/// A ball is blocked exactly where a kept ball of a lower slot overlaps it.
pub proof fn lemma_blocked(slots: Seq<Option<Ball>>, k: int, n: int)
    ensures
        blocked(slots, k, n) <==> exists|j: int|
            0 <= j < n && #[trigger] kept(slots, j) && in_contact(slots, j, k),
    decreases n,
{
    if n > 0 {
        lemma_blocked(slots, k, n - 1);
        if blocked(slots, k, n - 1) {
            let j = choose|j: int| 0 <= j < n - 1 && #[trigger] kept(slots, j) && in_contact(slots, j, k);
            assert(0 <= j < n && kept(slots, j) && in_contact(slots, j, k));
        }
        if exists|j: int| 0 <= j < n && #[trigger] kept(slots, j) && in_contact(slots, j, k) {
            let j = choose|j: int| 0 <= j < n && #[trigger] kept(slots, j) && in_contact(slots, j, k);
            if j < n - 1 {
                assert(blocked(slots, k, n - 1));
            } else {
                assert(kept(slots, n - 1) && in_contact(slots, n - 1, k));
            }
        }
        if kept(slots, n - 1) && in_contact(slots, n - 1, k) {
            assert(0 <= n - 1 < n && kept(slots, n - 1) && in_contact(slots, n - 1, k));
        }
    }
}

/// No two survivors overlap.
pub proof fn lemma_survivors_apart(slots: Seq<Option<Ball>>)
    ensures
        apart(survivors(slots)),
{
    let after = survivors(slots);
    assert forall|i: int, j: int| !in_contact(after, i, j) by {
        if in_contact(after, i, j) {
            assert(kept(slots, i) && kept(slots, j));
            assert(in_contact(slots, i, j));
            lemma_contact_symmetric(slots, i, j);
            if i < j {
                lemma_blocked(slots, j, j);
            } else {
                lemma_blocked(slots, i, i);
            }
        }
    }
}

/// Where no two balls overlap, every ball survives.
pub proof fn lemma_survivors_of_apart(slots: Seq<Option<Ball>>)
    requires
        apart(slots),
    ensures
        survivors(slots) == slots,
{
    assert forall|i: int| 0 <= i < slots.len() && slots[i] is Some implies kept(slots, i) by {
        lemma_blocked(slots, i, i);
    }
    assert(survivors(slots) =~= slots);
}

/// One pass of the forced resolution: every ordered pair of balls is
/// looked at in turn, and where both are still there and overlap, the
/// second is removed.  Returns whether a ball was removed.
pub fn clear_pass(store: &mut Store) -> (removed: bool)
    requires
        old(store).wf(),
    ensures
        final(store).wf(),
        final(store)@ == survivors(old(store)@),
        removed <==> final(store)@ != old(store)@,
{
    let n: usize = store.slot_count();
    let mut removed: bool = false;
    let ghost origin = store@;
    let ghost mut witness: int = 0;
    let mut i: usize = 0;
    while i < n
        invariant
            0 <= i <= n,
            origin == old(store)@,
            n == origin.len(),
            n == store@.len(),
            store.wf(),
            forall|k: int| 0 <= k < n && (#[trigger] store@[k]) is Some ==> store@[k] == origin[k],
            forall|k: int| 0 <= k < i ==> ((#[trigger] store@[k]) is Some <==> kept(origin, k)),
            forall|k: int|
                i <= k < n ==> ((#[trigger] store@[k]) is Some <==> origin[k] is Some
                    && !blocked(origin, k, i as int)),
            !removed ==> store@ == origin,
            removed ==> 0 <= witness < n && store@[witness] is None && origin[witness] is Some,
        decreases n - i,
    {
        let ghost start = store@;
        let subject: Option<Ball> = store.get(Entity(i));
        if let Some(first) = subject {
            let mut j: usize = 0;
            while j < n
                invariant
                    0 <= j <= n,
                    0 <= i < n,
                    n == origin.len(),
                    n == store@.len(),
                    n == start.len(),
                    store.wf(),
                    start[i as int] == Some(first),
                    origin[i as int] == Some(first),
                    store@[i as int] == Some(first),
                    forall|k: int|
                        0 <= k < n && (#[trigger] store@[k]) is Some ==> store@[k] == origin[k],
                    forall|k: int|
                        0 <= k < n && (#[trigger] start[k]) is Some ==> start[k] == origin[k],
                    forall|k: int|
                        0 <= k < j ==> ((#[trigger] store@[k]) is Some <==> start[k] is Some
                            && !in_contact(origin, i as int, k)),
                    forall|k: int| j <= k < n ==> (#[trigger] store@[k]) == start[k],
                    !removed ==> store@ == origin,
                    removed ==> 0 <= witness < n && store@[witness] is None
                        && origin[witness] is Some,
                decreases n - j,
            {
                if let Some(second) = store.get(Entity(j)) {
                    if i != j && first.touches(&second) {
                        store.despawn(Entity(j));
                        removed = true;
                        proof {
                            witness = j as int;
                        }
                    }
                }
                j += 1;
            }
            proof {
                assert(kept(origin, i as int));
                lemma_blocked(origin, i as int, i as int);
                assert forall|k: int| 0 <= k < i + 1 implies ((#[trigger] store@[k]) is Some
                    <==> kept(origin, k)) by {
                    if k < i {
                        lemma_contact_symmetric(origin, i as int, k);
                    }
                }
            }
        } else {
            proof {
                assert(!kept(origin, i as int));
            }
        }
        i += 1;
    }
    assert(store@ =~= survivors(origin));
    removed
}

/// The forced resolution: passes are repeated until one removes nothing.
/// What is left are the `survivors`, no two of which overlap.
pub fn clear_overlaps(store: &mut Store)
    requires
        old(store).wf(),
    ensures
        final(store).wf(),
        final(store)@ == survivors(old(store)@),
        apart(final(store)@),
{
    let mut passes: u8 = 0;
    let mut done: bool = false;
    while !done
        invariant
            store.wf(),
            passes <= 1,
            passes == 0 && !done ==> store@ == old(store)@,
            passes == 1 ==> store@ == survivors(old(store)@),
            done ==> store@ == survivors(old(store)@),
        decreases (if done { 0int } else { 2 - passes }),
    {
        let ghost before = store@;
        let removed: bool = clear_pass(store);
        proof {
            if passes == 1 {
                lemma_survivors_apart(old(store)@);
                lemma_survivors_of_apart(before);
            }
        }
        if removed {
            passes = 1;
        } else {
            done = true;
        }
    }
    proof {
        lemma_survivors_apart(old(store)@);
    }
}

/// Packing leads from `before` to `after`: the relaxation leads from
/// `before` to a state of the same balls, in which every ball that was
/// inside the rectangle is inside still, and `after` holds the survivors of
/// that state.
pub open spec fn packed(
    before: Seq<Option<Ball>>,
    after: Seq<Option<Ball>>,
    bounds: Bounds,
    delta: u64,
) -> bool {
    exists|mid: Seq<Option<Ball>>|
        {
            &&& #[trigger] relaxed(before, mid, bounds, delta)
            &&& same_balls(before, mid)
            &&& stays_inside(before, mid, bounds)
            &&& after == survivors(mid)
        }
}

/// Packs the balls: the relaxation first, the forced resolution after it
/// whether or not the relaxation came to rest.
///
/// Afterwards no two balls overlap.  Every ball that is left is a ball of
/// the start, in its slot, with at most its position changed, and is inside
/// the rectangle if it was so at the start.  What is left are the
/// survivors of the balls as the relaxation left them.  Where no two balls
/// overlap at the start nothing changes; where the budget allows a single
/// pass, what is left are the survivors of the balls as they stood.
pub fn pack_balls(store: &mut Store, bounds: &Bounds, rng: &mut RandomSource, delta: u64)
    requires
        old(store).wf(),
        bounds.valid(),
    ensures
        final(store).wf(),
        apart(final(store)@),
        final(store)@.len() == old(store)@.len(),
        forall|i: int|
            0 <= i < final(store)@.len() && (#[trigger] final(store)@[i]) is Some ==> {
                &&& old(store)@[i] is Some
                &&& final(store)@[i]->0.velocity == old(store)@[i]->0.velocity
                &&& final(store)@[i]->0.size == old(store)@[i]->0.size
                &&& final(store)@[i]->0.mass == old(store)@[i]->0.mass
            },
        stays_inside(old(store)@, final(store)@, *bounds),
        apart(old(store)@) ==> final(store)@ == old(store)@,
        delta >= RELAX_BUDGET ==> final(store)@ == survivors(old(store)@),
        packed(old(store)@, final(store)@, *bounds, delta),
{
    relax(store, bounds, rng, delta);
    let ghost mid = store@;
    clear_overlaps(store);
    proof {
        if apart(old(store)@) {
            lemma_survivors_of_apart(mid);
        }
        assert(relaxed(old(store)@, mid, *bounds, delta) && same_balls(old(store)@, mid)
            && stays_inside(old(store)@, mid, *bounds) && store@ == survivors(mid));
        assert forall|i: int|
            0 <= i < store@.len() && (#[trigger] store@[i]) is Some implies store@[i]
            == mid[i] by {}
    }
}

/// The ball is one of a crowd: its radius is 40 world units or more, and
/// it lies inside the rectangle.
pub open spec fn crowding(ball: Ball, bounds: Bounds) -> bool {
    ball.size.0 >= 40 && ball.inside(bounds, 0)
}

/// The cell of the ball among five that cover the places where the
/// centre of a crowding ball can lie in a square of 200 world units: two
/// cells of 60 by 52 units side by side, and three of 40 by 68 units
/// beside them.  No two points of one cell are 80 units apart.
pub open spec fn cell(ball: Ball, bounds: Bounds) -> int {
    let u = ball.position.x - bounds.min.x - 40 * UNIT;
    let v = ball.position.y - bounds.min.y - 40 * UNIT;
    if v <= 52 * UNIT {
        if u <= 60 * UNIT {
            0
        } else {
            1
        }
    } else if u <= 40 * UNIT {
        2
    } else if u <= 80 * UNIT {
        3
    } else {
        4
    }
}

/// The number of balls among the first `n` slots that lie in cell `c`.
pub open spec fn cell_count(slots: Seq<Option<Ball>>, bounds: Bounds, n: int, c: int) -> nat
    decreases n,
{
    if n <= 0 || n > slots.len() {
        0
    } else {
        cell_count(slots, bounds, n - 1, c) + if slots[n - 1] is Some && cell(
            slots[n - 1]->0,
            bounds,
        ) == c {
            1nat
        } else {
            0nat
        }
    }
}

/// Two crowding balls in one cell overlap.
pub proof fn lemma_cell_is_narrow(a: Ball, b: Ball, bounds: Bounds)
    requires
        bounds.max.x - bounds.min.x <= 200 * UNIT,
        bounds.max.y - bounds.min.y <= 200 * UNIT,
        crowding(a, bounds),
        crowding(b, bounds),
        cell(a, bounds) == cell(b, bounds),
    ensures
        a.overlaps(b),
{
    let dx = a.position.x - b.position.x;
    let dy = a.position.y - b.position.y;
    let span = a.reach() + b.reach();
    assert(span >= 80_000);
    assert(span * span >= 6_400_000_000) by (nonlinear_arith)
        requires
            span >= 80_000,
    ;
    if cell(a, bounds) <= 1 {
        assert(-60_000 <= dx <= 60_000 && -52_000 <= dy <= 52_000);
        assert(dx * dx <= 3_600_000_000 && dy * dy <= 2_704_000_000) by (nonlinear_arith)
            requires
                -60_000 <= dx <= 60_000,
                -52_000 <= dy <= 52_000,
        ;
    } else {
        assert(-40_000 <= dx <= 40_000 && -68_000 <= dy <= 68_000);
        assert(dx * dx <= 1_600_000_000 && dy * dy <= 4_624_000_000) by (nonlinear_arith)
            requires
                -40_000 <= dx <= 40_000,
                -68_000 <= dy <= 68_000,
        ;
    }
}

/// Where a cell counts a ball, a ball lies in it.
pub proof fn lemma_cell_holds(slots: Seq<Option<Ball>>, bounds: Bounds, n: int, c: int)
    requires
        cell_count(slots, bounds, n, c) >= 1,
    ensures
        exists|i: int| 0 <= i < n && i < slots.len() && #[trigger] lookup(slots, i) is Some && cell(
            lookup(slots, i)->0,
            bounds,
        ) == c,
    decreases n,
{
    if n > 0 && n <= slots.len() {
        if slots[n - 1] is Some && cell(slots[n - 1]->0, bounds) == c {
            assert(lookup(slots, n - 1) is Some);
        } else {
            lemma_cell_holds(slots, bounds, n - 1, c);
            let i = choose|i: int|
                0 <= i < n - 1 && i < slots.len() && #[trigger] lookup(slots, i) is Some && cell(
                    lookup(slots, i)->0,
                    bounds,
                ) == c;
            assert(0 <= i < n && lookup(slots, i) is Some);
        }
    }
}

/// Among crowding balls that do not overlap, a cell holds one ball at most.
pub proof fn lemma_cell_holds_one(slots: Seq<Option<Ball>>, bounds: Bounds, n: int, c: int)
    requires
        bounds.max.x - bounds.min.x <= 200 * UNIT,
        bounds.max.y - bounds.min.y <= 200 * UNIT,
        forall|i: int|
            0 <= i < slots.len() && (#[trigger] slots[i]) is Some ==> crowding(slots[i]->0, bounds),
        apart(slots),
    ensures
        cell_count(slots, bounds, n, c) <= 1,
    decreases n,
{
    if n > 0 && n <= slots.len() {
        lemma_cell_holds_one(slots, bounds, n - 1, c);
        if slots[n - 1] is Some && cell(slots[n - 1]->0, bounds) == c && cell_count(
            slots,
            bounds,
            n - 1,
            c,
        ) >= 1 {
            lemma_cell_holds(slots, bounds, n - 1, c);
            let i = choose|i: int|
                0 <= i < n - 1 && i < slots.len() && #[trigger] lookup(slots, i) is Some && cell(
                    lookup(slots, i)->0,
                    bounds,
                ) == c;
            lemma_cell_is_narrow(slots[i]->0, slots[n - 1]->0, bounds);
            assert(in_contact(slots, i, n - 1));
        }
    }
}

/// Every ball lies in one of the five cells.
pub proof fn lemma_cells_cover(slots: Seq<Option<Ball>>, bounds: Bounds, n: int)
    ensures
        live_count(slots, n) == cell_count(slots, bounds, n, 0) + cell_count(slots, bounds, n, 1)
            + cell_count(slots, bounds, n, 2) + cell_count(slots, bounds, n, 3) + cell_count(
            slots,
            bounds,
            n,
            4,
        ),
    decreases n,
{
    if n > 0 && n <= slots.len() {
        lemma_cells_cover(slots, bounds, n - 1);
    }
}

/// A square of 200 world units a side, or less, holds at most five balls
/// of radius 40 or more that lie inside it and do not overlap.  So packing
/// leaves five balls at most of any number of such balls.
pub proof fn lemma_five_fit(slots: Seq<Option<Ball>>, bounds: Bounds)
    requires
        bounds.max.x - bounds.min.x <= 200 * UNIT,
        bounds.max.y - bounds.min.y <= 200 * UNIT,
        forall|i: int|
            0 <= i < slots.len() && (#[trigger] slots[i]) is Some ==> crowding(slots[i]->0, bounds),
        apart(slots),
    ensures
        live_count(slots, slots.len() as int) <= 5,
{
    let n = slots.len() as int;
    lemma_cells_cover(slots, bounds, n);
    lemma_cell_holds_one(slots, bounds, n, 0);
    lemma_cell_holds_one(slots, bounds, n, 1);
    lemma_cell_holds_one(slots, bounds, n, 2);
    lemma_cell_holds_one(slots, bounds, n, 3);
    lemma_cell_holds_one(slots, bounds, n, 4);
}

} // verus!
