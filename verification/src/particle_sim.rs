//! The collision engine: each tick it detects the contacts of every ball
//! with the other balls and with the walls, drops the redundant reports,
//! resolves what is left, and moves the balls.

use vstd::prelude::*;
use crate::ball::{Ball, Bounds, Velocity};
use crate::isqrt::{floor_sqrt, isqrt};
use crate::packing::{apart, in_contact, pack_balls, packed};
use crate::random::RandomSource;
use crate::spawn::{
    create_balls, drawn_from, has_room, room_for, roomy, scattered, space_balls,
};
use crate::store::{lookup, Entity, Store};
use crate::Simulation;
use crate::vector::{
    clamp, clamp_int, div_toward_zero, divide, lemma_div_toward_zero_odd, lemma_exact_quotient,
    product, Vec2, LIMIT, UNIT,
};

verus! {

/// The slack taken off a radius when a moved ball is clamped into the
/// rectangle: a tenth of a world unit.
pub const EPSILON: i64 = 100;

/// The floor under the squared distance that a collision divides by: one
/// square world unit.
pub const CLOSE_FLOOR: i64 = 1_000_000;

/// The phases of a simulation.
#[derive(Clone, Copy, Debug, PartialEq, Eq, Structural, Hash)]
pub enum SimState {
    Setup,
    Simulate,
    Pause,
    Stop,
}

impl Default for SimState {
    fn default() -> (state: SimState)
        ensures
            state == SimState::Setup,
    {
        SimState::Setup
    }
}

/// The sides of the rectangle.
#[derive(Clone, Copy, Debug, PartialEq, Eq, Structural)]
pub enum Wall {
    North,
    East,
    West,
    South,
}

impl Default for Wall {
    fn default() -> (wall: Wall)
        ensures
            wall == Wall::North,
    {
        Wall::North
    }
}

/// What a ball is in contact with.
#[derive(Clone, Copy, Debug, PartialEq, Eq, Structural)]
pub enum CollisionType {
    Wall(Wall),
    Entity(Entity),
}

impl Default for CollisionType {
    fn default() -> (kind: CollisionType)
        ensures
            kind == CollisionType::Wall(Wall::North),
    {
        CollisionType::Wall(Wall::North)
    }
}

/// A contact of the ball `subject`, found in one detection pass.
#[derive(Clone, Copy, Debug, PartialEq, Eq, Structural)]
pub struct Contact {
    pub subject: Entity,
    pub kind: CollisionType,
}

/// The wall that the ball reaches beyond, the east wall tried first, then
/// west, south and north.
pub open spec fn wall_hit(ball: Ball, bounds: Bounds) -> Option<Wall> {
    if ball.position.x > bounds.max.x - ball.reach() {
        Some(Wall::East)
    } else if ball.position.x < bounds.min.x + ball.reach() {
        Some(Wall::West)
    } else if ball.position.y < bounds.min.y + ball.reach() {
        Some(Wall::South)
    } else if ball.position.y > bounds.max.y - ball.reach() {
        Some(Wall::North)
    } else {
        None
    }
}

/// What the look at the pair `(i, j)` reports for ball `i`: the other ball
/// where the two overlap, else the wall that ball `i` has reached, if any.
/// A ball paired with itself reports its wall.
pub open spec fn pair_contact(slots: Seq<Option<Ball>>, bounds: Bounds, i: int, j: int) -> Option<
    CollisionType,
> {
    if lookup(slots, i) is None || lookup(slots, j) is None {
        None
    } else if in_contact(slots, i, j) {
        Some(CollisionType::Entity(Entity(j as usize)))
    } else {
        match wall_hit(lookup(slots, i)->0, bounds) {
            Some(wall) => Some(CollisionType::Wall(wall)),
            None => None,
        }
    }
}

/// The reports for ball `i` from its pairs with the first `n` slots, in order.
pub open spec fn subject_contacts(slots: Seq<Option<Ball>>, bounds: Bounds, i: int, n: int) -> Seq<
    Contact,
>
    decreases n,
{
    if n <= 0 {
        Seq::empty()
    } else {
        let before = subject_contacts(slots, bounds, i, n - 1);
        match pair_contact(slots, bounds, i, n - 1) {
            Some(kind) => before.push(Contact { subject: Entity(i as usize), kind }),
            None => before,
        }
    }
}

/// The reports of a detection pass over the first `m` balls, each paired
/// with every slot: ball by ball, and pair by pair for each ball.
pub open spec fn detected(slots: Seq<Option<Ball>>, bounds: Bounds, m: int) -> Seq<Contact>
    decreases m,
{
    if m <= 0 {
        Seq::empty()
    } else {
        detected(slots, bounds, m - 1) + subject_contacts(
            slots,
            bounds,
            m - 1,
            slots.len() as int,
        )
    }
}

/// Computes `wall_hit`.
pub fn hit_wall(ball: &Ball, bounds: &Bounds) -> (hit: Option<Wall>)
    requires
        ball.valid(),
        bounds.valid(),
    ensures
        hit == wall_hit(*ball, *bounds),
{
    let reach: i64 = ball.radius();
    if ball.position.x > bounds.max.x - reach {
        Some(Wall::East)
    } else if ball.position.x < bounds.min.x + reach {
        Some(Wall::West)
    } else if ball.position.y < bounds.min.y + reach {
        Some(Wall::South)
    } else if ball.position.y > bounds.max.y - reach {
        Some(Wall::North)
    } else {
        None
    }
}

/// The detection pass: every ordered pair of slots is looked at, and what
/// each look reports is appended to the list.
pub fn detect(store: &Store, bounds: &Bounds) -> (contacts: Vec<Contact>)
    requires
        store.wf(),
        bounds.valid(),
    ensures
        contacts@ == detected(store@, *bounds, store@.len() as int),
{
    let n: usize = store.slot_count();
    let mut contacts: Vec<Contact> = Vec::new();
    let mut i: usize = 0;
    while i < n
        invariant
            0 <= i <= n,
            n == store@.len(),
            store.wf(),
            bounds.valid(),
            contacts@ == detected(store@, *bounds, i as int),
        decreases n - i,
    {
        let ghost before = contacts@;
        let subject: Option<Ball> = store.get(Entity(i));
        let mut j: usize = 0;
        while j < n
            invariant
                0 <= j <= n,
                0 <= i < n,
                n == store@.len(),
                store.wf(),
                bounds.valid(),
                subject == store@[i as int],
                contacts@ == before + subject_contacts(store@, *bounds, i as int, j as int),
            decreases n - j,
        {
            let ghost so_far = subject_contacts(store@, *bounds, i as int, j as int);
            if let Some(first) = subject {
                if let Some(second) = store.get(Entity(j)) {
                    if i != j && first.touches(&second) {
                        contacts.push(
                            Contact { subject: Entity(i), kind: CollisionType::Entity(Entity(j)) },
                        );
                    } else if let Some(wall) = hit_wall(&first, bounds) {
                        contacts.push(Contact { subject: Entity(i), kind: CollisionType::Wall(wall) });
                    }
                }
            }
            proof {
                let next = subject_contacts(store@, *bounds, i as int, j as int + 1);
                match pair_contact(store@, *bounds, i as int, j as int) {
                    Some(kind) => {
                        assert(before + so_far.push(Contact { subject: Entity(i), kind })
                            =~= (before + so_far).push(Contact { subject: Entity(i), kind }));
                    },
                    None => {},
                }
            }
            j += 1;
        }
        i += 1;
    }
    contacts
}

/// `later` would resolve again what `earlier` resolves already: both have
/// the same subject, or they report one pair of balls from its two sides.
pub open spec fn redundant(earlier: Contact, later: Contact) -> bool {
    ||| earlier.subject == later.subject
    ||| (earlier.kind == CollisionType::Entity(later.subject) && later.kind
        == CollisionType::Entity(earlier.subject))
}

/// One of the contacts in `kept` makes `contact` redundant.
pub open spec fn covered(kept: Seq<Contact>, contact: Contact) -> bool {
    exists|k: int| 0 <= k < kept.len() && redundant(#[trigger] kept[k], contact)
}

/// The reports without the redundant ones: going through the list, a
/// report stays unless one that stayed before it makes it redundant.
pub open spec fn deduplicated(raw: Seq<Contact>) -> Seq<Contact>
    decreases raw.len(),
{
    if raw.len() == 0 {
        Seq::empty()
    } else {
        let before = deduplicated(raw.drop_last());
        if covered(before, raw.last()) {
            before
        } else {
            before.push(raw.last())
        }
    }
}

/// Tests `redundant`.
pub fn is_redundant(earlier: &Contact, later: &Contact) -> (r: bool)
    ensures
        r == redundant(*earlier, *later),
{
    if earlier.subject == later.subject {
        true
    } else {
        match (earlier.kind, later.kind) {
            (CollisionType::Entity(first), CollisionType::Entity(second)) => first == later.subject
                && second == earlier.subject,
            _ => false,
        }
    }
}

/// Tests `covered`.
pub fn is_covered(kept: &Vec<Contact>, contact: &Contact) -> (r: bool)
    ensures
        r == covered(kept@, *contact),
{
    let mut k: usize = 0;
    while k < kept.len()
        invariant
            0 <= k <= kept@.len(),
            forall|l: int| 0 <= l < k ==> !redundant(#[trigger] kept@[l], *contact),
        decreases kept@.len() - k,
    {
        if is_redundant(&kept[k], contact) {
            return true;
        }
        k += 1;
    }
    false
}

/// Drops the redundant reports, so that no ball is the subject of two
/// resolutions and no pair of balls is resolved from both sides.
pub fn dedup(raw: &Vec<Contact>) -> (kept: Vec<Contact>)
    ensures
        kept@ == deduplicated(raw@),
{
    let mut kept: Vec<Contact> = Vec::new();
    let mut i: usize = 0;
    while i < raw.len()
        invariant
            0 <= i <= raw@.len(),
            kept@ == deduplicated(raw@.take(i as int)),
        decreases raw@.len() - i,
    {
        proof {
            assert(raw@.take(i as int + 1).drop_last() =~= raw@.take(i as int));
        }
        if !is_covered(&kept, &raw[i]) {
            kept.push(raw[i]);
        }
        i += 1;
    }
    proof {
        assert(raw@.take(raw@.len() as int) =~= raw@);
    }
    kept
}

/// Deduplication only drops reports: what stays was reported.
pub proof fn lemma_dedup_from_raw(raw: Seq<Contact>)
    ensures
        forall|k: int|
            0 <= k < deduplicated(raw).len() ==> raw.contains(#[trigger] deduplicated(raw)[k]),
    decreases raw.len(),
{
    if raw.len() > 0 {
        lemma_dedup_from_raw(raw.drop_last());
        let before = deduplicated(raw.drop_last());
        assert forall|k: int| 0 <= k < deduplicated(raw).len() implies raw.contains(
            #[trigger] deduplicated(raw)[k],
        ) by {
            if k < before.len() {
                let c = before[k];
                assert(raw.drop_last().contains(c));
                let w = choose|w: int| 0 <= w < raw.drop_last().len() && raw.drop_last()[w] == c;
                assert(raw[w] == c);
            } else {
                assert(raw[raw.len() - 1] == deduplicated(raw)[k]);
            }
        }
    }
}

/// After deduplication no report makes a later one redundant: every ball
/// is the subject of at most one resolution, and every pair of balls is
/// resolved at most once.
pub proof fn lemma_dedup_no_repeat(raw: Seq<Contact>)
    ensures
        forall|k: int, l: int|
            0 <= k < l < deduplicated(raw).len() ==> !redundant(
                #[trigger] deduplicated(raw)[k],
                #[trigger] deduplicated(raw)[l],
            ),
    decreases raw.len(),
{
    if raw.len() > 0 {
        lemma_dedup_no_repeat(raw.drop_last());
        let before = deduplicated(raw.drop_last());
        let after = deduplicated(raw);
        assert forall|k: int, l: int| 0 <= k < l < after.len() implies !redundant(
            #[trigger] after[k],
            #[trigger] after[l],
        ) by {
            if l < before.len() {
                assert(after[k] == before[k] && after[l] == before[l]);
            } else {
                assert(!covered(before, raw.last()));
                assert(after[k] == before[k]);
            }
        }
    }
}

/// Every report is made redundant by one that stays (a report that stays
/// itself shares its own subject).
pub proof fn lemma_dedup_covers(raw: Seq<Contact>)
    ensures
        forall|i: int| 0 <= i < raw.len() ==> covered(deduplicated(raw), #[trigger] raw[i]),
    decreases raw.len(),
{
    if raw.len() > 0 {
        lemma_dedup_covers(raw.drop_last());
        let before = deduplicated(raw.drop_last());
        let after = deduplicated(raw);
        assert forall|i: int| 0 <= i < raw.len() implies covered(after, #[trigger] raw[i]) by {
            if i < raw.len() - 1 {
                assert(raw.drop_last()[i] == raw[i]);
                assert(covered(before, raw[i]));
                let k = choose|k: int| 0 <= k < before.len() && redundant(#[trigger] before[k], raw[i]);
                assert(redundant(after[k], raw[i]));
            } else {
                if covered(before, raw.last()) {
                } else {
                    assert(redundant(after[before.len() as int], raw[i]));
                }
            }
        }
    }
}

/// The contact reports the pair of `a` and `b`, from either side.
pub open spec fn reports_pair(contact: Contact, a: Entity, b: Entity) -> bool {
    ||| contact == (Contact { subject: a, kind: CollisionType::Entity(b) })
    ||| contact == (Contact { subject: b, kind: CollisionType::Entity(a) })
}

/// Where a detection pass reports the contact of two balls from both
/// sides, and reports nothing else with either ball as its subject,
/// exactly one of the two reports stays: the pair is resolved once.
pub proof fn lemma_dedup_pair_once(raw: Seq<Contact>, a: Entity, b: Entity)
    requires
        a != b,
        raw.contains(Contact { subject: a, kind: CollisionType::Entity(b) }),
        raw.contains(Contact { subject: b, kind: CollisionType::Entity(a) }),
        forall|i: int|
            0 <= i < raw.len() && (#[trigger] raw[i]).subject == a ==> raw[i].kind
                == CollisionType::Entity(b),
        forall|i: int|
            0 <= i < raw.len() && (#[trigger] raw[i]).subject == b ==> raw[i].kind
                == CollisionType::Entity(a),
    ensures
        exists|k: int|
            {
                &&& 0 <= k < deduplicated(raw).len()
                &&& reports_pair(#[trigger] deduplicated(raw)[k], a, b)
                &&& forall|l: int|
                    0 <= l < deduplicated(raw).len() && reports_pair(
                        #[trigger] deduplicated(raw)[l],
                        a,
                        b,
                    ) ==> l == k
            },
{
    let kept = deduplicated(raw);
    let ab = Contact { subject: a, kind: CollisionType::Entity(b) };
    lemma_dedup_from_raw(raw);
    lemma_dedup_no_repeat(raw);
    lemma_dedup_covers(raw);
    let i = choose|i: int| 0 <= i < raw.len() && raw[i] == ab;
    assert(covered(kept, raw[i]));
    let k = choose|k: int| 0 <= k < kept.len() && redundant(#[trigger] kept[k], ab);
    assert(raw.contains(kept[k]));
    let w = choose|w: int| 0 <= w < raw.len() && raw[w] == kept[k];
    assert(reports_pair(kept[k], a, b));
    assert forall|l: int| 0 <= l < kept.len() && reports_pair(#[trigger] kept[l], a, b) implies l
        == k by {
        if l < k {
            assert(redundant(kept[l], kept[k]));
        } else if k < l {
            assert(redundant(kept[k], kept[l]));
        }
    }
}

/// The velocity after a bounce off `wall`: the component across the wall
/// is made to point away from it, the component along it is kept.
pub open spec fn reflected(velocity: Velocity, wall: Wall) -> Velocity {
    let x = velocity.0.x;
    let y = velocity.0.y;
    match wall {
        Wall::North => Velocity(Vec2 { x, y: if y > 0 { (-y) as i64 } else { y } }),
        Wall::East => Velocity(Vec2 { x: if x > 0 { (-x) as i64 } else { x }, y }),
        Wall::West => Velocity(Vec2 { x: if x < 0 { (-x) as i64 } else { x }, y }),
        Wall::South => Velocity(Vec2 { x, y: if y < 0 { (-y) as i64 } else { y } }),
    }
}

/// The velocity does not point toward `wall`.
pub open spec fn receding(velocity: Velocity, wall: Wall) -> bool {
    match wall {
        Wall::North => velocity.0.y <= 0,
        Wall::East => velocity.0.x <= 0,
        Wall::West => velocity.0.x >= 0,
        Wall::South => velocity.0.y >= 0,
    }
}

/// Computes `reflected`.  The result points away from the wall, and a
/// velocity that did so already is returned as it is.
pub fn reflect(velocity: Velocity, wall: Wall) -> (r: Velocity)
    requires
        velocity.0.within(LIMIT as int),
    ensures
        r == reflected(velocity, wall),
        r.0.within(LIMIT as int),
        receding(r, wall),
        receding(velocity, wall) ==> r == velocity,
{
    let x: i64 = velocity.0.x;
    let y: i64 = velocity.0.y;
    match wall {
        Wall::North => Velocity(Vec2 { x, y: if y > 0 { -y } else { y } }),
        Wall::East => Velocity(Vec2 { x: if x > 0 { -x } else { x }, y }),
        Wall::West => Velocity(Vec2 { x: if x < 0 { -x } else { x }, y }),
        Wall::South => Velocity(Vec2 { x, y: if y < 0 { -y } else { y } }),
    }
}

/// A second bounce off the same wall changes nothing: once reflected, a
/// velocity points away from the wall, and such a velocity is left alone.
pub proof fn lemma_reflect_idempotent(velocity: Velocity, wall: Wall)
    requires
        velocity.0.within(LIMIT as int),
    ensures
        receding(reflected(velocity, wall), wall),
        reflected(reflected(velocity, wall), wall) == reflected(velocity, wall),
        receding(velocity, wall) ==> reflected(velocity, wall) == velocity,
{
}

/// The relative velocity of `a` against `b` projected on the line from
/// `b` to `a`, not normalised.
pub open spec fn closing(a: Ball, b: Ball) -> int {
    (a.velocity.0.x - b.velocity.0.x) * (a.position.x - b.position.x) + (a.velocity.0.y
        - b.velocity.0.y) * (a.position.y - b.position.y)
}

/// The squared distance of the centres, floored at one square world unit.
pub open spec fn floored_distance(a: Ball, b: Ball) -> int {
    let dist = a.position.distance_squared(b.position);
    if dist < CLOSE_FLOOR {
        CLOSE_FLOOR as int
    } else {
        dist
    }
}

/// The change of velocity that the collision with `b` takes from `a`: the
/// projection weighted by `2 * mass_b / (mass_a + mass_b)`, along the line
/// of the centres, over the floored squared distance.
pub open spec fn kick(a: Ball, b: Ball) -> (int, int) {
    let nx = a.position.x - b.position.x;
    let ny = a.position.y - b.position.y;
    let divisor = (a.mass.0 + b.mass.0) * floored_distance(a, b);
    (
        div_toward_zero(2 * b.mass.0 * closing(a, b) * nx, divisor),
        div_toward_zero(2 * b.mass.0 * closing(a, b) * ny, divisor),
    )
}

/// The velocity of `a` after its elastic collision with `b`: the velocity
/// before less the kick, each component limited to `LIMIT`.
pub open spec fn rebound_velocity(a: Ball, b: Ball) -> Velocity {
    Velocity(
        Vec2 {
            x: clamp_int(a.velocity.0.x - kick(a, b).0, -LIMIT, LIMIT as int) as i64,
            y: clamp_int(a.velocity.0.y - kick(a, b).1, -LIMIT, LIMIT as int) as i64,
        },
    )
}

/// The position of `a` after it was pushed out of `b`: along the line
/// from `b` to `a`, by its radius less its share of the distance of the
/// centres, each coordinate limited to twice `LIMIT`.  Centres less than a
/// grid step apart give no direction and no push.
pub open spec fn rebound_position(a: Ball, b: Ball) -> Vec2 {
    let nx = a.position.x - b.position.x;
    let ny = a.position.y - b.position.y;
    let len = floor_sqrt(nx * nx + ny * ny);
    let span = a.reach() + b.reach();
    if len == 0 {
        a.position
    } else {
        Vec2 {
            x: clamp_int(
                a.position.x + div_toward_zero(nx * a.reach() * (span - len), span * len),
                -2 * LIMIT,
                2 * LIMIT,
            ) as i64,
            y: clamp_int(
                a.position.y + div_toward_zero(ny * a.reach() * (span - len), span * len),
                -2 * LIMIT,
                2 * LIMIT,
            ) as i64,
        }
    }
}

/// Ball `a` after its collision with `b`.
pub open spec fn rebound(a: Ball, b: Ball) -> Ball {
    Ball {
        position: rebound_position(a, b),
        velocity: rebound_velocity(a, b),
        size: a.size,
        mass: a.mass,
    }
}

/// Computes `rebound`.
pub fn collide(a: &Ball, b: &Ball) -> (r: Ball)
    requires
        a.valid(),
        b.valid(),
    ensures
        r == rebound(*a, *b),
        r.valid(),
{
    let nx: i128 = (a.position.x - b.position.x) as i128;
    let ny: i128 = (a.position.y - b.position.y) as i128;
    let dvx: i128 = (a.velocity.0.x - b.velocity.0.x) as i128;
    let dvy: i128 = (a.velocity.0.y - b.velocity.0.y) as i128;
    let along_x: i128 = product(dvx, nx, Ghost(200_000_000), Ghost(400_000_000));
    let along_y: i128 = product(dvy, ny, Ghost(200_000_000), Ghost(400_000_000));
    let proj: i128 = along_x + along_y;
    let nx2: i128 = product(nx, nx, Ghost(400_000_000), Ghost(400_000_000));
    let ny2: i128 = product(ny, ny, Ghost(400_000_000), Ghost(400_000_000));
    assert(nx2 >= 0 && ny2 >= 0) by (nonlinear_arith)
        requires
            nx2 == nx * nx,
            ny2 == ny * ny,
    ;
    let dist: i128 = nx2 + ny2;
    let floored: i128 = if dist < CLOSE_FLOOR as i128 { CLOSE_FLOOR as i128 } else { dist };
    let twice: i128 = 2 * (b.mass.0 as i128);
    let total: i128 = a.mass.0 as i128 + b.mass.0 as i128;
    let weighted: i128 = product(
        twice,
        proj,
        Ghost(8_589_934_592),
        Ghost(160_000_000_000_000_000),
    );
    let top_x: i128 = product(
        weighted,
        nx,
        Ghost(1_374_389_534_720_000_000_000_000_000),
        Ghost(400_000_000),
    );
    let top_y: i128 = product(
        weighted,
        ny,
        Ghost(1_374_389_534_720_000_000_000_000_000),
        Ghost(400_000_000),
    );
    let divisor: i128 = product(total, floored, Ghost(8_589_934_592), Ghost(320_000_000_000_000_000));
    assert(divisor > 0) by (nonlinear_arith)
        requires
            divisor == total * floored,
            total > 0,
            floored > 0,
    ;
    let vx: i64 = clamp(a.velocity.0.x as i128 - divide(top_x, divisor), -LIMIT, LIMIT);
    let vy: i64 = clamp(a.velocity.0.y as i128 - divide(top_y, divisor), -LIMIT, LIMIT);
    let len: i128 = isqrt(dist as u64) as i128;
    let position: Vec2 = if len == 0 {
        a.position
    } else {
        let span: i128 = (a.radius() + b.radius()) as i128;
        let gap: i128 = span - len;
        let reach: i128 = a.radius() as i128;
        let side_x: i128 = product(nx, reach, Ghost(400_000_000), Ghost(100_000_000));
        let side_y: i128 = product(ny, reach, Ghost(400_000_000), Ghost(100_000_000));
        let push_x: i128 = product(
            side_x,
            gap,
            Ghost(40_000_000_000_000_000),
            Ghost(4_294_967_296),
        );
        let push_y: i128 = product(
            side_y,
            gap,
            Ghost(40_000_000_000_000_000),
            Ghost(4_294_967_296),
        );
        let under: i128 = product(span, len, Ghost(200_000_000), Ghost(4_294_967_296));
        assert(under > 0) by (nonlinear_arith)
            requires
                under == span * len,
                span > 0,
                len > 0,
        ;
        Vec2 {
            x: clamp(a.position.x as i128 + divide(push_x, under), -2 * LIMIT, 2 * LIMIT),
            y: clamp(a.position.y as i128 + divide(push_y, under), -2 * LIMIT, 2 * LIMIT),
        }
    };
    Ball { position, velocity: Velocity(Vec2 { x: vx, y: vy }), size: a.size, mass: a.mass }
}

/// The balls after one contact was resolved.  A wall contact reflects the
/// velocity of its subject.  A contact with another ball gives both balls
/// their rebound, each computed from the state of both before either is
/// changed.  A contact that names an empty slot changes nothing.
pub open spec fn apply_contact(slots: Seq<Option<Ball>>, contact: Contact) -> Seq<Option<Ball>> {
    let i = contact.subject.0 as int;
    match lookup(slots, i) {
        None => slots,
        Some(a) => match contact.kind {
            CollisionType::Wall(wall) => slots.update(
                i,
                Some(Ball { velocity: reflected(a.velocity, wall), ..a }),
            ),
            CollisionType::Entity(other) => match lookup(slots, other.0 as int) {
                None => slots,
                Some(b) => slots.update(i, Some(rebound(a, b))).update(
                    other.0 as int,
                    Some(rebound(b, a)),
                ),
            },
        },
    }
}

/// Resolving the same wall contact a second time changes nothing.
pub proof fn lemma_second_bounce(slots: Seq<Option<Ball>>, subject: Entity, wall: Wall)
    requires
        lookup(slots, subject.0 as int) is Some ==> lookup(
            slots,
            subject.0 as int,
        )->0.velocity.0.within(LIMIT as int),
    ensures
        ({
            let contact = Contact { subject, kind: CollisionType::Wall(wall) };
            apply_contact(apply_contact(slots, contact), contact) == apply_contact(slots, contact)
        }),
{
    let contact = Contact { subject, kind: CollisionType::Wall(wall) };
    let once = apply_contact(slots, contact);
    if lookup(slots, subject.0 as int) is Some {
        lemma_reflect_idempotent(lookup(slots, subject.0 as int)->0.velocity, wall);
        assert(apply_contact(once, contact) =~= once);
    }
}

/// The balls after the first `k` contacts of the list were resolved in order.
pub open spec fn resolved(slots: Seq<Option<Ball>>, contacts: Seq<Contact>, k: int) -> Seq<
    Option<Ball>,
>
    decreases k,
{
    if k <= 0 {
        slots
    } else {
        apply_contact(resolved(slots, contacts, k - 1), contacts[k - 1])
    }
}

/// The balls after each was moved on by its velocity and clamped into the
/// rectangle, `EPSILON` taken off its radius.
pub open spec fn advanced(slots: Seq<Option<Ball>>, bounds: Bounds) -> Seq<Option<Ball>> {
    Seq::new(
        slots.len(),
        |i: int|
            match slots[i] {
                Some(ball) => Some(
                    ball.confined(
                        ball.position.x + ball.velocity.0.x,
                        ball.position.y + ball.velocity.0.y,
                        bounds,
                        EPSILON as int,
                    ),
                ),
                None => None,
            },
    )
}

/// The balls after one tick: detection, deduplication, resolution of what
/// is left in order, and the move.
pub open spec fn stepped(slots: Seq<Option<Ball>>, bounds: Bounds) -> Seq<Option<Ball>> {
    let contacts = deduplicated(detected(slots, bounds, slots.len() as int));
    advanced(resolved(slots, contacts, contacts.len() as int), bounds)
}

/// `after` holds a ball exactly where `before` does, with the same radius
/// and mass.
pub open spec fn same_population(before: Seq<Option<Ball>>, after: Seq<Option<Ball>>) -> bool {
    &&& after.len() == before.len()
    &&& forall|i: int|
        0 <= i < before.len() ==> ((#[trigger] after[i]) is Some <==> before[i] is Some)
    &&& forall|i: int|
        0 <= i < before.len() && before[i] is Some ==> (#[trigger] after[i])->0.size
            == before[i]->0.size && after[i]->0.mass == before[i]->0.mass
}

/// Every ball that the rectangle has room for is inside it, `EPSILON`
/// taken off its radius.
pub open spec fn all_inside(slots: Seq<Option<Ball>>, bounds: Bounds) -> bool {
    forall|i: int|
        0 <= i < slots.len() && (#[trigger] slots[i]) is Some && slots[i]->0.fits(
            bounds,
            EPSILON as int,
        ) ==> slots[i]->0.inside(bounds, EPSILON as int)
}

/// Resolves one contact.
pub fn resolve_contact(store: &mut Store, contact: &Contact)
    requires
        old(store).wf(),
    ensures
        final(store).wf(),
        final(store)@ == apply_contact(old(store)@, *contact),
        same_population(old(store)@, final(store)@),
{
    if let Some(a) = store.get(contact.subject) {
        match contact.kind {
            CollisionType::Wall(wall) => {
                let bounced = Ball {
                    position: a.position,
                    velocity: reflect(a.velocity, wall),
                    size: a.size,
                    mass: a.mass,
                };
                store.replace(contact.subject, bounced);
            },
            CollisionType::Entity(other) => {
                if let Some(b) = store.get(other) {
                    let first: Ball = collide(&a, &b);
                    let second: Ball = collide(&b, &a);
                    store.replace(contact.subject, first);
                    store.replace(other, second);
                }
            },
        }
    }
}

/// Resolves the contacts of the list in order.
pub fn resolve(store: &mut Store, contacts: &Vec<Contact>)
    requires
        old(store).wf(),
    ensures
        final(store).wf(),
        final(store)@ == resolved(old(store)@, contacts@, contacts@.len() as int),
        same_population(old(store)@, final(store)@),
{
    let mut k: usize = 0;
    while k < contacts.len()
        invariant
            0 <= k <= contacts@.len(),
            store.wf(),
            store@ == resolved(old(store)@, contacts@, k as int),
            same_population(old(store)@, store@),
        decreases contacts@.len() - k,
    {
        resolve_contact(store, &contacts[k]);
        k += 1;
    }
}

/// Moves every ball on by its velocity and clamps it into the rectangle,
/// `EPSILON` taken off its radius.
pub fn advance(store: &mut Store, bounds: &Bounds)
    requires
        old(store).wf(),
        bounds.valid(),
    ensures
        final(store).wf(),
        final(store)@ == advanced(old(store)@, *bounds),
        same_population(old(store)@, final(store)@),
        all_inside(final(store)@, *bounds),
{
    let n: usize = store.slot_count();
    let mut i: usize = 0;
    while i < n
        invariant
            0 <= i <= n,
            n == store@.len(),
            n == old(store)@.len(),
            store.wf(),
            bounds.valid(),
            forall|k: int|
                0 <= k < i ==> (#[trigger] store@[k]) == advanced(old(store)@, *bounds)[k],
            forall|k: int| i <= k < n ==> (#[trigger] store@[k]) == old(store)@[k],
            forall|k: int|
                0 <= k < i && (#[trigger] store@[k]) is Some && store@[k]->0.fits(
                    *bounds,
                    EPSILON as int,
                ) ==> store@[k]->0.inside(*bounds, EPSILON as int),
        decreases n - i,
    {
        if let Some(ball) = store.get(Entity(i)) {
            let moved: Ball = ball.place(
                ball.position.x as i128 + ball.velocity.0.x as i128,
                ball.position.y as i128 + ball.velocity.0.y as i128,
                bounds,
                EPSILON,
            );
            store.replace(Entity(i), moved);
        }
        i += 1;
    }
    assert(store@ =~= advanced(old(store)@, *bounds));
}

/// One tick of the simulation: detects the contacts, drops the redundant
/// reports, resolves the rest in order and moves the balls.
///
/// No ball is added or removed and no radius or mass changes.  Afterwards
/// every ball that the rectangle has room for is inside it, `EPSILON`
/// taken off its radius.
pub fn collider(store: &mut Store, bounds: &Bounds)
    requires
        old(store).wf(),
        bounds.valid(),
    ensures
        final(store).wf(),
        final(store)@ == stepped(old(store)@, *bounds),
        same_population(old(store)@, final(store)@),
        all_inside(final(store)@, *bounds),
{
    let raw: Vec<Contact> = detect(store, bounds);
    let contacts: Vec<Contact> = dedup(&raw);
    resolve(store, &contacts);
    advance(store, bounds);
}

/// Two balls of equal mass that meet head-on swap their velocities: where
/// the velocities are opposite and equal in size and lie along the line of
/// the centres, and the centres are at least a world unit apart, each ball
/// leaves the collision with the velocity the other one had.
pub proof fn lemma_head_on_swap(a: Ball, b: Ball)
    requires
        a.valid(),
        b.valid(),
        a.mass == b.mass,
        a.velocity.0.x == -b.velocity.0.x,
        a.velocity.0.y == -b.velocity.0.y,
        a.velocity.0.x * (a.position.y - b.position.y) == a.velocity.0.y * (a.position.x
            - b.position.x),
        a.position.distance_squared(b.position) >= CLOSE_FLOOR,
    ensures
        rebound_velocity(a, b) == b.velocity,
        rebound_velocity(b, a) == a.velocity,
{
    let vx = a.velocity.0.x as int;
    let vy = a.velocity.0.y as int;
    let nx = a.position.x - b.position.x;
    let ny = a.position.y - b.position.y;
    let m = a.mass.0 as int;
    let dist = nx * nx + ny * ny;
    let divisor = (m + m) * dist;
    assert(b.position.distance_squared(a.position) == dist) by (nonlinear_arith)
        requires
            nx == a.position.x - b.position.x,
            ny == a.position.y - b.position.y,
            dist == nx * nx + ny * ny,
    ;
    assert(floored_distance(a, b) == dist);
    assert(floored_distance(b, a) == dist);
    assert(closing(a, b) == 2 * (vx * nx + vy * ny)) by (nonlinear_arith)
        requires
            closing(a, b) == (vx - (-vx)) * nx + (vy - (-vy)) * ny,
    ;
    assert(closing(b, a) == 2 * (vx * nx + vy * ny)) by (nonlinear_arith)
        requires
            closing(b, a) == ((-vx) - vx) * (-nx) + ((-vy) - vy) * (-ny),
    ;
    assert(divisor > 0) by (nonlinear_arith)
        requires
            divisor == (m + m) * dist,
            m >= 1,
            dist >= 1,
    ;
    let along = vx * nx + vy * ny;
    assert(2 * m * (2 * along) * nx == (2 * vx) * divisor) by (nonlinear_arith)
        requires
            along == vx * nx + vy * ny,
            vx * ny == vy * nx,
            divisor == (m + m) * (nx * nx + ny * ny),
    ;
    assert(2 * m * (2 * along) * ny == (2 * vy) * divisor) by (nonlinear_arith)
        requires
            along == vx * nx + vy * ny,
            vx * ny == vy * nx,
            divisor == (m + m) * (nx * nx + ny * ny),
    ;
    assert(2 * m * (2 * along) * (-nx) == (-2 * vx) * divisor) by (nonlinear_arith)
        requires
            2 * m * (2 * along) * nx == (2 * vx) * divisor,
    ;
    assert(2 * m * (2 * along) * (-ny) == (-2 * vy) * divisor) by (nonlinear_arith)
        requires
            2 * m * (2 * along) * ny == (2 * vy) * divisor,
    ;
    lemma_exact_quotient(2 * vx, divisor);
    lemma_exact_quotient(2 * vy, divisor);
    lemma_exact_quotient(-2 * vx, divisor);
    lemma_exact_quotient(-2 * vy, divisor);
}

/// Between two balls of equal mass the kicks are equal and opposite: what
/// the collision takes from the velocity of one ball it adds to that of
/// the other, so that their sum, and with it the momentum, is kept
/// wherever no component runs into `LIMIT`.
pub proof fn lemma_equal_mass_exchange(a: Ball, b: Ball)
    requires
        a.valid(),
        b.valid(),
        a.mass == b.mass,
    ensures
        kick(b, a).0 == -kick(a, b).0,
        kick(b, a).1 == -kick(a, b).1,
{
    let nx = a.position.x - b.position.x;
    let ny = a.position.y - b.position.y;
    let m = a.mass.0 as int;
    assert(b.position.distance_squared(a.position) == a.position.distance_squared(b.position))
        by (nonlinear_arith);
    assert(closing(b, a) == closing(a, b)) by (nonlinear_arith)
        requires
            closing(a, b) == (a.velocity.0.x - b.velocity.0.x) * (a.position.x - b.position.x) + (
            a.velocity.0.y - b.velocity.0.y) * (a.position.y - b.position.y),
            closing(b, a) == (b.velocity.0.x - a.velocity.0.x) * (b.position.x - a.position.x) + (
            b.velocity.0.y - a.velocity.0.y) * (b.position.y - a.position.y),
    ;
    let c = closing(a, b);
    let divisor = (m + m) * floored_distance(a, b);
    assert(divisor > 0) by (nonlinear_arith)
        requires
            divisor == (m + m) * floored_distance(a, b),
            m >= 1,
            floored_distance(a, b) >= 1,
    ;
    assert(2 * m * c * (-nx) == -(2 * m * c * nx)) by (nonlinear_arith);
    assert(2 * m * c * (-ny) == -(2 * m * c * ny)) by (nonlinear_arith);
    assert(b.position.x - a.position.x == -nx);
    assert(b.position.y - a.position.y == -ny);
    lemma_div_toward_zero_odd(2 * m * c * nx, divisor);
    lemma_div_toward_zero_odd(2 * m * c * ny, divisor);
}

/// Radius, mass and both velocity components of the ball lie in the
/// ranges of `sim`.
pub open spec fn drawn_attributes(ball: Ball, sim: Simulation) -> bool {
    &&& sim.size_range.start <= ball.size.0 < sim.size_range.end
    &&& sim.mass_range.start <= ball.mass.0 < sim.mass_range.end
    &&& sim.velocity_range.start <= ball.velocity.0.x < sim.velocity_range.end
    &&& sim.velocity_range.start <= ball.velocity.0.y < sim.velocity_range.end
}

/// The ball is as the first two steps of a setup leave one: its attributes
/// are drawn from the ranges of `sim`, and it is scattered in the rectangle.
pub open spec fn placed_ball(ball: Ball, sim: Simulation, bounds: Bounds) -> bool {
    drawn_attributes(ball, sim) && scattered(ball, bounds)
}

/// `result` holds the balls that a setup can leave: every ball of `sim`
/// was created and placed, and packing led from those balls to `result`.
pub open spec fn set_up(sim: Simulation, bounds: Bounds, delta: u64, result: Seq<Option<Ball>>) -> bool {
    exists|placed: Seq<Option<Ball>>|
        {
            &&& placed.len() == sim.num_balls
            &&& forall|i: int|
                0 <= i < placed.len() ==> (#[trigger] placed[i]) is Some && placed_ball(
                    placed[i]->0,
                    sim,
                    bounds,
                )
            &&& #[trigger] packed(placed, result, bounds, delta)
        }
}

/// The balls after `n` ticks.
pub open spec fn ticked(slots: Seq<Option<Ball>>, bounds: Bounds, n: int) -> Seq<Option<Ball>>
    decreases n,
{
    if n <= 0 {
        slots
    } else {
        stepped(ticked(slots, bounds, n - 1), bounds)
    }
}

/// `result` holds the balls that a run of `ticks` ticks can leave: a setup
/// left some balls, and the ticks led from those to `result`.
pub open spec fn ran(
    sim: Simulation,
    bounds: Bounds,
    delta: u64,
    ticks: int,
    result: Seq<Option<Ball>>,
) -> bool {
    exists|start: Seq<Option<Ball>>| #[trigger]
        set_up(sim, bounds, delta, start) && result == ticked(start, bounds, ticks)
}

/// A simulation in progress: its phase and its balls.
pub struct ParticleSim {
    pub state: SimState,
    pub store: Store,
}

impl ParticleSim {
    /// A simulation that waits for its setup, without balls.
    pub fn new() -> (sim: ParticleSim)
        ensures
            sim.state == SimState::Setup,
            sim.store@.len() == 0,
            sim.store.wf(),
    {
        ParticleSim { state: SimState::Setup, store: Store::new() }
    }

    /// The entry into the `Setup` phase: the balls of `sim` are created,
    /// scattered over the rectangle and packed, `delta` being the time in
    /// microseconds that one relaxation pass counts as, and the simulation
    /// moves on to the `Simulate` phase.
    ///
    /// Nothing happens, and `false` is returned, in any other phase, with
    /// an invalid configuration that asks for a ball, and where the
    /// rectangle lacks room for one of the balls that were created.  It has
    /// room for them all where it has room for the largest radius of the
    /// configuration, and lacks room for any where it lacks room for the
    /// smallest.
    pub fn setup(
        &mut self,
        sim: &Simulation,
        bounds: &Bounds,
        rng: &mut RandomSource,
        delta: u64,
    ) -> (done: bool)
        requires
            old(self).store.wf(),
            bounds.valid(),
        ensures
            final(self).store.wf(),
            !done ==> final(self).state == old(self).state && final(self).store@ == old(
                self,
            ).store@,
            done ==> {
                &&& old(self).state == SimState::Setup
                &&& sim.num_balls == 0 || sim.valid()
                &&& final(self).state == SimState::Simulate
                &&& set_up(*sim, *bounds, delta, final(self).store@)
                &&& final(self).store@.len() == sim.num_balls
                &&& apart(final(self).store@)
                &&& forall|i: int|
                    0 <= i < sim.num_balls && (#[trigger] final(self).store@[i]) is Some ==> {
                        let ball = final(self).store@[i]->0;
                        &&& ball.inside(*bounds, 0)
                        &&& drawn_attributes(ball, *sim)
                    }
            },
            old(self).state == SimState::Setup && (sim.num_balls == 0 || (sim.valid() && room_for(
                sim.size_range.end - 1,
                *bounds,
            ))) ==> done,
            old(self).state != SimState::Setup || (sim.num_balls > 0 && (!sim.valid() || !room_for(
                sim.size_range.start as int,
                *bounds,
            ))) ==> !done,
    {
        if self.state != SimState::Setup {
            return false;
        }
        match create_balls(sim, rng) {
            None => false,
            Some(mut store) => {
                let ghost created = store@;
                proof {
                    assert forall|i: int| 0 <= i < created.len() implies (#[trigger] created[i]) is Some
                        && drawn_attributes(created[i]->0, *sim) by {
                        assert(drawn_from(created[i]->0, *sim));
                    }
                    if sim.num_balls > 0 && !room_for(sim.size_range.start as int, *bounds) {
                        assert(created[0] is Some);
                        assert(!room_for(created[0]->0.size.0 as int, *bounds)) by (nonlinear_arith)
                            requires
                                !room_for(sim.size_range.start as int, *bounds),
                                sim.size_range.start <= created[0]->0.size.0,
                                UNIT == 1000,
                        ;
                        assert(!roomy(created[0]->0, *bounds));
                    }
                    if sim.num_balls > 0 && room_for(sim.size_range.end - 1, *bounds) {
                        assert forall|i: int|
                            0 <= i < created.len() && (#[trigger] created[i]) is Some implies roomy(
                            created[i]->0,
                            *bounds,
                        ) by {
                            let r = created[i]->0.size.0 as int;
                            assert(room_for(r, *bounds)) by (nonlinear_arith)
                                requires
                                    room_for(sim.size_range.end - 1, *bounds),
                                    r <= sim.size_range.end - 1,
                                    UNIT == 1000,
                            ;
                        }
                    }
                }
                if !has_room(&store, bounds) {
                    return false;
                }
                space_balls(&mut store, bounds, rng);
                let ghost placed = store@;
                pack_balls(&mut store, bounds, rng, delta);
                proof {
                    assert forall|i: int| 0 <= i < placed.len() implies (#[trigger] placed[i]) is Some
                        && placed_ball(placed[i]->0, *sim, *bounds) by {
                        assert(created[i] is Some);
                        assert(drawn_attributes(created[i]->0, *sim));
                    }
                    assert(packed(placed, store@, *bounds, delta));
                    assert forall|i: int|
                        0 <= i < sim.num_balls && (#[trigger] store@[i]) is Some implies {
                        let ball = store@[i]->0;
                        &&& ball.inside(*bounds, 0)
                        &&& drawn_attributes(ball, *sim)
                    } by {
                        assert(placed[i] is Some);
                        assert(placed[i]->0.inside(*bounds, 0));
                    }
                }
                self.store = store;
                self.state = SimState::Simulate;
                true
            },
        }
    }

    /// The tick of the `Simulate` phase: the balls are advanced by one
    /// tick.  In any other phase nothing happens.
    pub fn update(&mut self, bounds: &Bounds)
        requires
            old(self).store.wf(),
            bounds.valid(),
        ensures
            final(self).store.wf(),
            final(self).state == old(self).state,
            final(self).store@ == (if old(self).state == SimState::Simulate {
                stepped(old(self).store@, *bounds)
            } else {
                old(self).store@
            }),
            same_population(old(self).store@, final(self).store@),
            old(self).state == SimState::Simulate ==> all_inside(final(self).store@, *bounds),
    {
        if self.state == SimState::Simulate {
            collider(&mut self.store, bounds);
        }
    }
}

} // verus!
