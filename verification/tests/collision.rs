use particle_sim::ball::{Ball, Bounds, Mass, Size, Velocity};
use particle_sim::particle_sim::{
    advance, collide, collider, dedup, detect, hit_wall, is_covered, is_redundant, reflect,
    resolve, resolve_contact, CollisionType, Contact, SimState, Wall, EPSILON,
};
use particle_sim::store::{Entity, Store};
use particle_sim::vector::{Vec2, LIMIT};

fn moving(x: i64, y: i64, vx: i64, vy: i64, radius: u32, mass: u32) -> Ball {
    Ball::new(Vec2::new(x, y), Velocity(Vec2::new(vx, vy)), Size(radius), Mass(mass))
        .expect("a valid ball")
}

fn arena() -> Bounds {
    Bounds::new(Vec2::new(-100_000, -100_000), Vec2::new(100_000, 100_000)).expect("valid bounds")
}

fn filled(balls: &[Ball]) -> Store {
    let mut store = Store::new();
    for b in balls {
        store.spawn(*b).expect("a valid ball");
    }
    store
}

fn with_ball(subject: usize, other: usize) -> Contact {
    Contact { subject: Entity(subject), kind: CollisionType::Entity(Entity(other)) }
}

fn with_wall(subject: usize, wall: Wall) -> Contact {
    Contact { subject: Entity(subject), kind: CollisionType::Wall(wall) }
}

#[test]
fn defaults_are_the_first_variants() {
    assert_eq!(SimState::default(), SimState::Setup);
    assert_eq!(Wall::default(), Wall::North);
    assert_eq!(CollisionType::default(), CollisionType::Wall(Wall::North));
}

#[test]
fn hit_wall_tries_east_west_south_north() {
    let bounds = arena();
    assert_eq!(hit_wall(&moving(0, 0, 0, 0, 10, 1), &bounds), None);
    assert_eq!(hit_wall(&moving(90_000, 90_000, 0, 0, 10, 1), &bounds), None);
    assert_eq!(hit_wall(&moving(90_001, 0, 0, 0, 10, 1), &bounds), Some(Wall::East));
    assert_eq!(hit_wall(&moving(-90_001, 0, 0, 0, 10, 1), &bounds), Some(Wall::West));
    assert_eq!(hit_wall(&moving(0, -90_001, 0, 0, 10, 1), &bounds), Some(Wall::South));
    assert_eq!(hit_wall(&moving(0, 90_001, 0, 0, 10, 1), &bounds), Some(Wall::North));
    assert_eq!(hit_wall(&moving(90_001, 90_001, 0, 0, 10, 1), &bounds), Some(Wall::East));
    assert_eq!(hit_wall(&moving(-90_001, -90_001, 0, 0, 10, 1), &bounds), Some(Wall::West));
    assert_eq!(hit_wall(&moving(0, 0, 0, 0, 101, 1), &bounds), Some(Wall::East));
}

#[test]
fn detect_reports_a_pair_from_both_sides() {
    let store = filled(&[moving(0, 0, 0, 0, 10, 5), moving(15_000, 0, 0, 0, 10, 5)]);
    assert_eq!(detect(&store, &arena()), vec![with_ball(0, 1), with_ball(1, 0)]);
}

#[test]
fn detect_reports_a_wall_once_for_every_pair_without_overlap() {
    let store = filled(&[
        moving(95_000, 0, 0, 0, 10, 5),
        moving(0, 0, 0, 0, 10, 5),
        moving(90_000, 0, 0, 0, 10, 5),
    ]);
    let raw = detect(&store, &arena());
    assert_eq!(
        raw,
        vec![
            with_wall(0, Wall::East),
            with_wall(0, Wall::East),
            with_ball(0, 2),
            with_ball(2, 0),
        ]
    );
}

#[test]
fn detect_skips_empty_slots() {
    let mut store = filled(&[moving(0, 0, 0, 0, 10, 5), moving(15_000, 0, 0, 0, 10, 5)]);
    store.despawn(Entity(0));
    assert_eq!(detect(&store, &arena()), Vec::new());
    assert_eq!(detect(&Store::new(), &arena()), Vec::new());
}

#[test]
fn redundant_means_same_subject_or_mirrored_pair() {
    assert!(is_redundant(&with_ball(0, 1), &with_ball(1, 0)));
    assert!(is_redundant(&with_ball(0, 1), &with_ball(0, 2)));
    assert!(is_redundant(&with_ball(0, 1), &with_wall(0, Wall::East)));
    assert!(is_redundant(&with_wall(3, Wall::East), &with_wall(3, Wall::West)));
    assert!(!is_redundant(&with_ball(0, 1), &with_ball(2, 0)));
    assert!(!is_redundant(&with_ball(0, 1), &with_ball(1, 2)));
    assert!(!is_redundant(&with_wall(0, Wall::East), &with_wall(1, Wall::East)));
    assert!(!is_redundant(&with_wall(0, Wall::East), &with_ball(1, 0)));
}

#[test]
fn covered_looks_at_every_kept_contact() {
    let kept = vec![with_ball(0, 1), with_wall(2, Wall::North)];
    assert!(is_covered(&kept, &with_ball(1, 0)));
    assert!(is_covered(&kept, &with_ball(2, 5)));
    assert!(!is_covered(&kept, &with_ball(1, 2)));
    assert!(!is_covered(&Vec::new(), &with_ball(1, 2)));
}

#[test]
fn dedup_resolves_a_mirrored_pair_once() {
    assert_eq!(dedup(&vec![with_ball(0, 1), with_ball(1, 0)]), vec![with_ball(0, 1)]);
    assert_eq!(dedup(&vec![with_ball(1, 0), with_ball(0, 1)]), vec![with_ball(1, 0)]);
}

#[test]
fn dedup_keeps_the_first_contact_of_a_subject() {
    let raw = vec![
        with_wall(0, Wall::East),
        with_wall(0, Wall::East),
        with_ball(0, 2),
        with_ball(2, 0),
    ];
    assert_eq!(dedup(&raw), vec![with_wall(0, Wall::East), with_ball(2, 0)]);
}

#[test]
fn dedup_keeps_the_same_wall_for_different_balls() {
    let raw = vec![with_wall(0, Wall::East), with_wall(1, Wall::East)];
    assert_eq!(dedup(&raw), raw);
}

#[test]
fn dedup_may_leave_a_pair_whose_balls_are_both_busy() {
    let raw = vec![
        with_ball(2, 0),
        with_ball(2, 3),
        with_ball(3, 1),
        with_ball(3, 2),
    ];
    assert_eq!(dedup(&raw), vec![with_ball(2, 0), with_ball(3, 1)]);
}

#[test]
fn dedup_of_nothing_is_nothing() {
    assert_eq!(dedup(&Vec::new()), Vec::new());
}

#[test]
fn reflect_forces_the_sign_away_from_the_wall() {
    let v = Velocity(Vec2::new(5_000, -3_000));
    assert_eq!(reflect(v, Wall::East), Velocity(Vec2::new(-5_000, -3_000)));
    assert_eq!(reflect(v, Wall::West), Velocity(Vec2::new(5_000, -3_000)));
    assert_eq!(reflect(v, Wall::North), Velocity(Vec2::new(5_000, -3_000)));
    assert_eq!(reflect(v, Wall::South), Velocity(Vec2::new(5_000, 3_000)));
    let w = Velocity(Vec2::new(-LIMIT, LIMIT));
    assert_eq!(reflect(w, Wall::West), Velocity(Vec2::new(LIMIT, LIMIT)));
    assert_eq!(reflect(w, Wall::North), Velocity(Vec2::new(-LIMIT, -LIMIT)));
}

#[test]
fn reflect_twice_is_reflect_once() {
    let walls = [Wall::North, Wall::East, Wall::West, Wall::South];
    for wall in walls {
        for (x, y) in [(5, 7), (-5, 7), (5, -7), (-5, -7), (0, 0)] {
            let once = reflect(Velocity(Vec2::new(x, y)), wall);
            assert_eq!(reflect(once, wall), once);
        }
    }
}

#[test]
fn equal_masses_meeting_head_on_swap_velocities() {
    let a = moving(0, 0, 5_000, 0, 10, 5);
    let b = moving(15_000, 0, -5_000, 0, 10, 5);
    let a_after = collide(&a, &b);
    let b_after = collide(&b, &a);
    assert_eq!(a_after.velocity, b.velocity);
    assert_eq!(b_after.velocity, a.velocity);
    assert_eq!(a_after.position, Vec2::new(-2_500, 0));
    assert_eq!(b_after.position, Vec2::new(17_500, 0));
}

#[test]
fn equal_masses_swap_velocities_on_a_slanted_line() {
    let a = moving(0, 0, 300, 400, 10, 7);
    let b = moving(6_000, 8_000, -300, -400, 10, 7);
    assert_eq!(collide(&a, &b).velocity, b.velocity);
    assert_eq!(collide(&b, &a).velocity, a.velocity);
}

#[test]
fn unequal_masses_keep_momentum_and_energy() {
    let a = moving(0, 0, 4_000, 0, 10, 1);
    let b = moving(10_000, 0, 0, 0, 10, 3);
    let a_after = collide(&a, &b);
    let b_after = collide(&b, &a);
    assert_eq!(a_after.velocity, Velocity(Vec2::new(-2_000, 0)));
    assert_eq!(b_after.velocity, Velocity(Vec2::new(2_000, 0)));
    assert_eq!(a_after.position, Vec2::new(-5_000, 0));
    assert_eq!(b_after.position, Vec2::new(15_000, 0));
    assert_eq!((a_after.size, a_after.mass), (a.size, a.mass));
}

#[test]
fn a_glancing_collision_keeps_the_tangential_part() {
    let a = moving(0, 0, 1_000, 2_000, 10, 2);
    let b = moving(10_000, 0, 0, 0, 10, 2);
    assert_eq!(collide(&a, &b).velocity, Velocity(Vec2::new(0, 2_000)));
    assert_eq!(collide(&b, &a).velocity, Velocity(Vec2::new(1_000, 0)));
}

#[test]
fn the_larger_ball_is_pushed_less() {
    let a = moving(0, 0, 0, 0, 10, 1);
    let b = moving(30_000, 0, 0, 0, 30, 1);
    assert_eq!(collide(&a, &b).position, Vec2::new(-2_500, 0));
    assert_eq!(collide(&b, &a).position, Vec2::new(37_500, 0));
}

#[test]
fn near_centres_divide_by_the_floor() {
    let a = moving(0, 0, 1_000, 0, 10, 1);
    let b = moving(100, 0, 0, 0, 10, 1);
    // The squared distance 10 000 is floored to 1 000 000.
    assert_eq!(collide(&a, &b).velocity, Velocity(Vec2::new(990, 0)));
    assert_eq!(collide(&b, &a).velocity, Velocity(Vec2::new(10, 0)));
}

#[test]
fn stacked_balls_are_not_pushed() {
    let a = moving(500, 500, 100, 0, 10, 1);
    let b = moving(500, 500, -100, 0, 10, 1);
    assert_eq!(collide(&a, &b), a);
    assert_eq!(collide(&b, &a), b);
}

#[test]
fn velocities_are_limited() {
    let a = moving(0, 0, LIMIT, 0, 10, 1);
    let b = moving(10_000, 0, -LIMIT, 0, 10, u32::MAX);
    let after = collide(&a, &b);
    assert_eq!(after.velocity, Velocity(Vec2::new(-LIMIT, 0)));
}

#[test]
fn resolve_contact_with_a_wall_changes_the_velocity_only() {
    let mut store = filled(&[moving(95_000, 0, 5_000, 1_000, 10, 5)]);
    resolve_contact(&mut store, &with_wall(0, Wall::East));
    assert_eq!(store.get(Entity(0)), Some(moving(95_000, 0, -5_000, 1_000, 10, 5)));
}

#[test]
fn resolve_contact_with_a_ball_changes_both() {
    let a = moving(0, 0, 5_000, 0, 10, 5);
    let b = moving(15_000, 0, -5_000, 0, 10, 5);
    let mut store = filled(&[a, b]);
    resolve_contact(&mut store, &with_ball(0, 1));
    assert_eq!(store.get(Entity(0)), Some(moving(-2_500, 0, -5_000, 0, 10, 5)));
    assert_eq!(store.get(Entity(1)), Some(moving(17_500, 0, 5_000, 0, 10, 5)));
}

#[test]
fn resolve_contact_ignores_empty_slots() {
    let a = moving(0, 0, 5_000, 0, 10, 5);
    let mut store = filled(&[a, moving(15_000, 0, 0, 0, 10, 5)]);
    store.despawn(Entity(1));
    resolve_contact(&mut store, &with_ball(0, 1));
    resolve_contact(&mut store, &with_ball(1, 0));
    resolve_contact(&mut store, &with_ball(0, 7));
    resolve_contact(&mut store, &with_wall(1, Wall::East));
    resolve_contact(&mut store, &with_wall(9, Wall::East));
    resolve_contact(&mut store, &with_ball(0, 0));
    assert_eq!(store.get(Entity(0)), Some(a));
    assert_eq!(store.get(Entity(1)), None);
}

#[test]
fn resolve_applies_the_contacts_in_order() {
    let mut store = filled(&[
        moving(0, 0, 5_000, 0, 10, 5),
        moving(15_000, 0, -5_000, 0, 10, 5),
        moving(0, 95_000, 0, 700, 10, 5),
    ]);
    resolve(&mut store, &vec![with_ball(0, 1), with_wall(2, Wall::North)]);
    assert_eq!(store.get(Entity(0)), Some(moving(-2_500, 0, -5_000, 0, 10, 5)));
    assert_eq!(store.get(Entity(1)), Some(moving(17_500, 0, 5_000, 0, 10, 5)));
    assert_eq!(store.get(Entity(2)), Some(moving(0, 95_000, 0, -700, 10, 5)));
}

#[test]
fn advance_moves_and_clamps_with_the_margin() {
    assert_eq!(EPSILON, 100);
    let mut store = filled(&[
        moving(0, 0, 5_000, -1_000, 10, 5),
        moving(89_000, -89_000, 5_000, -5_000, 10, 5),
    ]);
    advance(&mut store, &arena());
    assert_eq!(store.get(Entity(0)), Some(moving(5_000, -1_000, 5_000, -1_000, 10, 5)));
    assert_eq!(store.get(Entity(1)), Some(moving(90_100, -90_100, 5_000, -5_000, 10, 5)));
}

#[test]
fn a_ball_bounces_off_the_east_wall() {
    let bounds = arena();
    let mut store = filled(&[moving(86_000, 0, 5_000, 0, 10, 5)]);
    collider(&mut store, &bounds);
    assert_eq!(store.get(Entity(0)), Some(moving(90_100, 0, 5_000, 0, 10, 5)));
    collider(&mut store, &bounds);
    assert_eq!(store.get(Entity(0)), Some(moving(85_100, 0, -5_000, 0, 10, 5)));
    collider(&mut store, &bounds);
    assert_eq!(store.get(Entity(0)), Some(moving(80_100, 0, -5_000, 0, 10, 5)));
}

#[test]
fn a_ball_at_rest_on_a_wall_stays_at_rest() {
    let bounds = arena();
    let mut store = filled(&[moving(90_050, 0, 0, 0, 10, 5)]);
    collider(&mut store, &bounds);
    collider(&mut store, &bounds);
    assert_eq!(store.get(Entity(0)), Some(moving(90_050, 0, 0, 0, 10, 5)));
}

#[test]
fn a_tick_resolves_a_pair_once() {
    let bounds = arena();
    let mut store = filled(&[moving(0, 0, 5_000, 0, 10, 5), moving(15_000, 0, -5_000, 0, 10, 5)]);
    collider(&mut store, &bounds);
    assert_eq!(store.get(Entity(0)), Some(moving(-7_500, 0, -5_000, 0, 10, 5)));
    assert_eq!(store.get(Entity(1)), Some(moving(22_500, 0, 5_000, 0, 10, 5)));
}

#[test]
fn a_ball_touching_a_wall_and_a_ball_resolves_its_first_contact() {
    let bounds = arena();
    let mut store = filled(&[
        moving(95_000, 0, 1_000, 0, 10, 5),
        moving(90_000, 15_000, 0, 0, 10, 5),
    ]);
    let kept = dedup(&detect(&store, &bounds));
    assert_eq!(kept, vec![with_wall(0, Wall::East), with_ball(1, 0)]);
    collider(&mut store, &bounds);
    let first = store.get(Entity(0)).expect("still there");
    assert!(first.velocity.0.x <= 0);
}

#[test]
fn ticks_keep_the_balls_inside_up_to_the_margin() {
    let bounds = arena();
    let mut store = filled(&[
        moving(0, 0, 30_000, 17_000, 10, 5),
        moving(50_000, 50_000, -21_000, 9_000, 20, 2),
        moving(-50_000, 20_000, 14_000, -33_000, 5, 9),
        moving(10_000, -70_000, -8_000, -26_000, 15, 1),
    ]);
    for _ in 0..200 {
        collider(&mut store, &bounds);
        assert_eq!(store.entities().len(), 4);
        for id in store.entities() {
            let b = store.get(id).expect("a live ball");
            let slack = b.radius() - EPSILON;
            assert!(-100_000 + slack <= b.position.x && b.position.x <= 100_000 - slack);
            assert!(-100_000 + slack <= b.position.y && b.position.y <= 100_000 - slack);
            assert!(b.is_valid());
        }
    }
}

#[test]
fn a_tick_without_balls_does_nothing() {
    let mut store = Store::new();
    collider(&mut store, &arena());
    assert_eq!(store.slot_count(), 0);
}
