use particle_sim::ball::{Ball, Bounds, Mass, Size, Velocity};
use particle_sim::impulses::Impulses;
use particle_sim::packing::{
    any_waiting, apply_impulses, clear_overlaps, clear_pass, contact_impulse, limit_length, nudge,
    pack_balls, relax, scan_contacts, MAX_IMPULSE, MAX_PENDING, RELAX_BUDGET, WEIGHT_CAP,
};
use particle_sim::random::RandomSource;
use particle_sim::spawn::{create_balls, has_room, space_balls};
use particle_sim::store::{Entity, Store};
use particle_sim::vector::Vec2;
use particle_sim::Simulation;

fn ball(x: i64, y: i64, radius: u32) -> Ball {
    Ball::new(Vec2::new(x, y), Velocity(Vec2::new(0, 0)), Size(radius), Mass(5))
        .expect("a valid ball")
}

fn square(half: i64) -> Bounds {
    Bounds::new(Vec2::new(-half, -half), Vec2::new(half, half)).expect("valid bounds")
}

fn store_of(balls: &[Ball]) -> Store {
    let mut store = Store::new();
    for b in balls {
        store.spawn(*b).expect("a valid ball");
    }
    store
}

fn waiting(items: &[(usize, Vec2)]) -> Impulses {
    let mut pending = Impulses::new();
    for (slot, push) in items {
        pending.insert(*slot, *push);
    }
    pending
}

fn live(store: &Store) -> Vec<Ball> {
    store.entities().into_iter().map(|e| store.get(e).expect("a live ball")).collect()
}

fn overlapping_pairs(store: &Store) -> usize {
    let balls = live(store);
    let mut count = 0;
    for i in 0..balls.len() {
        for j in (i + 1)..balls.len() {
            let dx = (balls[i].position.x - balls[j].position.x) as i128;
            let dy = (balls[i].position.y - balls[j].position.y) as i128;
            let reach = (balls[i].size.0 as i128 + balls[j].size.0 as i128) * 1000;
            if dx * dx + dy * dy < reach * reach {
                count += 1;
            }
        }
    }
    count
}

#[test]
fn impulse_points_at_the_other_ball() {
    let subject = ball(3_000, 4_000, 10);
    let other = ball(3_000, 10_000, 10);
    assert_eq!(contact_impulse(&subject, &other), Vec2::new(0, 1_440));
    assert_eq!(contact_impulse(&ball(1_000, 0, 10), &ball(4_000, 4_000, 10)), Vec2::new(15_000, 20_000));
    assert_eq!(contact_impulse(&ball(4_000, 4_000, 10), &ball(1_000, 0, 10)), Vec2::new(-468, -624));
}

#[test]
fn impulse_weight_is_capped_at_the_origin() {
    let push = contact_impulse(&ball(0, 0, 10), &ball(15_000, 0, 10));
    assert_eq!(push, Vec2::new(WEIGHT_CAP, 0));
}

#[test]
fn impulse_between_stacked_balls_is_zero() {
    assert_eq!(contact_impulse(&ball(500, 500, 10), &ball(500, 500, 10)), Vec2::new(0, 0));
}

#[test]
fn impulse_uses_the_floor_for_near_centres() {
    // Squared distance 25 is floored to 10 000; the weight is 10 000 * 1000 / 1 000 000.
    let push = contact_impulse(&ball(1_000, 0, 10), &ball(1_003, 4, 10));
    assert_eq!(push, Vec2::new(6, 8));
}

#[test]
fn limit_length_cuts_long_vectors_only() {
    assert_eq!(limit_length(3_000, 4_000, 5_000), Vec2::new(3_000, 4_000));
    assert_eq!(limit_length(6_000, 8_000, 5_000), Vec2::new(3_000, 4_000));
    assert_eq!(limit_length(-6_000, 8_000, 5_000), Vec2::new(-3_000, 4_000));
    assert_eq!(limit_length(1_000_000_000, 0, MAX_IMPULSE), Vec2::new(MAX_IMPULSE, 0));
    assert_eq!(limit_length(0, 0, 1), Vec2::new(0, 0));
}

#[test]
fn limit_length_takes_every_vector() {
    assert_eq!(limit_length(3, 4, 0), Vec2::new(0, 0));
    assert_eq!(limit_length(0, 0, 0), Vec2::new(0, 0));
    assert_eq!(limit_length(i64::MAX, 0, 5), Vec2::new(5, 0));
    assert_eq!(limit_length(0, i64::MIN, 5), Vec2::new(0, -5));
    assert_eq!(limit_length(i64::MIN, i64::MIN, 1_000), Vec2::new(-707, -707));
    assert_eq!(limit_length(i64::MAX, i64::MIN, i64::MAX), Vec2::new(6_521_908_912_666_391_105, -6_521_908_912_666_391_106));
    assert_eq!(limit_length(5, -7, i64::MAX), Vec2::new(5, -7));
}

#[test]
fn nudge_adds_cuts_and_jitters() {
    let small = nudge(Vec2::new(100, 200), Vec2::new(15_000, 20_000), Vec2::new(1, 2));
    assert_eq!(small, Vec2::new(15_101, 20_202));
    let large = nudge(Vec2::new(0, 0), Vec2::new(WEIGHT_CAP, 0), Vec2::new(5, -7));
    assert_eq!(large, Vec2::new(10_000_005, -7));
    let most = nudge(
        Vec2::new(MAX_PENDING, MAX_PENDING),
        Vec2::new(WEIGHT_CAP, WEIGHT_CAP),
        Vec2::new(1_000, 1_000),
    );
    assert!(most.x <= MAX_PENDING && most.y <= MAX_PENDING);
}

#[test]
fn apply_impulses_moves_and_clamps() {
    let bounds = square(100_000);
    let mut store = store_of(&[ball(0, 0, 10), ball(50_000, 0, 10), ball(-50_000, 0, 10)]);
    store.despawn(Entity(2));
    let pending = waiting(&[
        (0, Vec2::new(1_000, -2_000)),
        (1, Vec2::new(70_000, 0)),
        (2, Vec2::new(1, 1)),
        (9, Vec2::new(5, 5)),
    ]);
    apply_impulses(&mut store, &pending, &bounds);
    assert_eq!(store.get(Entity(0)), Some(ball(1_000, -2_000, 10)));
    assert_eq!(store.get(Entity(1)), Some(ball(90_000, 0, 10)));
    assert_eq!(store.get(Entity(2)), None);
}

#[test]
fn apply_impulses_leaves_balls_without_an_impulse() {
    let bounds = square(100_000);
    let mut store = store_of(&[ball(95_000, 0, 10), ball(0, 0, 10)]);
    let pending = waiting(&[(1, Vec2::new(10, 10))]);
    apply_impulses(&mut store, &pending, &bounds);
    assert_eq!(store.get(Entity(0)), Some(ball(95_000, 0, 10)));
    assert_eq!(store.get(Entity(1)), Some(ball(10, 10, 10)));
    apply_impulses(&mut store, &Impulses::new(), &bounds);
    assert_eq!(store.get(Entity(1)), Some(ball(10, 10, 10)));
}

#[test]
fn scan_marks_exactly_the_balls_in_contact() {
    let store = store_of(&[ball(0, 0, 10), ball(15_000, 0, 10), ball(80_000, 0, 10)]);
    let mut rng = RandomSource::new(3);
    let pending = scan_contacts(&store, &mut rng);
    assert!(pending.get(0).is_some());
    assert!(pending.get(1).is_some());
    assert!(pending.get(2).is_none());
    assert!(pending.get(3).is_none());
    assert!(any_waiting(&pending));
    for slot in 0..2 {
        let push = pending.get(slot).expect("in contact");
        assert!(push.x.abs() <= MAX_PENDING && push.y.abs() <= MAX_PENDING);
    }
}

#[test]
fn scan_of_separate_balls_finds_nothing() {
    let store = store_of(&[ball(0, 0, 10), ball(20_000, 0, 10)]);
    let mut rng = RandomSource::new(3);
    let pending = scan_contacts(&store, &mut rng);
    assert_eq!(pending.get(0), None);
    assert_eq!(pending.get(1), None);
    assert!(pending.is_empty());
    assert!(!any_waiting(&pending));
    assert!(!any_waiting(&Impulses::new()));
}

#[test]
fn scan_jitter_breaks_the_symmetry_of_stacked_balls() {
    let store = store_of(&[ball(500, 500, 10), ball(500, 500, 10)]);
    let mut rng = RandomSource::new(11);
    let pending = scan_contacts(&store, &mut rng);
    let first = pending.get(0).expect("in contact");
    let second = pending.get(1).expect("in contact");
    assert!(first.x.abs() <= 1_000 && first.y.abs() <= 1_000);
    assert!(second.x.abs() <= 1_000 && second.y.abs() <= 1_000);
    assert_ne!(first, second);
}

#[test]
fn relax_leaves_separate_balls_alone() {
    let bounds = square(100_000);
    let start = [ball(0, 0, 10), ball(20_000, 0, 10), ball(0, 95_000, 10)];
    let mut store = store_of(&start);
    let mut rng = RandomSource::new(5);
    relax(&mut store, &bounds, &mut rng, 1_000);
    assert_eq!(live(&store), start.to_vec());
}

#[test]
fn relax_with_a_single_pass_moves_nothing() {
    let bounds = square(100_000);
    let start = [ball(0, 0, 10), ball(15_000, 0, 10)];
    let mut store = store_of(&start);
    let mut rng = RandomSource::new(5);
    relax(&mut store, &bounds, &mut rng, RELAX_BUDGET);
    assert_eq!(live(&store), start.to_vec());
}

#[test]
fn relax_keeps_every_ball_and_its_attributes() {
    let bounds = square(100_000);
    let start = [ball(1_000, 1_000, 10), ball(9_000, 2_000, 12), ball(-4_000, 3_000, 7)];
    let mut store = store_of(&start);
    let mut rng = RandomSource::new(9);
    relax(&mut store, &bounds, &mut rng, 10_000);
    let after = live(&store);
    assert_eq!(after.len(), 3);
    for (old, new) in start.iter().zip(after.iter()) {
        assert_eq!(old.size, new.size);
        assert_eq!(old.mass, new.mass);
        assert_eq!(old.velocity, new.velocity);
        assert!(new.is_inside(&bounds));
    }
}

#[test]
fn relax_moves_overlapping_balls_when_given_time() {
    let bounds = square(100_000);
    let start = [ball(1_000, 1_000, 10), ball(9_000, 2_000, 10)];
    let mut store = store_of(&start);
    let mut rng = RandomSource::new(9);
    relax(&mut store, &bounds, &mut rng, 50_000);
    assert_ne!(live(&store), start.to_vec());
}

#[test]
fn relax_with_a_zero_delta_comes_to_an_end() {
    let bounds = square(30_000);
    let mut store = store_of(&[ball(0, 0, 10), ball(1_000, 0, 10)]);
    let mut rng = RandomSource::new(1);
    relax(&mut store, &bounds, &mut rng, 0);
    assert_eq!(live(&store).len(), 2);
}

#[test]
fn clear_pass_removes_the_second_of_a_pair() {
    let mut store = store_of(&[ball(0, 0, 10), ball(15_000, 0, 10)]);
    assert!(clear_pass(&mut store));
    assert_eq!(store.get(Entity(0)), Some(ball(0, 0, 10)));
    assert_eq!(store.get(Entity(1)), None);
    assert!(!clear_pass(&mut store));
}

#[test]
fn clear_overlaps_spares_a_ball_whose_rival_is_gone() {
    let mut store = store_of(&[ball(0, 0, 10), ball(15_000, 0, 10), ball(30_000, 0, 10)]);
    clear_overlaps(&mut store);
    assert_eq!(store.entities(), vec![Entity(0), Entity(2)]);
    assert_eq!(store.get(Entity(2)), Some(ball(30_000, 0, 10)));
}

#[test]
fn clear_overlaps_of_a_heap_leaves_one_ball() {
    let heap: Vec<Ball> = (0..20).map(|i| ball(i * 10, -i * 10, 10)).collect();
    let mut store = store_of(&heap);
    clear_overlaps(&mut store);
    assert_eq!(store.entities(), vec![Entity(0)]);
}

#[test]
fn clear_overlaps_leaves_separate_balls() {
    let start = [ball(0, 0, 10), ball(20_000, 0, 10), ball(0, 20_000, 10)];
    let mut store = store_of(&start);
    clear_overlaps(&mut store);
    assert_eq!(live(&store), start.to_vec());
}

#[test]
fn packing_separates_two_overlapping_balls() {
    let bounds = square(100_000);
    let mut store = store_of(&[ball(0, 0, 10), ball(15_000, 0, 10)]);
    let mut rng = RandomSource::new(42);
    pack_balls(&mut store, &bounds, &mut rng, 10_000);
    let left = live(&store);
    assert!(!left.is_empty());
    for i in 0..left.len() {
        for j in (i + 1)..left.len() {
            let dx = (left[i].position.x - left[j].position.x) as i128;
            let dy = (left[i].position.y - left[j].position.y) as i128;
            assert!(dx * dx + dy * dy >= 400 * 1_000_000);
        }
    }
}

#[test]
fn packing_with_a_single_pass_keeps_the_survivors_in_place() {
    let bounds = square(100_000);
    let mut store = store_of(&[ball(0, 0, 10), ball(15_000, 0, 10), ball(30_000, 0, 10)]);
    let mut rng = RandomSource::new(42);
    pack_balls(&mut store, &bounds, &mut rng, RELAX_BUDGET);
    assert_eq!(live(&store), vec![ball(0, 0, 10), ball(30_000, 0, 10)]);
}

#[test]
fn packing_leaves_a_contact_free_scene_alone() {
    let bounds = square(100_000);
    let start = [ball(0, 0, 10), ball(20_000, 0, 10)];
    let mut store = store_of(&start);
    let mut rng = RandomSource::new(42);
    pack_balls(&mut store, &bounds, &mut rng, 1);
    assert_eq!(live(&store), start.to_vec());
}

#[test]
fn packing_an_overfull_rectangle_ends_without_overlaps() {
    let bounds = square(100_000);
    let sim = Simulation::new(50, 40..50, 4..5, -1_000..1_000);
    let mut rng = RandomSource::new(8);
    let mut store = create_balls(&sim, &mut rng).expect("a valid configuration");
    assert!(has_room(&store, &bounds));
    space_balls(&mut store, &bounds, &mut rng);
    assert!(overlapping_pairs(&store) > 0);
    pack_balls(&mut store, &bounds, &mut rng, 20_000);
    assert_eq!(overlapping_pairs(&store), 0);
    let left = live(&store);
    assert!(!left.is_empty());
    assert!(left.len() <= 5);
    for b in &left {
        assert!(b.is_inside(&bounds));
        assert!(40 <= b.size.0 && b.size.0 < 50);
    }
}

#[test]
fn packing_keeps_balls_inside_the_rectangle() {
    let bounds = square(60_000);
    for seed in 0..10 {
        let sim = Simulation::new(12, 5..15, 1..4, -500..500);
        let mut rng = RandomSource::new(seed);
        let mut store = create_balls(&sim, &mut rng).expect("a valid configuration");
        assert!(has_room(&store, &bounds));
        space_balls(&mut store, &bounds, &mut rng);
        pack_balls(&mut store, &bounds, &mut rng, 5_000);
        assert_eq!(overlapping_pairs(&store), 0);
        for b in live(&store) {
            assert!(b.is_inside(&bounds));
        }
    }
}

#[test]
fn create_balls_draws_from_the_ranges() {
    let sim = Simulation::new(30, 10..20, 4..9, -1_000..1_000);
    let mut rng = RandomSource::new(77);
    let store = create_balls(&sim, &mut rng).expect("a valid configuration");
    assert_eq!(store.slot_count(), 30);
    let balls = live(&store);
    assert_eq!(balls.len(), 30);
    let mut sizes_differ = false;
    for b in &balls {
        assert!(10 <= b.size.0 && b.size.0 < 20);
        assert!(4 <= b.mass.0 && b.mass.0 < 9);
        assert!(-1_000 <= b.velocity.0.x && b.velocity.0.x < 1_000);
        assert!(-1_000 <= b.velocity.0.y && b.velocity.0.y < 1_000);
        assert_eq!(b.position, Vec2::new(0, 0));
        if b.size != balls[0].size {
            sizes_differ = true;
        }
    }
    assert!(sizes_differ);
}

#[test]
fn create_balls_refuses_an_invalid_configuration() {
    let mut rng = RandomSource::new(1);
    assert!(create_balls(&Simulation::new(3, 0..5, 1..2, -1..1), &mut rng).is_none());
    assert!(create_balls(&Simulation::new(3, 5..5, 1..2, -1..1), &mut rng).is_none());
    assert!(create_balls(&Simulation::new(3, 1..100_002, 1..2, -1..1), &mut rng).is_none());
    assert!(create_balls(&Simulation::new(3, 1..5, 0..2, -1..1), &mut rng).is_none());
    assert!(create_balls(&Simulation::new(3, 1..5, 2..2, -1..1), &mut rng).is_none());
    assert!(create_balls(&Simulation::new(3, 1..5, 1..2, 1..1), &mut rng).is_none());
    assert!(create_balls(&Simulation::new(3, 1..5, 1..2, -1..100_000_002), &mut rng).is_none());
    assert!(create_balls(&Simulation::new(3, 1..5, 1..2, -100_000_001..1), &mut rng).is_none());
}

#[test]
fn create_balls_may_create_none() {
    let mut rng = RandomSource::new(1);
    let store = create_balls(&Simulation::new(0, 1..2, 1..2, 0..1), &mut rng).expect("valid");
    assert_eq!(store.slot_count(), 0);
}

#[test]
fn create_balls_without_balls_does_not_look_at_the_ranges() {
    let mut rng = RandomSource::new(1);
    let store = create_balls(&Simulation::new(0, 5..5, 0..0, 3..1), &mut rng)
        .expect("nothing to create");
    assert_eq!(store.slot_count(), 0);
    let other = create_balls(&Simulation::new(0, 0..200_000, 1..2, 0..1), &mut rng)
        .expect("nothing to create");
    assert_eq!(other.slot_count(), 0);
}

#[test]
fn space_balls_places_every_ball_inside() {
    let bounds = square(50_000);
    let mut store = store_of(&[ball(0, 0, 10), ball(0, 0, 49), ball(0, 0, 1)]);
    let mut rng = RandomSource::new(123);
    assert!(has_room(&store, &bounds));
    space_balls(&mut store, &bounds, &mut rng);
    let placed = live(&store);
    assert_eq!(placed.len(), 3);
    for b in &placed {
        assert!(b.is_inside(&bounds));
        assert!(b.position.x < 50_000 - b.radius());
        assert!(b.position.y < 50_000 - b.radius());
    }
    assert_eq!(placed[1].size, Size(49));
    assert_ne!(placed[0].position, Vec2::new(0, 0));
}

#[test]
fn has_room_tells_whether_every_ball_can_be_scattered() {
    let bounds = square(50_000);
    assert!(has_room(&store_of(&[ball(0, 0, 10), ball(7, 7, 49)]), &bounds));
    assert!(!has_room(&store_of(&[ball(0, 0, 10), ball(7, 7, 50)]), &bounds));
    assert!(!has_room(&store_of(&[ball(0, 0, 60)]), &bounds));
    assert!(has_room(&Store::new(), &bounds));
    let mut emptied = store_of(&[ball(0, 0, 60)]);
    emptied.despawn(Entity(0));
    assert!(has_room(&emptied, &bounds));
}

#[test]
fn scan_adds_the_impulse_and_a_jitter() {
    let store = store_of(&[ball(3_000, 4_000, 10), ball(3_000, 10_000, 10)]);
    for seed in 0..20 {
        let mut rng = RandomSource::new(seed);
        let pending = scan_contacts(&store, &mut rng);
        let first = pending.get(0).expect("in contact");
        let second = pending.get(1).expect("in contact");
        assert!(-1_000 <= first.x && first.x < 1_000);
        assert!(440 <= first.y && first.y < 2_440);
        assert!(-1_000 <= second.x && second.x < 1_000);
        assert!(-1_330 <= second.y && second.y < 670);
    }
}

#[test]
fn relax_with_two_passes_takes_one_step() {
    let bounds = square(100_000);
    for seed in 0..20 {
        let mut store = store_of(&[ball(3_000, 4_000, 10), ball(3_000, 10_000, 10)]);
        let mut rng = RandomSource::new(seed);
        relax(&mut store, &bounds, &mut rng, RELAX_BUDGET / 2);
        let first = store.get(Entity(0)).expect("still there").position;
        let second = store.get(Entity(1)).expect("still there").position;
        assert!(2_000 <= first.x && first.x < 4_000);
        assert!(4_440 <= first.y && first.y < 6_440);
        assert!(2_000 <= second.x && second.x < 4_000);
        assert!(8_670 <= second.y && second.y < 10_670);
    }
}

#[test]
fn impulses_keep_what_was_inserted() {
    let mut pending = Impulses::new();
    assert!(pending.is_empty());
    assert_eq!(pending.get(0), None);
    pending.insert(3, Vec2::new(7, -8));
    assert!(!pending.is_empty());
    assert_eq!(pending.get(3), Some(Vec2::new(7, -8)));
    assert_eq!(pending.get(2), None);
    pending.insert(usize::MAX, Vec2::new(1, 1));
    assert_eq!(pending.get(usize::MAX), Some(Vec2::new(1, 1)));
    assert_eq!(pending.get(3), Some(Vec2::new(7, -8)));
}

#[test]
fn impulses_replace_what_waited_for_the_slot() {
    let mut pending = Impulses::new();
    pending.insert(3, Vec2::new(7, -8));
    pending.insert(4, Vec2::new(1, 2));
    pending.insert(3, Vec2::new(9, 9));
    assert_eq!(pending.get(3), Some(Vec2::new(9, 9)));
    assert_eq!(pending.get(4), Some(Vec2::new(1, 2)));
}

#[test]
fn a_square_of_two_hundred_holds_five_large_balls() {
    let bounds = square(100_000);
    let five = [
        ball(-60_000, -60_000, 40),
        ball(60_000, -60_000, 40),
        ball(-60_000, 60_000, 40),
        ball(60_000, 60_000, 40),
        ball(0, 0, 40),
    ];
    let mut store = store_of(&five);
    for b in &five {
        assert!(b.is_inside(&bounds));
    }
    clear_overlaps(&mut store);
    assert_eq!(live(&store), five.to_vec());
    for seed in 0..20 {
        let sim = Simulation::new(30, 40..50, 1..2, 0..1);
        let mut rng = RandomSource::new(seed);
        let mut crowd = create_balls(&sim, &mut rng).expect("a valid configuration");
        assert!(has_room(&crowd, &bounds));
        space_balls(&mut crowd, &bounds, &mut rng);
        pack_balls(&mut crowd, &bounds, &mut rng, 30_000);
        let left = live(&crowd).len();
        assert!(1 <= left && left <= 5);
    }
}
