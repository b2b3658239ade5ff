use verlet_balls::ball::Ball;
use verlet_balls::maths::colour;
use verlet_balls::maths::vec2;
use verlet_balls::maths::vec4;
use verlet_balls::maths::ConfigError;
use verlet_balls::physics::clip_to_bounds;
use verlet_balls::physics::resolve_collisions;
use verlet_balls::physics::Physics;

fn wide_bounds() -> verlet_balls::maths::Vec4 {
    vec4(-100_000_000, 100_000_000, 100_000_000, -100_000_000)
}

#[test]
fn world_starts_empty_with_its_bounds() {
    let w = Physics::new(wide_bounds());
    assert_eq!(w.count(), 0);
    assert_eq!(w.get_bounds(), wide_bounds());
}

#[test]
fn add_appends_in_insertion_order() {
    let mut w = Physics::new(wide_bounds());
    let a = Ball::new(vec2(1, 2), 100, colour(1, 0, 0));
    let b = Ball::new(vec2(3, 4), 200, colour(0, 1, 0));
    w.add(a);
    w.add(b);
    assert_eq!(w.count(), 2);
    assert_eq!(w.get(0), a);
    assert_eq!(w.get(1), b);
}

#[test]
fn set_bounds_replaces_instantly() {
    let mut w = Physics::new(wide_bounds());
    let next = vec4(-500_000, 500_000, 400_000, -400_000);
    w.set_bounds(next);
    assert_eq!(w.get_bounds(), next);
}

#[test]
fn checked_new_rejects_degenerate_bounds() {
    let r = Physics::checked_new(vec4(5, 5, 10, -10));
    assert!(matches!(r, Err(ConfigError::DegenerateBounds)));
    let r = Physics::checked_new(vec4(-10, 10, -3, 3));
    assert!(matches!(r, Err(ConfigError::DegenerateBounds)));
}

#[test]
fn checked_new_rejects_huge_bounds() {
    let r = Physics::checked_new(vec4(-200_000_000, 0, 10, -10));
    assert!(matches!(r, Err(ConfigError::BoundsTooLarge)));
}

#[test]
fn checked_new_accepts_sound_bounds() {
    let w = Physics::checked_new(wide_bounds()).unwrap();
    assert_eq!(w.get_bounds(), wide_bounds());
    assert_eq!(w.count(), 0);
}

#[test]
fn step_on_empty_world_changes_nothing() {
    let mut w = Physics::new(wide_bounds());
    w.apply_phsyics(1092);
    assert_eq!(w.count(), 0);
    assert_eq!(w.get_bounds(), wide_bounds());
    w.apply_phsyics_sub(1092, 4);
    assert_eq!(w.count(), 0);
    assert_eq!(w.get_bounds(), wide_bounds());
}

#[test]
fn clip_pins_a_ball_to_each_wall() {
    // bounds (-65536, 65536, 65536, -65536)
    let bounds = vec4(-65536, 65536, 65536, -65536);
    // past the right wall and below the bottom wall at once
    let mut b = Ball::new(vec2(200_000, -200_000), 6553, colour(0, 0, 0));
    clip_to_bounds(&mut b, bounds);
    assert_eq!(b.location, vec2(65536 - 6553, -65536 + 6553));
    // the history is left alone: clipping is positional only
    assert_eq!(b.old_pos, vec2(200_000, -200_000));

    // past the left wall and above the top wall at once
    let mut b = Ball::new(vec2(-200_000, 200_000), 6553, colour(0, 0, 0));
    clip_to_bounds(&mut b, bounds);
    assert_eq!(b.location, vec2(-65536 + 6553, 65536 - 6553));
}

#[test]
fn clip_leaves_an_inside_ball_alone() {
    let bounds = vec4(-65536, 65536, 65536, -65536);
    let mut b = Ball::new(vec2(1000, -2000), 6553, colour(0, 0, 0));
    clip_to_bounds(&mut b, bounds);
    assert_eq!(b.location, vec2(1000, -2000));
}

#[test]
fn clip_of_too_wide_ball_obeys_the_write_order() {
    // a ball wider than the box: on x the right-wall write wins,
    // on y the bottom-wall write wins
    let bounds = vec4(-65536, 65536, 65536, -65536);
    let mut b = Ball::new(vec2(0, 0), 100_000, colour(0, 0, 0));
    clip_to_bounds(&mut b, bounds);
    assert_eq!(b.location, vec2(65536 - 100_000, -65536 + 100_000));
}

#[test]
fn mass_ratio_split_moves_the_larger_ball_three_times_as_far() {
    // radii 1 and 3 world units, centres two units apart: overlapping
    let mut a = Ball::new(vec2(0, 0), 65536, colour(0, 0, 0));
    let mut b = Ball::new(vec2(131072, 0), 196608, colour(0, 0, 0));
    resolve_collisions(&mut a, &mut b);
    // the correction pushes a away by 16384 and b by 3 * 16384
    assert_eq!(a.location, vec2(-16384, 0));
    assert_eq!(b.location, vec2(131072 + 49152, 0));
    assert_eq!(b.location.x - 131072, 3 * (0 - a.location.x));
    // histories, radii and colours are untouched
    assert_eq!(a.old_pos, vec2(0, 0));
    assert_eq!(b.old_pos, vec2(131072, 0));
}

#[test]
fn resolve_skips_a_separated_pair() {
    let mut a = Ball::new(vec2(0, 0), 65536, colour(0, 0, 0));
    let mut b = Ball::new(vec2(400_000, 0), 196608, colour(0, 0, 0));
    resolve_collisions(&mut a, &mut b);
    assert_eq!(a.location, vec2(0, 0));
    assert_eq!(b.location, vec2(400_000, 0));
}

#[test]
fn resolve_skips_a_fully_degenerate_pair() {
    // coincident centres and equal (zero) velocities: no axis exists
    let mut a = Ball::new(vec2(5, 5), 100, colour(0, 0, 0));
    let mut b = Ball::new(vec2(5, 5), 100, colour(0, 0, 0));
    resolve_collisions(&mut a, &mut b);
    assert_eq!(a.location, vec2(5, 5));
    assert_eq!(b.location, vec2(5, 5));
}

#[test]
fn coincident_pair_separates_along_relative_velocity() {
    // both at (0, 0); a drifts right, b drifts left
    let a0 = Ball::new(vec2(-1000, 0), 65536, colour(0, 0, 0));
    let mut a = Ball::new_location(a0, vec2(0, 0));
    let b0 = Ball::new(vec2(1000, 0), 65536, colour(0, 0, 0));
    let mut b = Ball::new_location(b0, vec2(0, 0));
    resolve_collisions(&mut a, &mut b);
    // relative velocity (2000, 0), magnitude 2000; penetration is the
    // whole radius sum 131072, half 65536, each share 32768
    assert_eq!(a.location, vec2(32768, 0));
    assert_eq!(b.location, vec2(-32768, 0));
}

#[test]
fn one_step_exactly_separates_a_resting_overlapping_pair() {
    // the scenario of the separation law, on exact values: after one
    // step the centre distance equals the radius sum exactly
    let mut w = Physics::new(wide_bounds());
    w.add(Ball::new(vec2(0, 0), 65536, colour(0, 0, 0)));
    w.add(Ball::new(vec2(131072, 0), 196608, colour(0, 0, 0)));
    let d0 = 131072 - 0;
    let rsum = 65536 + 196608;
    assert!(d0 < rsum);
    w.apply_phsyics(0);
    let a = w.get(0);
    let b = w.get(1);
    assert_eq!(a.location, vec2(-32768, 0));
    assert_eq!(b.location, vec2(229376, 0));
    assert_eq!(b.location.x - a.location.x, rsum);
}

#[test]
fn free_fall_follows_the_closed_form() {
    // dt = 6554: gravity drop g = 655440; after k steps the centre has
    // dropped g * k * (k + 1) / 2
    let mut w = Physics::new(wide_bounds());
    w.add(Ball::new(vec2(777, 0), 65536, colour(0, 0, 0)));
    w.apply_phsyics(6554);
    assert_eq!(w.get(0).location, vec2(777, -655_440));
    w.apply_phsyics(6554);
    assert_eq!(w.get(0).location, vec2(777, -1_966_320));
    w.apply_phsyics(6554);
    assert_eq!(w.get(0).location, vec2(777, -3_932_640));
}

#[test]
fn substeps_follow_the_closed_form_of_the_divided_step() {
    // four sub-steps of 6554 / 4 = 1638: drop g' * 10 with g' = 40940
    let mut w = Physics::new(wide_bounds());
    w.add(Ball::new(vec2(0, 0), 65536, colour(0, 0, 0)));
    w.apply_phsyics_sub(6554, 4);
    assert_eq!(w.get(0).location, vec2(0, -409_400));
}

#[test]
fn substeps_do_not_equal_one_big_step() {
    let mut once = Physics::new(wide_bounds());
    once.add(Ball::new(vec2(0, 0), 65536, colour(0, 0, 0)));
    once.apply_phsyics(6554);

    let mut subbed = Physics::new(wide_bounds());
    subbed.add(Ball::new(vec2(0, 0), 65536, colour(0, 0, 0)));
    subbed.apply_phsyics_sub(6554, 4);

    assert_eq!(once.get(0).location.y, -655_440);
    assert_eq!(subbed.get(0).location.y, -409_400);
    assert_ne!(once.get(0).location, subbed.get(0).location);
}

#[test]
fn a_step_clips_before_it_integrates() {
    // a resting ball far below the floor: the step first pins it to the
    // floor, then integration launches it by the pinning displacement
    let bounds = vec4(-65536, 65536, 65536, -65536);
    let mut w = Physics::new(bounds);
    w.add(Ball::new(vec2(0, -200_000), 6553, colour(0, 0, 0)));
    w.apply_phsyics(0);
    // clipped to -65536 + 6553 = -58983, then moved again by the
    // implicit velocity -58983 - (-200000) = 141017
    assert_eq!(w.get(0).location, vec2(0, -58_983 + 141_017));
    assert_eq!(w.get(0).old_pos, vec2(0, -58_983));
}
