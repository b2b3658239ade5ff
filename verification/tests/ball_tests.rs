use verlet_balls::ball::Ball;
use verlet_balls::maths::colour;
use verlet_balls::maths::vec2;
use verlet_balls::maths::ConfigError;

#[test]
fn new_ball_is_at_rest() {
    let b = Ball::new(vec2(100, 200), 65536, colour(10, 20, 30));
    assert_eq!(b.location, vec2(100, 200));
    assert_eq!(b.old_pos, vec2(100, 200));
    assert_eq!(b.radius, 65536);
    assert_eq!(b.colour, colour(10, 20, 30));
    let v = b.velocity();
    assert_eq!(v, vec2(0, 0));
}

#[test]
fn new_location_keeps_history_radius_colour() {
    let b = Ball::new(vec2(100, 200), 65536, colour(1, 2, 3));
    let moved = Ball::new_location(b, vec2(500, 300));
    assert_eq!(moved.location, vec2(500, 300));
    assert_eq!(moved.old_pos, vec2(100, 200));
    assert_eq!(moved.radius, 65536);
    assert_eq!(moved.colour, colour(1, 2, 3));
    // the move acts as a one-step impulse: the implicit velocity changed
    assert_eq!(moved.velocity(), vec2(400, 100));
}

#[test]
fn verlet_from_rest_falls_by_the_gravity_step() {
    // dt = 6554 (a tenth of a second): gravity drop 1000 * 6554^2 / 65536 = 655440
    let mut b = Ball::new(vec2(100, 200), 65536, colour(0, 0, 0));
    b.verlet(6554);
    assert_eq!(b.location, vec2(100, 200 - 655_440));
    assert_eq!(b.old_pos, vec2(100, 200));
    // the second step adds the implicit velocity on top of gravity
    b.verlet(6554);
    assert_eq!(b.location, vec2(100, 200 - 1_966_320));
    assert_eq!(b.old_pos, vec2(100, 200 - 655_440));
}

#[test]
fn verlet_second_difference_is_the_gravity_step() {
    let mut b = Ball::new(vec2(0, 0), 65536, colour(0, 0, 0));
    let y0 = b.location.y;
    b.verlet(6554);
    let y1 = b.location.y;
    b.verlet(6554);
    let y2 = b.location.y;
    b.verlet(6554);
    let y3 = b.location.y;
    assert_eq!((y2 - y1) - (y1 - y0), -655_440);
    assert_eq!((y3 - y2) - (y2 - y1), -655_440);
}

#[test]
fn verlet_keeps_horizontal_velocity() {
    // a ball teleported sideways keeps drifting sideways step after step
    let b = Ball::new(vec2(0, 0), 65536, colour(0, 0, 0));
    let mut b = Ball::new_location(b, vec2(1000, 0));
    b.verlet(0);
    assert_eq!(b.location.x, 2000);
    b.verlet(0);
    assert_eq!(b.location.x, 3000);
}

#[test]
fn random_ball_respects_its_ranges() {
    for _ in 0..50 {
        let b = Ball::random(vec2(-1000, -2000), vec2(1000, 2000), 100, 200);
        assert!(-1000 <= b.location.x && b.location.x < 1000);
        assert!(-2000 <= b.location.y && b.location.y < 2000);
        assert!(100 <= b.radius && b.radius < 200);
        assert_eq!(b.old_pos, b.location);
    }
}

#[test]
fn checked_new_rejects_nonpositive_radius() {
    let r = Ball::checked_new(vec2(0, 0), 0, colour(0, 0, 0));
    assert_eq!(r, Err(ConfigError::NonPositiveRadius));
    let r = Ball::checked_new(vec2(0, 0), -5, colour(0, 0, 0));
    assert_eq!(r, Err(ConfigError::NonPositiveRadius));
}

#[test]
fn checked_new_rejects_huge_radius() {
    let r = Ball::checked_new(vec2(0, 0), 2_000_000, colour(0, 0, 0));
    assert_eq!(r, Err(ConfigError::RadiusTooLarge));
}

#[test]
fn checked_new_rejects_far_position() {
    let r = Ball::checked_new(vec2(700_000_000, 0), 100, colour(0, 0, 0));
    assert_eq!(r, Err(ConfigError::PositionOutOfRange));
    let r = Ball::checked_new(vec2(0, -700_000_000), 100, colour(0, 0, 0));
    assert_eq!(r, Err(ConfigError::PositionOutOfRange));
}

#[test]
fn checked_new_accepts_a_sound_ball() {
    let r = Ball::checked_new(vec2(5, -7), 100, colour(9, 8, 7));
    let b = r.unwrap();
    assert_eq!(b.location, vec2(5, -7));
    assert_eq!(b.old_pos, vec2(5, -7));
    assert_eq!(b.radius, 100);
    assert_eq!(b.colour, colour(9, 8, 7));
}
