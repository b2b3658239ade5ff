use verlet_balls::ball::Ball;
use verlet_balls::maths::colour;
use verlet_balls::maths::isqrt;
use verlet_balls::maths::size_bounds;
use verlet_balls::maths::vec2;
use verlet_balls::maths::vec4;
use verlet_balls::physics::Physics;
use verlet_balls::render::fill_buffer;
use verlet_balls::render::Instance;

#[test]
fn size_bounds_centres_the_window() {
    let b = size_bounds(1024 * 65536, 768 * 65536);
    assert_eq!(b, vec4(-33_554_432, 33_554_432, 25_165_824, -25_165_824));
    // odd sizes halve rounding down
    assert_eq!(size_bounds(7, 5), vec4(-3, 3, 2, -2));
}

#[test]
fn cursor_conversion_centres_and_flips_y() {
    // a window-space point (origin top-left, y down) lands in world
    // space (origin centred, y up)
    let size = vec2(1024, 768);
    let w = verlet_balls::maths::cursor_to_world(vec2(0, 0), size);
    assert_eq!(w, vec2(-512, 384));
    let w = verlet_balls::maths::cursor_to_world(vec2(1024, 768), size);
    assert_eq!(w, vec2(512, -384));
    let w = verlet_balls::maths::cursor_to_world(vec2(512, 384), size);
    assert_eq!(w, vec2(0, 0));
}

#[test]
fn constructors_store_their_components() {
    let v = vec2(3, -4);
    assert_eq!(v.x, 3);
    assert_eq!(v.y, -4);
    let q = vec4(1, 2, 3, 4);
    assert_eq!((q.x, q.y, q.z, q.w), (1, 2, 3, 4));
    let c = colour(9, 8, 7);
    assert_eq!((c.r, c.g, c.b), (9, 8, 7));
}

#[test]
fn isqrt_brackets_its_argument() {
    assert_eq!(isqrt(0), 0);
    assert_eq!(isqrt(1), 1);
    assert_eq!(isqrt(3), 1);
    assert_eq!(isqrt(4), 2);
    assert_eq!(isqrt(99), 9);
    assert_eq!(isqrt(100), 10);
    assert_eq!(isqrt(i64::MAX), 3_037_000_499);
}

#[test]
fn instance_copies_the_ball() {
    let b = Ball::new(vec2(11, 22), 333, colour(4, 5, 6));
    let inst = Instance::from_ball(b);
    assert_eq!(inst.location, vec2(11, 22));
    assert_eq!(inst.radius, 333);
    assert_eq!(inst.colour, colour(4, 5, 6));
}

#[test]
fn default_instance_is_black_and_empty() {
    let inst = Instance::default();
    assert_eq!(inst.location, vec2(0, 0));
    assert_eq!(inst.radius, 0);
    assert_eq!(inst.colour, colour(0, 0, 0));
}

#[test]
fn fill_buffer_grows_to_the_ball_count() {
    let mut w = Physics::new(vec4(-100_000_000, 100_000_000, 100_000_000, -100_000_000));
    w.add(Ball::new(vec2(1, 2), 100, colour(255, 128, 0)));
    w.add(Ball::new(vec2(3, 4), 200, colour(1, 2, 3)));
    let mut buf: Vec<Instance> = Vec::new();
    fill_buffer(&w, &mut buf);
    assert_eq!(buf.len(), w.count());
    assert_eq!(buf[0].location, vec2(1, 2));
    assert_eq!(buf[0].radius, 100);
    assert_eq!(buf[0].colour, colour(255, 128, 0));
    assert_eq!(buf[1].location, vec2(3, 4));
    assert_eq!(buf[1].radius, 200);
    assert_eq!(buf[1].colour, colour(1, 2, 3));
}

#[test]
fn fill_buffer_shrinks_and_overwrites() {
    let mut w = Physics::new(vec4(-100_000_000, 100_000_000, 100_000_000, -100_000_000));
    w.add(Ball::new(vec2(-5, 5), 42, colour(7, 7, 7)));
    let mut buf: Vec<Instance> = vec![Instance::default(); 10];
    fill_buffer(&w, &mut buf);
    assert_eq!(buf.len(), 1);
    assert_eq!(buf[0].location, vec2(-5, 5));
    assert_eq!(buf[0].radius, 42);
}

#[test]
fn fill_buffer_does_not_disturb_the_world() {
    let mut w = Physics::new(vec4(-100_000_000, 100_000_000, 100_000_000, -100_000_000));
    w.add(Ball::new(vec2(9, -9), 50, colour(0, 0, 0)));
    let mut buf: Vec<Instance> = Vec::new();
    fill_buffer(&w, &mut buf);
    fill_buffer(&w, &mut buf);
    assert_eq!(w.count(), 1);
    assert_eq!(w.get(0).location, vec2(9, -9));
}

#[test]
fn snapshot_colour_normalises_to_unit_floats() {
    // the byte triple a snapshot carries converts to the normalised
    // float colour channel by channel
    let b = Ball::new(vec2(0, 0), 100, colour(255, 128, 0));
    let inst = Instance::from_ball(b);
    let rgb = (
        inst.colour.r as f32 / 255.0,
        inst.colour.g as f32 / 255.0,
        inst.colour.b as f32 / 255.0,
    );
    assert_eq!(rgb.0, 1.0);
    assert_eq!(rgb.1, 128.0 / 255.0);
    assert_eq!(rgb.2, 0.0);
}
