//! The ball entity: position, position history, radius and colour.
//!
//! A ball stores no velocity.  Its velocity is always the derived
//! quantity `location - old_pos`, and it changes only because `verlet`
//! moves `location` while `old_pos` lags one step behind.  Repositioning
//! `location` alone therefore acts as a one-step impulse, not as a
//! persistent velocity change.

use vstd::prelude::*;

use crate::maths::Colour;
use crate::maths::ConfigError;
use crate::maths::Vec2;
use crate::maths::Vec2V;
use crate::maths::GRAVITY;
use crate::maths::SCALE;
use crate::maths::colour;
use crate::maths::vec2;

verus! {

/// Largest radius a ball may have (about 15 world units).
pub const RADIUS_LIMIT: i64 = 1_000_000;

/// Largest coordinate magnitude a simulated ball's location may reach.
pub const POS_LIMIT: i64 = 2_000_000_000;

/// Largest coordinate magnitude allowed for the position history; newly
/// constructed balls must lie within it, and a simulation step leaves
/// `old_pos` within it again.
pub const OLD_POS_LIMIT: i64 = 600_000_000;

/// Largest timestep accepted by the integrator: one second.
pub const DT_LIMIT: i64 = 65_536;

/// A simulated ball.  Freely copyable plain data.
#[derive(Clone, Copy, PartialEq, Eq, Structural, Debug)]
pub struct Ball {
    /// Current position in fixed-point world units.
    pub location: Vec2,
    /// Position at the previous integration step; the implicit velocity
    /// is `location - old_pos`.
    pub old_pos: Vec2,
    /// Collision and render radius, fixed at creation.
    pub radius: i64,
    /// Display colour, fixed at creation.
    pub colour: Colour,
}

/// Mathematical image of a ball, over unbounded integers.
pub struct BallV {
    pub location: Vec2V,
    pub old_pos: Vec2V,
    pub radius: int,
    pub colour: Colour,
}

impl View for Ball {
    type V = BallV;

    open spec fn view(&self) -> BallV {
        BallV {
            location: self.location@,
            old_pos: self.old_pos@,
            radius: self.radius as int,
            colour: self.colour,
        }
    }
}

/// A ball whose state the simulation accepts: positive bounded radius
/// and coordinates small enough that one step cannot overflow.
pub open spec fn ball_wf(b: BallV) -> bool {
    &&& 0 < b.radius <= RADIUS_LIMIT
    &&& -POS_LIMIT <= b.location.x <= POS_LIMIT
    &&& -POS_LIMIT <= b.location.y <= POS_LIMIT
    &&& -OLD_POS_LIMIT <= b.old_pos.x <= OLD_POS_LIMIT
    &&& -OLD_POS_LIMIT <= b.old_pos.y <= OLD_POS_LIMIT
}

/// How far a ball falls in one step of size `dt`: the fixed-point value
/// of `GRAVITY * dt * dt`.
pub open spec fn grav_step(dt: int) -> int {
    GRAVITY * dt * dt / (SCALE as int)
}

/// One Stoermer-Verlet step: the new location advances by the implicit
/// velocity and by the gravity drop, and the history records where the
/// ball stood before the step.
pub open spec fn verlet_model(b: BallV, dt: int) -> BallV {
    BallV {
        location: Vec2V {
            x: b.location.x + (b.location.x - b.old_pos.x),
            y: b.location.y + (b.location.y - b.old_pos.y) - grav_step(dt),
        },
        old_pos: b.location,
        radius: b.radius,
        colour: b.colour,
    }
}

/// The gravity drop is nonnegative and bounded for any accepted timestep.
pub proof fn lemma_grav_step_bound(dt: int)
    requires
        0 <= dt <= DT_LIMIT,
    ensures
        0 <= grav_step(dt) <= 65_536_000,
{
    assert(0 <= dt * dt <= 65_536 * 65_536) by (nonlinear_arith)
        requires 0 <= dt <= 65_536;
    assert(GRAVITY * dt * dt == 1000 * (dt * dt)) by (nonlinear_arith);
    vstd::arithmetic::div_mod::lemma_div_is_ordered(0, 1000 * (dt * dt), SCALE as int);
    vstd::arithmetic::div_mod::lemma_div_is_ordered(
        1000 * (dt * dt),
        1000int * 65_536 * 65_536,
        SCALE as int,
    );
}

impl Ball {
    /// Advances this ball by one timestep of Verlet integration.
    pub fn verlet(&mut self, dt: i64)
        requires
            0 <= dt <= DT_LIMIT,
            -POS_LIMIT <= old(self).location.x <= POS_LIMIT,
            -POS_LIMIT <= old(self).location.y <= POS_LIMIT,
            -POS_LIMIT <= old(self).old_pos.x <= POS_LIMIT,
            -POS_LIMIT <= old(self).old_pos.y <= POS_LIMIT,
        ensures
            final(self)@ == verlet_model(old(self)@, dt as int),
    {
        proof {
            lemma_grav_step_bound(dt as int);
            assert(0 <= dt * dt <= 65_536 * 65_536) by (nonlinear_arith)
                requires 0 <= dt <= 65_536;
        }
        let vx = self.location.x - self.old_pos.x;
        let vy = self.location.y - self.old_pos.y;
        let g: i64 = GRAVITY * dt * dt / SCALE;
        self.old_pos = self.location;
        self.location = Vec2 { x: self.location.x + vx, y: self.location.y + vy - g };
    }

    /// The implicit velocity: how far the ball moved in the last step.
    pub fn velocity(&self) -> (v: Vec2)
        requires
            -POS_LIMIT <= self.location.x <= POS_LIMIT,
            -POS_LIMIT <= self.location.y <= POS_LIMIT,
            -POS_LIMIT <= self.old_pos.x <= POS_LIMIT,
            -POS_LIMIT <= self.old_pos.y <= POS_LIMIT,
        ensures
            v@.x == self@.location.x - self@.old_pos.x,
            v@.y == self@.location.y - self@.old_pos.y,
    {
        vec2(self.location.x - self.old_pos.x, self.location.y - self.old_pos.y)
    }

    /// A copy of `b` teleported to `l`: the history, radius and colour
    /// are kept, so the move also changes the implicit velocity.
    pub fn new_location(b: Ball, l: Vec2) -> (n: Ball)
        ensures
            n@.location == l@,
            n@.old_pos == b@.old_pos,
            n@.radius == b@.radius,
            n@.colour == b@.colour,
    {
        Ball { location: l, old_pos: b.old_pos, radius: b.radius, colour: b.colour }
    }

    /// A new ball at rest: both the location and the history start at `l`,
    /// so the implicit velocity is zero.
    pub fn new(l: Vec2, r: i64, c: Colour) -> (b: Ball)
        requires
            0 < r <= RADIUS_LIMIT,
            -OLD_POS_LIMIT <= l.x <= OLD_POS_LIMIT,
            -OLD_POS_LIMIT <= l.y <= OLD_POS_LIMIT,
        ensures
            b@.location == l@,
            b@.old_pos == l@,
            b@.radius == r,
            b@.colour == c,
            ball_wf(b@),
    {
        Ball { location: l, old_pos: l, radius: r, colour: c }
    }

    /// `new`, but rejecting malformed configuration with a descriptive
    /// error instead of demanding it away.
    pub fn checked_new(l: Vec2, r: i64, c: Colour) -> (res: Result<Ball, ConfigError>)
        ensures
            res is Ok <==> {
                &&& 0 < r <= RADIUS_LIMIT
                &&& -OLD_POS_LIMIT <= l@.x <= OLD_POS_LIMIT
                &&& -OLD_POS_LIMIT <= l@.y <= OLD_POS_LIMIT
            },
            res matches Ok(b) ==> {
                &&& b@.location == l@
                &&& b@.old_pos == l@
                &&& b@.radius == r
                &&& b@.colour == c
                &&& ball_wf(b@)
            },
            r <= 0 ==> res == Err::<Ball, ConfigError>(ConfigError::NonPositiveRadius),
            r > RADIUS_LIMIT ==> res == Err::<Ball, ConfigError>(ConfigError::RadiusTooLarge),
            (0 < r <= RADIUS_LIMIT && !(-OLD_POS_LIMIT <= l@.x <= OLD_POS_LIMIT
                && -OLD_POS_LIMIT <= l@.y <= OLD_POS_LIMIT)) ==> res == Err::<
                Ball,
                ConfigError,
            >(ConfigError::PositionOutOfRange),
    {
        if r <= 0 {
            Err(ConfigError::NonPositiveRadius)
        } else if r > RADIUS_LIMIT {
            Err(ConfigError::RadiusTooLarge)
        } else if l.x < -OLD_POS_LIMIT || l.x > OLD_POS_LIMIT || l.y < -OLD_POS_LIMIT || l.y
            > OLD_POS_LIMIT {
            Err(ConfigError::PositionOutOfRange)
        } else {
            Ok(Ball::new(l, r, c))
        }
    }

    /// A ball at rest at a position drawn uniformly from the rectangle
    /// `lo..hi`, with a radius drawn uniformly from `rad_lo..rad_hi` and
    /// a colour drawn uniformly over all byte triples.
    pub fn random(lo: Vec2, hi: Vec2, rad_lo: i64, rad_hi: i64) -> (b: Ball)
        requires
            -OLD_POS_LIMIT <= lo.x < hi.x <= OLD_POS_LIMIT,
            -OLD_POS_LIMIT <= lo.y < hi.y <= OLD_POS_LIMIT,
            0 < rad_lo < rad_hi <= RADIUS_LIMIT,
        ensures
            ball_wf(b@),
            lo@.x <= b@.location.x < hi@.x,
            lo@.y <= b@.location.y < hi@.y,
            b@.old_pos == b@.location,
            rad_lo <= b@.radius < rad_hi,
    {
        let x = random_i64_in(lo.x, hi.x);
        let y = random_i64_in(lo.y, hi.y);
        let rad = random_i64_in(rad_lo, rad_hi);

        let r = random_byte();
        let g = random_byte();
        let b = random_byte();

        Ball::new(vec2(x, y), rad, colour(r, g, b))
    }
}

/// Relies on rand::random_range over an `i64` range: returns a value
/// drawn uniformly from `lo..hi`; it panics only on an empty range,
/// which the precondition rules out.
#[verifier::external_body]
fn random_i64_in(lo: i64, hi: i64) -> (r: i64)
    requires
        lo < hi,
    ensures
        lo <= r < hi,
{
    rand::random_range(lo..hi)
}

/// Relies on rand::random::<u8>: returns a byte about which nothing is
/// promised.
#[verifier::external_body]
fn random_byte() -> (r: u8) {
    rand::random()
}

} // verus!
