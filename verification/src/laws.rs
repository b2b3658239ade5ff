//! The laws of the simulation: proof functions stating what holds of
//! every input, over the same models the executable contracts use.

use vstd::prelude::*;

use crate::ball::grav_step;
use crate::ball::verlet_model;
use crate::ball::BallV;
use crate::maths::sqrt_floor;
use crate::maths::Vec2V;
use crate::maths::Vec4V;
use crate::maths::SCALE;
use crate::physics::bounds_wf;
use crate::physics::clip_all;
use crate::physics::clip_model;
use crate::physics::collide_all;
use crate::physics::inner_upto;
use crate::physics::pass_upto;
use crate::physics::resolve_model;
use crate::physics::resolve_pair_in;
use crate::physics::step_model;
use crate::physics::step_n_model;
use crate::physics::verlet_all;
use vstd::arithmetic::div_mod::lemma_div_multiples_vanish;
use vstd::arithmetic::div_mod::lemma_div_pos_is_pos;
use vstd::arithmetic::div_mod::lemma_fundamental_div_mod;

verus! {

/// Law: a step of a world with no balls leaves it a world with no
/// balls; the step's own contract adds that the bounds are unchanged.
pub proof fn lemma_step_empty_world(bounds: Vec4V, dt: int)
    ensures
        step_model(Seq::<BallV>::empty(), bounds, dt) == Seq::<BallV>::empty(),
{
    let e = Seq::<BallV>::empty();
    assert(clip_all(e, bounds) =~= e);
    assert(collide_all(e) == pass_upto(e, 0));
    assert(pass_upto(e, 0) == e);
    assert(verlet_all(e, dt) =~= e);
}

/// Law: the clipping phase contains a ball that fits between the
/// walls: afterwards its edge respects the bounds on all four sides.
pub proof fn lemma_clip_contains(b: BallV, bounds: Vec4V)
    requires
        bounds_wf(bounds),
        0 < b.radius,
        2 * b.radius <= bounds.y - bounds.x,
        2 * b.radius <= bounds.z - bounds.w,
    ensures
        bounds.x <= clip_model(b, bounds).location.x - b.radius,
        clip_model(b, bounds).location.x + b.radius <= bounds.y,
        bounds.w <= clip_model(b, bounds).location.y - b.radius,
        clip_model(b, bounds).location.y + b.radius <= bounds.z,
{
}

/// Law: the clipping phase of a step contains every ball of the world
/// at once, for any bounds rectangle that each ball fits in.
pub proof fn lemma_clip_all_contains(s: Seq<BallV>, bounds: Vec4V)
    requires
        bounds_wf(bounds),
        forall|k: int|
            0 <= k < s.len() ==> {
                let b = #[trigger] s[k];
                &&& 0 < b.radius
                &&& 2 * b.radius <= bounds.y - bounds.x
                &&& 2 * b.radius <= bounds.z - bounds.w
            },
    ensures
        clip_all(s, bounds).len() == s.len(),
        forall|k: int|
            0 <= k < s.len() ==> {
                let c = #[trigger] clip_all(s, bounds)[k];
                &&& bounds.x <= c.location.x - c.radius
                &&& c.location.x + c.radius <= bounds.y
                &&& bounds.w <= c.location.y - c.radius
                &&& c.location.y + c.radius <= bounds.z
            },
{
    assert forall|k: int| 0 <= k < s.len() implies {
        let c = #[trigger] clip_all(s, bounds)[k];
        &&& bounds.x <= c.location.x - c.radius
        &&& c.location.x + c.radius <= bounds.y
        &&& bounds.w <= c.location.y - c.radius
        &&& c.location.y + c.radius <= bounds.z
    } by {
        lemma_clip_contains(s[k], bounds);
    };
}

/// The `k`-th triangular number `1 + 2 + ... + k`.
pub open spec fn triangle(k: nat) -> int
    decreases k,
{
    if k == 0 {
        0
    } else {
        k + triangle((k - 1) as nat)
    }
}

/// The closed form of the triangular numbers.
pub proof fn lemma_triangle_closed(k: nat)
    ensures
        2 * triangle(k) == k * (k + 1),
    decreases k,
{
    if k == 0 {
    } else {
        lemma_triangle_closed((k - 1) as nat);
        assert(k * (k + 1) == (k - 1) * k + 2 * k) by (nonlinear_arith);
    }
}

/// Triangular numbers are nonnegative and nondecreasing.
pub proof fn lemma_triangle_monotone(k: nat)
    ensures
        0 <= triangle(k),
        k >= 1 ==> triangle((k - 1) as nat) <= triangle(k),
    decreases k,
{
    if k == 0 {
    } else {
        lemma_triangle_monotone((k - 1) as nat);
    }
}

/// The gravity drop is nonnegative for every timestep.
pub proof fn lemma_grav_step_nonneg(dt: int)
    ensures
        0 <= grav_step(dt),
{
    assert(0 <= 1000 * dt * dt) by (nonlinear_arith);
    lemma_div_pos_is_pos(1000 * dt * dt, SCALE as int);
}

/// Where a resting ball in free fall stands after `k` steps whose
/// gravity drop is `g`: the centre has fallen by `g * triangle(k)` and
/// the history lags one step behind.
pub open spec fn free_fall_state(b: BallV, g: int, k: nat) -> BallV {
    if k == 0 {
        b
    } else {
        BallV {
            location: Vec2V { x: b.location.x, y: b.location.y - g * triangle(k) },
            old_pos: Vec2V { x: b.location.x, y: b.location.y - g * triangle((k - 1) as nat) },
            radius: b.radius,
            colour: b.colour,
        }
    }
}

/// Law: a single ball dropped at rest, clear of the walls for the whole
/// fall and with nothing to collide with, follows the closed-form
/// Verlet trajectory: after `k` identical steps of size `dt` its centre
/// has dropped exactly `grav_step(dt) * triangle(k)`, which equals
/// `grav_step(dt) * k * (k + 1) / 2`, and its horizontal coordinate is
/// untouched.
pub proof fn lemma_free_fall(b: BallV, bounds: Vec4V, dt: int, k: nat)
    requires
        b.old_pos == b.location,
        0 < b.radius,
        bounds_wf(bounds),
        bounds.x <= b.location.x - b.radius,
        b.location.x + b.radius <= bounds.y,
        b.location.y + b.radius <= bounds.z,
        bounds.w <= b.location.y - b.radius - grav_step(dt) * triangle(k),
    ensures
        step_n_model(seq![b], bounds, dt, k) == seq![free_fall_state(b, grav_step(dt), k)],
    decreases k,
{
    let g = grav_step(dt);
    lemma_grav_step_nonneg(dt);
    lemma_triangle_monotone(k);
    if k == 0 {
        assert(step_n_model(seq![b], bounds, dt, 0) == seq![b]);
        assert(seq![free_fall_state(b, g, 0)] =~= seq![b]);
    } else {
        let prev: nat = (k - 1) as nat;
        lemma_triangle_monotone(prev);
        // the fall so far stays above the floor, since the drop grows with k
        assert(triangle(prev) <= triangle(k));
        assert(g * triangle(prev) <= g * triangle(k)) by (nonlinear_arith)
            requires 0 <= g, triangle(prev) <= triangle(k);
        assert(0 <= g * triangle(prev)) by (nonlinear_arith)
            requires 0 <= g, 0 <= triangle(prev);
        assert(bounds.w <= b.location.y - b.radius - g * triangle(prev));
        lemma_free_fall(b, bounds, dt, prev);
        let s = free_fall_state(b, g, prev);
        crate::physics::lemma_step_n_snoc(seq![b], bounds, dt, prev);
        assert(step_n_model(seq![b], bounds, dt, k) == step_model(seq![s], bounds, dt));

        // clipping leaves the ball alone: it is clear of all four walls
        assert(0 <= g * triangle(k)) by (nonlinear_arith)
            requires 0 <= g, 0 <= triangle(k);
        assert(clip_model(s, bounds) == s);
        assert(clip_all(seq![s], bounds) =~= seq![s]);

        // a lone ball collides with nothing
        assert(pass_upto(seq![s], 0) == seq![s]);
        assert(pass_upto(seq![s], 1) == inner_upto(pass_upto(seq![s], 0), 0, 1));
        assert(inner_upto(seq![s], 0, 1) == seq![s]);
        assert(collide_all(seq![s]) == seq![s]);

        // integration advances the closed form by one step
        let nxt = verlet_model(s, dt);
        assert(verlet_all(seq![s], dt) =~= seq![nxt]);
        if prev == 0 {
            assert(nxt.location.y == b.location.y - g);
            assert(triangle(1) == 1 + triangle(0));
            assert(g * triangle(1) == g) by (nonlinear_arith)
                requires triangle(1) == 1;
            assert(nxt =~= free_fall_state(b, g, k));
        } else {
            let pprev: nat = (prev - 1) as nat;
            assert(triangle(prev) == prev + triangle(pprev));
            assert(triangle(k) == k + triangle(prev));
            assert(g * triangle(k) == g * triangle(prev) + g * k && g * triangle(prev) == g
                * triangle(pprev) + g * prev) by (nonlinear_arith)
                requires
                    triangle(k) == k + triangle(prev),
                    triangle(prev) == prev + triangle(pprev);
            assert(nxt.location.y == s.location.y + (s.location.y - s.old_pos.y) - g);
            assert(nxt.location.y == b.location.y - g * triangle(k)) by {
                assert(s.location.y == b.location.y - g * triangle(prev));
                assert(s.old_pos.y == b.location.y - g * triangle(pprev));
                assert(s.location.y - s.old_pos.y == g * triangle(pprev) - g * triangle(prev));
                assert(g * triangle(pprev) - g * triangle(prev) == -(g * prev));
                assert(g * triangle(k) == g * triangle(prev) + g * k);
                assert(g * k == g * prev + g) by (nonlinear_arith)
                    requires k == prev + 1;
            };
            assert(nxt =~= free_fall_state(b, g, k));
        }
        assert(step_model(seq![s], bounds, dt) =~= seq![free_fall_state(b, g, k)]);
    }
}

/// Law, closed form: over `k` identical steps a resting,
/// collision-free ball falls by exactly
/// `grav_step(dt) * k * (k + 1) / 2`, and never drifts sideways.
pub proof fn lemma_free_fall_closed_form(b: BallV, bounds: Vec4V, dt: int, k: nat)
    requires
        b.old_pos == b.location,
        0 < b.radius,
        bounds_wf(bounds),
        bounds.x <= b.location.x - b.radius,
        b.location.x + b.radius <= bounds.y,
        b.location.y + b.radius <= bounds.z,
        bounds.w <= b.location.y - b.radius - grav_step(dt) * triangle(k),
    ensures
        2 * (b.location.y - step_n_model(seq![b], bounds, dt, k)[0].location.y) == grav_step(dt)
            * k * (k + 1),
        step_n_model(seq![b], bounds, dt, k)[0].location.x == b.location.x,
{
    lemma_free_fall(b, bounds, dt, k);
    lemma_triangle_closed(k);
    let g = grav_step(dt);
    assert(step_n_model(seq![b], bounds, dt, k)[0] == free_fall_state(b, g, k));
    if k == 0 {
    } else {
        assert(b.location.y - free_fall_state(b, g, k).location.y == g * triangle(k));
    }
    assert(2 * (g * triangle(k)) == g * (k * (k + 1))) by (nonlinear_arith)
        requires 2 * triangle(k) == k * (k + 1);
    assert(g * (k * (k + 1)) == g * k * (k + 1)) by (nonlinear_arith);
}

/// Law: sub-stepping a free fall obeys the same closed form with the
/// sub-divided timestep: `n` steps of size `dt / n` drop a resting,
/// collision-free ball by exactly `grav_step(dt / n) * triangle(n)`,
/// for every `n >= 1`.
pub proof fn lemma_substep_free_fall(b: BallV, bounds: Vec4V, dt: int, n: nat)
    requires
        1 <= n,
        b.old_pos == b.location,
        0 < b.radius,
        bounds_wf(bounds),
        bounds.x <= b.location.x - b.radius,
        b.location.x + b.radius <= bounds.y,
        b.location.y + b.radius <= bounds.z,
        bounds.w <= b.location.y - b.radius - grav_step(dt / n as int) * triangle(n),
    ensures
        step_n_model(seq![b], bounds, dt / n as int, n) == seq![
            free_fall_state(b, grav_step(dt / n as int), n),
        ],
{
    lemma_free_fall(b, bounds, dt / n as int, n);
}

/// The squared distance between two balls' centres.
pub open spec fn dist2_of(a: BallV, b: BallV) -> int {
    (a.location.x - b.location.x) * (a.location.x - b.location.x) + (a.location.y
        - b.location.y) * (a.location.y - b.location.y)
}

/// The sum of two balls' radii: the centre distance at which they touch.
pub open spec fn rsum_of(a: BallV, b: BallV) -> int {
    a.radius + b.radius
}

/// The side conditions under which the integer collision arithmetic is
/// exact for a pair: the squared centre distance is a perfect square,
/// the penetration splits evenly, and every division in the correction
/// divides exactly.
pub open spec fn exact_pair(a: BallV, b: BallV) -> bool {
    let dx = a.location.x - b.location.x;
    let dy = a.location.y - b.location.y;
    let d = sqrt_floor(dist2_of(a, b));
    let rsum = rsum_of(a, b);
    let half = (rsum - d) / 2;
    let corr_a = half * a.radius / rsum;
    let corr_b = half * b.radius / rsum;
    &&& d * d == dist2_of(a, b)
    &&& (rsum - d) % 2 == 0
    &&& (half * a.radius) % rsum == 0
    &&& (half * b.radius) % rsum == 0
    &&& (dx * corr_a) % d == 0
    &&& (dy * corr_a) % d == 0
    &&& (dx * corr_b) % d == 0
    &&& (dy * corr_b) % d == 0
}

/// When the divisor divides the product exactly, the sign-symmetric
/// scaling is exact: its result times the divisor gives the product back.
pub proof fn lemma_scaled_v_exact(n: int, m: int, d: int)
    requires
        0 < d,
        (n * m) % d == 0,
    ensures
        crate::physics::scaled_v(n, m, d) * d == n * m,
{
    lemma_fundamental_div_mod(n * m, d);
    let q = (n * m) / d;
    assert(n * m == d * q);
    if n >= 0 {
        assert(q * d == d * q) by (nonlinear_arith);
    } else {
        assert((-n) * m == -(n * m)) by (nonlinear_arith);
        assert(-(n * m) == d * (-q)) by (nonlinear_arith)
            requires n * m == d * q;
        lemma_div_multiples_vanish(-q, d);
        assert(((-n) * m) / d == -q);
        assert(crate::physics::scaled_v(n, m, d) == q);
        assert(q * d == d * q) by (nonlinear_arith);
    }
}

/// Law: one full step exactly separates two overlapping balls at rest.
///
/// Take any two resting balls whose centres differ, placed overlapping
/// (`0 < dist2 < (radius_a + radius_b)^2`), clear of the walls, and
/// satisfying the exactness side conditions.  After one step the
/// squared centre distance equals exactly `(radius_a + radius_b)^2`:
/// the squared shortfall from the touching distance, positive before
/// the step, strictly decreases to zero.
pub proof fn lemma_pair_separation(a: BallV, b: BallV, bounds: Vec4V, dt: int)
    requires
        a.old_pos == a.location,
        b.old_pos == b.location,
        0 < a.radius,
        0 < b.radius,
        0 < dist2_of(a, b),
        dist2_of(a, b) < rsum_of(a, b) * rsum_of(a, b),
        exact_pair(a, b),
        bounds_wf(bounds),
        bounds.x <= a.location.x - a.radius,
        a.location.x + a.radius <= bounds.y,
        bounds.w <= a.location.y - a.radius,
        a.location.y + a.radius <= bounds.z,
        bounds.x <= b.location.x - b.radius,
        b.location.x + b.radius <= bounds.y,
        bounds.w <= b.location.y - b.radius,
        b.location.y + b.radius <= bounds.z,
    ensures
        step_model(seq![a, b], bounds, dt).len() == 2,
        dist2_of(step_model(seq![a, b], bounds, dt)[0], step_model(seq![a, b], bounds, dt)[1])
            == rsum_of(a, b) * rsum_of(a, b),
{
    let s0 = seq![a, b];
    let dx = a.location.x - b.location.x;
    let dy = a.location.y - b.location.y;
    let d2 = dist2_of(a, b);
    let rsum = rsum_of(a, b);
    let d = sqrt_floor(d2);
    let pen = rsum - d;
    let half = pen / 2;
    let corr_a = half * a.radius / rsum;
    let corr_b = half * b.radius / rsum;

    // the root is positive and strictly below the touching distance
    crate::maths::lemma_sqrt_floor(d2);
    crate::maths::lemma_sqrt_floor_upper(d2, rsum);
    assert(1 <= d);
    assert(1 <= pen);
    lemma_fundamental_div_mod(pen, 2);
    assert(pen == 2 * half);

    // the clipping phase is the identity on both balls
    assert(clip_model(a, bounds) == a);
    assert(clip_model(b, bounds) == b);
    assert(clip_all(s0, bounds) =~= s0);

    // the collision pass resolves exactly the pair (0, 1)
    let rp = resolve_model(a, b);
    assert(pass_upto(s0, 0) == s0);
    assert(inner_upto(s0, 0, 1) == s0);
    assert(pass_upto(s0, 1) == inner_upto(s0, 0, 2));
    assert(inner_upto(s0, 0, 2) == resolve_pair_in(inner_upto(s0, 0, 1), 0, 1));
    assert(pass_upto(s0, 2) == inner_upto(pass_upto(s0, 1), 1, 2));
    assert(inner_upto(pass_upto(s0, 1), 1, 2) == pass_upto(s0, 1));
    assert(collide_all(s0) == resolve_pair_in(s0, 0, 1));
    let s2 = resolve_pair_in(s0, 0, 1);
    assert(s2.len() == 2);
    assert(s2[0] == rp.0);
    assert(s2[1] == rp.1);

    // the pair overlaps and the centres differ, so the push applies
    let sax = crate::physics::scaled_v(dx, corr_a, d);
    let say = crate::physics::scaled_v(dy, corr_a, d);
    let sbx = crate::physics::scaled_v(dx, corr_b, d);
    let sby = crate::physics::scaled_v(dy, corr_b, d);
    assert(rp.0.location.x == a.location.x + sax);
    assert(rp.0.location.y == a.location.y + say);
    assert(rp.1.location.x == b.location.x - sbx);
    assert(rp.1.location.y == b.location.y - sby);
    assert(rp.0.old_pos == a.old_pos && rp.0.radius == a.radius && rp.0.colour == a.colour);
    assert(rp.1.old_pos == b.old_pos && rp.1.radius == b.radius && rp.1.colour == b.colour);

    // integration doubles the push: the balls were at rest, so the
    // implicit velocity after the pass is exactly the push itself,
    // and gravity shifts both balls alike
    let g = grav_step(dt);
    let f = step_model(s0, bounds, dt);
    assert(f == verlet_all(s2, dt));
    assert(f.len() == 2);
    assert(f[0] == verlet_model(rp.0, dt));
    assert(f[1] == verlet_model(rp.1, dt));
    let dxf = f[0].location.x - f[1].location.x;
    let dyf = f[0].location.y - f[1].location.y;
    assert(f[0].location.x == a.location.x + 2 * sax);
    assert(f[0].location.y == a.location.y + 2 * say - g);
    assert(f[1].location.x == b.location.x - 2 * sbx);
    assert(f[1].location.y == b.location.y - 2 * sby - g);
    assert(dxf == dx + 2 * sax + 2 * sbx);
    assert(dyf == dy + 2 * say + 2 * sby);

    // the divisions were exact, so the push is the exact rational value
    lemma_scaled_v_exact(dx, corr_a, d);
    lemma_scaled_v_exact(dy, corr_a, d);
    lemma_scaled_v_exact(dx, corr_b, d);
    lemma_scaled_v_exact(dy, corr_b, d);
    assert(sax * d == dx * corr_a);
    assert(say * d == dy * corr_a);
    assert(sbx * d == dx * corr_b);
    assert(sby * d == dy * corr_b);

    // the two shares add up to exactly half the penetration
    lemma_fundamental_div_mod(half * a.radius, rsum);
    lemma_fundamental_div_mod(half * b.radius, rsum);
    assert(corr_a * rsum == half * a.radius) by (nonlinear_arith)
        requires
            half * a.radius == rsum * corr_a + (half * a.radius) % rsum,
            (half * a.radius) % rsum == 0;
    assert(corr_b * rsum == half * b.radius) by (nonlinear_arith)
        requires
            half * b.radius == rsum * corr_b + (half * b.radius) % rsum,
            (half * b.radius) % rsum == 0;
    assert((corr_a + corr_b) * rsum == half * rsum) by (nonlinear_arith)
        requires
            corr_a * rsum == half * a.radius,
            corr_b * rsum == half * b.radius,
            rsum == a.radius + b.radius;
    assert(corr_a + corr_b == half) by (nonlinear_arith)
        requires
            (corr_a + corr_b) * rsum == half * rsum,
            0 < rsum;

    // the new separation vector is the old one stretched by rsum / d
    assert(d * dxf == dx * rsum) by (nonlinear_arith)
        requires
            dxf == dx + 2 * sax + 2 * sbx,
            sax * d == dx * corr_a,
            sbx * d == dx * corr_b,
            corr_a + corr_b == half,
            rsum == d + 2 * half;
    assert(d * dyf == dy * rsum) by (nonlinear_arith)
        requires
            dyf == dy + 2 * say + 2 * sby,
            say * d == dy * corr_a,
            sby * d == dy * corr_b,
            corr_a + corr_b == half,
            rsum == d + 2 * half;

    // so its squared length is exactly the squared touching distance
    assert((d * dxf) * (d * dxf) == (dx * rsum) * (dx * rsum));
    assert((d * dyf) * (d * dyf) == (dy * rsum) * (dy * rsum));
    assert((d * dxf) * (d * dxf) == (d * d) * (dxf * dxf)) by (nonlinear_arith);
    assert((d * dyf) * (d * dyf) == (d * d) * (dyf * dyf)) by (nonlinear_arith);
    assert((dx * rsum) * (dx * rsum) == (dx * dx) * (rsum * rsum)) by (nonlinear_arith);
    assert((dy * rsum) * (dy * rsum) == (dy * dy) * (rsum * rsum)) by (nonlinear_arith);
    vstd::arithmetic::mul::lemma_mul_is_distributive_add(d * d, dxf * dxf, dyf * dyf);
    vstd::arithmetic::mul::lemma_mul_is_distributive_add_other_way(
        rsum * rsum,
        dx * dx,
        dy * dy,
    );
    assert((d * d) * (dxf * dxf + dyf * dyf) == (dx * dx + dy * dy) * (rsum * rsum));
    assert((dx * dx + dy * dy) * (rsum * rsum) == (d * d) * (rsum * rsum));
    assert(0 < d * d) by (nonlinear_arith)
        requires 0 < d;
    vstd::arithmetic::mul::lemma_mul_equality_converse(
        d * d,
        dxf * dxf + dyf * dyf,
        rsum * rsum,
    );
    assert(dist2_of(f[0], f[1]) == dxf * dxf + dyf * dyf);
}

} // verus!
