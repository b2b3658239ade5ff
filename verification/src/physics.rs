//! The physics world: a sequence of balls confined to a rectangle.
//!
//! One simulation step runs three phases over all balls, in order:
//! bounds clipping, a single pass of pairwise positional collision
//! resolution, and Verlet integration.  Each phase has a mathematical
//! model over unbounded integers, and the step's contract says that the
//! executable code computes exactly the composition of the three models.

use vstd::prelude::*;

use crate::ball::Ball;
use crate::ball::BallV;
use crate::ball::ball_wf;
use crate::ball::lemma_grav_step_bound;
use crate::ball::verlet_model;
use crate::ball::DT_LIMIT;
use crate::ball::OLD_POS_LIMIT;
use crate::ball::POS_LIMIT;
use crate::ball::RADIUS_LIMIT;
use crate::maths::isqrt;
use crate::maths::lemma_sqrt_floor;
use crate::maths::lemma_sqrt_floor_lower;
use crate::maths::lemma_sqrt_floor_upper;
use crate::maths::sqrt_floor;
use crate::maths::ConfigError;
use crate::maths::Vec4;
use crate::maths::Vec4V;
use vstd::arithmetic::div_mod::lemma_div_is_ordered;
use vstd::arithmetic::div_mod::lemma_div_multiples_vanish;
use vstd::arithmetic::div_mod::lemma_div_pos_is_pos;
use vstd::arithmetic::div_mod::lemma_fundamental_div_mod;
use vstd::arithmetic::div_mod::lemma_mod_division_less_than_divisor;

verus! {

/// Largest coordinate magnitude allowed for a bounds rectangle.
pub const BOUND_LIMIT: i64 = 100_000_000;

/// Largest number of balls a world may hold.
pub const BALL_LIMIT: usize = 256;

/// Largest coordinate magnitude a ball can have right after clipping:
/// a bound plus a radius.
pub const CLIPPED_LIMIT: i64 = 101_000_000;

/// Largest distance one collision pass moves a ball per resolved pair.
pub const PAIR_MOVE_LIMIT: i64 = 500_000;

/// Largest coordinate magnitude a ball can reach during the collision
/// pass: the clipped range plus one pair move for every other ball.
pub const PASS_LIMIT: i64 = 228_500_000;

/// An acceptable bounds rectangle: coordinates within the bound limit,
/// `left < right` and `bottom < top`.
pub open spec fn bounds_wf(v: Vec4V) -> bool {
    &&& -BOUND_LIMIT <= v.x < v.y <= BOUND_LIMIT
    &&& -BOUND_LIMIT <= v.w < v.z <= BOUND_LIMIT
}

/// Bounds clipping of a single ball, exactly as the step performs it:
/// each of the four wall tests reads the incoming location, and on each
/// axis the second test wins when both fire.
pub open spec fn clip_model(b: BallV, bounds: Vec4V) -> BallV {
    let r = b.radius;
    let x = b.location.x;
    let y = b.location.y;
    let cx = if x + r > bounds.y {
        bounds.y - r
    } else if x - r < bounds.x {
        bounds.x + r
    } else {
        x
    };
    let cy = if y - r < bounds.w {
        bounds.w + r
    } else if y + r > bounds.z {
        bounds.z - r
    } else {
        y
    };
    BallV {
        location: crate::maths::Vec2V { x: cx, y: cy },
        old_pos: b.old_pos,
        radius: b.radius,
        colour: b.colour,
    }
}

/// A clipped ball lies within a bound plus its own radius on every side.
pub proof fn lemma_clip_in_range(b: BallV, bounds: Vec4V)
    requires
        bounds_wf(bounds),
        0 < b.radius <= RADIUS_LIMIT,
    ensures
        -CLIPPED_LIMIT <= clip_model(b, bounds).location.x <= CLIPPED_LIMIT,
        -CLIPPED_LIMIT <= clip_model(b, bounds).location.y <= CLIPPED_LIMIT,
{
}

/// Clips one ball to the bounds rectangle in place.
pub fn clip_to_bounds(b: &mut Ball, bounds: Vec4)
    requires
        -POS_LIMIT <= old(b).location.x <= POS_LIMIT,
        -POS_LIMIT <= old(b).location.y <= POS_LIMIT,
        0 < old(b).radius <= RADIUS_LIMIT,
        bounds_wf(bounds@),
    ensures
        final(b)@ == clip_model(old(b)@, bounds@),
{
    let r = b.radius;
    let l = b.location;
    if l.x - r < bounds.x {
        b.location.x = bounds.x + r;
    }
    if l.x + r > bounds.y {
        b.location.x = bounds.y - r;
    }
    if l.y + r > bounds.z {
        b.location.y = bounds.z - r;
    }
    if l.y - r < bounds.w {
        b.location.y = bounds.w + r;
    }
}

/// `n` scaled by the ratio `m / d`, rounding the magnitude down and
/// keeping the sign of `n`.
pub open spec fn scaled_v(n: int, m: int, d: int) -> int {
    if n >= 0 {
        n * m / d
    } else {
        -((-n) * m / d)
    }
}

/// Helper facts about `scaled_v`: the result keeps the sign of `n` and
/// its magnitude stays within `m` whenever `|n| <= d`.
pub proof fn lemma_scaled_v_bound(n: int, m: int, d: int)
    requires
        0 <= m,
        0 < d,
        -d <= n <= d,
    ensures
        -m <= scaled_v(n, m, d) <= m,
{
    if n >= 0 {
        assert(n * m <= d * m && 0 <= n * m) by (nonlinear_arith)
            requires 0 <= n <= d, 0 <= m;
        lemma_div_is_ordered(n * m, d * m, d);
        lemma_div_multiples_vanish(m, d);
        lemma_div_pos_is_pos(n * m, d);
        assert(d * m == m * d) by (nonlinear_arith);
    } else {
        assert((-n) * m <= d * m && 0 <= (-n) * m) by (nonlinear_arith)
            requires 0 < -n <= d, 0 <= m;
        lemma_div_is_ordered((-n) * m, d * m, d);
        lemma_div_multiples_vanish(m, d);
        lemma_div_pos_is_pos((-n) * m, d);
        assert(d * m == m * d) by (nonlinear_arith);
    }
}

/// Exec counterpart of `scaled_v`.
fn scaled(n: i64, m: i64, d: i64) -> (r: i64)
    requires
        0 <= m <= 1_000_000,
        0 < d,
        -2_100_000_000 <= n <= 2_100_000_000,
    ensures
        r == scaled_v(n as int, m as int, d as int),
        (-d <= n <= d) ==> -m <= r <= m,
{
    proof {
        if -d <= n <= d {
            lemma_scaled_v_bound(n as int, m as int, d as int);
        }
        if n >= 0 {
            assert(0 <= n as int * m as int <= 2_100_000_000_000_000int) by (nonlinear_arith)
                requires 0 <= n as int <= 2_100_000_000, 0 <= m as int <= 1_000_000;
            lemma_div_pos_is_pos(n as int * m as int, d as int);
            vstd::arithmetic::div_mod::lemma_div_nonincreasing(n as int * m as int, d as int);
        } else {
            assert(0 <= (-n) as int * m as int <= 2_100_000_000_000_000int) by (nonlinear_arith)
                requires 0 < (-n) as int <= 2_100_000_000, 0 <= m as int <= 1_000_000;
            lemma_div_pos_is_pos((-n) as int * m as int, d as int);
            vstd::arithmetic::div_mod::lemma_div_nonincreasing((-n) as int * m as int, d as int);
        }
    }
    if n >= 0 {
        (n * m) / d
    } else {
        -(((-n) * m) / d)
    }
}

/// One pairwise collision resolution, exactly as the step performs it.
///
/// Non-overlapping pairs are untouched.  An overlapping pair is pushed
/// apart along the axis between the centres (or, for exactly coincident
/// centres, along the relative velocity; if that is zero too, the pair
/// is left alone).  Half the penetration depth is distributed with each
/// ball receiving the share `radius / (radius_a + radius_b)` of the
/// correction, so the larger ball moves farther.
pub open spec fn resolve_model(a: BallV, b: BallV) -> (BallV, BallV) {
    let dx = a.location.x - b.location.x;
    let dy = a.location.y - b.location.y;
    let d2 = dx * dx + dy * dy;
    let rsum = a.radius + b.radius;
    if d2 >= rsum * rsum {
        (a, b)
    } else {
        let ux = if d2 == 0 {
            (a.location.x - a.old_pos.x) - (b.location.x - b.old_pos.x)
        } else {
            dx
        };
        let uy = if d2 == 0 {
            (a.location.y - a.old_pos.y) - (b.location.y - b.old_pos.y)
        } else {
            dy
        };
        let m = if d2 == 0 {
            sqrt_floor(ux * ux + uy * uy)
        } else {
            sqrt_floor(d2)
        };
        if m == 0 {
            (a, b)
        } else {
            let pen = rsum - (if d2 == 0 { 0int } else { m });
            let half = pen / 2;
            let corr_a = half * a.radius / rsum;
            let corr_b = half * b.radius / rsum;
            (
                BallV {
                    location: crate::maths::Vec2V {
                        x: a.location.x + scaled_v(ux, corr_a, m),
                        y: a.location.y + scaled_v(uy, corr_a, m),
                    },
                    old_pos: a.old_pos,
                    radius: a.radius,
                    colour: a.colour,
                },
                BallV {
                    location: crate::maths::Vec2V {
                        x: b.location.x - scaled_v(ux, corr_b, m),
                        y: b.location.y - scaled_v(uy, corr_b, m),
                    },
                    old_pos: b.old_pos,
                    radius: b.radius,
                    colour: b.colour,
                },
            )
        }
    }
}

/// The correction share of one ball never exceeds half its radius:
/// `corr = (half * r) / rsum` with `2 * half <= pen <= rsum` gives
/// `2 * corr <= r`.
proof fn lemma_corr_bound(half: int, r: int, rsum: int, pen: int)
    requires
        0 < r,
        r <= rsum,
        0 < rsum,
        0 <= pen <= rsum,
        half == pen / 2,
    ensures
        0 <= half * r / rsum,
        2 * (half * r / rsum) <= r,
{
    let corr = half * r / rsum;
    lemma_div_pos_is_pos(pen, 2);
    lemma_mod_division_less_than_divisor(pen, 2);
    lemma_fundamental_div_mod(pen, 2);
    assert(2 * half <= pen);
    lemma_div_pos_is_pos(half * r, rsum);
    assert(0 <= half * r) by (nonlinear_arith)
        requires 0 <= half, 0 < r;
    lemma_fundamental_div_mod(half * r, rsum);
    lemma_mod_division_less_than_divisor(half * r, rsum);
    assert(rsum * corr <= half * r);
    assert(2 * (rsum * corr) <= 2 * (half * r));
    assert(2 * (half * r) == (2 * half) * r) by (nonlinear_arith);
    assert((2 * half) * r <= rsum * r) by (nonlinear_arith)
        requires 2 * half <= rsum, 0 < r;
    assert(2 * corr <= r) by (nonlinear_arith)
        requires 2 * (rsum * corr) <= rsum * r, 0 < rsum;
}

/// Resolves one collision between `a` and `b` in place.
pub fn resolve_collisions(a: &mut Ball, b: &mut Ball)
    requires
        -PASS_LIMIT <= old(a).location.x <= PASS_LIMIT,
        -PASS_LIMIT <= old(a).location.y <= PASS_LIMIT,
        -PASS_LIMIT <= old(b).location.x <= PASS_LIMIT,
        -PASS_LIMIT <= old(b).location.y <= PASS_LIMIT,
        -OLD_POS_LIMIT <= old(a).old_pos.x <= OLD_POS_LIMIT,
        -OLD_POS_LIMIT <= old(a).old_pos.y <= OLD_POS_LIMIT,
        -OLD_POS_LIMIT <= old(b).old_pos.x <= OLD_POS_LIMIT,
        -OLD_POS_LIMIT <= old(b).old_pos.y <= OLD_POS_LIMIT,
        0 < old(a).radius <= RADIUS_LIMIT,
        0 < old(b).radius <= RADIUS_LIMIT,
    ensures
        final(a)@ == resolve_model(old(a)@, old(b)@).0,
        final(b)@ == resolve_model(old(a)@, old(b)@).1,
        final(a)@.old_pos == old(a)@.old_pos,
        final(b)@.old_pos == old(b)@.old_pos,
        final(a)@.radius == old(a)@.radius,
        final(b)@.radius == old(b)@.radius,
        final(a)@.colour == old(a)@.colour,
        final(b)@.colour == old(b)@.colour,
        old(a)@.location.x - PAIR_MOVE_LIMIT <= final(a)@.location.x <= old(a)@.location.x
            + PAIR_MOVE_LIMIT,
        old(a)@.location.y - PAIR_MOVE_LIMIT <= final(a)@.location.y <= old(a)@.location.y
            + PAIR_MOVE_LIMIT,
        old(b)@.location.x - PAIR_MOVE_LIMIT <= final(b)@.location.x <= old(b)@.location.x
            + PAIR_MOVE_LIMIT,
        old(b)@.location.y - PAIR_MOVE_LIMIT <= final(b)@.location.y <= old(b)@.location.y
            + PAIR_MOVE_LIMIT,
{
    let sum_radius = a.radius + b.radius;
    let dx = a.location.x - b.location.x;
    let dy = a.location.y - b.location.y;
    proof {
        assert(dx * dx <= 457_000_000int * 457_000_000 && dy * dy <= 457_000_000int
            * 457_000_000 && 0 <= dx * dx && 0 <= dy * dy) by (nonlinear_arith)
            requires -457_000_000 <= dx as int <= 457_000_000, -457_000_000 <= dy as int <= 457_000_000;
    }
    let dist2 = dx * dx + dy * dy;
    proof {
        assert(0 <= sum_radius as int * sum_radius <= 4_000_000_000_000int) by (nonlinear_arith)
            requires 0 < sum_radius as int <= 2_000_000;
    }
    if dist2 >= sum_radius * sum_radius {
        return ;
    }
    let mut ux = dx;
    let mut uy = dy;
    if dist2 == 0 {
        let va = a.velocity();
        let vb = b.velocity();
        ux = va.x - vb.x;
        uy = va.y - vb.y;
    }
    proof {
        assert(ux * ux <= 1_657_000_000int * 1_657_000_000 && uy * uy <= 1_657_000_000int
            * 1_657_000_000 && 0 <= ux * ux && 0 <= uy * uy) by (nonlinear_arith)
            requires -1_657_000_000 <= ux as int <= 1_657_000_000, -1_657_000_000 <= uy as int
                <= 1_657_000_000;
    }
    let m = if dist2 == 0 {
        isqrt(ux * ux + uy * uy)
    } else {
        isqrt(dist2)
    };
    if m == 0 {
        proof {
            lemma_sqrt_floor(dist2 as int);
            if dist2 != 0 {
                lemma_sqrt_floor_lower(1, dist2 as int);
            }
        }
        return ;
    }
    proof {
        if dist2 != 0 {
            lemma_sqrt_floor_upper(dist2 as int, sum_radius as int);
        }
    }
    let pen = if dist2 == 0 {
        sum_radius
    } else {
        sum_radius - m
    };
    let half = pen / 2;
    proof {
        lemma_div_pos_is_pos(pen as int, 2);
        lemma_div_is_ordered(pen as int, 2_000_000int, 2);
        assert(0 <= half * a.radius && half * a.radius <= 1_000_000_000_000int && 0 <= half
            * b.radius && half * b.radius <= 1_000_000_000_000int) by (nonlinear_arith)
            requires 0 <= half as int <= 1_000_000, 0 < a.radius as int <= 1_000_000, 0
                < b.radius as int <= 1_000_000;
        lemma_corr_bound(half as int, a.radius as int, sum_radius as int, pen as int);
        lemma_corr_bound(half as int, b.radius as int, sum_radius as int, pen as int);
        lemma_div_is_ordered(half as int * a.radius, 1_000_000_000_000int, sum_radius as int);
        lemma_div_is_ordered(half as int * b.radius, 1_000_000_000_000int, sum_radius as int);
        lemma_div_is_ordered(0, half as int * a.radius, sum_radius as int);
        lemma_div_is_ordered(0, half as int * b.radius, sum_radius as int);
        // |ux| and |uy| never exceed the magnitude m they are divided by
        if dist2 == 0 {
            if ux >= 0 {
                lemma_sqrt_floor_lower(ux as int, ux as int * ux + uy as int * uy);
            } else {
                assert((-ux) as int * (-ux) == ux as int * ux) by (nonlinear_arith);
                lemma_sqrt_floor_lower(-ux as int, ux as int * ux + uy as int * uy);
            }
            if uy >= 0 {
                lemma_sqrt_floor_lower(uy as int, ux as int * ux + uy as int * uy);
            } else {
                assert((-uy) as int * (-uy) == uy as int * uy) by (nonlinear_arith);
                lemma_sqrt_floor_lower(-uy as int, ux as int * ux + uy as int * uy);
            }
        } else {
            if ux >= 0 {
                lemma_sqrt_floor_lower(ux as int, dist2 as int);
            } else {
                assert((-ux) as int * (-ux) == ux as int * ux) by (nonlinear_arith);
                lemma_sqrt_floor_lower(-ux as int, dist2 as int);
            }
            if uy >= 0 {
                lemma_sqrt_floor_lower(uy as int, dist2 as int);
            } else {
                assert((-uy) as int * (-uy) == uy as int * uy) by (nonlinear_arith);
                lemma_sqrt_floor_lower(-uy as int, dist2 as int);
            }
        }
    }
    let corr_a = half * a.radius / sum_radius;
    let corr_b = half * b.radius / sum_radius;
    let off_ax = scaled(ux, corr_a, m);
    let off_ay = scaled(uy, corr_a, m);
    let off_bx = scaled(ux, corr_b, m);
    let off_by = scaled(uy, corr_b, m);
    a.location.x = a.location.x + off_ax;
    a.location.y = a.location.y + off_ay;
    b.location.x = b.location.x - off_bx;
    b.location.y = b.location.y - off_by;
}

/// The mathematical images of a sequence of balls.
pub open spec fn views_of(s: Seq<Ball>) -> Seq<BallV> {
    s.map_values(|x: Ball| x@)
}

/// Bounds clipping applied to every ball independently.
pub open spec fn clip_all(s: Seq<BallV>, bounds: Vec4V) -> Seq<BallV> {
    Seq::new(s.len(), |k: int| clip_model(s[k], bounds))
}

/// The sequence after resolving the single pair `(i, j)`.
pub open spec fn resolve_pair_in(s: Seq<BallV>, i: int, j: int) -> Seq<BallV> {
    let r = resolve_model(s[i], s[j]);
    s.update(i, r.0).update(j, r.1)
}

/// The sequence after ball `i` has been resolved against balls
/// `i + 1, ..., j - 1`, in that order.
pub open spec fn inner_upto(s: Seq<BallV>, i: nat, j: nat) -> Seq<BallV>
    decreases j,
{
    if j <= i + 1 {
        s
    } else {
        resolve_pair_in(inner_upto(s, i, (j - 1) as nat), i as int, j - 1)
    }
}

/// The sequence after the full inner rounds of outer indices
/// `0, ..., i - 1` have run.
pub open spec fn pass_upto(s: Seq<BallV>, i: nat) -> Seq<BallV>
    decreases i,
{
    if i == 0 {
        s
    } else {
        let prev = pass_upto(s, (i - 1) as nat);
        inner_upto(prev, (i - 1) as nat, prev.len())
    }
}

/// One full collision pass: every unordered pair exactly once, over the
/// current, possibly mid-resolution positions.
pub open spec fn collide_all(s: Seq<BallV>) -> Seq<BallV> {
    pass_upto(s, s.len())
}

/// Verlet integration applied to every ball independently.
pub open spec fn verlet_all(s: Seq<BallV>, dt: int) -> Seq<BallV> {
    Seq::new(s.len(), |k: int| verlet_model(s[k], dt))
}

/// One full simulation step: clip, then collide, then integrate.
pub open spec fn step_model(s: Seq<BallV>, bounds: Vec4V, dt: int) -> Seq<BallV> {
    verlet_all(collide_all(clip_all(s, bounds)), dt)
}

/// `n` consecutive steps of the same size.
pub open spec fn step_n_model(s: Seq<BallV>, bounds: Vec4V, dt: int, n: nat) -> Seq<BallV>
    decreases n,
{
    if n == 0 {
        s
    } else {
        step_n_model(step_model(s, bounds, dt), bounds, dt, (n - 1) as nat)
    }
}

/// Resolving pairs never changes how many balls there are.
pub proof fn lemma_inner_upto_len(s: Seq<BallV>, i: nat, j: nat)
    requires
        i < s.len(),
        j <= s.len(),
    ensures
        inner_upto(s, i, j).len() == s.len(),
    decreases j,
{
    if j <= i + 1 {
    } else {
        lemma_inner_upto_len(s, i, (j - 1) as nat);
        let t = inner_upto(s, i, (j - 1) as nat);
        assert(inner_upto(s, i, j) == resolve_pair_in(t, i as int, j - 1));
        let r = resolve_model(t[i as int], t[j - 1]);
        assert(t.update(i as int, r.0).update(j - 1, r.1).len() == t.len());
    }
}

/// A collision pass never changes how many balls there are.
pub proof fn lemma_pass_upto_len(s: Seq<BallV>, i: nat)
    requires
        i <= s.len(),
    ensures
        pass_upto(s, i).len() == s.len(),
    decreases i,
{
    if i == 0 {
    } else {
        let prev = pass_upto(s, (i - 1) as nat);
        lemma_pass_upto_len(s, (i - 1) as nat);
        lemma_inner_upto_len(prev, (i - 1) as nat, prev.len());
    }
}

/// Running one more step equals stepping the result of the previous runs.
pub proof fn lemma_step_n_snoc(s: Seq<BallV>, bounds: Vec4V, dt: int, n: nat)
    ensures
        step_n_model(s, bounds, dt, (n + 1) as nat) == step_model(
            step_n_model(s, bounds, dt, n),
            bounds,
            dt,
        ),
    decreases n,
{
    assert(step_n_model(s, bounds, dt, (n + 1) as nat) == step_n_model(
        step_model(s, bounds, dt),
        bounds,
        dt,
        n,
    ));
    if n == 0 {
        assert(step_n_model(step_model(s, bounds, dt), bounds, dt, 0) == step_model(
            s,
            bounds,
            dt,
        ));
    } else {
        lemma_step_n_snoc(step_model(s, bounds, dt), bounds, dt, (n - 1) as nat);
    }
}

/// How many already-resolved pairs of this pass involve ball `k`, at
/// the point where the outer index is `i` and the inner index is `j`.
pub open spec fn pairs_done(len: int, i: int, j: int, k: int) -> int {
    if k < i {
        len - 1
    } else if k == i {
        j - 1
    } else if k < j {
        i + 1
    } else {
        i
    }
}

/// The per-ball facts that hold when a collision pass starts: positions
/// freshly clipped, histories and radii within the world's limits.
pub open spec fn pass_pre(s: Seq<BallV>) -> bool {
    forall|k: int|
        0 <= k < s.len() ==> {
            let b = #[trigger] s[k];
            &&& -CLIPPED_LIMIT <= b.location.x <= CLIPPED_LIMIT
            &&& -CLIPPED_LIMIT <= b.location.y <= CLIPPED_LIMIT
            &&& -OLD_POS_LIMIT <= b.old_pos.x <= OLD_POS_LIMIT
            &&& -OLD_POS_LIMIT <= b.old_pos.y <= OLD_POS_LIMIT
            &&& 0 < b.radius <= RADIUS_LIMIT
        }
}

/// The per-ball facts that hold mid-pass: everything but the location
/// is untouched, and the location has drifted from its clipped value by
/// at most one pair move per resolved pair.
pub open spec fn pass_state(cur: Seq<BallV>, s1: Seq<BallV>, i: int, j: int) -> bool {
    &&& cur.len() == s1.len()
    &&& forall|k: int|
        0 <= k < cur.len() ==> {
            let b = #[trigger] cur[k];
            &&& b.old_pos == s1[k].old_pos
            &&& b.radius == s1[k].radius
            &&& b.colour == s1[k].colour
            &&& -(CLIPPED_LIMIT + pairs_done(cur.len() as int, i, j, k) * PAIR_MOVE_LIMIT)
                <= b.location.x <= CLIPPED_LIMIT + pairs_done(cur.len() as int, i, j, k)
                * PAIR_MOVE_LIMIT
            &&& -(CLIPPED_LIMIT + pairs_done(cur.len() as int, i, j, k) * PAIR_MOVE_LIMIT)
                <= b.location.y <= CLIPPED_LIMIT + pairs_done(cur.len() as int, i, j, k)
                * PAIR_MOVE_LIMIT
        }
}

/// The world model: the balls in insertion order, and the bounds.
pub struct WorldV {
    pub balls: Seq<BallV>,
    pub bounds: Vec4V,
}

/// The physics world: exclusively owns its balls; render snapshots copy
/// out of it.
pub struct Physics {
    balls: Vec<Ball>,
    bounds: Vec4,
}

impl View for Physics {
    type V = WorldV;

    closed spec fn view(&self) -> WorldV {
        WorldV { balls: views_of(self.balls@), bounds: self.bounds@ }
    }
}

/// A world the simulation accepts: acceptable bounds, not too many
/// balls, and each ball well-formed.
pub open spec fn world_wf(w: WorldV) -> bool {
    &&& bounds_wf(w.bounds)
    &&& w.balls.len() <= BALL_LIMIT
    &&& forall|k: int| 0 <= k < w.balls.len() ==> ball_wf(#[trigger] w.balls[k])
}

impl Physics {
    pub open spec fn wf(self) -> bool {
        world_wf(self@)
    }

    /// A new world with the given bounds and no balls.
    pub fn new(bounds: Vec4) -> (w: Physics)
        requires
            bounds_wf(bounds@),
        ensures
            w@.balls == Seq::<BallV>::empty(),
            w@.bounds == bounds@,
            w.wf(),
    {
        let w = Physics { balls: Vec::with_capacity(100), bounds };
        proof {
            assert(w@.balls =~= Seq::<BallV>::empty());
        }
        w
    }

    /// `new`, but rejecting malformed bounds with a descriptive error.
    pub fn checked_new(bounds: Vec4) -> (res: Result<Physics, ConfigError>)
        ensures
            res is Ok <==> bounds_wf(bounds@),
            res matches Ok(w) ==> {
                &&& w@.balls == Seq::<BallV>::empty()
                &&& w@.bounds == bounds@
                &&& w.wf()
            },
            (!(bounds@.x < bounds@.y) || !(bounds@.w < bounds@.z)) ==> res == Err::<
                Physics,
                ConfigError,
            >(ConfigError::DegenerateBounds),
            ((bounds@.x < bounds@.y && bounds@.w < bounds@.z) && !bounds_wf(bounds@)) ==> res
                == Err::<Physics, ConfigError>(ConfigError::BoundsTooLarge),
    {
        if bounds.x >= bounds.y || bounds.w >= bounds.z {
            Err(ConfigError::DegenerateBounds)
        } else if bounds.x < -BOUND_LIMIT || bounds.y > BOUND_LIMIT || bounds.w < -BOUND_LIMIT
            || bounds.z > BOUND_LIMIT {
            Err(ConfigError::BoundsTooLarge)
        } else {
            Ok(Physics::new(bounds))
        }
    }

    /// Appends a ball at the end of the sequence.
    pub fn add(&mut self, b: Ball)
        requires
            old(self).wf(),
            ball_wf(b@),
            old(self)@.balls.len() < BALL_LIMIT,
        ensures
            final(self)@.balls == old(self)@.balls.push(b@),
            final(self)@.bounds == old(self)@.bounds,
            final(self).wf(),
    {
        self.balls.push(b);
        proof {
            assert(self@.balls =~= old(self)@.balls.push(b@));
        }
    }

    /// How many balls the world holds.
    pub fn count(&self) -> (n: usize)
        ensures
            n == self@.balls.len(),
    {
        self.balls.len()
    }

    /// A copy of the ball at index `i`, in insertion order.
    pub fn get(&self, i: usize) -> (b: Ball)
        requires
            i < self@.balls.len(),
        ensures
            b@ == self@.balls[i as int],
    {
        self.balls[i]
    }

    /// The current bounds rectangle.
    pub fn get_bounds(&self) -> (b: Vec4)
        ensures
            b@ == self@.bounds,
    {
        self.bounds
    }

    /// Replaces the bounds instantly; the next step clips to them.
    pub fn set_bounds(&mut self, bounds: Vec4)
        requires
            old(self).wf(),
            bounds_wf(bounds@),
        ensures
            final(self)@.balls == old(self)@.balls,
            final(self)@.bounds == bounds@,
            final(self).wf(),
    {
        self.bounds = bounds;
    }

    /// One simulation step of size `dt`: clips every ball to the
    /// bounds, resolves every unordered pair of overlapping balls once,
    /// then advances every ball by Verlet integration.
    pub fn apply_phsyics(&mut self, dt: i64)
        requires
            old(self).wf(),
            0 <= dt <= DT_LIMIT,
        ensures
            final(self).wf(),
            final(self)@.bounds == old(self)@.bounds,
            final(self)@.balls == step_model(old(self)@.balls, old(self)@.bounds, dt as int),
            final(self)@.balls.len() == old(self)@.balls.len(),
            forall|k: int|
                0 <= k < old(self)@.balls.len() ==> #[trigger] final(self)@.balls[k].radius
                    == old(self)@.balls[k].radius && final(self)@.balls[k].colour == old(
                    self,
                )@.balls[k].colour,
    {
        let ghost orig: Seq<BallV> = self@.balls;
        let bounds = self.bounds;
        let len = self.balls.len();

        let mut i: usize = 0;
        while i < len
            invariant
                i <= len,
                len == self.balls.len(),
                orig.len() == len as int,
                len <= BALL_LIMIT,
                bounds_wf(bounds@),
                self.bounds == bounds,
                0 <= dt <= DT_LIMIT,
                forall|k: int| 0 <= k < len ==> ball_wf(#[trigger] orig[k]),
                forall|k: int| i <= k < len ==> #[trigger] self.balls@[k]@ == orig[k],
                forall|k: int|
                    0 <= k < i ==> #[trigger] self.balls@[k]@ == clip_model(orig[k], bounds@),
            decreases len - i,
        {
            let mut cb = self.balls[i];
            proof {
                assert(self.balls@[i as int]@ == orig[i as int]);
                assert(ball_wf(orig[i as int]));
            }
            clip_to_bounds(&mut cb, bounds);
            self.balls[i] = cb;
            i = i + 1;
        }

        let ghost s1: Seq<BallV> = views_of(self.balls@);
        proof {
            assert(s1 =~= clip_all(orig, bounds@));
            assert forall|k: int| 0 <= k < s1.len() implies {
                let b = #[trigger] s1[k];
                &&& -CLIPPED_LIMIT <= b.location.x <= CLIPPED_LIMIT
                &&& -CLIPPED_LIMIT <= b.location.y <= CLIPPED_LIMIT
                &&& -OLD_POS_LIMIT <= b.old_pos.x <= OLD_POS_LIMIT
                &&& -OLD_POS_LIMIT <= b.old_pos.y <= OLD_POS_LIMIT
                &&& 0 < b.radius <= RADIUS_LIMIT
            } by {
                lemma_clip_in_range(orig[k], bounds@);
            };
            assert(pass_pre(s1));
        }

        let mut i: usize = 0;
        while i < len
            invariant
                i <= len,
                len == self.balls.len(),
                s1.len() == len as int,
                len <= BALL_LIMIT,
                bounds_wf(bounds@),
                self.bounds == bounds,
                0 <= dt <= DT_LIMIT,
                pass_pre(s1),
                views_of(self.balls@) == pass_upto(s1, i as nat),
                pass_state(views_of(self.balls@), s1, i as int, i + 1),
            decreases len - i,
        {
            let mut j: usize = i + 1;
            while j < len
                invariant
                    i < len,
                    i + 1 <= j <= len,
                    len == self.balls.len(),
                    s1.len() == len as int,
                    len <= BALL_LIMIT,
                    bounds_wf(bounds@),
                    self.bounds == bounds,
                    pass_pre(s1),
                    views_of(self.balls@) == inner_upto(pass_upto(s1, i as nat), i as nat, j as nat),
                    pass_state(views_of(self.balls@), s1, i as int, j as int),
                decreases len - j,
            {
                let ghost cur = views_of(self.balls@);
                let mut av = self.balls[i];
                let mut bv = self.balls[j];
                proof {
                    assert(cur[i as int] == av@);
                    assert(cur[j as int] == bv@);
                    assert(pairs_done(len as int, i as int, j as int, i as int) <= len - 1);
                    assert(pairs_done(len as int, i as int, j as int, j as int) <= len - 1);
                    assert(CLIPPED_LIMIT + (len - 1) * PAIR_MOVE_LIMIT <= PASS_LIMIT);
                }
                resolve_collisions(&mut av, &mut bv);
                self.balls[i] = av;
                self.balls[j] = bv;
                proof {
                    assert(views_of(self.balls@) =~= resolve_pair_in(cur, i as int, j as int));
                    assert(inner_upto(pass_upto(s1, i as nat), i as nat, (j + 1) as nat)
                        == resolve_pair_in(cur, i as int, j as int));
                }
                j = j + 1;
            }
            proof {
                lemma_pass_upto_len(s1, i as nat);
                assert(pass_upto(s1, (i + 1) as nat) == inner_upto(
                    pass_upto(s1, i as nat),
                    i as nat,
                    len as nat,
                ));
            }
            i = i + 1;
        }

        let ghost s2: Seq<BallV> = views_of(self.balls@);
        proof {
            assert(s2 == pass_upto(s1, len as nat));
            assert(s2 == collide_all(s1));
            assert(pass_state(s2, s1, len as int, len + 1));
        }

        let mut i: usize = 0;
        while i < len
            invariant
                i <= len,
                len == self.balls.len(),
                s2.len() == len as int,
                len <= BALL_LIMIT,
                bounds_wf(bounds@),
                self.bounds == bounds,
                0 <= dt <= DT_LIMIT,
                pass_state(s2, s1, len as int, len + 1),
                s1.len() == len as int,
                pass_pre(s1),
                forall|k: int| i <= k < len ==> #[trigger] self.balls@[k]@ == s2[k],
                forall|k: int|
                    0 <= k < i ==> #[trigger] self.balls@[k]@ == verlet_model(s2[k], dt as int)
                        && ball_wf(self.balls@[k]@),
            decreases len - i,
        {
            let mut vb = self.balls[i];
            proof {
                assert(vb@ == s2[i as int]);
                assert(pairs_done(len as int, len as int, len + 1, i as int) == len - 1);
                assert((len - 1) * PAIR_MOVE_LIMIT <= 255 * PAIR_MOVE_LIMIT);
                lemma_grav_step_bound(dt as int);
            }
            vb.verlet(dt);
            self.balls[i] = vb;
            i = i + 1;
        }

        proof {
            assert(views_of(self.balls@) =~= verlet_all(s2, dt as int));
            assert(views_of(self.balls@) == step_model(orig, bounds@, dt as int));
        }
    }

    /// `sub` consecutive steps of size `dt / sub`: the sub-stepped form
    /// the host drives once per rendered frame.
    pub fn apply_phsyics_sub(&mut self, dt: i64, sub: u8)
        requires
            old(self).wf(),
            0 <= dt <= DT_LIMIT,
            1 <= sub,
        ensures
            final(self).wf(),
            final(self)@.bounds == old(self)@.bounds,
            final(self)@.balls == step_n_model(
                old(self)@.balls,
                old(self)@.bounds,
                dt as int / sub as int,
                sub as nat,
            ),
            final(self)@.balls.len() == old(self)@.balls.len(),
            forall|k: int|
                0 <= k < old(self)@.balls.len() ==> #[trigger] final(self)@.balls[k].radius
                    == old(self)@.balls[k].radius && final(self)@.balls[k].colour == old(
                    self,
                )@.balls[k].colour,
    {
        let ghost orig: Seq<BallV> = self@.balls;
        let ghost b0: Vec4V = self@.bounds;
        let d = dt / (sub as i64);
        proof {
            lemma_div_pos_is_pos(dt as int, sub as int);
            vstd::arithmetic::div_mod::lemma_div_nonincreasing(dt as int, sub as int);
        }
        let mut k: u8 = 0;
        while k < sub
            invariant
                k <= sub,
                0 <= d <= DT_LIMIT,
                d == dt as int / sub as int,
                self.wf(),
                self@.bounds == b0,
                self@.balls == step_n_model(orig, b0, d as int, k as nat),
                self@.balls.len() == orig.len(),
                forall|j: int|
                    0 <= j < orig.len() ==> #[trigger] self@.balls[j].radius == orig[j].radius
                        && self@.balls[j].colour == orig[j].colour,
            decreases sub - k,
        {
            proof {
                lemma_step_n_snoc(orig, b0, d as int, k as nat);
            }
            self.apply_phsyics(d);
            k = k + 1;
        }
    }
}

} // verus!
