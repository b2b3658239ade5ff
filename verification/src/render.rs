//! Render-snapshot extraction: projecting ball state into a flat array
//! of per-instance records for the excluded rendering layer.

use vstd::prelude::*;

use crate::ball::Ball;
use crate::ball::BallV;
use crate::maths::Colour;
use crate::maths::Vec2;
use crate::maths::Vec2V;
use crate::physics::Physics;

verus! {

/// One per-ball render record: colour, position and radius, copied out
/// of the physics world.
#[derive(Clone, Copy, PartialEq, Eq, Structural, Debug)]
pub struct Instance {
    pub colour: Colour,
    pub location: Vec2,
    pub radius: i64,
}

/// Mathematical image of an `Instance`.
pub struct InstanceV {
    pub colour: Colour,
    pub location: Vec2V,
    pub radius: int,
}

impl View for Instance {
    type V = InstanceV;

    open spec fn view(&self) -> InstanceV {
        InstanceV { colour: self.colour, location: self.location@, radius: self.radius as int }
    }
}

/// The record a ball projects to: the current location and radius, and
/// the colour byte triple.
pub open spec fn instance_of(b: BallV) -> InstanceV {
    InstanceV { colour: b.colour, location: b.location, radius: b.radius }
}

impl Instance {
    /// The render record of one ball.
    pub fn from_ball(b: Ball) -> (r: Instance)
        ensures
            r@ == instance_of(b@),
    {
        Instance { colour: b.colour, location: b.location, radius: b.radius }
    }
}

impl Default for Instance {
    /// A black, zero-sized record at the origin, used to grow buffers.
    fn default() -> (r: Self)
        ensures
            r@.colour == (Colour { r: 0, g: 0, b: 0 }),
            r@.location.x == 0,
            r@.location.y == 0,
            r@.radius == 0,
    {
        Instance {
            colour: Colour { r: 0, g: 0, b: 0 },
            location: Vec2 { x: 0, y: 0 },
            radius: 0,
        }
    }
}

/// Fills `inst` with a render snapshot of `balls`: the buffer is
/// resized to the ball count when it differs, then every slot is
/// overwritten in ball iteration order.  A pure projection; the world
/// is untouched.
pub fn fill_buffer(balls: &Physics, inst: &mut Vec<Instance>)
    ensures
        final(inst)@.len() == balls@.balls.len(),
        forall|k: int|
            0 <= k < balls@.balls.len() ==> #[trigger] final(inst)@[k]@ == instance_of(
                balls@.balls[k],
            ),
{
    let n = balls.count();
    if inst.len() != n {
        inst.resize(n, Instance::default());
    }
    let mut i: usize = 0;
    while i < n
        invariant
            i <= n,
            inst.len() == n,
            n == balls@.balls.len(),
            forall|k: int| 0 <= k < i ==> #[trigger] inst@[k]@ == instance_of(balls@.balls[k]),
        decreases n - i,
    {
        inst[i] = Instance::from_ball(balls.get(i));
        i = i + 1;
    }
}

} // verus!
