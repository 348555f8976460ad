use crate::physics::Body;
use crate::physics::PhysicState;
use crate::physics::PhysicType;
use crate::physics::Shape;
use crate::physics::CollisionBehavior;
use crate::physics::WEIGHT_MAX;
use vstd::prelude::*;

verus! {

/// Group bit of walls.
pub const WALL_GROUP: u32 = 1;

/// Group bit of characters.
pub const CHAR_GROUP: u32 = 2;

/// Walls react to every group.
pub const WALL_MASK: u32 = 0xffff_ffff;

/// Characters react to every group.
pub const CHAR_MASK: u32 = 0xffff_ffff;

/// Adds a static rectangular wall of the given size at (`x`, `y`), at rest.
pub fn add_wall(bodies: &mut Vec<Body>, x: i64, y: i64, width: i64, height: i64)
    ensures
        final(bodies)@ == old(bodies)@.push(
            Body {
                state: PhysicState { pos: (x, y), vel: (0, 0), acc: (0, 0) },
                damping: None,
                force: None,
                typ: PhysicType {
                    group: WALL_GROUP,
                    mask: WALL_MASK,
                    shape: Shape::Rectangle(width, height),
                    weight: WEIGHT_MAX,
                    collision: CollisionBehavior::Persist,
                },
                dynamic: false,
            },
        ),
{
    let typ = PhysicType::new_static(WALL_GROUP, WALL_MASK, Shape::Rectangle(width, height));
    bodies.push(Body { state: PhysicState::new((x, y)), damping: None, force: None, typ: typ, dynamic: false });
}

} // verus!
