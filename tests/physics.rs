use ruga::physics::{
    collide, react, split_collision, square, tick, Body, Collision, CollisionBehavior, EntityInformation,
    PhysicState, PhysicType, PhysicWorld, Resolution, ShapeCast, Shape, WEIGHT_MAX, integrate,
};

#[test]
fn rectangles_separate_along_smaller_overlap() {
    let c = collide((0, 0), Shape::Rectangle(10, 10), (8, 1), Shape::Rectangle(10, 10));
    assert_eq!(c, Some(Collision { delta_x: -2, delta_y: 0 }));
    let c = collide((0, 0), Shape::Rectangle(10, 10), (1, 8), Shape::Rectangle(10, 10));
    assert_eq!(c, Some(Collision { delta_x: 0, delta_y: -2 }));
    let c = collide((9, 9), square(10), (0, 0), square(10));
    assert_eq!(c, Some(Collision { delta_x: 1, delta_y: 0 }));
    assert_eq!(collide((0, 0), Shape::Circle(2), (4, 0), Shape::Circle(2)), None);
    assert_eq!(collide((0, 0), Shape::Circle(3), (4, 0), Shape::Circle(2)), Some(Collision { delta_x: -1, delta_y: 0 }));
}

#[test]
fn finite_weights_split_by_weight() {
    let (mine, theirs) = split_collision(1, 3, Collision { delta_x: 8, delta_y: -4 });
    assert_eq!(mine, Some(Resolution { dx: 6, dy: -3 }));
    assert_eq!(theirs, Some(Resolution { dx: -2, dy: 1 }));
    let (mine, theirs) = split_collision(3, 1, Collision { delta_x: 8, delta_y: 0 });
    assert_eq!(mine, Some(Resolution { dx: 2, dy: 0 }));
    assert_eq!(theirs, Some(Resolution { dx: -6, dy: 0 }));
}

#[test]
fn immovable_bodies_split_in_halves_or_not_at_all() {
    let (mine, theirs) = split_collision(WEIGHT_MAX, WEIGHT_MAX, Collision { delta_x: 7, delta_y: 0 });
    assert_eq!(mine, Some(Resolution { dx: 3, dy: 0 }));
    assert_eq!(theirs, Some(Resolution { dx: -4, dy: 0 }));
    let (mine, theirs) = split_collision(WEIGHT_MAX, 5, Collision { delta_x: 7, delta_y: 2 });
    assert_eq!(mine, None);
    assert_eq!(theirs, Some(Resolution { dx: -7, dy: -2 }));
    let (mine, theirs) = split_collision(5, WEIGHT_MAX, Collision { delta_x: 7, delta_y: 2 });
    assert_eq!(mine, Some(Resolution { dx: 7, dy: 2 }));
    assert_eq!(theirs, None);
}

#[test]
fn integration_is_semi_implicit_euler() {
    let mut s = PhysicState { pos: (100, 0), vel: (10, -4), acc: (0, 0) };
    integrate(&mut s, Some(2), Some((40, 8)), 4, 3);
    // force x: -20 + 40 = 20, acc 5, vel 25, pos 175; y: 8 + 8 = 16, acc 4, vel 8, pos 24
    assert_eq!(s, PhysicState { pos: (175, 24), vel: (25, 8), acc: (5, 4) });
    let mut s = PhysicState::new((0, 0));
    integrate(&mut s, None, None, 1, 10);
    assert_eq!(s, PhysicState::new((0, 0)));
}

#[test]
fn reactions_follow_behaviour() {
    assert_eq!(react((3, -4), CollisionBehavior::Persist), (3, -4));
    assert_eq!(react((3, -4), CollisionBehavior::Stop), (0, 0));
    assert_eq!(react((3, -4), CollisionBehavior::Back), (-3, 4));
    assert_eq!(react((3, 4), CollisionBehavior::Bounce), (-600, -800));
    assert_eq!(react((0, 0), CollisionBehavior::Bounce), (-1000, 0));
    assert_eq!(react((0, -50), CollisionBehavior::Bounce), (0, 1000));
}

fn mover(x: i64, mask: u32, weight: u64) -> Body {
    Body {
        state: PhysicState::new((x, 0)),
        damping: None,
        force: None,
        typ: PhysicType::new_movable(2, mask, Shape::Rectangle(10, 10), CollisionBehavior::Stop, weight),
        dynamic: true,
    }
}

fn wall(x: i64) -> Body {
    Body {
        state: PhysicState::new((x, 0)),
        damping: None,
        force: None,
        typ: PhysicType::new_static(1, u32::MAX, Shape::Rectangle(10, 10)),
        dynamic: false,
    }
}

fn world_with_walls(bodies: &[Body]) -> PhysicWorld {
    let mut world = PhysicWorld::new(16);
    let infos: Vec<EntityInformation> = bodies
        .iter()
        .enumerate()
        .filter(|(_, b)| !b.dynamic)
        .map(|(i, b)| EntityInformation { entity: i, pos: b.state.pos, group: b.typ.group, mask: b.typ.mask, shape: b.typ.shape })
        .collect();
    world.fill(&infos);
    world
}

#[test]
fn mover_against_wall_takes_whole_correction() {
    let mut bodies = vec![wall(0), mover(8, u32::MAX, 10)];
    let mut world = world_with_walls(&bodies);
    let totals = tick(&mut world, &mut bodies, 1);
    assert_eq!(totals, vec![None, Some(Resolution { dx: 2, dy: 0 })]);
    assert_eq!(bodies[1].state.pos, (10, 0));
    assert_eq!(bodies[0].state.pos, (0, 0));
}

#[test]
fn zero_mask_mover_does_not_probe() {
    let mut bodies = vec![wall(0), mover(8, 0, 10)];
    let mut world = world_with_walls(&bodies);
    let totals = tick(&mut world, &mut bodies, 1);
    assert_eq!(totals, vec![None, None]);
    assert_eq!(bodies[1].state.pos, (8, 0));
}

#[test]
fn two_movers_share_by_weight() {
    let mut bodies = vec![mover(0, u32::MAX, 1), mover(8, u32::MAX, 3)];
    let mut world = PhysicWorld::new(16);
    let totals = tick(&mut world, &mut bodies, 1);
    assert_eq!(totals, vec![Some(Resolution { dx: -2, dy: 0 }), Some(Resolution { dx: 0, dy: 0 })]);
    assert_eq!(bodies[0].state.pos, (-2, 0));
}

#[test]
fn independent_movers_give_same_result_in_either_order() {
    let mut a = mover(0, u32::MAX, 2);
    a.force = Some((4, 2));
    let mut b = mover(1000, u32::MAX, 1);
    b.state.vel = (-3, 5);
    let mut first = vec![a, b];
    let mut second = vec![b, a];
    let mut w1 = PhysicWorld::new(16);
    let mut w2 = PhysicWorld::new(16);
    tick(&mut w1, &mut first, 2);
    tick(&mut w2, &mut second, 2);
    assert_eq!(first[0], second[1]);
    assert_eq!(first[1], second[0]);
    assert_eq!(first[0].state.pos, (8, 4));
}

#[test]
fn probe_with_zero_mask_finds_nothing() {
    let bodies = vec![wall(0)];
    let world = world_with_walls(&bodies);
    let cast = ShapeCast { pos: (1, 0), shape: Shape::Circle(3), mask: 0, group: 2, not: vec![] };
    assert!(world.apply_on_shape(&cast).is_empty());
    let cast = ShapeCast { pos: (1, 0), shape: Shape::Circle(3), mask: 1, group: 2, not: vec![] };
    assert_eq!(world.apply_on_shape(&cast).len(), 1);
    let cast = ShapeCast { pos: (1, 0), shape: Shape::Circle(3), mask: 1, group: 2, not: vec![0] };
    assert!(world.apply_on_shape(&cast).is_empty());
}

#[test]
fn added_wall_is_static_and_immovable() {
    let mut bodies = Vec::new();
    ruga::entities::add_wall(&mut bodies, 3, -2, 10, 4);
    assert_eq!(bodies.len(), 1);
    assert!(!bodies[0].dynamic);
    assert_eq!(bodies[0].typ.weight, WEIGHT_MAX);
    assert_eq!(bodies[0].typ.shape, Shape::Rectangle(10, 4));
    assert_eq!(bodies[0].state.pos, (3, -2));
}

#[test]
fn circles_are_tested_exactly() {
    assert_eq!(collide((0, 0), Shape::Circle(5), (8, 8), Shape::Circle(5)), None);
    assert_eq!(collide((0, 0), Shape::Circle(5), (3, 4), Shape::Circle(5)), Some(Collision { delta_x: -3, delta_y: -4 }));
    assert_eq!(collide((0, 0), Shape::Circle(2), (0, 0), Shape::Circle(2)), Some(Collision { delta_x: -4, delta_y: 0 }));
    assert_eq!(collide((0, 0), Shape::Circle(5), (9, 9), Shape::Rectangle(10, 10)), None);
    assert_eq!(collide((0, 0), Shape::Circle(5), (8, 8), Shape::Rectangle(10, 10)), Some(Collision { delta_x: -2, delta_y: 0 }));
    assert_eq!(collide((9, 9), Shape::Rectangle(10, 10), (0, 0), Shape::Circle(5)), None);
    assert_eq!(collide((8, 8), Shape::Rectangle(10, 10), (0, 0), Shape::Circle(5)), Some(Collision { delta_x: 2, delta_y: 0 }));
}

#[test]
fn immovable_movers_split_in_halves() {
    let mut bodies = vec![mover(0, u32::MAX, WEIGHT_MAX), mover(8, u32::MAX, WEIGHT_MAX)];
    let mut world = PhysicWorld::new(16);
    let totals = tick(&mut world, &mut bodies, 1);
    assert_eq!(totals, vec![Some(Resolution { dx: -1, dy: 0 }), Some(Resolution { dx: 1, dy: 0 })]);
}

#[test]
fn mask_that_misses_the_group_gives_no_correction() {
    let mut bodies = vec![wall(0), mover(8, 2, 10)];
    let mut world = world_with_walls(&bodies);
    let totals = tick(&mut world, &mut bodies, 1);
    assert_eq!(totals, vec![None, None]);
}
