use dream_engine::ecs::Component;
use dream_engine::physics::{broad_phase_pairs, BodyType, PhysicsWorld, RigidBody};

#[derive(Debug, Clone, Copy, PartialEq)]
struct Motion {
    x: f32,
    y: f32,
    vx: f32,
    vy: f32,
    mass: f32,
    restitution: f32,
}

#[derive(Debug, Clone, Copy, PartialEq)]
struct Circle {
    radius: f32,
}

impl Component for Circle {}

#[derive(Debug, Clone, Copy, PartialEq)]
struct Touch {
    nx: f32,
    ny: f32,
    penetration: f32,
}

type Physics = PhysicsWorld<Motion, Circle, Touch, ()>;

fn body(body_type: BodyType, x: f32, y: f32, vx: f32, vy: f32) -> RigidBody<Motion> {
    RigidBody { body_type, state: Motion { x, y, vx, vy, mass: 1.0, restitution: 1.0 } }
}

fn boxes_overlap(
    a: &Circle,
    body_a: Option<&RigidBody<Motion>>,
    b: &Circle,
    body_b: Option<&RigidBody<Motion>>,
) -> bool {
    let (ax, ay) = body_a.map(|body| (body.state.x, body.state.y)).unwrap_or((0.0, 0.0));
    let (bx, by) = body_b.map(|body| (body.state.x, body.state.y)).unwrap_or((0.0, 0.0));
    ax - a.radius <= bx + b.radius
        && ax + a.radius >= bx - b.radius
        && ay - a.radius <= by + b.radius
        && ay + a.radius >= by - b.radius
}

fn circles_touch(
    a: &RigidBody<Motion>,
    shape_a: &Circle,
    b: &RigidBody<Motion>,
    shape_b: &Circle,
) -> Option<Touch> {
    let (dx, dy) = (b.state.x - a.state.x, b.state.y - a.state.y);
    let distance = (dx * dx + dy * dy).sqrt();
    let radius_sum = shape_a.radius + shape_b.radius;
    if distance < radius_sum {
        let (nx, ny) = if distance > 0.0 { (dx / distance, dy / distance) } else { (0.0, 0.0) };
        Some(Touch { nx, ny, penetration: radius_sum - distance })
    } else {
        None
    }
}

fn bounce(a: &RigidBody<Motion>, b: &RigidBody<Motion>, touch: &Touch) -> Option<(Motion, Motion)> {
    let along = (b.state.vx - a.state.vx) * touch.nx + (b.state.vy - a.state.vy) * touch.ny;
    if along > 0.0 {
        return None;
    }
    let inv_a = if a.body_type == BodyType::Dynamic { 1.0 / a.state.mass } else { 0.0 };
    let inv_b = if b.body_type == BodyType::Dynamic { 1.0 / b.state.mass } else { 0.0 };
    let restitution = (a.state.restitution + b.state.restitution) * 0.5;
    let j = -(1.0 + restitution) * along / (inv_a + inv_b);
    let correction = (touch.penetration - 0.01).max(0.0) / (inv_a + inv_b) * 0.2;
    let mut next_a = a.state;
    next_a.vx -= touch.nx * j * inv_a;
    next_a.vy -= touch.ny * j * inv_a;
    next_a.x -= touch.nx * correction * inv_a;
    next_a.y -= touch.ny * correction * inv_a;
    let mut next_b = b.state;
    next_b.vx += touch.nx * j * inv_b;
    next_b.vy += touch.ny * j * inv_b;
    next_b.x += touch.nx * correction * inv_b;
    next_b.y += touch.ny * correction * inv_b;
    Some((next_a, next_b))
}

fn fall(state: &Motion) -> Motion {
    Motion { vy: state.vy - 1.0, ..*state }
}

fn advance(state: &Motion) -> Motion {
    Motion { x: state.x + state.vx, y: state.y + state.vy, ..*state }
}

fn tick(world: &mut Physics) {
    world.fixed_update(fall, boxes_overlap, circles_touch, bounce, advance);
}

#[test]
fn head_on_circles_of_equal_mass_swap_velocities() {
    let mut world = Physics::new(());
    world.add_rigid_body(0, body(BodyType::Dynamic, 0.0, 0.0, 1.0, 0.0));
    world.add_rigid_body(1, body(BodyType::Dynamic, 1.5, 0.0, -1.0, 0.0));
    world.add_collider(0, Circle { radius: 1.0 });
    world.add_collider(1, Circle { radius: 1.0 });

    world.broad_phase(boxes_overlap);
    assert_eq!(world.get_collision_pairs(), &vec![(0, 1)]);
    world.narrow_phase(circles_touch);
    let events = world.get_collision_events();
    assert_eq!(events.len(), 1);
    assert_eq!((events[0].entity_a, events[0].entity_b), (0, 1));
    assert_eq!(events[0].contact, Touch { nx: 1.0, ny: 0.0, penetration: 0.5 });

    world.solve_constraints(bounce);
    let a = world.get_body(0).unwrap().state;
    let b = world.get_body(1).unwrap().state;
    assert!((a.vx - -1.0).abs() < 1e-6 && a.vy.abs() < 1e-6);
    assert!((b.vx - 1.0).abs() < 1e-6 && b.vy.abs() < 1e-6);
    // each body is pushed back by 0.2 * (0.5 - 0.01) / 2
    assert!((a.x - -0.049).abs() < 1e-6);
    assert!((b.x - 1.549).abs() < 1e-6);
    assert!(b.x - a.x > 1.5);
}

#[test]
fn static_and_kinematic_bodies_never_move() {
    let mut world = Physics::new(());
    world.add_rigid_body(0, body(BodyType::Static, 0.0, 0.0, 0.0, 0.0));
    world.add_rigid_body(1, body(BodyType::Dynamic, 0.0, 1.5, 0.0, -1.0));
    world.add_rigid_body(2, body(BodyType::Kinematic, 0.5, 0.0, 3.0, 0.0));
    world.add_rigid_body(3, body(BodyType::Static, 0.2, 0.0, 7.0, 7.0));
    for entity in 0..4 {
        world.add_collider(entity, Circle { radius: 1.0 });
    }
    let fixed: Vec<Motion> =
        [0u32, 2, 3].iter().map(|e| world.get_body(*e).unwrap().state).collect();
    let falling = world.get_body(1).unwrap().state;
    for _ in 0..25 {
        tick(&mut world);
        let now: Vec<Motion> =
            [0u32, 2, 3].iter().map(|e| world.get_body(*e).unwrap().state).collect();
        assert_eq!(now, fixed);
        assert_eq!(world.get_body(0).unwrap().body_type, BodyType::Static);
        assert_eq!(world.get_body(2).unwrap().body_type, BodyType::Kinematic);
    }
    assert_ne!(world.get_body(1).unwrap().state, falling);
}

#[test]
fn pairs_of_two_static_bodies_are_not_examined() {
    let mut world = Physics::new(());
    world.add_rigid_body(0, body(BodyType::Static, 0.0, 0.0, 0.0, 0.0));
    world.add_rigid_body(1, body(BodyType::Static, 0.5, 0.0, 0.0, 0.0));
    world.add_rigid_body(2, body(BodyType::Dynamic, 0.2, 0.0, 0.0, 0.0));
    world.add_collider(0, Circle { radius: 1.0 });
    world.add_collider(1, Circle { radius: 1.0 });
    world.add_collider(2, Circle { radius: 1.0 });
    world.add_collider(3, Circle { radius: 1.0 });
    world.broad_phase(boxes_overlap);
    assert_eq!(world.get_collision_pairs(), &vec![(0, 2), (0, 3), (1, 2), (1, 3), (2, 3)]);
    // the collider without a body takes part in the broad phase only
    world.narrow_phase(circles_touch);
    let confirmed: Vec<(u32, u32)> =
        world.get_collision_events().iter().map(|e| (e.entity_a, e.entity_b)).collect();
    assert_eq!(confirmed, vec![(0, 2), (1, 2)]);
}

#[test]
fn collisions_do_not_outlive_their_tick() {
    let mut world = Physics::new(());
    world.add_rigid_body(0, body(BodyType::Dynamic, 0.0, 0.0, 0.0, 0.0));
    world.add_rigid_body(1, body(BodyType::Dynamic, 100.0, 0.0, 0.0, 0.0));
    world.add_collider(0, Circle { radius: 1.0 });
    world.add_collider(1, Circle { radius: 1.0 });
    tick(&mut world);
    assert!(world.get_collision_pairs().is_empty());
    assert!(world.get_collision_events().is_empty());

    world.get_body_mut(1).unwrap().state.x = 1.0;
    world.get_body_mut(1).unwrap().state.y = world.get_body(0).unwrap().state.y;
    tick(&mut world);
    assert_eq!(world.get_collision_events().len(), 1);

    world.get_body_mut(1).unwrap().state.x = 100.0;
    tick(&mut world);
    assert!(world.get_collision_pairs().is_empty());
    assert!(world.get_collision_events().is_empty());
    world.clear_collisions();
    assert!(world.get_collision_events().is_empty());
}

#[test]
fn bodies_stay_until_they_are_removed() {
    let mut world = Physics::new(());
    world.add_rigid_body(4, body(BodyType::Dynamic, 0.0, 0.0, 0.0, 0.0));
    world.add_collider(4, Circle { radius: 2.0 });
    world.add_rigid_body(9, body(BodyType::Static, 50.0, 0.0, 0.0, 0.0));
    for _ in 0..3 {
        tick(&mut world);
        assert!(world.get_body(4).is_some());
        assert_eq!(world.get_collider(4), Some(&Circle { radius: 2.0 }));
    }
    world.remove_body(4);
    assert!(world.get_body(4).is_none());
    assert!(world.get_collider(4).is_none());
    assert!(world.get_body(9).is_some());
    world.remove_body(4);
    assert!(world.get_body(9).is_some());
    assert_eq!(*world.settings(), ());
}

#[test]
fn broad_phase_walks_every_unordered_pair_once() {
    let none: Vec<(u32, Option<BodyType>)> = Vec::new();
    assert_eq!(broad_phase_pairs(&none), vec![]);
    assert_eq!(broad_phase_pairs(&vec![(7, Some(BodyType::Dynamic))]), vec![]);
    let colliders = vec![
        (10, Some(BodyType::Static)),
        (11, Some(BodyType::Dynamic)),
        (12, Some(BodyType::Static)),
        (13, None),
        (14, Some(BodyType::Kinematic)),
    ];
    assert_eq!(
        broad_phase_pairs(&colliders),
        vec![
            (10, 11),
            (10, 13),
            (10, 14),
            (11, 12),
            (11, 13),
            (11, 14),
            (12, 13),
            (12, 14),
            (13, 14),
        ]
    );
}

#[test]
fn a_tick_runs_its_phases_in_order() {
    let mut by_tick = Physics::new(());
    let mut by_phase = Physics::new(());
    for world in [&mut by_tick, &mut by_phase] {
        world.add_rigid_body(0, body(BodyType::Dynamic, 0.0, 0.0, 1.0, 0.5));
        world.add_rigid_body(1, body(BodyType::Dynamic, 1.5, 0.0, -1.0, 0.0));
        world.add_rigid_body(2, body(BodyType::Static, 0.5, -1.0, 0.0, 0.0));
        for entity in 0..3 {
            world.add_collider(entity, Circle { radius: 1.0 });
        }
    }
    for _ in 0..4 {
        by_tick.fixed_update(fall, boxes_overlap, circles_touch, bounce, advance);

        by_phase.clear_collisions();
        by_phase.integrate(fall);
        by_phase.broad_phase(boxes_overlap);
        by_phase.narrow_phase(circles_touch);
        by_phase.solve_constraints(bounce);
        by_phase.integrate(advance);

        for entity in 0..3 {
            assert_eq!(
                by_tick.get_body(entity).unwrap().state,
                by_phase.get_body(entity).unwrap().state
            );
        }
        assert_eq!(by_tick.get_collision_pairs(), by_phase.get_collision_pairs());
        assert_eq!(by_tick.get_collision_events().len(), by_phase.get_collision_events().len());
    }
}

fn crowded() -> Physics {
    let mut world = Physics::new(());
    world.add_rigid_body(0, body(BodyType::Dynamic, 0.0, 0.0, 1.0, 0.5));
    world.add_rigid_body(1, body(BodyType::Dynamic, 1.5, 0.0, -1.0, 0.0));
    world.add_rigid_body(2, body(BodyType::Static, 0.5, -1.0, 4.0, 4.0));
    world.add_rigid_body(3, body(BodyType::Kinematic, 9.0, 9.0, 1.0, 1.0));
    for entity in 0..4 {
        world.add_collider(entity, Circle { radius: 1.0 });
    }
    world
}

#[test]
fn one_step_of_three_ticks_equals_three_steps_of_one() {
    let mut at_once = crowded();
    let mut in_turn = crowded();
    at_once.step(3, fall, boxes_overlap, circles_touch, bounce, advance);
    for _ in 0..3 {
        in_turn.step(1, fall, boxes_overlap, circles_touch, bounce, advance);
    }
    for entity in 0..4 {
        assert_eq!(
            at_once.get_body(entity).unwrap().state,
            in_turn.get_body(entity).unwrap().state
        );
    }
    assert_eq!(at_once.get_collision_pairs(), in_turn.get_collision_pairs());
    assert_eq!(at_once.get_collision_events().len(), in_turn.get_collision_events().len());
    assert_ne!(at_once.get_body(0).unwrap().state, crowded().get_body(0).unwrap().state);
}

#[test]
fn a_step_of_no_tick_changes_nothing_and_none_moves_a_static_body() {
    let mut world = crowded();
    world.step(0, fall, boxes_overlap, circles_touch, bounce, advance);
    for entity in 0..4 {
        assert_eq!(
            world.get_body(entity).unwrap().state,
            crowded().get_body(entity).unwrap().state
        );
    }
    world.step(40, fall, boxes_overlap, circles_touch, bounce, advance);
    for entity in [2u32, 3] {
        assert_eq!(
            world.get_body(entity).unwrap().state,
            crowded().get_body(entity).unwrap().state
        );
    }
    let fallen = world.get_body(0).unwrap().state;
    assert!(fallen.y < -100.0);
}
