use dream_engine::ecs::{Component, ComponentId, World};

const TRANSFORM: ComponentId = 0;
const SPRITE: ComponentId = 1;

#[derive(Debug, Clone, Copy, PartialEq)]
struct Vec3 {
    x: f32,
    y: f32,
    z: f32,
}

#[derive(Debug, Clone, Copy, PartialEq)]
struct Quat {
    x: f32,
    y: f32,
    z: f32,
    w: f32,
}

#[derive(Debug, Clone, PartialEq)]
enum Part {
    Transform { position: Vec3, rotation: Quat, scale: Vec3 },
    Sprite { texture_id: String },
}

impl Component for Part {}

fn transform_at(x: f32, y: f32) -> Part {
    Part::Transform {
        position: Vec3 { x, y, z: 0.0 },
        rotation: Quat { x: 0.0, y: 0.0, z: 0.0, w: 1.0 },
        scale: Vec3 { x: 1.0, y: 1.0, z: 1.0 },
    }
}

fn sprite(texture_id: &str) -> Part {
    Part::Sprite { texture_id: texture_id.to_string() }
}

#[test]
fn test_ecs_basic() {
    let mut world = World::with_capacity(100);
    let entity = world.create_entity();

    world.add_component(
        TRANSFORM,
        entity,
        Part::Transform {
            position: Vec3 { x: 0.0, y: 0.0, z: 0.0 },
            rotation: Quat { x: 0.0, y: 0.0, z: 0.0, w: 1.0 },
            scale: Vec3 { x: 1.0, y: 1.0, z: 1.0 },
        },
    );

    assert_eq!(entity, 0);
}

#[test]
fn fresh_ids_count_up_from_zero() {
    let mut world: World<Part> = World::new();
    assert_eq!(world.entity_count(), 0);
    for expected in 0..10u32 {
        assert!(world.can_create_entity());
        assert_eq!(world.create_entity(), expected);
    }
    assert_eq!(world.entity_count(), 10);
}

#[test]
fn live_ids_are_never_shared() {
    let mut world: World<Part> = World::new();
    let mut live: Vec<u32> = Vec::new();
    for round in 0..50u32 {
        let id = world.create_entity();
        assert!(!live.contains(&id));
        live.push(id);
        if round % 3 == 0 {
            let victim = live.remove((round as usize * 7) % live.len());
            assert!(world.destroy_entity(victim));
        }
        assert_eq!(world.entity_count(), live.len());
    }
}

#[test]
fn destroyed_id_comes_back_without_components() {
    let mut world: World<Part> = World::new();
    let ids: Vec<u32> = (0..5).map(|_| world.create_entity()).collect();
    assert_eq!(ids, vec![0, 1, 2, 3, 4]);
    world.add_component(TRANSFORM, 2, transform_at(1.0, 2.0));
    world.add_component(SPRITE, 2, sprite("hero"));
    world.add_component(SPRITE, 3, sprite("tree"));

    assert!(world.destroy_entity(2));
    assert_eq!(world.entity_count(), 4);
    let again = world.create_entity();
    assert_eq!(again, 2);
    assert_eq!(world.get_component(TRANSFORM, again), None);
    assert_eq!(world.get_component(SPRITE, again), None);
    assert_eq!(world.get_component(SPRITE, 3), Some(&sprite("tree")));
}

#[test]
fn free_list_is_last_in_first_out() {
    let mut world: World<Part> = World::new();
    for _ in 0..4 {
        world.create_entity();
    }
    assert!(world.destroy_entity(1));
    assert!(world.destroy_entity(3));
    assert_eq!(world.create_entity(), 3);
    assert_eq!(world.create_entity(), 1);
    assert_eq!(world.create_entity(), 4);
}

#[test]
fn destroying_twice_succeeds_once() {
    let mut world: World<Part> = World::new();
    let a = world.create_entity();
    let b = world.create_entity();
    assert!(world.destroy_entity(a));
    assert!(!world.destroy_entity(a));
    assert!(!world.destroy_entity(99));
    assert_eq!(world.entity_count(), 1);
    assert_eq!(world.create_entity(), a);
    assert_eq!(world.create_entity(), 2);
    assert_eq!(world.entity_count(), 3);
    assert!(world.destroy_entity(b));
}

#[test]
fn components_are_added_read_changed_and_removed() {
    let mut world: World<Part> = World::new();
    let e = world.create_entity();
    assert_eq!(world.get_component(TRANSFORM, e), None);
    assert_eq!(world.remove_component(TRANSFORM, e), None);
    world.add_component(TRANSFORM, e, transform_at(1.0, 2.0));
    assert_eq!(world.get_component(TRANSFORM, e), Some(&transform_at(1.0, 2.0)));
    world.add_component(TRANSFORM, e, transform_at(3.0, 4.0));
    assert_eq!(world.get_component(TRANSFORM, e), Some(&transform_at(3.0, 4.0)));
    if let Some(part) = world.get_component_mut(TRANSFORM, e) {
        *part = transform_at(5.0, 6.0);
    }
    assert_eq!(world.get_component(TRANSFORM, e), Some(&transform_at(5.0, 6.0)));
    assert_eq!(world.get_component_mut(SPRITE, e), None);
    assert_eq!(world.remove_component(TRANSFORM, e), Some(transform_at(5.0, 6.0)));
    assert_eq!(world.get_component(TRANSFORM, e), None);
}

#[test]
fn clear_forgets_entities_and_components_but_not_the_counter() {
    let mut world: World<Part> = World::new();
    let a = world.create_entity();
    let b = world.create_entity();
    world.add_component(SPRITE, a, sprite("a"));
    world.add_component(SPRITE, b, sprite("b"));
    assert!(world.destroy_entity(a));
    world.clear();
    assert_eq!(world.entity_count(), 0);
    assert_eq!(world.get_component(SPRITE, b), None);
    assert_eq!(world.query(SPRITE).next(), None);
    assert_eq!(world.create_entity(), 2);
}

#[test]
fn query_yields_one_column_in_dense_order() {
    let mut world: World<Part> = World::new();
    for _ in 0..4 {
        world.create_entity();
    }
    world.add_component(SPRITE, 2, sprite("c"));
    world.add_component(SPRITE, 0, sprite("a"));
    world.add_component(SPRITE, 3, sprite("d"));
    world.add_component(TRANSFORM, 1, transform_at(0.0, 0.0));
    let mut iter = world.query(SPRITE);
    assert_eq!(iter.next(), Some((2, &sprite("c"))));
    assert_eq!(iter.next(), Some((0, &sprite("a"))));
    assert_eq!(iter.next(), Some((3, &sprite("d"))));
    assert_eq!(iter.next(), None);
    assert_eq!(iter.next(), None);
}

#[test]
fn pair_query_is_the_intersection() {
    let mut world: World<Part> = World::new();
    for _ in 0..6 {
        world.create_entity();
    }
    for e in [0u32, 1, 2, 3, 4] {
        world.add_component(TRANSFORM, e, transform_at(e as f32, 0.0));
    }
    for e in [3u32, 1, 5] {
        world.add_component(SPRITE, e, sprite("s"));
    }
    let mut seen = Vec::new();
    let mut iter = world.query_pair(TRANSFORM, SPRITE);
    while let Some((e, (transform, sprite_part))) = iter.next() {
        assert_eq!(transform, &transform_at(e as f32, 0.0));
        assert_eq!(sprite_part, &sprite("s"));
        seen.push(e);
    }
    // the smaller column drives the walk, in its dense order
    assert_eq!(seen, vec![3, 1]);

    let mut other_way = Vec::new();
    let mut iter = world.query_pair(SPRITE, TRANSFORM);
    while let Some((e, _)) = iter.next() {
        other_way.push(e);
    }
    assert_eq!(other_way, vec![3, 1]);
}

#[test]
fn query_mut_writes_reach_the_world() {
    let mut world: World<Part> = World::new();
    for _ in 0..3 {
        world.create_entity();
    }
    world.add_component(TRANSFORM, 0, transform_at(0.0, 0.0));
    world.add_component(TRANSFORM, 2, transform_at(2.0, 0.0));
    {
        let mut iter = world.query_mut(TRANSFORM);
        while let Some((e, part)) = iter.next() {
            *part = transform_at(e as f32, 10.0);
        }
    }
    assert_eq!(world.get_component(TRANSFORM, 0), Some(&transform_at(0.0, 10.0)));
    assert_eq!(world.get_component(TRANSFORM, 2), Some(&transform_at(2.0, 10.0)));
    assert_eq!(world.entity_count(), 3);
}

#[test]
fn pair_query_mut_lends_both_components() {
    let mut world: World<Part> = World::new();
    for _ in 0..4 {
        world.create_entity();
    }
    for e in [0u32, 1, 2, 3] {
        world.add_component(TRANSFORM, e, transform_at(e as f32, 0.0));
    }
    world.add_component(SPRITE, 2, sprite("two"));
    world.add_component(SPRITE, 0, sprite("zero"));
    let mut order = Vec::new();
    {
        let mut iter = world.query_pair_mut(TRANSFORM, SPRITE);
        while let Some((e, (transform, sprite_part))) = iter.next() {
            order.push(e);
            *transform = transform_at(-1.0, -1.0);
            *sprite_part = sprite("seen");
        }
    }
    assert_eq!(order, vec![2, 0]);
    assert_eq!(world.get_component(TRANSFORM, 0), Some(&transform_at(-1.0, -1.0)));
    assert_eq!(world.get_component(TRANSFORM, 1), Some(&transform_at(1.0, 0.0)));
    assert_eq!(world.get_component(TRANSFORM, 2), Some(&transform_at(-1.0, -1.0)));
    assert_eq!(world.get_component(TRANSFORM, 3), Some(&transform_at(3.0, 0.0)));
    assert_eq!(world.get_component(SPRITE, 0), Some(&sprite("seen")));
    assert_eq!(world.get_component(SPRITE, 2), Some(&sprite("seen")));
}

#[test]
fn room_for_entities_is_reported() {
    let mut world: World<Part> = World::new();
    assert!(world.can_create_entities(0));
    assert!(world.can_create_entities(u32::MAX as usize));
    assert!(!world.can_create_entities(u32::MAX as usize + 1));
    let e = world.create_entity();
    assert!(!world.can_create_entities(u32::MAX as usize));
    assert!(world.destroy_entity(e));
    assert!(world.can_create_entities(u32::MAX as usize));
}

#[test]
fn kinds_are_registered_by_their_first_component() {
    let mut world: World<Part> = World::new();
    let e = world.create_entity();
    assert!(!world.is_registered(SPRITE));
    assert_eq!(world.get_component(SPRITE, e), None);
    assert!(!world.is_registered(SPRITE));
    world.add_component(SPRITE, e, sprite("s"));
    assert!(world.is_registered(SPRITE));
    assert!(!world.is_registered(TRANSFORM));
    assert_eq!(world.remove_component(SPRITE, e), Some(sprite("s")));
    assert!(world.is_registered(SPRITE));
    assert_eq!(world.query(SPRITE).next(), None);
    assert!(world.destroy_entity(e));
    world.clear();
    assert!(world.is_registered(SPRITE));
    assert_eq!(world.query_pair(SPRITE, SPRITE).next(), None);
}

#[test]
fn a_kind_can_be_joined_with_itself_for_reading() {
    let mut world: World<Part> = World::new();
    for _ in 0..2 {
        world.create_entity();
    }
    world.add_component(SPRITE, 1, sprite("one"));
    world.add_component(SPRITE, 0, sprite("zero"));
    let mut iter = world.query_pair(SPRITE, SPRITE);
    assert_eq!(iter.next(), Some((1, (&sprite("one"), &sprite("one")))));
    assert_eq!(iter.next(), Some((0, (&sprite("zero"), &sprite("zero")))));
    assert_eq!(iter.next(), None);
}
