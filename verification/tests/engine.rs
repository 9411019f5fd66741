use dream_engine::ecs::{Component, Physics, System, SystemSchedule, World};
use dream_engine::engine::{create_entity_from_data, load_compiled_game, CompiledGame, EntityData};

#[derive(Debug, Clone, PartialEq)]
struct Part(u32);

impl Component for Part {}

#[derive(Debug, PartialEq)]
struct Total(u32);

impl Physics for Total {}

struct Count;

impl System<Part, Total, ()> for Count {
    fn execute(&mut self, world: &mut World<Part>, physics: &mut Total, _dt: ()) {
        physics.0 += world.entity_count() as u32;
    }

    fn initialize(&mut self, _world: &mut World<Part>) {}

    fn cleanup(&mut self, _world: &mut World<Part>) {}
}

fn entity(name: &str, components: Vec<(u64, Part)>) -> EntityData<Part> {
    EntityData { name: name.to_string(), components }
}

#[test]
fn an_entity_is_created_with_its_components() {
    let mut world = World::new();
    let first = create_entity_from_data(&mut world, entity("a", vec![(0, Part(1)), (1, Part(2))]));
    assert_eq!(first, 0);
    assert_eq!(world.get_component(0, first), Some(&Part(1)));
    assert_eq!(world.get_component(1, first), Some(&Part(2)));
    // a later component of the same kind replaces an earlier one
    let second = create_entity_from_data(&mut world, entity("b", vec![(0, Part(3)), (0, Part(4))]));
    assert_eq!(second, 1);
    assert_eq!(world.get_component(0, second), Some(&Part(4)));
    let bare = create_entity_from_data(&mut world, entity("c", vec![]));
    assert_eq!(bare, 2);
    assert_eq!(world.get_component(0, bare), None);
    assert_eq!(world.entity_count(), 3);
}

#[test]
fn a_game_is_loaded_in_order() {
    let mut world = World::new();
    let stale = world.create_entity();
    world.create_entity();
    assert!(world.destroy_entity(stale));

    let mut schedule: SystemSchedule<Part, Total, ()> = SystemSchedule::new();
    let game = CompiledGame {
        systems: vec![Box::new(Count), Box::new(Count)],
        entities: vec![
            entity("one", vec![(5, Part(10))]),
            entity("two", vec![]),
            entity("three", vec![(5, Part(30)), (6, Part(31))]),
        ],
    };
    assert!(world.can_create_entities(game.entities.len()));
    let ids = load_compiled_game(&mut world, &mut schedule, game);
    // the recycled id goes first, then fresh ones
    assert_eq!(ids, vec![0, 2, 3]);
    assert_eq!(world.entity_count(), 4);
    assert_eq!(world.get_component(5, 0), Some(&Part(10)));
    assert_eq!(world.get_component(5, 2), None);
    assert_eq!(world.get_component(5, 3), Some(&Part(30)));
    assert_eq!(world.get_component(6, 3), Some(&Part(31)));

    let mut total = Total(0);
    schedule.execute(&mut world, &mut total, ());
    assert_eq!(total, Total(8));
}

#[test]
fn an_empty_game_changes_nothing() {
    let mut world: World<Part> = World::new();
    let mut schedule: SystemSchedule<Part, Total, ()> = SystemSchedule::new();
    let ids = load_compiled_game(
        &mut world,
        &mut schedule,
        CompiledGame { systems: vec![], entities: vec![] },
    );
    assert!(ids.is_empty());
    assert_eq!(world.entity_count(), 0);
    let mut total = Total(7);
    schedule.execute(&mut world, &mut total, ());
    assert_eq!(total, Total(7));
}
