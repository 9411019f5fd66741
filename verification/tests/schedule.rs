use dream_engine::ecs::{Component, Physics, System, SystemSchedule, World};

#[derive(Debug, Clone, PartialEq)]
struct Counter(u32);

impl Component for Counter {}

#[derive(Debug, Default, PartialEq)]
struct Log(Vec<u32>);

impl Physics for Log {}

struct Recorder {
    tag: u32,
}

impl System<Counter, Log, u32> for Recorder {
    fn execute(&mut self, _world: &mut World<Counter>, physics: &mut Log, dt: u32) {
        physics.0.push(self.tag + dt);
    }

    fn initialize(&mut self, _world: &mut World<Counter>) {}

    fn cleanup(&mut self, _world: &mut World<Counter>) {}
}

#[test]
fn schedule_runs_systems_in_registration_order() {
    let mut schedule: SystemSchedule<Counter, Log, u32> = SystemSchedule::new();
    schedule.add_system(Box::new(Recorder { tag: 10 }));
    schedule.add_system(Box::new(Recorder { tag: 20 }));
    schedule
        .add_parallel_systems(vec![Box::new(Recorder { tag: 30 }), Box::new(Recorder { tag: 40 })]);
    let mut world = World::new();
    let mut log = Log::default();
    schedule.execute(&mut world, &mut log, 1);
    assert_eq!(log.0, vec![11, 21, 31, 41]);
    schedule.execute(&mut world, &mut log, 2);
    assert_eq!(log.0, vec![11, 21, 31, 41, 12, 22, 32, 42]);
    schedule.clear();
    schedule.execute(&mut world, &mut log, 3);
    assert_eq!(log.0.len(), 8);
}

struct Spawner {
    tag: u32,
    entity: Option<u32>,
}

impl System<Counter, Log, u32> for Spawner {
    fn execute(&mut self, _world: &mut World<Counter>, _physics: &mut Log, _dt: u32) {}

    fn initialize(&mut self, world: &mut World<Counter>) {
        let entity = world.create_entity();
        world.add_component(0, entity, Counter(self.tag));
        self.entity = Some(entity);
    }

    fn cleanup(&mut self, world: &mut World<Counter>) {
        if let Some(entity) = self.entity.take() {
            world.destroy_entity(entity);
        }
    }
}

#[test]
fn lifecycle_hooks_are_called_once_in_order() {
    let mut schedule: SystemSchedule<Counter, Log, u32> = SystemSchedule::new();
    schedule.add_system(Box::new(Spawner { tag: 10, entity: None }));
    schedule.add_system(Box::new(Recorder { tag: 0 }));
    schedule.add_parallel_systems(vec![Box::new(Spawner { tag: 20, entity: None })]);
    schedule.add_systems(vec![Box::new(Spawner { tag: 30, entity: None })]);
    let mut world = World::new();

    schedule.initialize(&mut world);
    assert_eq!(world.entity_count(), 3);
    // one by one first, then the groups
    assert_eq!(world.get_component(0, 0), Some(&Counter(10)));
    assert_eq!(world.get_component(0, 1), Some(&Counter(30)));
    assert_eq!(world.get_component(0, 2), Some(&Counter(20)));

    let mut log = Log::default();
    schedule.execute(&mut world, &mut log, 5);
    assert_eq!(log.0, vec![5]);
    assert_eq!(world.entity_count(), 3);

    schedule.cleanup(&mut world);
    assert_eq!(world.entity_count(), 0);
    // the ids were freed in the order of the hooks
    assert_eq!(world.create_entity(), 2);
    assert_eq!(world.create_entity(), 1);
    assert_eq!(world.create_entity(), 0);
    schedule.cleanup(&mut world);
    assert_eq!(world.entity_count(), 3);
}
