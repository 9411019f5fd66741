use crate::ecs::Component;
use crate::ecs::ComponentId;
use crate::ecs::EntityId;
use crate::ecs::Physics;
use crate::ecs::query::reversed;
use crate::ecs::System;
use crate::ecs::SystemSchedule;
use crate::ecs::World;
use crate::ecs::WorldState;
use vstd::prelude::*;

verus! {

/// One entity of a persisted game: its name, and the components it
/// carries, each with its kind.
pub struct EntityData<C> {
    pub name: String,
    pub components: Vec<(ComponentId, C)>,
}

/// A persisted game, decoded: the systems to register, and the entities
/// to create.
#[verifier::reject_recursive_types(C)]
#[verifier::reject_recursive_types(P)]
#[verifier::reject_recursive_types(D)]
pub struct CompiledGame<C: Component, P: Physics, D> {
    pub systems: Vec<Box<dyn System<C, P, D>>>,
    pub entities: Vec<EntityData<C>>,
}

/// State after `entity` got the components of `components`, in order.
pub open spec fn attached<C>(
    state: WorldState<C>,
    entity: EntityId,
    components: Seq<(ComponentId, C)>,
) -> WorldState<C>
    decreases components.len(),
{
    if components.len() == 0 {
        state
    } else {
        attached(state, entity, components.drop_last()).add_component(
            components.last().0,
            entity,
            components.last().1,
        )
    }
}

/// State after a new entity was created and got the components of `data`.
pub open spec fn spawned<C>(state: WorldState<C>, data: EntityData<C>) -> WorldState<C> {
    attached(state.create(), state.pool.next_created(), data.components@)
}

/// State after the entities of `entities` were created, in order, each
/// with its components.
pub open spec fn loaded<C>(state: WorldState<C>, entities: Seq<EntityData<C>>) -> WorldState<C>
    decreases entities.len(),
{
    if entities.len() == 0 {
        state
    } else {
        spawned(loaded(state, entities.drop_last()), entities.last())
    }
}

/// Attaching components changes nothing about which entities exist.
pub proof fn lemma_attached_keeps_pool<C>(
    state: WorldState<C>,
    entity: EntityId,
    components: Seq<(ComponentId, C)>,
)
    ensures
        attached(state, entity, components).pool == state.pool,
    decreases components.len(),
{
    if components.len() > 0 {
        lemma_attached_keeps_pool(state, entity, components.drop_last());
    }
}

/// Every loaded entity takes one unit of the room that the allocator has.
pub proof fn lemma_loaded_room<C>(state: WorldState<C>, entities: Seq<EntityData<C>>)
    requires
        state.wf(),
        entities.len() <= state.pool.room(),
    ensures
        loaded(state, entities).pool.wf(),
        loaded(state, entities).pool.room() == state.pool.room() - entities.len(),
    decreases entities.len(),
{
    if entities.len() > 0 {
        let before = loaded(state, entities.drop_last());
        lemma_loaded_room(state, entities.drop_last());
        before.pool.lemma_create();
        lemma_attached_keeps_pool(
            before.create(),
            before.pool.next_created(),
            entities.last().components@,
        );
    }
}

/// Creates an entity in `world` and attaches the components of `data` to
/// it, in order. Returns the entity's id.
pub fn create_entity_from_data<C: Component>(world: &mut World<C>, data: EntityData<C>) -> (entity:
    EntityId)
    requires
        old(world).wf(),
        old(world)@.pool.can_create(),
    ensures
        final(world).wf(),
        entity == old(world)@.pool.next_created(),
        final(world)@ == spawned(old(world)@, data),
{
    let entity = world.create_entity();
    let ghost all = data.components@;
    let mut rest = reversed(data.components);
    while rest.len() > 0
        invariant
            world.wf(),
            rest@.len() <= all.len(),
            rest@ == all.reverse().take(rest@.len() as int),
            world@ == attached(
                old(world)@.create(),
                entity,
                all.take(all.len() - rest@.len()),
            ),
        decreases rest@.len(),
    {
        let ghost done = all.take(all.len() - rest@.len());
        let ghost top = rest@.len() - 1;
        match rest.pop() {
            Some((kind, component)) => {
                proof {
                    assert((kind, component) == all.reverse().take(top + 1)[top]);
                    assert((kind, component) == all[all.len() - 1 - top]);
                    let next = all.take(all.len() - rest@.len());
                    assert(next.drop_last() =~= done);
                    assert(next.last() == (kind, component));
                }
                world.add_component(kind, entity, component);
            },
            None => {},
        }
        assert(rest@ =~= all.reverse().take(rest@.len() as int));
    }
    assert(all.take(all.len() as int) =~= all);
    entity
}

/// Registers the systems of `game` in `schedule`, in order, and creates
/// its entities in `world`, in order, each with its components. Returns
/// the ids of the created entities.
pub fn load_compiled_game<C: Component, P: Physics, D: Copy>(
    world: &mut World<C>,
    schedule: &mut SystemSchedule<C, P, D>,
    game: CompiledGame<C, P, D>,
) -> (ids: Vec<EntityId>)
    requires
        old(world).wf(),
        game.entities@.len() <= old(world)@.pool.room(),
    ensures
        final(world).wf(),
        final(world)@ == loaded(old(world)@, game.entities@),
        final(schedule).systems() == old(schedule).systems() + game.systems@,
        final(schedule).groups() == old(schedule).groups(),
        ids@.len() == game.entities@.len(),
        forall|i: int|
            0 <= i < ids@.len() ==> #[trigger] ids@[i] == loaded(
                old(world)@,
                game.entities@.take(i),
            ).pool.next_created(),
{
    let ghost all_entities = game.entities@;
    schedule.add_systems(game.systems);
    let mut entities = reversed(game.entities);
    let mut ids: Vec<EntityId> = Vec::new();
    assert(all_entities.take(0) =~= Seq::empty());
    while entities.len() > 0
        invariant
            world.wf(),
            old(world).wf(),
            all_entities.len() <= old(world)@.pool.room(),
            entities@.len() <= all_entities.len(),
            entities@ == all_entities.reverse().take(entities@.len() as int),
            ids@.len() == all_entities.len() - entities@.len(),
            world@ == loaded(old(world)@, all_entities.take(ids@.len() as int)),
            forall|i: int|
                0 <= i < ids@.len() ==> #[trigger] ids@[i] == loaded(
                    old(world)@,
                    all_entities.take(i),
                ).pool.next_created(),
        decreases entities@.len(),
    {
        let ghost top = entities@.len() - 1;
        let ghost count = ids@.len() as int;
        let ghost done = all_entities.take(count);
        match entities.pop() {
            Some(data) => {
                proof {
                    old(world).lemma_view_wf();
                    lemma_loaded_room(old(world)@, done);
                    assert(data == all_entities.reverse().take(top + 1)[top]);
                    assert(data == all_entities[count]);
                    let next = all_entities.take(count + 1);
                    assert(next.drop_last() =~= done);
                    assert(next.last() == data);
                }
                let entity = create_entity_from_data(world, data);
                ids.push(entity);
            },
            None => {},
        }
        assert(entities@ =~= all_entities.reverse().take(entities@.len() as int));
    }
    assert(all_entities.take(all_entities.len() as int) =~= all_entities);
    ids
}

} // verus!
