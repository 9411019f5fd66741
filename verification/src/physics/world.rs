use crate::ecs::Column;
use crate::ecs::Component;
use crate::ecs::EntityId;
use crate::ecs::Physics;
use crate::ecs::TypedComponentVec;
use super::broad_phase::broad_phase_pairs;
use super::broad_phase::candidate_pairs;
use super::rigid_body::BodyType;
use vstd::prelude::*;

verus! {

/// A rigid body: how it takes part in the simulation, and its state of
/// motion, of a type `B` that the arithmetic of the simulation defines.
#[derive(Debug, Clone)]
pub struct RigidBody<B> {
    pub body_type: BodyType,
    pub state: B,
}

impl<B: Send + Sync + 'static> Component for RigidBody<B> {}

/// A collision that the narrow phase confirmed: the two entities, and the
/// contact between them, of a type `C` that the arithmetic defines.
#[derive(Debug, Clone)]
pub struct CollisionEvent<C> {
    pub entity_a: EntityId,
    pub entity_b: EntityId,
    pub contact: C,
}

/// Mathematical state of a physics world.
pub struct PhysicsState<B, S, C, G> {
    pub bodies: Column<RigidBody<B>>,
    pub colliders: Column<S>,
    pub pairs: Seq<(EntityId, EntityId)>,
    pub events: Seq<CollisionEvent<C>>,
    pub settings: G,
}

impl<B, S, C, G> PhysicsState<B, S, C, G> {
    /// The type of the body of `entity`, if it has a body.
    pub open spec fn body_type_of(self, entity: EntityId) -> Option<BodyType> {
        match self.bodies.get(entity) {
            Some(body) => Some(body.body_type),
            None => None,
        }
    }

    /// The colliders in dense order, each with the type of its entity's
    /// body: what the broad phase chooses its pairs from.
    pub open spec fn collider_slots(self) -> Seq<(EntityId, Option<BodyType>)> {
        Seq::new(
            self.colliders.len(),
            |i: int| (self.colliders.entities[i], self.body_type_of(self.colliders.entities[i])),
        )
    }
}

/// From `before` to `after`, every body kept its slot and its type, and no
/// body that is not dynamic changed: a static body is where it was, as it
/// was.
pub open spec fn spares_fixed<B>(
    before: Column<RigidBody<B>>,
    after: Column<RigidBody<B>>,
) -> bool {
    &&& after.entities == before.entities
    &&& after.values.len() == before.values.len()
    &&& forall|i: int|
        0 <= i < before.values.len() ==> {
            &&& (#[trigger] after.values[i]).body_type == before.values[i].body_type
            &&& before.values[i].body_type != BodyType::Dynamic ==> after.values[i]
                == before.values[i]
        }
}

/// Changes that spare the bodies that are not dynamic do so one after the
/// other too, however many they are: across any number of phases and
/// ticks, a static body never changes.
pub proof fn lemma_spares_fixed_chain<B>(stages: Seq<Column<RigidBody<B>>>)
    requires
        stages.len() > 0,
        forall|k: int|
            0 <= k < stages.len() - 1 ==> spares_fixed(#[trigger] stages[k], stages[k + 1]),
    ensures
        spares_fixed(stages.first(), stages.last()),
    decreases stages.len(),
{
    if stages.len() > 1 {
        let front = stages.drop_last();
        assert forall|k: int| 0 <= k < front.len() - 1 implies spares_fixed(
            #[trigger] front[k],
            front[k + 1],
        ) by {
            assert(spares_fixed(stages[k], stages[k + 1]));
        }
        lemma_spares_fixed_chain(front);
        let n = stages.len() as int;
        assert(spares_fixed(stages[n - 2], stages[n - 1]));
        assert(front.last() == stages[n - 2]);
        assert forall|i: int| 0 <= i < stages.first().values.len() implies {
            &&& (#[trigger] stages.last().values[i]).body_type
                == stages.first().values[i].body_type
            &&& stages.first().values[i].body_type != BodyType::Dynamic
                ==> stages.last().values[i] == stages.first().values[i]
        } by {
            assert(stages[n - 2].values[i].body_type == stages.first().values[i].body_type);
        }
    }
}

/// `after` is `before` with a motion applied to every dynamic body: each
/// body keeps its slot and its type, the state of a dynamic body is one
/// that `motion` gives for its old state, and a body that is not dynamic is
/// unchanged.
pub open spec fn moved<B, F: Fn(&B) -> B>(
    before: Column<RigidBody<B>>,
    motion: F,
    after: Column<RigidBody<B>>,
) -> bool {
    &&& spares_fixed(before, after)
    &&& forall|i: int|
        0 <= i < before.values.len() && (#[trigger] before.values[i]).body_type
            == BodyType::Dynamic ==> call_ensures(
            motion,
            (&before.values[i].state,),
            after.values[i].state,
        )
}

/// The body of `entity` in `bodies` as the arithmetic is shown it.
pub open spec fn body_of<'a, B>(bodies: Column<RigidBody<B>>, entity: EntityId) -> Option<
    &'a RigidBody<B>,
> {
    if bodies.has(entity) {
        Some(&bodies.values[bodies.slot_of(entity)])
    } else {
        None
    }
}

/// The pairs of `candidates` whose verdict is `true`, in order.
pub open spec fn picked(candidates: Seq<(EntityId, EntityId)>, verdicts: Seq<bool>) -> Seq<
    (EntityId, EntityId),
>
    decreases candidates.len(),
{
    if candidates.len() == 0 {
        Seq::empty()
    } else if verdicts.last() {
        picked(candidates.drop_last(), verdicts.drop_last()).push(candidates.last())
    } else {
        picked(candidates.drop_last(), verdicts.drop_last())
    }
}

/// `verdicts` holds, for each pair of `candidates`, an answer that
/// `overlap` gives when it is shown the two colliders and their bodies.
pub open spec fn judged<B, S, F: Fn(&S, Option<&RigidBody<B>>, &S, Option<&RigidBody<B>>) -> bool>(
    bodies: Column<RigidBody<B>>,
    colliders: Column<S>,
    candidates: Seq<(EntityId, EntityId)>,
    overlap: F,
    verdicts: Seq<bool>,
) -> bool {
    &&& verdicts.len() == candidates.len()
    &&& forall|k: int|
        0 <= k < candidates.len() ==> call_ensures(
            overlap,
            (
                &colliders.values[colliders.slot_of(candidates[k].0)],
                body_of(bodies, candidates[k].0),
                &colliders.values[colliders.slot_of(candidates[k].1)],
                body_of(bodies, candidates[k].1),
            ),
            #[trigger] verdicts[k],
        )
}

/// Whether both entities of a pair have a body and a collider, so that the
/// narrow phase can examine the pair.
pub open spec fn examinable<B, S>(
    bodies: Column<RigidBody<B>>,
    colliders: Column<S>,
    pair: (EntityId, EntityId),
) -> bool {
    &&& bodies.has(pair.0)
    &&& bodies.has(pair.1)
    &&& colliders.has(pair.0)
    &&& colliders.has(pair.1)
}

/// The collisions that `outcomes` confirms among `pairs`, in order: one
/// for each pair whose outcome is a contact.
pub open spec fn confirmed<C>(pairs: Seq<(EntityId, EntityId)>, outcomes: Seq<Option<C>>) -> Seq<
    CollisionEvent<C>,
>
    decreases pairs.len(),
{
    if pairs.len() == 0 {
        Seq::empty()
    } else {
        match outcomes.last() {
            Some(contact) => confirmed(pairs.drop_last(), outcomes.drop_last()).push(
                CollisionEvent { entity_a: pairs.last().0, entity_b: pairs.last().1, contact },
            ),
            None => confirmed(pairs.drop_last(), outcomes.drop_last()),
        }
    }
}

/// `outcomes` holds, for each pair of `pairs`, an answer that `contact`
/// gives when it is shown the two bodies and colliders, and no contact for
/// a pair that lacks a body or a collider.
pub open spec fn examined<B, S, C, F: Fn(&RigidBody<B>, &S, &RigidBody<B>, &S) -> Option<C>>(
    bodies: Column<RigidBody<B>>,
    colliders: Column<S>,
    pairs: Seq<(EntityId, EntityId)>,
    contact: F,
    outcomes: Seq<Option<C>>,
) -> bool {
    &&& outcomes.len() == pairs.len()
    &&& forall|k: int|
        0 <= k < pairs.len() ==> if examinable(bodies, colliders, pairs[k]) {
            call_ensures(
                contact,
                (
                    &bodies.values[bodies.slot_of(pairs[k].0)],
                    &colliders.values[colliders.slot_of(pairs[k].0)],
                    &bodies.values[bodies.slot_of(pairs[k].1)],
                    &colliders.values[colliders.slot_of(pairs[k].1)],
                ),
                #[trigger] outcomes[k],
            )
        } else {
            (#[trigger] outcomes[k]) is None
        }
}

/// Where no candidate is judged to overlap, the broad phase keeps no pair.
pub proof fn lemma_none_picked(candidates: Seq<(EntityId, EntityId)>, verdicts: Seq<bool>)
    requires
        verdicts.len() == candidates.len(),
        forall|k: int| 0 <= k < verdicts.len() ==> !verdicts[k],
    ensures
        picked(candidates, verdicts) == Seq::<(EntityId, EntityId)>::empty(),
    decreases candidates.len(),
{
    if candidates.len() > 0 {
        lemma_none_picked(candidates.drop_last(), verdicts.drop_last());
    }
}

/// Where no pair is left, the narrow phase confirms no collision,
/// whatever it confirmed before.
pub proof fn lemma_none_confirmed<C>(pairs: Seq<(EntityId, EntityId)>, outcomes: Seq<Option<C>>)
    requires
        pairs.len() == 0,
    ensures
        confirmed(pairs, outcomes) == Seq::<CollisionEvent<C>>::empty(),
{
}

/// A tick in which no two colliders overlap ends without collisions: when
/// `overlap` answers no for every pair it is shown, the broad phase keeps
/// no pair and the narrow phase confirms no collision, whatever the lists
/// held before.
pub proof fn lemma_no_overlap_no_events<
    B,
    S,
    C,
    F: Fn(&S, Option<&RigidBody<B>>, &S, Option<&RigidBody<B>>) -> bool,
    K: Fn(&RigidBody<B>, &S, &RigidBody<B>, &S) -> Option<C>,
>(
    bodies: Column<RigidBody<B>>,
    colliders: Column<S>,
    candidates: Seq<(EntityId, EntityId)>,
    overlap: F,
    verdicts: Seq<bool>,
    contact: K,
    outcomes: Seq<Option<C>>,
)
    requires
        judged(bodies, colliders, candidates, overlap, verdicts),
        forall|a: &S, body_a: Option<&RigidBody<B>>, b: &S, body_b: Option<&RigidBody<B>>, v: bool|
            call_ensures(overlap, (a, body_a, b, body_b), v) ==> !v,
        examined(bodies, colliders, picked(candidates, verdicts), contact, outcomes),
    ensures
        picked(candidates, verdicts) == Seq::<(EntityId, EntityId)>::empty(),
        confirmed(picked(candidates, verdicts), outcomes) == Seq::<CollisionEvent<C>>::empty(),
{
    assert forall|k: int| 0 <= k < verdicts.len() implies !verdicts[k] by {
        assert(call_ensures(
            overlap,
            (
                &colliders.values[colliders.slot_of(candidates[k].0)],
                body_of(bodies, candidates[k].0),
                &colliders.values[colliders.slot_of(candidates[k].1)],
                body_of(bodies, candidates[k].1),
            ),
            verdicts[k],
        ));
    }
    lemma_none_picked(candidates, verdicts);
    lemma_none_confirmed(picked(candidates, verdicts), outcomes);
}

/// Whether the solver takes up a collision: both entities have a body,
/// and the two bodies are not both static.
pub open spec fn solvable<B, C>(bodies: Column<RigidBody<B>>, event: CollisionEvent<C>) -> bool {
    &&& bodies.has(event.entity_a)
    &&& bodies.has(event.entity_b)
    &&& !(bodies.values[bodies.slot_of(event.entity_a)].body_type == BodyType::Static
        && bodies.values[bodies.slot_of(event.entity_b)].body_type == BodyType::Static)
}

/// The bodies after `entity` got the state `state`, if its body is
/// dynamic; unchanged otherwise.
pub open spec fn pushed<B>(bodies: Column<RigidBody<B>>, entity: EntityId, state: B) -> Column<
    RigidBody<B>,
> {
    if bodies.has(entity) && bodies.values[bodies.slot_of(entity)].body_type
        == BodyType::Dynamic {
        bodies.insert(entity, RigidBody { body_type: BodyType::Dynamic, state })
    } else {
        bodies
    }
}

/// Whether resolving `event` with `resolve` can take the bodies from
/// `before` to `after`: a collision that the solver does not take up
/// changes nothing; for one that it takes up, `resolve` is shown the two
/// bodies and the contact, and the states it answers with go to the bodies
/// that are dynamic, the first entity's first.
pub open spec fn resolved<B, C, F: Fn(&RigidBody<B>, &RigidBody<B>, &C) -> Option<(B, B)>>(
    before: Column<RigidBody<B>>,
    event: CollisionEvent<C>,
    resolve: F,
    after: Column<RigidBody<B>>,
) -> bool {
    if solvable(before, event) {
        exists|answer: Option<(B, B)>|
            {
                &&& #[trigger] call_ensures(
                    resolve,
                    (
                        &before.values[before.slot_of(event.entity_a)],
                        &before.values[before.slot_of(event.entity_b)],
                        &event.contact,
                    ),
                    answer,
                )
                &&& after == (match answer {
                    Some((state_a, state_b)) => pushed(
                        pushed(before, event.entity_a, state_a),
                        event.entity_b,
                        state_b,
                    ),
                    None => before,
                })
            }
    } else {
        after == before
    }
}

/// `stages` are the bodies as the solver goes through `events`: each
/// collision takes the bodies at its position to the bodies at the next.
pub open spec fn solved<B, C, F: Fn(&RigidBody<B>, &RigidBody<B>, &C) -> Option<(B, B)>>(
    events: Seq<CollisionEvent<C>>,
    resolve: F,
    stages: Seq<Column<RigidBody<B>>>,
) -> bool {
    &&& stages.len() == events.len() + 1
    &&& forall|k: int|
        0 <= k < events.len() ==> resolved(#[trigger] stages[k], events[k], resolve, stages[k + 1])
}

/// Setting the state of a dynamic body keeps the bodies well formed, keeps
/// every body in its slot with its type, and changes no body that is not
/// dynamic.
pub proof fn lemma_pushed<B>(bodies: Column<RigidBody<B>>, entity: EntityId, state: B)
    requires
        bodies.wf(),
    ensures
        pushed(bodies, entity, state).wf(),
        spares_fixed(bodies, pushed(bodies, entity, state)),
{
    bodies.lemma_insert(entity, RigidBody { body_type: BodyType::Dynamic, state });
    if bodies.has(entity) {
        bodies.lemma_slot_in_range(entity);
    }
}

/// Resolving a collision keeps the bodies well formed, keeps every body in
/// its slot with its type, and changes no body that is not dynamic.
pub proof fn lemma_resolved<B, C, F: Fn(&RigidBody<B>, &RigidBody<B>, &C) -> Option<(B, B)>>(
    before: Column<RigidBody<B>>,
    event: CollisionEvent<C>,
    resolve: F,
    after: Column<RigidBody<B>>,
)
    requires
        before.wf(),
        resolved(before, event, resolve, after),
    ensures
        after.wf(),
        spares_fixed(before, after),
{
    if solvable(before, event) {
        let answer = choose|answer: Option<(B, B)>|
            {
                &&& #[trigger] call_ensures(
                    resolve,
                    (
                        &before.values[before.slot_of(event.entity_a)],
                        &before.values[before.slot_of(event.entity_b)],
                        &event.contact,
                    ),
                    answer,
                )
                &&& after == (match answer {
                    Some((state_a, state_b)) => pushed(
                        pushed(before, event.entity_a, state_a),
                        event.entity_b,
                        state_b,
                    ),
                    None => before,
                })
            };
        match answer {
            Some((state_a, state_b)) => {
                let between = pushed(before, event.entity_a, state_a);
                lemma_pushed(before, event.entity_a, state_a);
                lemma_pushed(between, event.entity_b, state_b);
                lemma_spares_fixed_chain(seq![before, between, after]);
            },
            None => {},
        }
    }
}

/// Whatever the solver does with whatever collisions, the bodies stay well
/// formed, every body stays in its slot with its type, and no body that is
/// not dynamic changes: a static body is where it was, as it was.
pub proof fn lemma_solved_spares_static<
    B,
    C,
    F: Fn(&RigidBody<B>, &RigidBody<B>, &C) -> Option<(B, B)>,
>(events: Seq<CollisionEvent<C>>, resolve: F, stages: Seq<Column<RigidBody<B>>>)
    requires
        stages.first().wf(),
        solved(events, resolve, stages),
    ensures
        stages.last().wf(),
        spares_fixed(stages.first(), stages.last()),
    decreases events.len(),
{
    if events.len() > 0 {
        let n = events.len() as int;
        let front = stages.drop_last();
        assert(solved(events.drop_last(), resolve, front)) by {
            assert forall|k: int| 0 <= k < n - 1 implies resolved(
                #[trigger] front[k],
                events.drop_last()[k],
                resolve,
                front[k + 1],
            ) by {
                assert(resolved(stages[k], events[k], resolve, stages[k + 1]));
            }
        }
        lemma_solved_spares_static(events.drop_last(), resolve, front);
        assert(front.last() == stages[n - 1]);
        assert(resolved(stages[n - 1], events[n - 1], resolve, stages[n]));
        lemma_resolved(stages[n - 1], events[n - 1], resolve, stages[n]);
        lemma_spares_fixed_chain(seq![stages.first(), stages[n - 1], stages[n]]);
    }
}

/// The steps of one tick from `before` to `after`, with what each phase
/// went through: forces moved the dynamic bodies to `accelerated`; the
/// broad phase judged the candidate pairs as `verdicts` says; the narrow
/// phase examined the pairs it was left with as `outcomes` says; the solver
/// took the bodies through `stages`; and the motion of the velocities moved
/// the dynamic bodies to where they are in `after`.
pub open spec fn tick_steps<
    B,
    S,
    C,
    G,
    F1: Fn(&B) -> B,
    F2: Fn(&S, Option<&RigidBody<B>>, &S, Option<&RigidBody<B>>) -> bool,
    F3: Fn(&RigidBody<B>, &S, &RigidBody<B>, &S) -> Option<C>,
    F4: Fn(&RigidBody<B>, &RigidBody<B>, &C) -> Option<(B, B)>,
    F5: Fn(&B) -> B,
>(
    before: PhysicsState<B, S, C, G>,
    forces: F1,
    overlap: F2,
    contact: F3,
    resolve: F4,
    motion: F5,
    accelerated: Column<RigidBody<B>>,
    verdicts: Seq<bool>,
    outcomes: Seq<Option<C>>,
    stages: Seq<Column<RigidBody<B>>>,
    after: PhysicsState<B, S, C, G>,
) -> bool {
    let candidates = candidate_pairs(
        (PhysicsState { bodies: accelerated, ..before }).collider_slots(),
    );
    &&& moved(before.bodies, forces, accelerated)
    &&& judged(accelerated, before.colliders, candidates, overlap, verdicts)
    &&& after.pairs == picked(candidates, verdicts)
    &&& examined(accelerated, before.colliders, after.pairs, contact, outcomes)
    &&& after.events == confirmed(after.pairs, outcomes)
    &&& solved(after.events, resolve, stages)
    &&& stages.first() == accelerated
    &&& moved(stages.last(), motion, after.bodies)
    &&& after.colliders == before.colliders
    &&& after.settings == before.settings
}

/// One tick can take the world from `before` to `after`: the pairs and
/// collisions of the tick before are dropped, forces act on the
/// velocities, the broad phase and the narrow phase find the collisions,
/// the solver resolves them, and the velocities act on the positions, in
/// this order.
pub open spec fn ticked<
    B,
    S,
    C,
    G,
    F1: Fn(&B) -> B,
    F2: Fn(&S, Option<&RigidBody<B>>, &S, Option<&RigidBody<B>>) -> bool,
    F3: Fn(&RigidBody<B>, &S, &RigidBody<B>, &S) -> Option<C>,
    F4: Fn(&RigidBody<B>, &RigidBody<B>, &C) -> Option<(B, B)>,
    F5: Fn(&B) -> B,
>(
    before: PhysicsState<B, S, C, G>,
    forces: F1,
    overlap: F2,
    contact: F3,
    resolve: F4,
    motion: F5,
    after: PhysicsState<B, S, C, G>,
) -> bool {
    exists|
        accelerated: Column<RigidBody<B>>,
        verdicts: Seq<bool>,
        outcomes: Seq<Option<C>>,
        stages: Seq<Column<RigidBody<B>>>,
    |
        #[trigger] tick_steps(
            before,
            forces,
            overlap,
            contact,
            resolve,
            motion,
            accelerated,
            verdicts,
            outcomes,
            stages,
            after,
        )
}

/// `states` are the states that a run of ticks goes through, one tick
/// after the other, each with the same arithmetic.
pub open spec fn ticks<
    B,
    S,
    C,
    G,
    F1: Fn(&B) -> B,
    F2: Fn(&S, Option<&RigidBody<B>>, &S, Option<&RigidBody<B>>) -> bool,
    F3: Fn(&RigidBody<B>, &S, &RigidBody<B>, &S) -> Option<C>,
    F4: Fn(&RigidBody<B>, &RigidBody<B>, &C) -> Option<(B, B)>,
    F5: Fn(&B) -> B,
>(
    states: Seq<PhysicsState<B, S, C, G>>,
    forces: F1,
    overlap: F2,
    contact: F3,
    resolve: F4,
    motion: F5,
) -> bool {
    &&& states.len() > 0
    &&& forall|k: int|
        0 <= k < states.len() - 1 ==> ticked(
            #[trigger] states[k],
            forces,
            overlap,
            contact,
            resolve,
            motion,
            states[k + 1],
        )
}

/// Ticks made in one run and ticks made in runs one after the other go
/// through the same states: a run that ends where another starts makes,
/// with it, one run of all their ticks.
pub proof fn lemma_ticks_compose<
    B,
    S,
    C,
    G,
    F1: Fn(&B) -> B,
    F2: Fn(&S, Option<&RigidBody<B>>, &S, Option<&RigidBody<B>>) -> bool,
    F3: Fn(&RigidBody<B>, &S, &RigidBody<B>, &S) -> Option<C>,
    F4: Fn(&RigidBody<B>, &RigidBody<B>, &C) -> Option<(B, B)>,
    F5: Fn(&B) -> B,
>(
    first: Seq<PhysicsState<B, S, C, G>>,
    second: Seq<PhysicsState<B, S, C, G>>,
    forces: F1,
    overlap: F2,
    contact: F3,
    resolve: F4,
    motion: F5,
)
    requires
        ticks(first, forces, overlap, contact, resolve, motion),
        ticks(second, forces, overlap, contact, resolve, motion),
        first.last() == second.first(),
    ensures
        ticks(first + second.drop_first(), forces, overlap, contact, resolve, motion),
        (first + second.drop_first()).first() == first.first(),
        (first + second.drop_first()).last() == second.last(),
{
    let all = first + second.drop_first();
    assert forall|k: int| 0 <= k < all.len() - 1 implies ticked(
        #[trigger] all[k],
        forces,
        overlap,
        contact,
        resolve,
        motion,
        all[k + 1],
    ) by {
        if k < first.len() - 1 {
            assert(ticked(first[k], forces, overlap, contact, resolve, motion, first[k + 1]));
        } else {
            let j = k - (first.len() - 1);
            assert(ticked(second[j], forces, overlap, contact, resolve, motion, second[j + 1]));
            assert(all[k + 1] == second[j + 1]);
            if j == 0 {
                assert(all[k] == first.last());
            } else {
                assert(all[k] == second[j]);
            }
        }
    }
}

/// The motion gives one state for each state it is shown.
pub open spec fn motion_is_function<B, F: Fn(&B) -> B>(motion: F) -> bool {
    forall|state: &B, one: B, other: B|
        call_ensures(motion, (state,), one) && call_ensures(motion, (state,), other) ==> one
            == other
}

/// The overlap test gives one answer for each pair it is shown.
pub open spec fn overlap_is_function<
    B,
    S,
    F: Fn(&S, Option<&RigidBody<B>>, &S, Option<&RigidBody<B>>) -> bool,
>(overlap: F) -> bool {
    forall|
        a: &S,
        body_a: Option<&RigidBody<B>>,
        b: &S,
        body_b: Option<&RigidBody<B>>,
        one: bool,
        other: bool,
    |
        call_ensures(overlap, (a, body_a, b, body_b), one) && call_ensures(
            overlap,
            (a, body_a, b, body_b),
            other,
        ) ==> one == other
}

/// The contact test gives one answer for each pair it is shown.
pub open spec fn contact_is_function<
    B,
    S,
    C,
    F: Fn(&RigidBody<B>, &S, &RigidBody<B>, &S) -> Option<C>,
>(contact: F) -> bool {
    forall|
        a: &RigidBody<B>,
        shape_a: &S,
        b: &RigidBody<B>,
        shape_b: &S,
        one: Option<C>,
        other: Option<C>,
    |
        call_ensures(contact, (a, shape_a, b, shape_b), one) && call_ensures(
            contact,
            (a, shape_a, b, shape_b),
            other,
        ) ==> one == other
}

/// The resolution gives one answer for each collision it is shown.
pub open spec fn resolve_is_function<
    B,
    C,
    F: Fn(&RigidBody<B>, &RigidBody<B>, &C) -> Option<(B, B)>,
>(resolve: F) -> bool {
    forall|
        a: &RigidBody<B>,
        b: &RigidBody<B>,
        touch: &C,
        one: Option<(B, B)>,
        other: Option<(B, B)>,
    |
        call_ensures(resolve, (a, b, touch), one) && call_ensures(resolve, (a, b, touch), other)
            ==> one == other
}

/// A motion that gives one state for each state moves the bodies in one
/// way only.
pub proof fn lemma_moved_determined<B, F: Fn(&B) -> B>(
    before: Column<RigidBody<B>>,
    motion: F,
    one: Column<RigidBody<B>>,
    other: Column<RigidBody<B>>,
)
    requires
        motion_is_function(motion),
        moved(before, motion, one),
        moved(before, motion, other),
    ensures
        one == other,
{
    assert forall|i: int| 0 <= i < one.values.len() implies one.values[i] == other.values[i] by {
        assert(one.values[i].body_type == before.values[i].body_type);
        assert(other.values[i].body_type == before.values[i].body_type);
        if before.values[i].body_type == BodyType::Dynamic {
            assert(call_ensures(motion, (&before.values[i].state,), one.values[i].state));
            assert(call_ensures(motion, (&before.values[i].state,), other.values[i].state));
        }
    }
    assert(one.values =~= other.values);
}

/// A resolution that gives one answer for each collision takes the solver
/// through one sequence of stages only.
pub proof fn lemma_solved_determined<
    B,
    C,
    F: Fn(&RigidBody<B>, &RigidBody<B>, &C) -> Option<(B, B)>,
>(
    events: Seq<CollisionEvent<C>>,
    resolve: F,
    one: Seq<Column<RigidBody<B>>>,
    other: Seq<Column<RigidBody<B>>>,
)
    requires
        resolve_is_function(resolve),
        solved(events, resolve, one),
        solved(events, resolve, other),
        one.first() == other.first(),
    ensures
        one == other,
{
    assert forall|k: int| 0 <= k < one.len() implies one[k] == other[k] by {
        lemma_stage_determined(events, resolve, one, other, k);
    }
    assert(one =~= other);
}

/// Two runs of the solver from the same bodies agree at every stage.
proof fn lemma_stage_determined<B, C, F: Fn(&RigidBody<B>, &RigidBody<B>, &C) -> Option<(B, B)>>(
    events: Seq<CollisionEvent<C>>,
    resolve: F,
    one: Seq<Column<RigidBody<B>>>,
    other: Seq<Column<RigidBody<B>>>,
    k: int,
)
    requires
        resolve_is_function(resolve),
        solved(events, resolve, one),
        solved(events, resolve, other),
        one.first() == other.first(),
        0 <= k < one.len(),
    ensures
        one[k] == other[k],
    decreases k,
{
    if k > 0 {
        lemma_stage_determined(events, resolve, one, other, k - 1);
        let before = one[k - 1];
        let event = events[k - 1];
        assert(resolved(one[k - 1], event, resolve, one[k]));
        assert(resolved(other[k - 1], event, resolve, other[k]));
        if solvable(before, event) {
            let answer_one = choose|answer: Option<(B, B)>|
                {
                    &&& #[trigger] call_ensures(
                        resolve,
                        (
                            &before.values[before.slot_of(event.entity_a)],
                            &before.values[before.slot_of(event.entity_b)],
                            &event.contact,
                        ),
                        answer,
                    )
                    &&& one[k] == (match answer {
                        Some((state_a, state_b)) => pushed(
                            pushed(before, event.entity_a, state_a),
                            event.entity_b,
                            state_b,
                        ),
                        None => before,
                    })
                };
            let answer_other = choose|answer: Option<(B, B)>|
                {
                    &&& #[trigger] call_ensures(
                        resolve,
                        (
                            &before.values[before.slot_of(event.entity_a)],
                            &before.values[before.slot_of(event.entity_b)],
                            &event.contact,
                        ),
                        answer,
                    )
                    &&& other[k] == (match answer {
                        Some((state_a, state_b)) => pushed(
                            pushed(before, event.entity_a, state_a),
                            event.entity_b,
                            state_b,
                        ),
                        None => before,
                    })
                };
            assert(answer_one == answer_other);
        }
    }
}

/// Equal states and equal arithmetic give equal results: when each piece
/// of the arithmetic gives one answer for whatever it is shown, a tick
/// from a given state can end in one state only.
pub proof fn lemma_tick_determined<
    B,
    S,
    C,
    G,
    F1: Fn(&B) -> B,
    F2: Fn(&S, Option<&RigidBody<B>>, &S, Option<&RigidBody<B>>) -> bool,
    F3: Fn(&RigidBody<B>, &S, &RigidBody<B>, &S) -> Option<C>,
    F4: Fn(&RigidBody<B>, &RigidBody<B>, &C) -> Option<(B, B)>,
    F5: Fn(&B) -> B,
>(
    before: PhysicsState<B, S, C, G>,
    forces: F1,
    overlap: F2,
    contact: F3,
    resolve: F4,
    motion: F5,
    one: PhysicsState<B, S, C, G>,
    other: PhysicsState<B, S, C, G>,
)
    requires
        motion_is_function(forces),
        overlap_is_function(overlap),
        contact_is_function(contact),
        resolve_is_function(resolve),
        motion_is_function(motion),
        ticked(before, forces, overlap, contact, resolve, motion, one),
        ticked(before, forces, overlap, contact, resolve, motion, other),
    ensures
        one == other,
{
    let (acc1, verdicts1, outcomes1, stages1) = choose|
        accelerated: Column<RigidBody<B>>,
        verdicts: Seq<bool>,
        outcomes: Seq<Option<C>>,
        stages: Seq<Column<RigidBody<B>>>,
    |
        #[trigger] tick_steps(
            before,
            forces,
            overlap,
            contact,
            resolve,
            motion,
            accelerated,
            verdicts,
            outcomes,
            stages,
            one,
        );
    let (acc2, verdicts2, outcomes2, stages2) = choose|
        accelerated: Column<RigidBody<B>>,
        verdicts: Seq<bool>,
        outcomes: Seq<Option<C>>,
        stages: Seq<Column<RigidBody<B>>>,
    |
        #[trigger] tick_steps(
            before,
            forces,
            overlap,
            contact,
            resolve,
            motion,
            accelerated,
            verdicts,
            outcomes,
            stages,
            other,
        );
    lemma_moved_determined(before.bodies, forces, acc1, acc2);
    let candidates = candidate_pairs((PhysicsState { bodies: acc1, ..before }).collider_slots());
    assert forall|k: int| 0 <= k < verdicts1.len() implies verdicts1[k] == verdicts2[k] by {
        let args = (
            &before.colliders.values[before.colliders.slot_of(candidates[k].0)],
            body_of(acc1, candidates[k].0),
            &before.colliders.values[before.colliders.slot_of(candidates[k].1)],
            body_of(acc1, candidates[k].1),
        );
        assert(call_ensures(overlap, args, verdicts1[k]));
        assert(call_ensures(overlap, args, verdicts2[k]));
    }
    assert(verdicts1 =~= verdicts2);
    assert(one.pairs == other.pairs);
    assert forall|k: int| 0 <= k < outcomes1.len() implies outcomes1[k] == outcomes2[k] by {
        if examinable(acc1, before.colliders, one.pairs[k]) {
            let args = (
                &acc1.values[acc1.slot_of(one.pairs[k].0)],
                &before.colliders.values[before.colliders.slot_of(one.pairs[k].0)],
                &acc1.values[acc1.slot_of(one.pairs[k].1)],
                &before.colliders.values[before.colliders.slot_of(one.pairs[k].1)],
            );
            assert(call_ensures(contact, args, outcomes1[k]));
            assert(call_ensures(contact, args, outcomes2[k]));
        }
    }
    assert(outcomes1 =~= outcomes2);
    assert(one.events == other.events);
    lemma_solved_determined(one.events, resolve, stages1, stages2);
    lemma_moved_determined(stages1.last(), motion, one.bodies, other.bodies);
}

/// However many ticks are made, equal states and equal arithmetic give
/// equal results: two runs of the same number of ticks from one state go
/// through the same states, whether the ticks are made in one step or in
/// several.
pub proof fn lemma_ticks_determined<
    B,
    S,
    C,
    G,
    F1: Fn(&B) -> B,
    F2: Fn(&S, Option<&RigidBody<B>>, &S, Option<&RigidBody<B>>) -> bool,
    F3: Fn(&RigidBody<B>, &S, &RigidBody<B>, &S) -> Option<C>,
    F4: Fn(&RigidBody<B>, &RigidBody<B>, &C) -> Option<(B, B)>,
    F5: Fn(&B) -> B,
>(
    one: Seq<PhysicsState<B, S, C, G>>,
    other: Seq<PhysicsState<B, S, C, G>>,
    forces: F1,
    overlap: F2,
    contact: F3,
    resolve: F4,
    motion: F5,
)
    requires
        motion_is_function(forces),
        overlap_is_function(overlap),
        contact_is_function(contact),
        resolve_is_function(resolve),
        motion_is_function(motion),
        ticks(one, forces, overlap, contact, resolve, motion),
        ticks(other, forces, overlap, contact, resolve, motion),
        one.len() == other.len(),
        one.first() == other.first(),
    ensures
        one == other,
    decreases one.len(),
{
    if one.len() > 1 {
        let n = one.len() as int;
        let front_one = one.drop_last();
        let front_other = other.drop_last();
        assert(ticks(front_one, forces, overlap, contact, resolve, motion)) by {
            assert forall|k: int| 0 <= k < front_one.len() - 1 implies ticked(
                #[trigger] front_one[k],
                forces,
                overlap,
                contact,
                resolve,
                motion,
                front_one[k + 1],
            ) by {
                assert(ticked(one[k], forces, overlap, contact, resolve, motion, one[k + 1]));
            }
        }
        assert(ticks(front_other, forces, overlap, contact, resolve, motion)) by {
            assert forall|k: int| 0 <= k < front_other.len() - 1 implies ticked(
                #[trigger] front_other[k],
                forces,
                overlap,
                contact,
                resolve,
                motion,
                front_other[k + 1],
            ) by {
                assert(ticked(other[k], forces, overlap, contact, resolve, motion, other[k + 1]));
            }
        }
        lemma_ticks_determined(front_one, front_other, forces, overlap, contact, resolve, motion);
        assert(one[n - 2] == front_one[n - 2] && other[n - 2] == front_other[n - 2]);
        assert(ticked(one[n - 2], forces, overlap, contact, resolve, motion, one[n - 1]));
        assert(ticked(other[n - 2], forces, overlap, contact, resolve, motion, other[n - 1]));
        lemma_tick_determined(
            one[n - 2],
            forces,
            overlap,
            contact,
            resolve,
            motion,
            one[n - 1],
            other[n - 1],
        );
        assert(one =~= front_one.push(one[n - 1]));
        assert(other =~= front_other.push(other[n - 1]));
    } else {
        assert(one =~= other);
    }
}

/// One step of many ticks ends where steps of fewer ticks, made in a row,
/// end: when the arithmetic gives one answer for whatever it is shown, a
/// run of ticks and two runs after each other that make as many ticks
/// together, from the same state, end in the same state.
pub proof fn lemma_steps_agree<
    B,
    S,
    C,
    G,
    F1: Fn(&B) -> B,
    F2: Fn(&S, Option<&RigidBody<B>>, &S, Option<&RigidBody<B>>) -> bool,
    F3: Fn(&RigidBody<B>, &S, &RigidBody<B>, &S) -> Option<C>,
    F4: Fn(&RigidBody<B>, &RigidBody<B>, &C) -> Option<(B, B)>,
    F5: Fn(&B) -> B,
>(
    whole: Seq<PhysicsState<B, S, C, G>>,
    first: Seq<PhysicsState<B, S, C, G>>,
    second: Seq<PhysicsState<B, S, C, G>>,
    forces: F1,
    overlap: F2,
    contact: F3,
    resolve: F4,
    motion: F5,
)
    requires
        motion_is_function(forces),
        overlap_is_function(overlap),
        contact_is_function(contact),
        resolve_is_function(resolve),
        motion_is_function(motion),
        ticks(whole, forces, overlap, contact, resolve, motion),
        ticks(first, forces, overlap, contact, resolve, motion),
        ticks(second, forces, overlap, contact, resolve, motion),
        first.first() == whole.first(),
        second.first() == first.last(),
        whole.len() - 1 == (first.len() - 1) + (second.len() - 1),
    ensures
        whole.last() == second.last(),
{
    lemma_ticks_compose(first, second, forces, overlap, contact, resolve, motion);
    lemma_ticks_determined(
        whole,
        first + second.drop_first(),
        forces,
        overlap,
        contact,
        resolve,
        motion,
    );
}

/// A tick spares the bodies that are not dynamic: a static body is where
/// it was, as it was, whatever forces and collisions the tick held.
pub proof fn lemma_tick_spares_fixed<
    B,
    S,
    C,
    G,
    F1: Fn(&B) -> B,
    F2: Fn(&S, Option<&RigidBody<B>>, &S, Option<&RigidBody<B>>) -> bool,
    F3: Fn(&RigidBody<B>, &S, &RigidBody<B>, &S) -> Option<C>,
    F4: Fn(&RigidBody<B>, &RigidBody<B>, &C) -> Option<(B, B)>,
    F5: Fn(&B) -> B,
>(
    before: PhysicsState<B, S, C, G>,
    forces: F1,
    overlap: F2,
    contact: F3,
    resolve: F4,
    motion: F5,
    after: PhysicsState<B, S, C, G>,
)
    requires
        before.bodies.wf(),
        ticked(before, forces, overlap, contact, resolve, motion, after),
    ensures
        spares_fixed(before.bodies, after.bodies),
{
    let (accelerated, verdicts, outcomes, stages) = choose|
        accelerated: Column<RigidBody<B>>,
        verdicts: Seq<bool>,
        outcomes: Seq<Option<C>>,
        stages: Seq<Column<RigidBody<B>>>,
    |
        #[trigger] tick_steps(
            before,
            forces,
            overlap,
            contact,
            resolve,
            motion,
            accelerated,
            verdicts,
            outcomes,
            stages,
            after,
        );
    assert(accelerated.wf());
    lemma_solved_spares_static(after.events, resolve, stages);
    lemma_spares_fixed_chain(seq![before.bodies, accelerated, stages.last(), after.bodies]);
}

/// However many ticks are made, they spare the bodies that are not
/// dynamic: across any number of ticks a static body never changes.
pub proof fn lemma_ticks_spare_fixed<
    B,
    S,
    C,
    G,
    F1: Fn(&B) -> B,
    F2: Fn(&S, Option<&RigidBody<B>>, &S, Option<&RigidBody<B>>) -> bool,
    F3: Fn(&RigidBody<B>, &S, &RigidBody<B>, &S) -> Option<C>,
    F4: Fn(&RigidBody<B>, &RigidBody<B>, &C) -> Option<(B, B)>,
    F5: Fn(&B) -> B,
>(
    states: Seq<PhysicsState<B, S, C, G>>,
    forces: F1,
    overlap: F2,
    contact: F3,
    resolve: F4,
    motion: F5,
)
    requires
        states.first().bodies.wf(),
        ticks(states, forces, overlap, contact, resolve, motion),
    ensures
        states.last().bodies.wf(),
        spares_fixed(states.first().bodies, states.last().bodies),
    decreases states.len(),
{
    if states.len() > 1 {
        let front = states.drop_last();
        let n = states.len() as int;
        assert(ticks(front, forces, overlap, contact, resolve, motion)) by {
            assert forall|k: int| 0 <= k < front.len() - 1 implies ticked(
                #[trigger] front[k],
                forces,
                overlap,
                contact,
                resolve,
                motion,
                front[k + 1],
            ) by {
                assert(ticked(states[k], forces, overlap, contact, resolve, motion, states[k + 1]));
            }
        }
        lemma_ticks_spare_fixed(front, forces, overlap, contact, resolve, motion);
        assert(front.last() == states[n - 2]);
        assert(ticked(states[n - 2], forces, overlap, contact, resolve, motion, states[n - 1]));
        lemma_tick_spares_fixed(
            states[n - 2],
            forces,
            overlap,
            contact,
            resolve,
            motion,
            states[n - 1],
        );
        lemma_spares_fixed_chain(
            seq![states.first().bodies, states[n - 2].bodies, states[n - 1].bodies],
        );
    }
}

/// A tick in which no two colliders overlap ends without pairs and
/// without collisions, whatever the tick before left behind.
pub proof fn lemma_tick_without_overlap<
    B,
    S,
    C,
    G,
    F1: Fn(&B) -> B,
    F2: Fn(&S, Option<&RigidBody<B>>, &S, Option<&RigidBody<B>>) -> bool,
    F3: Fn(&RigidBody<B>, &S, &RigidBody<B>, &S) -> Option<C>,
    F4: Fn(&RigidBody<B>, &RigidBody<B>, &C) -> Option<(B, B)>,
    F5: Fn(&B) -> B,
>(
    before: PhysicsState<B, S, C, G>,
    forces: F1,
    overlap: F2,
    contact: F3,
    resolve: F4,
    motion: F5,
    after: PhysicsState<B, S, C, G>,
)
    requires
        ticked(before, forces, overlap, contact, resolve, motion, after),
        forall|a: &S, body_a: Option<&RigidBody<B>>, b: &S, body_b: Option<&RigidBody<B>>, v: bool|
            call_ensures(overlap, (a, body_a, b, body_b), v) ==> !v,
    ensures
        after.pairs == Seq::<(EntityId, EntityId)>::empty(),
        after.events == Seq::<CollisionEvent<C>>::empty(),
{
    let (accelerated, verdicts, outcomes, stages) = choose|
        accelerated: Column<RigidBody<B>>,
        verdicts: Seq<bool>,
        outcomes: Seq<Option<C>>,
        stages: Seq<Column<RigidBody<B>>>,
    |
        #[trigger] tick_steps(
            before,
            forces,
            overlap,
            contact,
            resolve,
            motion,
            accelerated,
            verdicts,
            outcomes,
            stages,
            after,
        );
    lemma_no_overlap_no_events(
        accelerated,
        before.colliders,
        candidate_pairs((PhysicsState { bodies: accelerated, ..before }).collider_slots()),
        overlap,
        verdicts,
        contact,
        outcomes,
    );
}

/// The bodies and colliders of a simulation, with the collisions of the
/// current tick. The world keeps its own copy of every body and collider;
/// an entry stays until it is removed here.
///
/// `B`, `S` and `C` are the types of a body's state of motion, of a
/// collider's shape and of a contact; `G` holds the settings of the
/// simulation. The world decides who takes part in each phase of a tick
/// and in what order; the arithmetic of a phase is handed to it.
pub struct PhysicsWorld<B: Send + Sync + 'static, S: Component, C, G> {
    bodies: TypedComponentVec<RigidBody<B>>,
    colliders: TypedComponentVec<S>,
    collision_pairs: Vec<(EntityId, EntityId)>,
    collision_events: Vec<CollisionEvent<C>>,
    settings: G,
}

impl<B: Send + Sync + 'static, S: Component, C, G> Physics for PhysicsWorld<B, S, C, G> {
    open spec fn valid(&self) -> bool {
        self.wf()
    }
}

impl<B: Send + Sync + 'static, S: Component, C, G> PhysicsWorld<B, S, C, G> {
    /// The mathematical state the world stands for.
    pub closed spec fn view(&self) -> PhysicsState<B, S, C, G> {
        PhysicsState {
            bodies: self.bodies@,
            colliders: self.colliders@,
            pairs: self.collision_pairs@,
            events: self.collision_events@,
            settings: self.settings,
        }
    }

    /// The bookkeeping of bodies and colliders is consistent.
    pub closed spec fn wf(&self) -> bool {
        &&& self.bodies.wf()
        &&& self.colliders.wf()
    }

    /// The state of a well-formed world has well-formed columns.
    pub proof fn lemma_view_wf(&self)
        requires
            self.wf(),
        ensures
            self@.bodies.wf(),
            self@.colliders.wf(),
    {
        self.bodies.lemma_view_wf();
        self.colliders.lemma_view_wf();
    }

    /// Creates a world without bodies, with the given settings.
    pub fn new(settings: G) -> (world: Self)
        ensures
            world.wf(),
            world@ == (PhysicsState::<B, S, C, G> {
                bodies: Column::empty(),
                colliders: Column::empty(),
                pairs: Seq::empty(),
                events: Seq::empty(),
                settings,
            }),
    {
        Self {
            bodies: TypedComponentVec::new(),
            colliders: TypedComponentVec::new(),
            collision_pairs: Vec::new(),
            collision_events: Vec::new(),
            settings,
        }
    }

    /// The settings of the simulation.
    pub fn settings(&self) -> (settings: &G)
        ensures
            *settings == self@.settings,
    {
        &self.settings
    }

    /// Replaces the settings of the simulation.
    pub fn set_settings(&mut self, settings: G)
        ensures
            final(self).wf() == old(self).wf(),
            final(self)@ == (PhysicsState { settings, ..old(self)@ }),
    {
        self.settings = settings;
    }

    /// Gives `entity` the body `body`, in place of the one it had.
    pub fn add_rigid_body(&mut self, entity: EntityId, body: RigidBody<B>)
        requires
            old(self).wf(),
        ensures
            final(self).wf(),
            final(self)@ == (PhysicsState {
                bodies: old(self)@.bodies.insert(entity, body),
                ..old(self)@
            }),
    {
        self.bodies.insert(entity, body);
    }

    /// Gives `entity` the collider `collider`, in place of the one it had.
    pub fn add_collider(&mut self, entity: EntityId, collider: S)
        requires
            old(self).wf(),
        ensures
            final(self).wf(),
            final(self)@ == (PhysicsState {
                colliders: old(self)@.colliders.insert(entity, collider),
                ..old(self)@
            }),
    {
        self.colliders.insert(entity, collider);
    }

    /// Removes the body and the collider of `entity`.
    pub fn remove_body(&mut self, entity: EntityId)
        requires
            old(self).wf(),
        ensures
            final(self).wf(),
            final(self)@ == (PhysicsState {
                bodies: old(self)@.bodies.remove(entity),
                colliders: old(self)@.colliders.remove(entity),
                ..old(self)@
            }),
    {
        let _ = self.bodies.remove(entity);
        let _ = self.colliders.remove(entity);
    }

    /// The body of `entity`, or nothing when it has none.
    pub fn get_body(&self, entity: EntityId) -> (found: Option<&RigidBody<B>>)
        requires
            self.wf(),
        ensures
            match found {
                Some(body) => self@.bodies.get(entity) == Some(*body),
                None => self@.bodies.get(entity) is None,
            },
    {
        self.bodies.get(entity)
    }

    /// Mutable access to the body of `entity`, or nothing when it has
    /// none. Whatever the caller writes through the reference becomes the
    /// entity's body; nothing else changes.
    pub fn get_body_mut(&mut self, entity: EntityId) -> (found: Option<&mut RigidBody<B>>)
        requires
            old(self).wf(),
        ensures
            final(self).wf(),
            match found {
                Some(body) => {
                    &&& old(self)@.bodies.get(entity) == Some(*body)
                    &&& final(self)@ == (PhysicsState {
                        bodies: old(self)@.bodies.insert(entity, *final(body)),
                        ..old(self)@
                    })
                },
                None => {
                    &&& old(self)@.bodies.get(entity) is None
                    &&& final(self)@ == old(self)@
                },
            },
    {
        self.bodies.get_mut(entity)
    }

    /// The collider of `entity`, or nothing when it has none.
    pub fn get_collider(&self, entity: EntityId) -> (found: Option<&S>)
        requires
            self.wf(),
        ensures
            match found {
                Some(collider) => self@.colliders.get(entity) == Some(*collider),
                None => self@.colliders.get(entity) is None,
            },
    {
        self.colliders.get(entity)
    }

    /// The pairs of colliders that the last broad phase found overlapping.
    pub fn get_collision_pairs(&self) -> (pairs: &Vec<(EntityId, EntityId)>)
        ensures
            pairs@ == self@.pairs,
    {
        &self.collision_pairs
    }

    /// The collisions that the last narrow phase confirmed.
    pub fn get_collision_events(&self) -> (events: &Vec<CollisionEvent<C>>)
        ensures
            events@ == self@.events,
    {
        &self.collision_events
    }

    /// Starts a tick: drops the pairs and the collisions of the tick
    /// before.
    pub fn clear_collisions(&mut self)
        ensures
            final(self).wf() == old(self).wf(),
            final(self)@ == (PhysicsState {
                pairs: Seq::empty(),
                events: Seq::empty(),
                ..old(self)@
            }),
    {
        self.collision_pairs.clear();
        self.collision_events.clear();
    }

    /// Applies `motion` to the state of every dynamic body. Static and
    /// kinematic bodies are left as they are.
    pub fn integrate<F: Fn(&B) -> B>(&mut self, motion: F)
        requires
            old(self).wf(),
            forall|i: int|
                0 <= i < old(self)@.bodies.len() && (#[trigger] old(
                    self,
                )@.bodies.values[i]).body_type == BodyType::Dynamic ==> call_requires(
                    motion,
                    (&old(self)@.bodies.values[i].state,),
                ),
        ensures
            final(self).wf(),
            moved(old(self)@.bodies, motion, final(self)@.bodies),
            final(self)@ == (PhysicsState { bodies: final(self)@.bodies, ..old(self)@ }),
    {
        proof {
            old(self).lemma_view_wf();
        }
        let n = self.bodies.len();
        let mut i: usize = 0;
        while i < n
            invariant
                i <= n,
                n == old(self)@.bodies.len(),
                n == old(self)@.bodies.values.len(),
                self.bodies.wf(),
                self.colliders == old(self).colliders,
                self.collision_pairs == old(self).collision_pairs,
                self.collision_events == old(self).collision_events,
                self.settings == old(self).settings,
                self.bodies@.entities == old(self)@.bodies.entities,
                self.bodies@.values.len() == n,
                forall|k: int|
                    0 <= k < n && (#[trigger] old(self)@.bodies.values[k]).body_type
                        == BodyType::Dynamic ==> call_requires(
                        motion,
                        (&old(self)@.bodies.values[k].state,),
                    ),
                forall|k: int| i <= k < n ==> self.bodies@.values[k] == old(self)@.bodies.values[k],
                forall|k: int|
                    0 <= k < i ==> {
                        &&& (#[trigger] self.bodies@.values[k]).body_type == old(
                            self,
                        )@.bodies.values[k].body_type
                        &&& old(self)@.bodies.values[k].body_type == BodyType::Dynamic
                            ==> call_ensures(
                            motion,
                            (&old(self)@.bodies.values[k].state,),
                            self.bodies@.values[k].state,
                        )
                        &&& old(self)@.bodies.values[k].body_type != BodyType::Dynamic
                            ==> self.bodies@.values[k] == old(self)@.bodies.values[k]
                    },
            decreases n - i,
        {
            let (_, body) = self.bodies.at_mut(i);
            if body.body_type == BodyType::Dynamic {
                body.state = motion(&body.state);
            }
            i += 1;
        }
    }

    /// The colliders in dense order, each with the type of its entity's
    /// body.
    fn collider_slots(&self) -> (slots: Vec<(EntityId, Option<BodyType>)>)
        requires
            self.wf(),
        ensures
            slots@ == self@.collider_slots(),
    {
        let n = self.colliders.len();
        let mut slots: Vec<(EntityId, Option<BodyType>)> = Vec::new();
        let mut i: usize = 0;
        while i < n
            invariant
                i <= n,
                n == self@.colliders.len(),
                self.wf(),
                slots@.len() == i,
                forall|k: int| 0 <= k < i ==> slots@[k] == self@.collider_slots()[k],
            decreases n - i,
        {
            let (entity, _) = self.colliders.at(i);
            let body_type = match self.bodies.get(entity) {
                Some(body) => Some(body.body_type),
                None => None,
            };
            slots.push((entity, body_type));
            i += 1;
        }
        assert(slots@ =~= self@.collider_slots());
        slots
    }

    /// Finds the pairs of colliders that may touch: of every unordered
    /// pair of colliders, except the pairs of two static bodies, it keeps
    /// those that `overlap` says overlap, in the order of the nested walk
    /// over the colliders. `overlap` is shown the two colliders, each with
    /// the body of its entity, if it has one.
    pub fn broad_phase<F: Fn(&S, Option<&RigidBody<B>>, &S, Option<&RigidBody<B>>) -> bool>(
        &mut self,
        overlap: F,
    )
        requires
            old(self).wf(),
            forall|a: &S, body_a: Option<&RigidBody<B>>, b: &S, body_b: Option<&RigidBody<B>>|
                call_requires(overlap, (a, body_a, b, body_b)),
        ensures
            final(self).wf(),
            final(self)@ == (PhysicsState { pairs: final(self)@.pairs, ..old(self)@ }),
            exists|verdicts: Seq<bool>|
                {
                    &&& #[trigger] judged(
                        old(self)@.bodies,
                        old(self)@.colliders,
                        candidate_pairs(old(self)@.collider_slots()),
                        overlap,
                        verdicts,
                    )
                    &&& final(self)@.pairs == picked(
                        candidate_pairs(old(self)@.collider_slots()),
                        verdicts,
                    )
                },
    {
        let slots = self.collider_slots();
        let candidates = broad_phase_pairs(&slots);
        let ghost all = candidates@;
        let ghost mut verdicts: Seq<bool> = Seq::empty();
        self.collision_pairs.clear();
        let n = candidates.len();
        let mut k: usize = 0;
        assert(all.take(0) =~= Seq::empty());
        while k < n
            invariant
                k <= n,
                n == all.len(),
                all == candidates@,
                all == candidate_pairs(old(self)@.collider_slots()),
                self.wf(),
                self.bodies == old(self).bodies,
                self.colliders == old(self).colliders,
                self.collision_events == old(self).collision_events,
                self.settings == old(self).settings,
                forall|a: &S, body_a: Option<&RigidBody<B>>, b: &S, body_b: Option<&RigidBody<B>>|
                    call_requires(overlap, (a, body_a, b, body_b)),
                judged(self@.bodies, self@.colliders, all.take(k as int), overlap, verdicts),
                self.collision_pairs@ == picked(all.take(k as int), verdicts),
            decreases n - k,
        {
            let (entity_a, entity_b) = candidates[k];
            proof {
                super::broad_phase::lemma_candidate_pairs(
                    old(self)@.collider_slots(),
                    (entity_a, entity_b),
                );
                assert(all[k as int] == (entity_a, entity_b));
                assert(all.contains((entity_a, entity_b)));
                self.lemma_view_wf();
                let slots = old(self)@.collider_slots();
                let (i, j) = choose|i: int, j: int|
                    0 <= i < j < slots.len() && !super::broad_phase::both_static(
                        (#[trigger] slots[i]).1,
                        (#[trigger] slots[j]).1,
                    ) && (entity_a, entity_b) == (slots[i].0, slots[j].0);
                self@.colliders.lemma_slot_of_index(i);
                self@.colliders.lemma_slot_of_index(j);
            }
            let verdict = match (self.colliders.get(entity_a), self.colliders.get(entity_b)) {
                (Some(collider_a), Some(collider_b)) => overlap(
                    collider_a,
                    self.bodies.get(entity_a),
                    collider_b,
                    self.bodies.get(entity_b),
                ),
                _ => false,
            };
            if verdict {
                self.collision_pairs.push((entity_a, entity_b));
            }
            proof {
                let before = verdicts;
                verdicts = verdicts.push(verdict);
                assert(all.take(k + 1).drop_last() =~= all.take(k as int));
                assert(verdicts.drop_last() =~= before);
                assert(all.take(k + 1).last() == (entity_a, entity_b));
                assert forall|m: int| 0 <= m < k + 1 implies call_ensures(
                    overlap,
                    (
                        &self@.colliders.values[self@.colliders.slot_of(all.take(k + 1)[m].0)],
                        body_of(self@.bodies, all.take(k + 1)[m].0),
                        &self@.colliders.values[self@.colliders.slot_of(all.take(k + 1)[m].1)],
                        body_of(self@.bodies, all.take(k + 1)[m].1),
                    ),
                    #[trigger] verdicts[m],
                ) by {
                    if m < k {
                        assert(all.take(k as int)[m] == all.take(k + 1)[m]);
                        assert(before[m] == verdicts[m]);
                    }
                }
            }
            k += 1;
        }
        assert(all.take(n as int) =~= all);
    }

    /// Confirms the collisions among the pairs of the broad phase: for
    /// each pair whose entities both have a body and a collider, `contact`
    /// is shown the two bodies and colliders, and a contact it answers with
    /// becomes a collision. The collisions of an earlier call are dropped:
    /// the list holds what this call confirmed, in the order of the pairs.
    pub fn narrow_phase<F: Fn(&RigidBody<B>, &S, &RigidBody<B>, &S) -> Option<C>>(
        &mut self,
        contact: F,
    )
        requires
            old(self).wf(),
            forall|a: &RigidBody<B>, shape_a: &S, b: &RigidBody<B>, shape_b: &S|
                call_requires(contact, (a, shape_a, b, shape_b)),
        ensures
            final(self).wf(),
            final(self)@ == (PhysicsState { events: final(self)@.events, ..old(self)@ }),
            exists|outcomes: Seq<Option<C>>|
                {
                    &&& #[trigger] examined(
                        old(self)@.bodies,
                        old(self)@.colliders,
                        old(self)@.pairs,
                        contact,
                        outcomes,
                    )
                    &&& final(self)@.events == confirmed(old(self)@.pairs, outcomes)
                },
    {
        let ghost pairs = self.collision_pairs@;
        let ghost mut outcomes: Seq<Option<C>> = Seq::empty();
        self.collision_events.clear();
        let n = self.collision_pairs.len();
        let mut k: usize = 0;
        assert(pairs.take(0) =~= Seq::empty());
        while k < n
            invariant
                k <= n,
                n == pairs.len(),
                pairs == old(self)@.pairs,
                self.wf(),
                self.bodies == old(self).bodies,
                self.colliders == old(self).colliders,
                self.collision_pairs == old(self).collision_pairs,
                self.settings == old(self).settings,
                forall|a: &RigidBody<B>, shape_a: &S, b: &RigidBody<B>, shape_b: &S|
                    call_requires(contact, (a, shape_a, b, shape_b)),
                examined(self@.bodies, self@.colliders, pairs.take(k as int), contact, outcomes),
                self.collision_events@ == confirmed(pairs.take(k as int), outcomes),
            decreases n - k,
        {
            let (entity_a, entity_b) = self.collision_pairs[k];
            let outcome = match (
                self.bodies.get(entity_a),
                self.colliders.get(entity_a),
                self.bodies.get(entity_b),
                self.colliders.get(entity_b),
            ) {
                (Some(body_a), Some(shape_a), Some(body_b), Some(shape_b)) => contact(
                    body_a,
                    shape_a,
                    body_b,
                    shape_b,
                ),
                _ => None,
            };
            let ghost before = outcomes;
            proof {
                outcomes = outcomes.push(outcome);
                assert(pairs.take(k + 1).drop_last() =~= pairs.take(k as int));
                assert(outcomes.drop_last() =~= before);
                assert(pairs.take(k + 1).last() == (entity_a, entity_b));
                assert forall|m: int| 0 <= m < k + 1 implies if examinable(
                    self@.bodies,
                    self@.colliders,
                    pairs.take(k + 1)[m],
                ) {
                    call_ensures(
                        contact,
                        (
                            &self@.bodies.values[self@.bodies.slot_of(pairs.take(k + 1)[m].0)],
                            &self@.colliders.values[self@.colliders.slot_of(
                                pairs.take(k + 1)[m].0,
                            )],
                            &self@.bodies.values[self@.bodies.slot_of(pairs.take(k + 1)[m].1)],
                            &self@.colliders.values[self@.colliders.slot_of(
                                pairs.take(k + 1)[m].1,
                            )],
                        ),
                        #[trigger] outcomes[m],
                    )
                } else {
                    (#[trigger] outcomes[m]) is None
                } by {
                    if m < k {
                        assert(pairs.take(k as int)[m] == pairs.take(k + 1)[m]);
                        assert(before[m] == outcomes[m]);
                    }
                }
            }
            match outcome {
                Some(contact) => {
                    self.collision_events.push(
                        CollisionEvent { entity_a, entity_b, contact },
                    );
                },
                None => {},
            }
            k += 1;
        }
        assert(pairs.take(n as int) =~= pairs);
    }

    /// Resolves the collisions of the narrow phase, one after the other.
    /// A collision is taken up when both entities have a body and the two
    /// bodies are not both static. `resolve` is then shown the two bodies
    /// and the contact; when it answers with new states, each goes to its
    /// body if that body is dynamic. No body that is not dynamic changes.
    pub fn solve_constraints<F: Fn(&RigidBody<B>, &RigidBody<B>, &C) -> Option<(B, B)>>(
        &mut self,
        resolve: F,
    )
        requires
            old(self).wf(),
            forall|a: &RigidBody<B>, b: &RigidBody<B>, contact: &C|
                call_requires(resolve, (a, b, contact)),
        ensures
            final(self).wf(),
            final(self)@ == (PhysicsState { bodies: final(self)@.bodies, ..old(self)@ }),
            spares_fixed(old(self)@.bodies, final(self)@.bodies),
            exists|stages: Seq<Column<RigidBody<B>>>|
                {
                    &&& #[trigger] solved(old(self)@.events, resolve, stages)
                    &&& stages.first() == old(self)@.bodies
                    &&& stages.last() == final(self)@.bodies
                },
    {
        let ghost events = self.collision_events@;
        let ghost mut stages: Seq<Column<RigidBody<B>>> = seq![self.bodies@];
        let n = self.collision_events.len();
        let mut k: usize = 0;
        proof {
            old(self).lemma_view_wf();
        }
        while k < n
            invariant
                k <= n,
                n == events.len(),
                events == old(self)@.events,
                self.wf(),
                self.colliders == old(self).colliders,
                self.collision_pairs == old(self).collision_pairs,
                self.collision_events == old(self).collision_events,
                self.settings == old(self).settings,
                forall|a: &RigidBody<B>, b: &RigidBody<B>, contact: &C|
                    call_requires(resolve, (a, b, contact)),
                solved(events.take(k as int), resolve, stages),
                stages.first() == old(self)@.bodies,
                stages.last() == self.bodies@,
            decreases n - k,
        {
            let ghost before = self.bodies@;
            let ghost event = events[k as int];
            proof {
                self.lemma_view_wf();
            }
            let entity_a = self.collision_events[k].entity_a;
            let entity_b = self.collision_events[k].entity_b;
            let answer = match (self.bodies.get(entity_a), self.bodies.get(entity_b)) {
                (Some(body_a), Some(body_b)) => {
                    if body_a.body_type == BodyType::Static && body_b.body_type
                        == BodyType::Static {
                        None
                    } else {
                        resolve(body_a, body_b, &self.collision_events[k].contact)
                    }
                },
                _ => None,
            };
            match answer {
                Some((state_a, state_b)) => {
                    proof {
                        lemma_pushed(before, entity_a, state_a);
                    }
                    match self.bodies.get_mut(entity_a) {
                        Some(body) => {
                            if body.body_type == BodyType::Dynamic {
                                body.state = state_a;
                            }
                        },
                        None => {},
                    }
                    proof {
                        let expected = pushed(before, entity_a, state_a);
                        if before.has(entity_a) {
                            before.lemma_slot_in_range(entity_a);
                        }
                        assert(self.bodies@.values =~= expected.values);
                        assert(self.bodies@ == expected);
                        lemma_pushed(expected, entity_b, state_b);
                    }
                    match self.bodies.get_mut(entity_b) {
                        Some(body) => {
                            if body.body_type == BodyType::Dynamic {
                                body.state = state_b;
                            }
                        },
                        None => {},
                    }
                    proof {
                        let between = pushed(before, entity_a, state_a);
                        let expected = pushed(between, entity_b, state_b);
                        if between.has(entity_b) {
                            between.lemma_slot_in_range(entity_b);
                        }
                        assert(self.bodies@.values =~= expected.values);
                        assert(self.bodies@ == expected);
                    }
                },
                None => {},
            }
            proof {
                assert(resolved(before, event, resolve, self.bodies@));
                let earlier = stages;
                stages = stages.push(self.bodies@);
                assert(events.take(k + 1).drop_last() =~= events.take(k as int));
                assert forall|m: int| 0 <= m < k + 1 implies resolved(
                    #[trigger] stages[m],
                    events.take(k + 1)[m],
                    resolve,
                    stages[m + 1],
                ) by {
                    if m < k {
                        assert(earlier[m] == stages[m] && earlier[m + 1] == stages[m + 1]);
                        assert(resolved(
                            earlier[m],
                            events.take(k as int)[m],
                            resolve,
                            earlier[m + 1],
                        ));
                    } else {
                        assert(stages[m] == before);
                    }
                }
            }
            k += 1;
        }
        proof {
            assert(events.take(n as int) =~= events);
            lemma_solved_spares_static(events, resolve, stages);
        }
    }

    /// Runs one tick, its phases strictly in order: drops the pairs and
    /// collisions of the tick before; lets `forces` act on the velocity of
    /// every dynamic body; finds the pairs that `overlap` says may touch;
    /// confirms the collisions among them with `contact`; resolves them
    /// with `resolve`; and lets `motion` act on the position of every
    /// dynamic body. No body that is not dynamic changes.
    pub fn fixed_update<
        F1: Fn(&B) -> B,
        F2: Fn(&S, Option<&RigidBody<B>>, &S, Option<&RigidBody<B>>) -> bool,
        F3: Fn(&RigidBody<B>, &S, &RigidBody<B>, &S) -> Option<C>,
        F4: Fn(&RigidBody<B>, &RigidBody<B>, &C) -> Option<(B, B)>,
        F5: Fn(&B) -> B,
    >(&mut self, forces: F1, overlap: F2, contact: F3, resolve: F4, motion: F5)
        requires
            old(self).wf(),
            forall|state: &B| call_requires(forces, (state,)),
            forall|a: &S, body_a: Option<&RigidBody<B>>, b: &S, body_b: Option<&RigidBody<B>>|
                call_requires(overlap, (a, body_a, b, body_b)),
            forall|a: &RigidBody<B>, shape_a: &S, b: &RigidBody<B>, shape_b: &S|
                call_requires(contact, (a, shape_a, b, shape_b)),
            forall|a: &RigidBody<B>, b: &RigidBody<B>, touch: &C|
                call_requires(resolve, (a, b, touch)),
            forall|state: &B| call_requires(motion, (state,)),
        ensures
            final(self).wf(),
            ticked(old(self)@, forces, overlap, contact, resolve, motion, final(self)@),
            spares_fixed(old(self)@.bodies, final(self)@.bodies),
    {
        self.clear_collisions();
        self.integrate(forces);
        let ghost accelerated = self@.bodies;
        let ghost at_rest = self@;
        self.broad_phase(overlap);
        let ghost judged_state = self@;
        let ghost verdicts = choose|verdicts: Seq<bool>|
            {
                &&& #[trigger] judged(
                    at_rest.bodies,
                    at_rest.colliders,
                    candidate_pairs(at_rest.collider_slots()),
                    overlap,
                    verdicts,
                )
                &&& judged_state.pairs == picked(
                    candidate_pairs(at_rest.collider_slots()),
                    verdicts,
                )
            };
        self.narrow_phase(contact);
        let ghost examined_state = self@;
        let ghost outcomes = choose|outcomes: Seq<Option<C>>|
            {
                &&& #[trigger] examined(
                    judged_state.bodies,
                    judged_state.colliders,
                    judged_state.pairs,
                    contact,
                    outcomes,
                )
                &&& examined_state.events == confirmed(judged_state.pairs, outcomes)
            };
        self.solve_constraints(resolve);
        let ghost stages = choose|stages: Seq<Column<RigidBody<B>>>|
            {
                &&& #[trigger] solved(examined_state.events, resolve, stages)
                &&& stages.first() == examined_state.bodies
                &&& stages.last() == self@.bodies
            };
        self.integrate(motion);
        proof {
            assert((PhysicsState { bodies: accelerated, ..old(self)@ }).collider_slots()
                =~= at_rest.collider_slots());
            assert(tick_steps(
                old(self)@,
                forces,
                overlap,
                contact,
                resolve,
                motion,
                accelerated,
                verdicts,
                outcomes,
                stages,
                self@,
            ));
            old(self).lemma_view_wf();
            lemma_tick_spares_fixed(
                old(self)@,
                forces,
                overlap,
                contact,
                resolve,
                motion,
                self@,
            );
        }
    }

    /// Runs `count` ticks, one after the other, each with the same
    /// arithmetic: what a step of the simulation does once it is known how
    /// many whole timesteps have accumulated. No body that is not dynamic
    /// changes, however many ticks are run.
    pub fn step<
        F1: Fn(&B) -> B + Copy,
        F2: Fn(&S, Option<&RigidBody<B>>, &S, Option<&RigidBody<B>>) -> bool + Copy,
        F3: Fn(&RigidBody<B>, &S, &RigidBody<B>, &S) -> Option<C> + Copy,
        F4: Fn(&RigidBody<B>, &RigidBody<B>, &C) -> Option<(B, B)> + Copy,
        F5: Fn(&B) -> B + Copy,
    >(&mut self, count: usize, forces: F1, overlap: F2, contact: F3, resolve: F4, motion: F5)
        requires
            old(self).wf(),
            forall|state: &B| call_requires(forces, (state,)),
            forall|a: &S, body_a: Option<&RigidBody<B>>, b: &S, body_b: Option<&RigidBody<B>>|
                call_requires(overlap, (a, body_a, b, body_b)),
            forall|a: &RigidBody<B>, shape_a: &S, b: &RigidBody<B>, shape_b: &S|
                call_requires(contact, (a, shape_a, b, shape_b)),
            forall|a: &RigidBody<B>, b: &RigidBody<B>, touch: &C|
                call_requires(resolve, (a, b, touch)),
            forall|state: &B| call_requires(motion, (state,)),
        ensures
            final(self).wf(),
            spares_fixed(old(self)@.bodies, final(self)@.bodies),
            exists|states: Seq<PhysicsState<B, S, C, G>>|
                {
                    &&& #[trigger] ticks(states, forces, overlap, contact, resolve, motion)
                    &&& states.len() == count + 1
                    &&& states.first() == old(self)@
                    &&& states.last() == final(self)@
                },
    {
        let ghost mut states: Seq<PhysicsState<B, S, C, G>> = seq![self@];
        let mut done: usize = 0;
        while done < count
            invariant
                done <= count,
                self.wf(),
                forall|state: &B| call_requires(forces, (state,)),
                forall|a: &S, body_a: Option<&RigidBody<B>>, b: &S, body_b: Option<&RigidBody<B>>|
                    call_requires(overlap, (a, body_a, b, body_b)),
                forall|a: &RigidBody<B>, shape_a: &S, b: &RigidBody<B>, shape_b: &S|
                    call_requires(contact, (a, shape_a, b, shape_b)),
                forall|a: &RigidBody<B>, b: &RigidBody<B>, touch: &C|
                    call_requires(resolve, (a, b, touch)),
                forall|state: &B| call_requires(motion, (state,)),
                ticks(states, forces, overlap, contact, resolve, motion),
                states.len() == done + 1,
                states.first() == old(self)@,
                states.last() == self@,
            decreases count - done,
        {
            let ghost earlier = states;
            self.fixed_update(forces, overlap, contact, resolve, motion);
            proof {
                states = states.push(self@);
                assert forall|k: int| 0 <= k < states.len() - 1 implies ticked(
                    #[trigger] states[k],
                    forces,
                    overlap,
                    contact,
                    resolve,
                    motion,
                    states[k + 1],
                ) by {
                    if k < earlier.len() - 1 {
                        assert(ticked(
                            earlier[k],
                            forces,
                            overlap,
                            contact,
                            resolve,
                            motion,
                            earlier[k + 1],
                        ));
                    } else {
                        assert(states[k] == earlier.last());
                    }
                }
            }
            done += 1;
        }
        proof {
            old(self).lemma_view_wf();
            lemma_ticks_spare_fixed(states, forces, overlap, contact, resolve, motion);
        }
    }
}

} // verus!
