use super::component::Component;
use super::world::World;
use super::world::WorldState;
use vstd::prelude::*;

verus! {

/// The physics state that systems work on beside the world. It says when
/// it is well formed: a system may rely on that when it runs, and keeps it.
pub trait Physics {
    /// The bookkeeping of the state is consistent. A state that says
    /// nothing of itself is always well formed.
    open spec fn valid(&self) -> bool {
        true
    }
}

impl Physics for () {}

/// A unit of game logic that the schedule runs once per physics tick, with
/// mutable access to the world and to the physics state `P`. `D` is the
/// type of the tick's time step.
pub trait System<C: Component, P: Physics, D>: Send + Sync {
    /// What one execution of this system may do: whether it can take the
    /// world and the physics state from `world` and `physics` to
    /// `world_after` and `physics_after` in a tick of length `dt`. A system
    /// that says nothing of itself may do anything.
    open spec fn effect(
        &self,
        world: WorldState<C>,
        physics: P,
        dt: D,
        world_after: WorldState<C>,
        physics_after: P,
    ) -> bool {
        true
    }

    /// Runs the system for one tick.
    fn execute(&mut self, world: &mut World<C>, physics: &mut P, dt: D)
        requires
            old(world).wf(),
            old(physics).valid(),
        ensures
            final(world).wf(),
            final(physics).valid(),
            old(self).effect(old(world)@, *old(physics), dt, final(world)@, *final(physics)),
    ;

    /// What the hook `initialize` of this system may do: whether it can
    /// take the world from `world` to `world_after`. A system that says
    /// nothing of itself may do anything.
    open spec fn prepares(&self, world: WorldState<C>, world_after: WorldState<C>) -> bool {
        true
    }

    /// What the hook `cleanup` of this system may do: whether it can take
    /// the world from `world` to `world_after`. A system that says nothing
    /// of itself may do anything.
    open spec fn leaves(&self, world: WorldState<C>, world_after: WorldState<C>) -> bool {
        true
    }

    /// Called once after the system is registered, before its first tick.
    /// A system with nothing to prepare gives the hook an empty body.
    fn initialize(&mut self, world: &mut World<C>)
        requires
            old(world).wf(),
        ensures
            final(world).wf(),
            old(self).prepares(old(world)@, final(world)@),
    ;

    /// Called once when the system is torn down. A system with nothing to
    /// leave in order gives the hook an empty body.
    fn cleanup(&mut self, world: &mut World<C>)
        requires
            old(world).wf(),
        ensures
            final(world).wf(),
            old(self).leaves(old(world)@, final(world)@),
    ;
}

/// `worlds` are the states that the world goes through while a lifecycle
/// hook of each of `systems` is called, one system after the other: the
/// hook `cleanup` when `teardown` is set, the hook `initialize` otherwise.
/// Each hook takes the world at its position to the world at the next.
pub open spec fn is_hook_pass<C: Component, P: Physics, D>(
    systems: Seq<Box<dyn System<C, P, D>>>,
    teardown: bool,
    worlds: Seq<WorldState<C>>,
) -> bool {
    &&& worlds.len() == systems.len() + 1
    &&& forall|i: int|
        0 <= i < systems.len() ==> if teardown {
            (#[trigger] systems[i]).leaves(worlds[i], worlds[i + 1])
        } else {
            systems[i].prepares(worlds[i], worlds[i + 1])
        }
}

/// Calling a lifecycle hook of each of `systems`, once and in order, can
/// lead from the first world to the second.
pub open spec fn hooks_from_to<C: Component, P: Physics, D>(
    systems: Seq<Box<dyn System<C, P, D>>>,
    teardown: bool,
    world: WorldState<C>,
    world_after: WorldState<C>,
) -> bool {
    exists|worlds: Seq<WorldState<C>>|
        {
            &&& #[trigger] is_hook_pass(systems, teardown, worlds)
            &&& worlds.first() == world
            &&& worlds.last() == world_after
        }
}

/// Calling the hooks of no system changes nothing.
pub proof fn lemma_empty_pass<C: Component, P: Physics, D>(teardown: bool, world: WorldState<C>)
    ensures
        hooks_from_to(Seq::<Box<dyn System<C, P, D>>>::empty(), teardown, world, world),
{
    assert(is_hook_pass(Seq::<Box<dyn System<C, P, D>>>::empty(), teardown, seq![world]));
}

/// A pass over some systems followed by a pass from where the first one
/// ended is a pass over the two lists of systems, one after the other.
pub proof fn lemma_passes_compose<C: Component, P: Physics, D>(
    first: Seq<Box<dyn System<C, P, D>>>,
    second: Seq<Box<dyn System<C, P, D>>>,
    teardown: bool,
    world: WorldState<C>,
    world_between: WorldState<C>,
    world_after: WorldState<C>,
)
    requires
        hooks_from_to(first, teardown, world, world_between),
        hooks_from_to(second, teardown, world_between, world_after),
    ensures
        hooks_from_to(first + second, teardown, world, world_after),
{
    let worlds_a = choose|worlds: Seq<WorldState<C>>|
        {
            &&& #[trigger] is_hook_pass(first, teardown, worlds)
            &&& worlds.first() == world
            &&& worlds.last() == world_between
        };
    let worlds_b = choose|worlds: Seq<WorldState<C>>|
        {
            &&& #[trigger] is_hook_pass(second, teardown, worlds)
            &&& worlds.first() == world_between
            &&& worlds.last() == world_after
        };
    let worlds = worlds_a + worlds_b.drop_first();
    let all = first + second;
    assert forall|i: int| 0 <= i < all.len() implies if teardown {
        (#[trigger] all[i]).leaves(worlds[i], worlds[i + 1])
    } else {
        all[i].prepares(worlds[i], worlds[i + 1])
    } by {
        if i < first.len() {
            assert(all[i] == first[i]);
            assert(worlds[i] == worlds_a[i] && worlds[i + 1] == worlds_a[i + 1]);
        } else {
            let j = i - first.len();
            assert(all[i] == second[j]);
            assert(worlds[i + 1] == worlds_b[j + 1]);
            if j == 0 {
                assert(worlds[i] == worlds_a.last());
            } else {
                assert(worlds[i] == worlds_b[j]);
            }
        }
    }
    assert(is_hook_pass(all, teardown, worlds));
}

/// The systems of `groups`, group after group, each group in its order.
pub open spec fn in_order<C: Component, P: Physics, D>(
    groups: Seq<Vec<Box<dyn System<C, P, D>>>>,
) -> Seq<Box<dyn System<C, P, D>>>
    decreases groups.len(),
{
    if groups.len() == 0 {
        Seq::empty()
    } else {
        in_order(groups.drop_last()) + groups.last()@
    }
}

/// `worlds` and `physics` are the states that a run of `systems` goes
/// through, one system after the other: each system takes the state at its
/// position to the state at the next.
pub open spec fn is_run<C: Component, P: Physics, D>(
    systems: Seq<Box<dyn System<C, P, D>>>,
    dt: D,
    worlds: Seq<WorldState<C>>,
    physics: Seq<P>,
) -> bool {
    &&& worlds.len() == systems.len() + 1
    &&& physics.len() == systems.len() + 1
    &&& forall|i: int|
        0 <= i < systems.len() ==> (#[trigger] systems[i]).effect(
            worlds[i],
            physics[i],
            dt,
            worlds[i + 1],
            physics[i + 1],
        )
}

/// Some run of `systems`, each once and in order, leads from the first
/// pair of states to the second.
pub open spec fn runs_from_to<C: Component, P: Physics, D>(
    systems: Seq<Box<dyn System<C, P, D>>>,
    dt: D,
    world: WorldState<C>,
    physics: P,
    world_after: WorldState<C>,
    physics_after: P,
) -> bool {
    exists|worlds: Seq<WorldState<C>>, states: Seq<P>|
        {
            &&& #[trigger] is_run(systems, dt, worlds, states)
            &&& worlds.first() == world
            &&& states.first() == physics
            &&& worlds.last() == world_after
            &&& states.last() == physics_after
        }
}

/// A run of no system changes nothing.
pub proof fn lemma_empty_run<C: Component, P: Physics, D>(dt: D, world: WorldState<C>, physics: P)
    ensures
        runs_from_to(Seq::<Box<dyn System<C, P, D>>>::empty(), dt, world, physics, world, physics),
{
    assert(is_run(Seq::<Box<dyn System<C, P, D>>>::empty(), dt, seq![world], seq![physics]));
}

/// A run followed by a run from where the first one ended is a run of the
/// two lists of systems, one after the other.
pub proof fn lemma_runs_compose<C: Component, P: Physics, D>(
    first: Seq<Box<dyn System<C, P, D>>>,
    second: Seq<Box<dyn System<C, P, D>>>,
    dt: D,
    world: WorldState<C>,
    physics: P,
    world_between: WorldState<C>,
    physics_between: P,
    world_after: WorldState<C>,
    physics_after: P,
)
    requires
        runs_from_to(first, dt, world, physics, world_between, physics_between),
        runs_from_to(second, dt, world_between, physics_between, world_after, physics_after),
    ensures
        runs_from_to(first + second, dt, world, physics, world_after, physics_after),
{
    let (worlds_a, states_a) = choose|worlds: Seq<WorldState<C>>, states: Seq<P>|
        {
            &&& #[trigger] is_run(first, dt, worlds, states)
            &&& worlds.first() == world
            &&& states.first() == physics
            &&& worlds.last() == world_between
            &&& states.last() == physics_between
        };
    let (worlds_b, states_b) = choose|worlds: Seq<WorldState<C>>, states: Seq<P>|
        {
            &&& #[trigger] is_run(second, dt, worlds, states)
            &&& worlds.first() == world_between
            &&& states.first() == physics_between
            &&& worlds.last() == world_after
            &&& states.last() == physics_after
        };
    let worlds = worlds_a + worlds_b.drop_first();
    let states = states_a + states_b.drop_first();
    let all = first + second;
    assert forall|i: int| 0 <= i < all.len() implies (#[trigger] all[i]).effect(
        worlds[i],
        states[i],
        dt,
        worlds[i + 1],
        states[i + 1],
    ) by {
        if i < first.len() {
            assert(all[i] == first[i]);
            assert(first[i].effect(worlds_a[i], states_a[i], dt, worlds_a[i + 1], states_a[i + 1]));
        } else {
            let j = i - first.len();
            assert(all[i] == second[j]);
            assert(second[j].effect(
                worlds_b[j],
                states_b[j],
                dt,
                worlds_b[j + 1],
                states_b[j + 1],
            ));
            if j == 0 {
                assert(worlds[i] == worlds_a.last());
                assert(states[i] == states_a.last());
            }
        }
    }
    assert(is_run(all, dt, worlds, states));
}

/// The ordered list of systems of a simulation. The schedule owns its
/// systems and runs them through their interface only.
#[verifier::reject_recursive_types(C)]
#[verifier::reject_recursive_types(P)]
#[verifier::reject_recursive_types(D)]
pub struct SystemSchedule<C: Component, P: Physics, D> {
    systems: Vec<Box<dyn System<C, P, D>>>,
    parallel_systems: Vec<Vec<Box<dyn System<C, P, D>>>>,
}

impl<C: Component, P: Physics, D: Copy> SystemSchedule<C, P, D> {
    /// The systems registered one by one, in registration order.
    pub closed spec fn systems(&self) -> Seq<Box<dyn System<C, P, D>>> {
        self.systems@
    }

    /// The groups registered as parallel groups, in registration order.
    pub closed spec fn groups(&self) -> Seq<Vec<Box<dyn System<C, P, D>>>> {
        self.parallel_systems@
    }

    /// The order in which one execution runs the systems: those registered
    /// one by one first, then the groups, each in its own order.
    pub open spec fn order(&self) -> Seq<Box<dyn System<C, P, D>>> {
        self.systems() + in_order(self.groups())
    }

    /// Creates a schedule without systems.
    pub fn new() -> (schedule: Self)
        ensures
            schedule.systems() == Seq::<Box<dyn System<C, P, D>>>::empty(),
            schedule.groups() == Seq::<Vec<Box<dyn System<C, P, D>>>>::empty(),
    {
        Self { systems: Vec::new(), parallel_systems: Vec::new() }
    }

    /// Registers `system` behind the systems registered one by one so far.
    pub fn add_system(&mut self, system: Box<dyn System<C, P, D>>)
        ensures
            final(self).systems() == old(self).systems().push(system),
            final(self).groups() == old(self).groups(),
    {
        self.systems.push(system);
    }

    /// Registers the systems of `systems`, in order, behind the systems
    /// registered one by one so far.
    pub fn add_systems(&mut self, systems: Vec<Box<dyn System<C, P, D>>>)
        ensures
            final(self).systems() == old(self).systems() + systems@,
            final(self).groups() == old(self).groups(),
    {
        let mut systems = systems;
        self.systems.append(&mut systems);
    }

    /// Registers `systems` as a group behind the groups registered so far.
    pub fn add_parallel_systems(&mut self, systems: Vec<Box<dyn System<C, P, D>>>)
        ensures
            final(self).systems() == old(self).systems(),
            final(self).groups() == old(self).groups().push(systems),
    {
        self.parallel_systems.push(systems);
    }

    /// Calls a lifecycle hook of every system of `group` once, in order:
    /// `cleanup` when `teardown` is set, `initialize` otherwise. Each hook
    /// starts from the world that the one before it left behind.
    fn call_hooks(group: &mut Vec<Box<dyn System<C, P, D>>>, world: &mut World<C>, teardown: bool)
        requires
            old(world).wf(),
        ensures
            final(world).wf(),
            final(group)@.len() == old(group)@.len(),
            hooks_from_to(old(group)@, teardown, old(world)@, final(world)@),
    {
        let n = group.len();
        let mut i: usize = 0;
        proof {
            lemma_empty_pass::<C, P, D>(teardown, world@);
            assert(old(group)@.take(0) =~= Seq::<Box<dyn System<C, P, D>>>::empty());
        }
        while i < n
            invariant
                i <= n,
                n == group@.len(),
                n == old(group)@.len(),
                world.wf(),
                forall|k: int| i <= k < n ==> group@[k] == old(group)@[k],
                hooks_from_to(old(group)@.take(i as int), teardown, old(world)@, world@),
            decreases n - i,
        {
            let ghost world_before = world@;
            let ghost system = group@[i as int];
            if teardown {
                group[i].cleanup(world);
            } else {
                group[i].initialize(world);
            }
            proof {
                let one = seq![system];
                let worlds = seq![world_before, world@];
                assert(one[0] == system);
                assert(worlds[0] == world_before && worlds[1] == world@);
                assert(is_hook_pass(one, teardown, worlds));
                lemma_passes_compose(
                    old(group)@.take(i as int),
                    one,
                    teardown,
                    old(world)@,
                    world_before,
                    world@,
                );
                assert(old(group)@.take(i + 1) =~= old(group)@.take(i as int) + one);
            }
            i += 1;
        }
        assert(old(group)@.take(n as int) =~= old(group)@);
    }

    /// Calls a lifecycle hook of every system once, in the order in which
    /// the systems run: the systems registered one by one, then the groups.
    /// Each hook starts from the world that the one before it left behind.
    fn call_all_hooks(&mut self, world: &mut World<C>, teardown: bool)
        requires
            old(world).wf(),
        ensures
            final(world).wf(),
            final(self).order().len() == old(self).order().len(),
            hooks_from_to(old(self).order(), teardown, old(world)@, final(world)@),
    {
        Self::call_hooks(&mut self.systems, world, teardown);
        let n = self.parallel_systems.len();
        let mut g: usize = 0;
        proof {
            assert(old(self).groups().take(0) =~= Seq::empty());
            assert(old(self).systems() + in_order(old(self).groups().take(0)) =~= old(
                self,
            ).systems());
        }
        while g < n
            invariant
                g <= n,
                n == self.parallel_systems@.len(),
                n == old(self).parallel_systems@.len(),
                world.wf(),
                self.systems@.len() == old(self).systems@.len(),
                forall|k: int|
                    g <= k < n ==> self.parallel_systems@[k] == old(self).parallel_systems@[k],
                forall|k: int|
                    0 <= k < n ==> (#[trigger] self.parallel_systems@[k])@.len() == old(
                        self,
                    ).parallel_systems@[k]@.len(),
                hooks_from_to(
                    old(self).systems() + in_order(old(self).groups().take(g as int)),
                    teardown,
                    old(world)@,
                    world@,
                ),
            decreases n - g,
        {
            let ghost world_before = world@;
            let ghost group = self.parallel_systems@[g as int]@;
            Self::call_hooks(&mut self.parallel_systems[g], world, teardown);
            proof {
                let before = old(self).systems() + in_order(old(self).groups().take(g as int));
                lemma_passes_compose(
                    before,
                    group,
                    teardown,
                    old(world)@,
                    world_before,
                    world@,
                );
                assert(old(self).groups().take(g + 1).drop_last() =~= old(self).groups().take(
                    g as int,
                ));
                assert(before + group =~= old(self).systems() + in_order(
                    old(self).groups().take(g + 1),
                ));
            }
            g += 1;
        }
        proof {
            assert(old(self).groups().take(n as int) =~= old(self).groups());
            Self::lemma_order_len(self.parallel_systems@, old(self).parallel_systems@);
        }
    }

    /// Calls the hook `initialize` of every registered system once, in the
    /// order in which the systems run, each hook starting from the world
    /// that the one before it left behind. To be called after registration
    /// and before the first tick.
    pub fn initialize(&mut self, world: &mut World<C>)
        requires
            old(world).wf(),
        ensures
            final(world).wf(),
            final(self).order().len() == old(self).order().len(),
            hooks_from_to(old(self).order(), false, old(world)@, final(world)@),
    {
        self.call_all_hooks(world, false);
    }

    /// Calls the hook `cleanup` of every registered system once, in the
    /// order in which the systems run, each hook starting from the world
    /// that the one before it left behind. To be called at teardown.
    pub fn cleanup(&mut self, world: &mut World<C>)
        requires
            old(world).wf(),
        ensures
            final(world).wf(),
            final(self).order().len() == old(self).order().len(),
            hooks_from_to(old(self).order(), true, old(world)@, final(world)@),
    {
        self.call_all_hooks(world, true);
    }

    /// Runs the systems of `group` once each, in order.
    fn run_group(
        group: &mut Vec<Box<dyn System<C, P, D>>>,
        world: &mut World<C>,
        physics: &mut P,
        dt: D,
    )
        requires
            old(world).wf(),
            old(physics).valid(),
        ensures
            final(world).wf(),
            final(physics).valid(),
            final(group)@.len() == old(group)@.len(),
            runs_from_to(
                old(group)@,
                dt,
                old(world)@,
                *old(physics),
                final(world)@,
                *final(physics),
            ),
    {
        let n = group.len();
        let mut i: usize = 0;
        proof {
            lemma_empty_run::<C, P, D>(dt, world@, *physics);
            assert(old(group)@.take(0) =~= Seq::<Box<dyn System<C, P, D>>>::empty());
        }
        while i < n
            invariant
                i <= n,
                n == group@.len(),
                n == old(group)@.len(),
                world.wf(),
                physics.valid(),
                forall|k: int| i <= k < n ==> group@[k] == old(group)@[k],
                runs_from_to(
                    old(group)@.take(i as int),
                    dt,
                    old(world)@,
                    *old(physics),
                    world@,
                    *physics,
                ),
            decreases n - i,
        {
            let ghost world_before = world@;
            let ghost physics_before = *physics;
            let ghost system = group@[i as int];
            group[i].execute(world, physics, dt);
            proof {
                let one = seq![system];
                let worlds = seq![world_before, world@];
                let states = seq![physics_before, *physics];
                assert(one[0] == system);
                assert(worlds[0] == world_before && worlds[1] == world@);
                assert(states[0] == physics_before && states[1] == *physics);
                assert(is_run(one, dt, worlds, states));
                lemma_runs_compose(
                    old(group)@.take(i as int),
                    one,
                    dt,
                    old(world)@,
                    *old(physics),
                    world_before,
                    physics_before,
                    world@,
                    *physics,
                );
                assert(old(group)@.take(i + 1) =~= old(group)@.take(i as int) + one);
            }
            i += 1;
        }
        assert(old(group)@.take(n as int) =~= old(group)@);
    }

    /// Runs every system once, strictly in registration order: the systems
    /// registered one by one, then the parallel groups, which run one
    /// system after the other too. Each system starts from the world and
    /// the physics state that the one before it left behind; both are well
    /// formed for every system, and in the end.
    pub fn execute(&mut self, world: &mut World<C>, physics: &mut P, dt: D)
        requires
            old(world).wf(),
            old(physics).valid(),
        ensures
            final(world).wf(),
            final(physics).valid(),
            final(self).order().len() == old(self).order().len(),
            runs_from_to(
                old(self).order(),
                dt,
                old(world)@,
                *old(physics),
                final(world)@,
                *final(physics),
            ),
    {
        Self::run_group(&mut self.systems, world, physics, dt);
        let n = self.parallel_systems.len();
        let mut g: usize = 0;
        proof {
            assert(old(self).groups().take(0) =~= Seq::empty());
            assert(old(self).systems() + in_order(old(self).groups().take(0)) =~= old(
                self,
            ).systems());
        }
        while g < n
            invariant
                g <= n,
                n == self.parallel_systems@.len(),
                n == old(self).parallel_systems@.len(),
                world.wf(),
                physics.valid(),
                self.systems@.len() == old(self).systems@.len(),
                forall|k: int|
                    g <= k < n ==> self.parallel_systems@[k] == old(self).parallel_systems@[k],
                forall|k: int|
                    0 <= k < n ==> (#[trigger] self.parallel_systems@[k])@.len() == old(
                        self,
                    ).parallel_systems@[k]@.len(),
                runs_from_to(
                    old(self).systems() + in_order(old(self).groups().take(g as int)),
                    dt,
                    old(world)@,
                    *old(physics),
                    world@,
                    *physics,
                ),
            decreases n - g,
        {
            let ghost world_before = world@;
            let ghost physics_before = *physics;
            let ghost group = self.parallel_systems@[g as int]@;
            Self::run_group(&mut self.parallel_systems[g], world, physics, dt);
            proof {
                let before = old(self).systems() + in_order(old(self).groups().take(g as int));
                lemma_runs_compose(
                    before,
                    group,
                    dt,
                    old(world)@,
                    *old(physics),
                    world_before,
                    physics_before,
                    world@,
                    *physics,
                );
                assert(old(self).groups().take(g + 1).drop_last() =~= old(self).groups().take(
                    g as int,
                ));
                assert(before + group =~= old(self).systems() + in_order(
                    old(self).groups().take(g + 1),
                ));
            }
            g += 1;
        }
        proof {
            assert(old(self).groups().take(n as int) =~= old(self).groups());
            Self::lemma_order_len(self.parallel_systems@, old(self).parallel_systems@);
        }
    }

    /// Groups of the same sizes hold the same number of systems.
    proof fn lemma_order_len(
        a: Seq<Vec<Box<dyn System<C, P, D>>>>,
        b: Seq<Vec<Box<dyn System<C, P, D>>>>,
    )
        requires
            a.len() == b.len(),
            forall|k: int| 0 <= k < a.len() ==> (#[trigger] a[k])@.len() == b[k]@.len(),
        ensures
            in_order(a).len() == in_order(b).len(),
        decreases a.len(),
    {
        if a.len() > 0 {
            Self::lemma_order_len(a.drop_last(), b.drop_last());
        }
    }

    /// Removes every system.
    pub fn clear(&mut self)
        ensures
            final(self).systems() == Seq::<Box<dyn System<C, P, D>>>::empty(),
            final(self).groups() == Seq::<Vec<Box<dyn System<C, P, D>>>>::empty(),
    {
        self.systems.clear();
        self.parallel_systems.clear();
    }
}

} // verus!
