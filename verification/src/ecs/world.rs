use super::column::column_of;
use super::column::Column;
use super::column::ComponentId;
use super::column::EntityId;
use super::column::lemma_without;
use super::column::without;
use super::component::Component;
use super::query::SingleComponentIter;
use super::query::SingleComponentIterMut;
use super::query::TupleComponentIter;
use super::query::TupleComponentIterMut;
use super::storage::ComponentStorage;
use vstd::prelude::*;

verus! {

/// Mathematical state of the entity allocator: the live entities in the
/// order the world keeps them, the stack of recycled ids (top last), and
/// the next id that was never handed out.
pub struct EntityPool {
    pub live: Seq<EntityId>,
    pub free: Seq<EntityId>,
    pub next_id: nat,
}

impl EntityPool {
    /// The pool in which no id was ever handed out.
    pub open spec fn empty() -> Self {
        EntityPool { live: Seq::empty(), free: Seq::empty(), next_id: 0 }
    }

    /// No id is live twice, recycled twice, or both live and recycled, and
    /// every id in use lies below `next_id`.
    pub open spec fn wf(self) -> bool {
        &&& self.live.no_duplicates()
        &&& self.free.no_duplicates()
        &&& forall|e: EntityId| self.live.contains(e) ==> !self.free.contains(e)
        &&& forall|e: EntityId| self.live.contains(e) ==> e < self.next_id
        &&& forall|e: EntityId| self.free.contains(e) ==> e < self.next_id
        &&& self.next_id <= EntityId::MAX
    }

    /// Whether `entity` is live.
    pub open spec fn is_live(self, entity: EntityId) -> bool {
        self.live.contains(entity)
    }

    /// Whether another entity can be created: a recycled id is waiting, or
    /// the counter has not reached the largest id.
    pub open spec fn can_create(self) -> bool {
        self.free.len() > 0 || self.next_id < EntityId::MAX
    }

    /// How many entities can still be created one after the other: one
    /// for each recycled id, and one for each id that the counter has left.
    pub open spec fn room(self) -> nat {
        self.free.len() + (EntityId::MAX - self.next_id) as nat
    }

    /// The id that the next creation hands out: the most recently recycled
    /// one if there is any, else the next fresh one.
    pub open spec fn next_created(self) -> EntityId {
        if self.free.len() > 0 {
            self.free.last()
        } else {
            self.next_id as EntityId
        }
    }

    /// Pool after creating an entity.
    pub open spec fn create(self) -> Self {
        if self.free.len() > 0 {
            EntityPool {
                live: self.live.push(self.free.last()),
                free: self.free.drop_last(),
                next_id: self.next_id,
            }
        } else {
            EntityPool {
                live: self.live.push(self.next_id as EntityId),
                free: self.free,
                next_id: self.next_id + 1,
            }
        }
    }

    /// Pool after destroying `entity`: it leaves the live entities by
    /// swap-remove and goes on top of the recycled ids. Unchanged when the
    /// entity is not live.
    pub open spec fn destroy(self, entity: EntityId) -> Self {
        if self.is_live(entity) {
            EntityPool {
                live: without(self.live, entity),
                free: self.free.push(entity),
                next_id: self.next_id,
            }
        } else {
            self
        }
    }

    /// Pool after forgetting every entity. The counter keeps its value.
    pub open spec fn clear(self) -> Self {
        EntityPool { live: Seq::empty(), free: Seq::empty(), next_id: self.next_id }
    }

    /// Creation keeps the pool well formed and hands out an id that was not
    /// live.
    pub proof fn lemma_create(self)
        requires
            self.wf(),
            self.can_create(),
        ensures
            self.create().wf(),
            !self.is_live(self.next_created()),
            self.create().is_live(self.next_created()),
            self.create().live == self.live.push(self.next_created()),
    {
        let after = self.create();
        let id = self.next_created();
        if self.free.len() > 0 {
            assert(self.free[self.free.len() - 1] == id);
            assert(self.free.contains(id));
            assert forall|e: EntityId| after.free.contains(e) implies self.free.contains(e) by {
                let k = after.free.index_of(e);
                assert(self.free[k] == e);
            }
            assert(!after.free.contains(id)) by {
                if after.free.contains(id) {
                    let k = after.free.index_of(id);
                    assert(self.free[k] == id);
                }
            }
        } else {
            assert(!self.live.contains(id)) by {
                if self.live.contains(id) {
                    assert(id < self.next_id);
                }
            }
        }
        assert(after.live[self.live.len() as int] == id);
        assert forall|e: EntityId| after.live.contains(e) implies (e == id || self.live.contains(
            e,
        )) by {
            let k = after.live.index_of(e);
            if k < self.live.len() {
                assert(self.live[k] == e);
            }
        }
    }

    /// Destruction keeps the pool well formed; the entity is no longer
    /// live, and every other entity is live exactly if it was.
    pub proof fn lemma_destroy(self, entity: EntityId)
        requires
            self.wf(),
        ensures
            self.destroy(entity).wf(),
            !self.destroy(entity).is_live(entity),
            forall|other: EntityId|
                other != entity ==> (#[trigger] self.destroy(entity).is_live(other)
                    <==> self.is_live(other)),
    {
        let after = self.destroy(entity);
        lemma_without(self.live, entity);
        if self.is_live(entity) {
            assert forall|e: EntityId| after.free.contains(e) implies (e == entity
                || self.free.contains(e)) by {
                let k = after.free.index_of(e);
                if k < self.free.len() {
                    assert(self.free[k] == e);
                }
            }
            assert forall|e: EntityId| after.live.contains(e) implies !after.free.contains(e) by {
                assert(e != entity);
                assert(self.live.contains(e));
            }
        }
    }
}

/// One call on the entity allocator.
pub enum PoolOp {
    /// Create an entity.
    Create,
    /// Destroy the entity with this id.
    Destroy(EntityId),
}

impl EntityPool {
    /// Pool after one call. A creation that the pool cannot serve leaves it
    /// unchanged.
    pub open spec fn step(self, op: PoolOp) -> Self {
        match op {
            PoolOp::Create => if self.can_create() {
                self.create()
            } else {
                self
            },
            PoolOp::Destroy(entity) => self.destroy(entity),
        }
    }

    /// Pool after the calls of `ops`, made in order.
    pub open spec fn run(self, ops: Seq<PoolOp>) -> Self
        decreases ops.len(),
    {
        if ops.len() == 0 {
            self
        } else {
            self.run(ops.drop_last()).step(ops.last())
        }
    }

    /// Whatever creations and destructions are made on a well-formed pool,
    /// in whatever order, the pool stays well formed: at no point are two
    /// live entities the same id, and no live id waits for reuse.
    pub proof fn lemma_run_keeps_ids_unique(self, ops: Seq<PoolOp>)
        requires
            self.wf(),
        ensures
            self.run(ops).wf(),
            self.run(ops).live.no_duplicates(),
        decreases ops.len(),
    {
        if ops.len() > 0 {
            let before = self.run(ops.drop_last());
            self.lemma_run_keeps_ids_unique(ops.drop_last());
            match ops.last() {
                PoolOp::Create => {
                    if before.can_create() {
                        before.lemma_create();
                    }
                },
                PoolOp::Destroy(entity) => {
                    before.lemma_destroy(entity);
                },
            }
        }
    }

    /// Starting from nothing, no sequence of creations and destructions
    /// ever makes two live entities share an id.
    pub proof fn lemma_live_ids_unique(ops: Seq<PoolOp>)
        ensures
            Self::empty().run(ops).live.no_duplicates(),
    {
        Self::empty().lemma_run_keeps_ids_unique(ops);
    }

    /// The id of a destroyed entity is the one that the next creation
    /// hands out.
    pub proof fn lemma_destroyed_id_comes_back(self, entity: EntityId)
        requires
            self.wf(),
            self.is_live(entity),
        ensures
            self.destroy(entity).can_create(),
            self.destroy(entity).next_created() == entity,
            self.destroy(entity).create().is_live(entity),
    {
        let after = self.destroy(entity);
        self.lemma_destroy(entity);
        after.lemma_create();
    }
}

/// Mathematical state of a world: its entity allocator and the content of
/// every component column.
pub struct WorldState<C> {
    pub pool: EntityPool,
    pub components: Map<ComponentId, Column<C>>,
}

impl<C> WorldState<C> {
    /// The world without entities and without columns.
    pub open spec fn empty() -> Self {
        WorldState { pool: EntityPool::empty(), components: Map::empty() }
    }

    /// The allocator is well formed and so is every column.
    pub open spec fn wf(self) -> bool {
        &&& self.pool.wf()
        &&& forall|kind: ComponentId| #[trigger]
            self.components.contains_key(kind) ==> self.components[kind].wf()
    }

    /// Content of the column of `kind`; empty when the kind has no column.
    pub open spec fn column(self, kind: ComponentId) -> Column<C> {
        column_of(self.components, kind)
    }

    /// The component of `kind` that `entity` has, if any.
    pub open spec fn component(self, kind: ComponentId, entity: EntityId) -> Option<C> {
        self.column(kind).get(entity)
    }

    /// State after creating an entity: only the allocator changes.
    pub open spec fn create(self) -> Self {
        WorldState { pool: self.pool.create(), components: self.components }
    }

    /// State after destroying `entity`: it leaves the allocator's live
    /// entities and loses its value in every column. Unchanged when the
    /// entity is not live.
    pub open spec fn destroy(self, entity: EntityId) -> Self {
        if self.pool.is_live(entity) {
            WorldState {
                pool: self.pool.destroy(entity),
                components: self.components.map_values(|c: Column<C>| c.remove(entity)),
            }
        } else {
            self
        }
    }

    /// State after storing `component` as the component of `kind` of
    /// `entity`.
    pub open spec fn add_component(
        self,
        kind: ComponentId,
        entity: EntityId,
        component: C,
    ) -> Self {
        WorldState {
            pool: self.pool,
            components: self.components.insert(
                kind,
                self.column(kind).insert(entity, component),
            ),
        }
    }

    /// State after removing the component of `kind` of `entity`.
    pub open spec fn remove_component(self, kind: ComponentId, entity: EntityId) -> Self {
        if self.components.contains_key(kind) {
            WorldState {
                pool: self.pool,
                components: self.components.insert(kind, self.components[kind].remove(entity)),
            }
        } else {
            self
        }
    }

    /// State after forgetting every entity and emptying every column. The
    /// columns stay registered and the id counter keeps its value.
    pub open spec fn clear(self) -> Self {
        WorldState {
            pool: self.pool.clear(),
            components: self.components.map_values(|c: Column<C>| Column::<C>::empty()),
        }
    }
}

impl<C> WorldState<C> {
    /// Every state change keeps a well-formed state well formed.
    pub proof fn lemma_wf_kept(self, kind: ComponentId, entity: EntityId, component: C)
        requires
            self.wf(),
        ensures
            self.pool.can_create() ==> self.create().wf(),
            self.destroy(entity).wf(),
            self.add_component(kind, entity, component).wf(),
            self.remove_component(kind, entity).wf(),
            self.clear().wf(),
    {
        if self.pool.can_create() {
            self.pool.lemma_create();
        }
        self.pool.lemma_destroy(entity);
        assert forall|k: ComponentId| #[trigger]
            self.destroy(entity).components.contains_key(k) implies self.destroy(
            entity,
        ).components[k].wf() by {
            self.components[k].lemma_remove(entity);
        }
        self.column(kind).lemma_insert(entity, component);
        if self.components.contains_key(kind) {
            self.components[kind].lemma_remove(entity);
        }
    }

    /// An entity that is destroyed and created again comes back under the
    /// id it had, and without any component of its earlier life.
    pub proof fn lemma_recreated_entity_is_bare(self, entity: EntityId)
        requires
            self.wf(),
            self.pool.is_live(entity),
        ensures
            self.destroy(entity).pool.can_create(),
            self.destroy(entity).pool.next_created() == entity,
            self.destroy(entity).create().pool.is_live(entity),
            forall|kind: ComponentId| #[trigger]
                self.destroy(entity).create().component(kind, entity) is None,
    {
        self.pool.lemma_destroyed_id_comes_back(entity);
        assert forall|kind: ComponentId| #[trigger]
            self.destroy(entity).create().component(kind, entity) is None by {
            if self.components.contains_key(kind) {
                self.components[kind].lemma_remove(entity);
            }
        }
    }

    /// Destroying an entity changes no component of any other entity.
    pub proof fn lemma_destroy_spares_others(
        self,
        entity: EntityId,
        kind: ComponentId,
        other: EntityId,
    )
        requires
            self.wf(),
            other != entity,
        ensures
            self.destroy(entity).component(kind, other) == self.component(kind, other),
    {
        if self.components.contains_key(kind) {
            self.components[kind].lemma_remove(entity);
        }
    }
}

/// The entities of a simulation and the components attached to them.
///
/// The world hands out entity ids, recycling destroyed ones before it
/// allocates fresh ones, and owns one dense column per component kind.
pub struct World<C: Component> {
    entities: Vec<EntityId>,
    components: ComponentStorage<C>,
    next_entity_id: EntityId,
    free_entities: Vec<EntityId>,
}

impl<C: Component> World<C> {
    /// The mathematical state the world stands for.
    pub closed spec fn view(&self) -> WorldState<C> {
        WorldState {
            pool: EntityPool {
                live: self.entities@,
                free: self.free_entities@,
                next_id: self.next_entity_id as nat,
            },
            components: self.components@,
        }
    }

    /// The allocator's bookkeeping and every column are consistent.
    pub closed spec fn wf(&self) -> bool {
        &&& self@.pool.wf()
        &&& self.components.wf()
    }

    /// The state of a well-formed world is a well-formed state.
    pub proof fn lemma_view_wf(&self)
        requires
            self.wf(),
        ensures
            self@.wf(),
    {
        self.components.lemma_columns_wf();
        assert forall|kind: ComponentId| #[trigger]
            self@.components.contains_key(kind) implies self@.components[kind].wf() by {
            assert(self.components.column(kind).wf());
        }
    }

    /// Creates an empty world with room for 1000 entities.
    pub fn new() -> (world: Self)
        ensures
            world.wf(),
            world@ == WorldState::<C>::empty(),
    {
        Self::with_capacity(1000)
    }

    /// Creates an empty world with room for `capacity` entities.
    pub fn with_capacity(capacity: usize) -> (world: Self)
        ensures
            world.wf(),
            world@ == WorldState::<C>::empty(),
    {
        Self {
            entities: Vec::with_capacity(capacity),
            components: ComponentStorage::new(),
            next_entity_id: 0,
            free_entities: Vec::new(),
        }
    }

    /// Whether `create_entity` may be called: a recycled id is waiting, or
    /// the id counter has not reached the largest id.
    pub fn can_create_entity(&self) -> (ok: bool)
        ensures
            ok == self@.pool.can_create(),
    {
        self.free_entities.len() > 0 || self.next_entity_id < EntityId::MAX
    }

    /// Whether `count` entities can be created one after the other.
    pub fn can_create_entities(&self, count: usize) -> (ok: bool)
        requires
            self.wf(),
        ensures
            ok == (count <= self@.pool.room()),
    {
        let waiting = self.free_entities.len();
        if count <= waiting {
            true
        } else {
            let fresh: EntityId = EntityId::MAX - self.next_entity_id;
            count - waiting <= fresh as usize
        }
    }

    /// Creates an entity and returns its id, which was not live before:
    /// the most recently destroyed id that has not been reused, if there is
    /// one, else the next id never handed out.
    pub fn create_entity(&mut self) -> (id: EntityId)
        requires
            old(self).wf(),
            old(self)@.pool.can_create(),
        ensures
            final(self).wf(),
            final(self)@ == old(self)@.create(),
            id == old(self)@.pool.next_created(),
            !old(self)@.pool.is_live(id),
            final(self)@.pool.is_live(id),
    {
        proof {
            old(self)@.pool.lemma_create();
        }
        match self.free_entities.pop() {
            Some(id) => {
                self.entities.push(id);
                id
            },
            None => {
                let id = self.next_entity_id;
                self.next_entity_id += 1;
                self.entities.push(id);
                id
            },
        }
    }

    /// Position of `entity` among the live entities.
    fn position(&self, entity: EntityId) -> (found: Option<usize>)
        requires
            self.wf(),
        ensures
            match found {
                Some(idx) => {
                    &&& self.entities@.contains(entity)
                    &&& idx == self.entities@.index_of(entity)
                    &&& idx < self.entities@.len()
                },
                None => !self.entities@.contains(entity),
            },
    {
        let n = self.entities.len();
        let mut i: usize = 0;
        while i < n
            invariant
                i <= n,
                n == self.entities@.len(),
                self.entities@.no_duplicates(),
                forall|k: int| 0 <= k < i ==> self.entities@[k] != entity,
            decreases n - i,
        {
            if self.entities[i] == entity {
                proof {
                    let k = self.entities@.index_of(entity);
                    assert(self.entities@[k] == entity);
                }
                return Some(i);
            }
            i += 1;
        }
        None
    }

    /// Destroys `entity`: it stops being live, loses every component, and
    /// its id becomes the next one to be reused. Returns whether the entity
    /// was live; nothing changes when it was not.
    pub fn destroy_entity(&mut self, entity: EntityId) -> (destroyed: bool)
        requires
            old(self).wf(),
        ensures
            final(self).wf(),
            destroyed == old(self)@.pool.is_live(entity),
            final(self)@ == old(self)@.destroy(entity),
    {
        proof {
            old(self)@.pool.lemma_destroy(entity);
        }
        match self.position(entity) {
            Some(idx) => {
                self.entities.swap_remove(idx);
                self.components.remove_all(entity);
                self.free_entities.push(entity);
                assert(final(self)@.components =~= old(self)@.components.map_values(
                    |c: Column<C>| c.remove(entity),
                ));
                true
            },
            None => false,
        }
    }

    /// Stores `component` as the component of `kind` of `entity`,
    /// replacing the one it had.
    pub fn add_component(&mut self, kind: ComponentId, entity: EntityId, component: C)
        requires
            old(self).wf(),
        ensures
            final(self).wf(),
            final(self)@ == old(self)@.add_component(kind, entity, component),
    {
        self.components.insert(kind, entity, component);
    }

    /// Removes and returns the component of `kind` of `entity`.
    pub fn remove_component(&mut self, kind: ComponentId, entity: EntityId) -> (removed: Option<C>)
        requires
            old(self).wf(),
        ensures
            final(self).wf(),
            removed == old(self)@.component(kind, entity),
            final(self)@ == old(self)@.remove_component(kind, entity),
    {
        self.components.remove(kind, entity)
    }

    /// The component of `kind` of `entity`, or nothing when it has none.
    pub fn get_component(&self, kind: ComponentId, entity: EntityId) -> (found: Option<&C>)
        requires
            self.wf(),
        ensures
            match found {
                Some(component) => self@.component(kind, entity) == Some(*component),
                None => self@.component(kind, entity) is None,
            },
    {
        self.components.get(kind, entity)
    }

    /// Mutable access to the component of `kind` of `entity`, or nothing
    /// when it has none. Whatever the caller writes through the reference
    /// becomes that component; nothing else changes.
    pub fn get_component_mut(&mut self, kind: ComponentId, entity: EntityId) -> (found: Option<
        &mut C,
    >)
        requires
            old(self).wf(),
        ensures
            final(self).wf(),
            match found {
                Some(component) => {
                    &&& old(self)@.component(kind, entity) == Some(*component)
                    &&& final(self)@ == old(self)@.add_component(kind, entity, *final(component))
                },
                None => {
                    &&& old(self)@.component(kind, entity) is None
                    &&& final(self)@ == old(self)@
                },
            },
    {
        self.components.get_mut(kind, entity)
    }

    /// Whether `kind` is registered: whether a component of that kind was
    /// ever added. A kind stays registered when its components are removed.
    pub fn is_registered(&self, kind: ComponentId) -> (registered: bool)
        requires
            self.wf(),
        ensures
            registered == self@.components.contains_key(kind),
    {
        self.components.get_storage(kind).is_some()
    }

    /// Iterates over the entities that have a component of `kind`, in the
    /// dense order of that kind's column. The kind must be registered: to
    /// query a kind that never had a value is an error of the caller.
    pub fn query(&self, kind: ComponentId) -> (iter: SingleComponentIter<'_, C>)
        requires
            self.wf(),
            self@.components.contains_key(kind),
        ensures
            iter.starts(self@.components, kind),
    {
        SingleComponentIter::new(&self.components, kind)
    }

    /// Iterates over the entities that have a component of `kind_a` and
    /// one of `kind_b`: each of them once, none that lacks either. Both
    /// kinds must be registered.
    pub fn query_pair(&self, kind_a: ComponentId, kind_b: ComponentId) -> (iter:
        TupleComponentIter<'_, C>)
        requires
            self.wf(),
            self@.components.contains_key(kind_a),
            self@.components.contains_key(kind_b),
        ensures
            iter.starts(self@.components, kind_a, kind_b),
    {
        TupleComponentIter::new(&self.components, kind_a, kind_b)
    }

    /// Iterates over the entities that have a component of `kind`, with
    /// mutable access to it. What the references hold in the end becomes
    /// the components of that kind; nothing else in the world changes. The
    /// kind must be registered.
    pub fn query_mut(&mut self, kind: ComponentId) -> (iter: SingleComponentIterMut<'_, C>)
        requires
            old(self).wf(),
            old(self)@.components.contains_key(kind),
        ensures
            final(self).wf(),
            final(self)@.pool == old(self)@.pool,
            iter.starts(
                old(self)@.components,
                final(self)@.components,
                kind,
                Seq::new(iter.pending().len(), |i: int| *final(iter.pending()[i].1)),
            ),
    {
        SingleComponentIterMut::new(&mut self.components, kind)
    }

    /// Iterates over the entities that have a component of `kind_a` and
    /// one of `kind_b`, with mutable access to both. What the references
    /// hold in the end becomes those components; nothing else in the world
    /// changes. Both kinds must be registered, and they must differ.
    pub fn query_pair_mut(&mut self, kind_a: ComponentId, kind_b: ComponentId) -> (iter:
        TupleComponentIterMut<'_, C>)
        requires
            old(self).wf(),
            old(self)@.components.contains_key(kind_a),
            old(self)@.components.contains_key(kind_b),
            kind_a != kind_b,
        ensures
            final(self).wf(),
            final(self)@.pool == old(self)@.pool,
            iter.starts(
                old(self)@.components,
                final(self)@.components,
                kind_a,
                kind_b,
                Seq::new(iter.pending().len(), |i: int| *final(iter.pending()[i].1.0)),
                Seq::new(iter.pending().len(), |i: int| *final(iter.pending()[i].1.1)),
            ),
    {
        TupleComponentIterMut::new(&mut self.components, kind_a, kind_b)
    }

    /// Number of live entities.
    pub fn entity_count(&self) -> (count: usize)
        ensures
            count == self@.pool.live.len(),
    {
        self.entities.len()
    }

    /// Forgets every entity and empties every column. Ids handed out
    /// before are not handed out again.
    pub fn clear(&mut self)
        requires
            old(self).wf(),
        ensures
            final(self).wf(),
            final(self)@ == old(self)@.clear(),
    {
        self.entities.clear();
        self.components.clear();
        self.free_entities.clear();
        assert(final(self)@.components =~= old(self)@.components.map_values(
            |c: Column<C>| Column::<C>::empty(),
        ));
    }
}

} // verus!
