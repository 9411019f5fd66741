use std::collections::HashMap;
use super::column::Column;
use super::column::EntityId;
use super::column::without;
use vstd::prelude::*;

verus! {

broadcast use vstd::std_specs::hash::group_hash_axioms;

/// Marks a value type as attachable to an entity.
pub trait Component: Send + Sync + 'static {}

/// What every column can do whatever the type of its values: forget one
/// entity, and forget all of them.
pub trait ComponentVec {
    /// The column's internal bookkeeping is consistent.
    spec fn valid(&self) -> bool;

    /// Entities that have a value in the column, in dense order.
    spec fn members(&self) -> Seq<EntityId>;

    /// Drops the value of `entity`, if it has one, by swap-remove.
    fn remove(&mut self, entity: EntityId)
        requires
            old(self).valid(),
        ensures
            final(self).valid(),
            final(self).members() == without(old(self).members(), entity),
    ;

    /// Drops every value.
    fn clear(&mut self)
        ensures
            final(self).valid(),
            final(self).members() == Seq::<EntityId>::empty(),
    ;
}

/// Dense column of the components of one kind.
///
/// Values and their owning entities are kept in two parallel arrays, and a
/// map from entity to slot gives constant-time lookup.
pub struct TypedComponentVec<T: Component> {
    components: Vec<T>,
    entities: Vec<EntityId>,
    entity_indices: HashMap<EntityId, usize>,
}

impl<T: Component> TypedComponentVec<T> {
    /// The content of the column: entities and values in dense order.
    pub closed spec fn view(&self) -> Column<T> {
        Column { entities: self.entities@, values: self.components@ }
    }

    /// The two arrays are parallel and the slot map is exactly the inverse
    /// of the entity array.
    pub closed spec fn wf(&self) -> bool {
        &&& self.entities@.len() == self.components@.len()
        &&& forall|i: int|
            0 <= i < self.entities@.len() ==> {
                &&& self.entity_indices@.contains_key(#[trigger] self.entities@[i])
                &&& self.entity_indices@[self.entities@[i]] == i
            }
        &&& forall|e: EntityId| #[trigger]
            self.entity_indices@.contains_key(e) ==> {
                &&& self.entity_indices@[e] < self.entities@.len()
                &&& self.entities@[self.entity_indices@[e] as int] == e
            }
    }

    /// The content of a well-formed column is a well-formed model: no
    /// entity occupies two slots.
    pub proof fn lemma_view_wf(&self)
        requires
            self.wf(),
        ensures
            self@.wf(),
    {
        let entities = self.entities@;
        assert forall|i: int, j: int|
            0 <= i < entities.len() && 0 <= j < entities.len() && i != j implies entities[i]
            != entities[j] by {
            assert(self.entity_indices@[self.entities@[i]] == i);
            assert(self.entity_indices@[self.entities@[j]] == j);
        }
    }

    /// Creates an empty column.
    pub fn new() -> (column: Self)
        ensures
            column.wf(),
            column@ == Column::<T>::empty(),
    {
        Self { components: Vec::new(), entities: Vec::new(), entity_indices: HashMap::new() }
    }

    /// Number of entities that have a value in this column.
    pub fn len(&self) -> (n: usize)
        requires
            self.wf(),
        ensures
            n == self@.len(),
    {
        self.entities.len()
    }

    /// Slot of `entity`, if it has a value here.
    pub(crate) fn slot(&self, entity: EntityId) -> (found: Option<usize>)
        requires
            self.wf(),
        ensures
            match found {
                Some(idx) => self@.has(entity) && idx == self@.slot_of(entity) && idx
                    < self@.len(),
                None => !self@.has(entity),
            },
    {
        proof {
            self.lemma_view_wf();
        }
        match self.entity_indices.get(&entity) {
            Some(idx) => {
                assert(self.entities@[*idx as int] == entity);
                proof {
                    self@.lemma_slot_of_index(*idx as int);
                }
                Some(*idx)
            },
            None => {
                assert(!self.entities@.contains(entity)) by {
                    if self.entities@.contains(entity) {
                        let k = self.entities@.index_of(entity);
                        assert(self.entity_indices@.contains_key(self.entities@[k]));
                    }
                }
                None
            },
        }
    }

    /// Whether `entity` has a value in this column.
    pub fn contains(&self, entity: EntityId) -> (present: bool)
        requires
            self.wf(),
        ensures
            present == self@.has(entity),
    {
        self.slot(entity).is_some()
    }

    /// The entity in dense slot `slot`, with its component.
    pub fn at(&self, slot: usize) -> (item: (EntityId, &T))
        requires
            self.wf(),
            slot < self@.len(),
        ensures
            item == (self@.entities[slot as int], &self@.values[slot as int]),
    {
        (self.entities[slot], &self.components[slot])
    }

    /// The entity in dense slot `slot`, with mutable access to its
    /// component. Whatever the caller writes through the reference becomes
    /// that entity's component; nothing else in the column changes.
    pub fn at_mut(&mut self, slot: usize) -> (item: (EntityId, &mut T))
        requires
            old(self).wf(),
            slot < old(self)@.len(),
        ensures
            final(self).wf(),
            item.0 == old(self)@.entities[slot as int],
            *item.1 == old(self)@.values[slot as int],
            final(self)@.entities == old(self)@.entities,
            final(self)@.values == old(self)@.values.update(slot as int, *final(item.1)),
    {
        (self.entities[slot], &mut self.components[slot])
    }

    /// Stores `component` for `entity`: overwrites in place when the entity
    /// already has a value, and appends a new dense slot otherwise.
    pub fn insert(&mut self, entity: EntityId, component: T)
        requires
            old(self).wf(),
        ensures
            final(self).wf(),
            final(self)@ == old(self)@.insert(entity, component),
    {
        match self.slot(entity) {
            Some(idx) => {
                self.components[idx] = component;
            },
            None => {
                let idx = self.entities.len();
                self.entities.push(entity);
                self.components.push(component);
                self.entity_indices.insert(entity, idx);
                assert forall|i: int| 0 <= i < self.entities@.len() implies {
                    &&& self.entity_indices@.contains_key(#[trigger] self.entities@[i])
                    &&& self.entity_indices@[self.entities@[i]] == i
                } by {
                    if i < idx {
                        assert(self.entities@[i] == old(self).entities@[i]);
                        assert(old(self).entities@.contains(old(self).entities@[i]));
                    }
                }
            },
        }
    }

    /// The component of `entity`, or nothing when it has none here.
    pub fn get(&self, entity: EntityId) -> (found: Option<&T>)
        requires
            self.wf(),
        ensures
            match found {
                Some(component) => self@.get(entity) == Some(*component),
                None => self@.get(entity) is None,
            },
    {
        match self.slot(entity) {
            Some(idx) => Some(&self.components[idx]),
            None => None,
        }
    }

    /// Mutable access to the component of `entity`, or nothing when it has
    /// none here. Whatever the caller writes through the reference becomes
    /// the entity's component; nothing else in the column changes.
    pub fn get_mut(&mut self, entity: EntityId) -> (found: Option<&mut T>)
        requires
            old(self).wf(),
        ensures
            final(self).wf(),
            match found {
                Some(component) => {
                    &&& old(self)@.get(entity) == Some(*component)
                    &&& final(self)@ == old(self)@.insert(entity, *final(component))
                },
                None => {
                    &&& old(self)@.get(entity) is None
                    &&& final(self)@ == old(self)@
                },
            },
    {
        match self.slot(entity) {
            Some(idx) => Some(&mut self.components[idx]),
            None => None,
        }
    }

    /// Removes and returns the component of `entity`. The last dense slot
    /// is moved into the vacated one, and the slot map is re-pointed for the
    /// entity that moved.
    pub fn remove(&mut self, entity: EntityId) -> (removed: Option<T>)
        requires
            old(self).wf(),
        ensures
            final(self).wf(),
            final(self)@ == old(self)@.remove(entity),
            removed == old(self)@.get(entity),
    {
        proof {
            old(self).lemma_view_wf();
        }
        match self.entity_indices.remove(&entity) {
            Some(idx) => {
                assert(old(self).entities@[idx as int] == entity);
                proof {
                    old(self)@.lemma_slot_of_index(idx as int);
                }
                let last_idx = self.entities.len() - 1;
                self.entities.swap_remove(idx);
                let component = self.components.swap_remove(idx);
                if idx != last_idx {
                    let swapped_entity = self.entities[idx];
                    self.entity_indices.insert(swapped_entity, idx);
                }
                proof {
                    let old_e = old(self).entities@;
                    assert forall|i: int| 0 <= i < self.entities@.len() implies {
                        &&& self.entity_indices@.contains_key(#[trigger] self.entities@[i])
                        &&& self.entity_indices@[self.entities@[i]] == i
                    } by {
                        if i != idx {
                            assert(self.entities@[i] == old_e[i]);
                            assert(old(self).entity_indices@[old_e[i]] == i);
                        } else {
                            assert(self.entities@[i] == old_e[last_idx as int]);
                        }
                    }
                    assert forall|e: EntityId| #[trigger]
                        self.entity_indices@.contains_key(e) implies {
                        &&& self.entity_indices@[e] < self.entities@.len()
                        &&& self.entities@[self.entity_indices@[e] as int] == e
                    } by {
                        assert(e != entity) by {
                            if e == entity {
                                assert(idx != last_idx);
                                assert(old_e[last_idx as int] == entity);
                            }
                        }
                        if idx != last_idx && e == old_e[last_idx as int] {
                        } else {
                            assert(old(self).entity_indices@.contains_key(e));
                            let k = old(self).entity_indices@[e];
                            assert(old_e[k as int] == e);
                            assert(k != last_idx);
                        }
                    }
                }
                Some(component)
            },
            None => {
                assert(!old(self).entities@.contains(entity)) by {
                    if old(self).entities@.contains(entity) {
                        let k = old(self).entities@.index_of(entity);
                        assert(old(self).entity_indices@.contains_key(old(self).entities@[k]));
                    }
                }
                assert(self.entity_indices@ =~= old(self).entity_indices@);
                None
            },
        }
    }

    /// Every entity of the column with its component, in dense order.
    pub fn iter(&self) -> (items: Vec<(EntityId, &T)>)
        requires
            self.wf(),
        ensures
            items@.len() == self@.len(),
            forall|i: int|
                0 <= i < items@.len() ==> #[trigger] items@[i] == (
                    self@.entities[i],
                    &self@.values[i],
                ),
    {
        let n = self.entities.len();
        let mut items: Vec<(EntityId, &T)> = Vec::new();
        let mut i: usize = 0;
        while i < n
            invariant
                i <= n,
                n == self.entities@.len(),
                n == self.components@.len(),
                items@.len() == i,
                forall|k: int|
                    0 <= k < i ==> #[trigger] items@[k] == (
                        self.entities@[k],
                        &self.components@[k],
                    ),
            decreases n - i,
        {
            items.push((self.entities[i], &self.components[i]));
            i += 1;
        }
        items
    }

    /// Every entity of the column with mutable access to its component, in
    /// dense order. Whatever the caller writes through a reference becomes
    /// that entity's component; the entities and their order do not change.
    pub fn iter_mut(&mut self) -> (items: Vec<(EntityId, &mut T)>)
        requires
            old(self).wf(),
        ensures
            final(self).wf(),
            final(self)@.entities == old(self)@.entities,
            final(self)@.values.len() == items@.len(),
            items@.len() == old(self)@.len(),
            forall|i: int|
                0 <= i < items@.len() ==> {
                    &&& (#[trigger] items@[i]).0 == old(self)@.entities[i]
                    &&& *items@[i].1 == old(self)@.values[i]
                    &&& *final(items@[i].1) == final(self)@.values[i]
                },
    {
        let n = self.entities.len();
        let mut items: Vec<(EntityId, &mut T)> = Vec::new();
        let mut rest = self.components.as_mut_slice();
        let ghost whole = final(rest)@;
        let mut i: usize = 0;
        while i < n
            invariant
                i <= n,
                n == self.entities@.len(),
                n == old(self).entities@.len(),
                n == old(self).components@.len(),
                self.entities@ == old(self).entities@,
                rest@ == old(self).components@.subrange(i as int, n as int),
                items@.len() == i,
                whole.len() == i + final(rest)@.len(),
                whole.subrange(i as int, whole.len() as int) == final(rest)@,
                forall|k: int|
                    0 <= k < i ==> {
                        &&& (#[trigger] items@[k]).0 == old(self).entities@[k]
                        &&& *items@[k].1 == old(self).components@[k]
                        &&& *final(items@[k].1) == whole[k]
                    },
            decreases n - i,
        {
            let taken = rest;
            let (head, tail) = taken.split_at_mut(1);
            let ghost head_after = final(head)@;
            let ghost tail_after = final(tail)@;
            rest = tail;
            match head.first_mut() {
                Some(component) => {
                    assert(head_after[0] == *final(component));
                    items.push((self.entities[i], component));
                },
                None => {},
            }
            proof {
                let from_here = whole.subrange(i as int, whole.len() as int);
                assert(from_here == head_after + tail_after);
                assert(head_after.len() == 1);
                assert(whole[i as int] == from_here[0]);
                assert(whole.subrange(i + 1, whole.len() as int) =~= tail_after) by {
                    assert forall|k: int| 0 <= k < tail_after.len() implies whole.subrange(
                        i + 1,
                        whole.len() as int,
                    )[k] == #[trigger] tail_after[k] by {
                        assert(from_here[k + 1] == tail_after[k]);
                    }
                }
            }
            i += 1;
        }
        items
    }
}

impl<T: Component> ComponentVec for TypedComponentVec<T> {
    open spec fn valid(&self) -> bool {
        self.wf()
    }

    open spec fn members(&self) -> Seq<EntityId> {
        self@.entities
    }

    fn remove(&mut self, entity: EntityId)
        ensures
            final(self)@ == old(self)@.remove(entity),
    {
        let _ = TypedComponentVec::remove(self, entity);
    }

    fn clear(&mut self)
        ensures
            final(self)@ == Column::<T>::empty(),
    {
        self.components.clear();
        self.entities.clear();
        self.entity_indices.clear();
    }
}

} // verus!
