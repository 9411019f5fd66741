use super::column::Column;
use super::column::ComponentId;
use super::column::EntityId;
use super::column::joined_items;
use super::column::joined;
use super::column::lemma_joined;
use super::column::shared;
use super::component::Component;
use super::component::TypedComponentVec;
use super::storage::ComponentStorage;
use vstd::prelude::*;

verus! {

/// Iteration over the entities that have a component of one kind.
pub struct SingleComponentIter<'a, C: Component> {
    storage: &'a TypedComponentVec<C>,
    index: usize,
}

impl<'a, C: Component> SingleComponentIter<'a, C> {
    /// The cursor lies within a well-formed column.
    pub closed spec fn wf(&self) -> bool {
        self.storage.wf() && self.index <= self.storage@.len()
    }

    /// What is still to be yielded, in order: each entity with its
    /// component.
    pub closed spec fn pending(&self) -> Seq<(EntityId, C)> {
        self.storage@.items().skip(self.index as int)
    }

    /// This is a fresh iteration over the column of `kind` among
    /// `columns`: every slot of that column is still to be yielded, in dense
    /// order.
    pub open spec fn starts(
        &self,
        columns: Map<ComponentId, Column<C>>,
        kind: ComponentId,
    ) -> bool {
        &&& self.wf()
        &&& self.pending() == columns[kind].items()
    }

    /// Starts an iteration over the column of `kind`, which must be
    /// registered: to query a kind that never had a value is an error of
    /// the caller.
    pub fn new(storage: &'a ComponentStorage<C>, kind: ComponentId) -> (iter: Self)
        requires
            storage.wf(),
            storage@.contains_key(kind),
        ensures
            iter.starts(storage@, kind),
    {
        let iter = SingleComponentIter { storage: storage.get_storage(kind).unwrap(), index: 0 };
        assert(iter.pending() =~= storage@[kind].items());
        iter
    }

    /// Yields the next entity with its component, or nothing at the end.
    pub fn next(&mut self) -> (item: Option<(EntityId, &'a C)>)
        requires
            old(self).wf(),
        ensures
            final(self).wf(),
            match item {
                Some((entity, component)) => {
                    &&& old(self).pending().len() > 0
                    &&& old(self).pending()[0] == (entity, *component)
                    &&& final(self).pending() == old(self).pending().skip(1)
                },
                None => {
                    &&& old(self).pending().len() == 0
                    &&& final(self).pending() == old(self).pending()
                },
            },
    {
        if self.index < self.storage.len() {
            let item = self.storage.at(self.index);
            self.index += 1;
            assert(final(self).pending() =~= old(self).pending().skip(1));
            Some(item)
        } else {
            None
        }
    }
}

/// Iteration over the entities that have a component of each of two
/// kinds.
pub struct TupleComponentIter<'a, C: Component> {
    storage_a: &'a TypedComponentVec<C>,
    storage_b: &'a TypedComponentVec<C>,
    entities: Vec<EntityId>,
    index: usize,
}

impl<'a, C: Component> TupleComponentIter<'a, C> {
    /// The matched entities are the join of the two columns, and the
    /// cursor lies within them.
    pub closed spec fn wf(&self) -> bool {
        &&& self.storage_a.wf()
        &&& self.storage_b.wf()
        &&& self.entities@ == joined(self.storage_a@, self.storage_b@)
        &&& self.index <= self.entities@.len()
    }

    /// What is still to be yielded, in order: each entity with its
    /// component of the first kind and its component of the second.
    pub closed spec fn pending(&self) -> Seq<(EntityId, (C, C))> {
        joined_items(self.storage_a@, self.storage_b@).skip(self.index as int)
    }

    /// The entities of `driver` that `other` has too, in the dense order
    /// of `driver`.
    fn matches(driver: &TypedComponentVec<C>, other: &TypedComponentVec<C>) -> (found: Vec<
        EntityId,
    >)
        requires
            driver.wf(),
            other.wf(),
        ensures
            found@ == shared(driver@.entities, other@),
    {
        let ghost pred = |e: EntityId| other@.has(e);
        let n = driver.len();
        let mut found: Vec<EntityId> = Vec::new();
        let mut i: usize = 0;
        proof {
            driver@.entities.take(0).lemma_filter_len(pred);
        }
        while i < n
            invariant
                i <= n,
                n == driver@.len(),
                driver.wf(),
                other.wf(),
                pred == |e: EntityId| other@.has(e),
                found@ == driver@.entities.take(i as int).filter(pred),
            decreases n - i,
        {
            let (entity, _) = driver.at(i);
            proof {
                let before = driver@.entities.take(i as int);
                assert(driver@.entities.take(i + 1) =~= before.push(entity));
                before.lemma_filter_push(entity, pred);
            }
            if other.contains(entity) {
                found.push(entity);
            }
            i += 1;
        }
        assert(driver@.entities.take(n as int) =~= driver@.entities);
        found
    }

    /// This is a fresh iteration over the join of the columns of `kind_a`
    /// and `kind_b` among `columns`: every entity that has both components
    /// is still to be yielded, once, with its two components.
    pub open spec fn starts(
        &self,
        columns: Map<ComponentId, Column<C>>,
        kind_a: ComponentId,
        kind_b: ComponentId,
    ) -> bool {
        &&& self.wf()
        &&& self.pending() == joined_items(columns[kind_a], columns[kind_b])
    }

    /// Starts an iteration over the entities that have a component of
    /// `kind_a` and one of `kind_b`. The smaller of the two columns drives
    /// it. Both kinds must be registered: to query a kind that never had a
    /// value is an error of the caller.
    pub fn new(storage: &'a ComponentStorage<C>, kind_a: ComponentId, kind_b: ComponentId) -> (iter:
        Self)
        requires
            storage.wf(),
            storage@.contains_key(kind_a),
            storage@.contains_key(kind_b),
        ensures
            iter.starts(storage@, kind_a, kind_b),
    {
        let storage_a = storage.get_storage(kind_a).unwrap();
        let storage_b = storage.get_storage(kind_b).unwrap();
        let entities = if storage_a.len() <= storage_b.len() {
            Self::matches(storage_a, storage_b)
        } else {
            Self::matches(storage_b, storage_a)
        };
        let iter = TupleComponentIter { storage_a, storage_b, entities, index: 0 };
        assert(iter.pending() =~= joined_items(storage@[kind_a], storage@[kind_b]));
        iter
    }

    /// Yields the next entity with its two components, or nothing at the
    /// end.
    pub fn next(&mut self) -> (item: Option<(EntityId, (&'a C, &'a C))>)
        requires
            old(self).wf(),
        ensures
            final(self).wf(),
            match item {
                Some((entity, (first, second))) => {
                    &&& old(self).pending().len() > 0
                    &&& old(self).pending()[0] == (entity, (*first, *second))
                    &&& final(self).pending() == old(self).pending().skip(1)
                },
                None => {
                    &&& old(self).pending().len() == 0
                    &&& final(self).pending() == old(self).pending()
                },
            },
    {
        if self.index < self.entities.len() {
            let entity = self.entities[self.index];
            proof {
                self.storage_a.lemma_view_wf();
                self.storage_b.lemma_view_wf();
                lemma_joined(self.storage_a@, self.storage_b@);
                assert(self.entities@.contains(entity));
            }
            let first = self.storage_a.get(entity).unwrap();
            let second = self.storage_b.get(entity).unwrap();
            self.index += 1;
            assert(final(self).pending() =~= old(self).pending().skip(1));
            Some((entity, (first, second)))
        } else {
            None
        }
    }
}

/// The same items in the opposite order.
pub(crate) fn reversed<T>(items: Vec<T>) -> (turned: Vec<T>)
    ensures
        turned@ == items@.reverse(),
{
    let mut items = items;
    let ghost all = items@;
    let mut turned: Vec<T> = Vec::new();
    while items.len() > 0
        invariant
            items@.len() + turned@.len() == all.len(),
            items@ == all.take(items@.len() as int),
            forall|k: int| 0 <= k < turned@.len() ==> turned@[k] == all[all.len() - 1 - k],
        decreases items@.len(),
    {
        match items.pop() {
            Some(item) => {
                turned.push(item);
            },
            None => {},
        }
    }
    assert(turned@ =~= all.reverse());
    turned
}

/// Iteration over the entities that have a component of one kind, with
/// mutable access to the component.
pub struct SingleComponentIterMut<'a, C: Component> {
    items: Vec<(EntityId, &'a mut C)>,
}

impl<'a, C: Component> SingleComponentIterMut<'a, C> {
    /// What is still to be yielded, in order: each entity with the
    /// reference to its component.
    pub closed spec fn pending(&self) -> Seq<(EntityId, &'a mut C)> {
        self.items@.reverse()
    }

    /// This is a fresh mutable iteration over the column of `kind` among
    /// `before`: every slot of that column is still to be yielded, in dense
    /// order, and `after` is `before` with the value of each slot replaced
    /// by the one of `written`, the values that the references hold in the
    /// end.
    pub open spec fn starts(
        &self,
        before: Map<ComponentId, Column<C>>,
        after: Map<ComponentId, Column<C>>,
        kind: ComponentId,
        written: Seq<C>,
    ) -> bool {
        &&& self.pending().len() == before[kind].len()
        &&& forall|i: int|
            0 <= i < self.pending().len() ==> {
                &&& (#[trigger] self.pending()[i]).0 == before[kind].entities[i]
                &&& *self.pending()[i].1 == before[kind].values[i]
            }
        &&& after == before.insert(
            kind,
            Column { entities: before[kind].entities, values: written },
        )
    }

    /// Starts an iteration over the column of `kind`, which must be
    /// registered. The values that the references hold in the end are the
    /// values of the column, slot by slot; nothing else in the registry
    /// changes.
    pub fn new(storage: &'a mut ComponentStorage<C>, kind: ComponentId) -> (iter: Self)
        requires
            old(storage).wf(),
            old(storage)@.contains_key(kind),
        ensures
            final(storage).wf(),
            iter.starts(
                old(storage)@,
                final(storage)@,
                kind,
                Seq::new(iter.pending().len(), |i: int| *final(iter.pending()[i].1)),
            ),
    {
        proof {
            old(storage).lemma_columns_wf();
        }
        let column = storage.get_storage_mut(kind).unwrap();
        let ghost after = final(column)@;
        let items = column.iter_mut();
        let ghost dense = items@;
        let turned = reversed(items);
        let iter = SingleComponentIterMut { items: turned };
        assert(iter.pending() =~= dense);
        assert(after.values =~= Seq::new(
            iter.pending().len(),
            |i: int| *final(iter.pending()[i].1),
        ));
        iter
    }

    /// Yields the next entity with the reference to its component, or
    /// nothing at the end.
    pub fn next(&mut self) -> (item: Option<(EntityId, &'a mut C)>)
        ensures
            match item {
                Some(yielded) => {
                    &&& old(self).pending().len() > 0
                    &&& old(self).pending()[0] == yielded
                    &&& final(self).pending() == old(self).pending().skip(1)
                },
                None => {
                    &&& old(self).pending().len() == 0
                    &&& final(self).pending() == old(self).pending()
                },
            },
    {
        let item = self.items.pop();
        assert(final(self).pending() =~= (if item is Some {
            old(self).pending().skip(1)
        } else {
            old(self).pending()
        }));
        item
    }
}

/// The column after the entities of `order` got the values of `written`,
/// one each, in that order; every other slot keeps its value.
pub open spec fn merged<C>(column: Column<C>, order: Seq<EntityId>, written: Seq<C>) -> Column<C> {
    Column {
        entities: column.entities,
        values: Seq::new(
            column.len(),
            |k: int|
                if order.contains(column.entities[k]) {
                    written[order.index_of(column.entities[k])]
                } else {
                    column.values[k]
                },
        ),
    }
}

/// The references of `items`, each in an option of its own, in the same
/// order.
fn into_slots<'a, C>(items: Vec<(EntityId, &'a mut C)>) -> (slots: Vec<Option<&'a mut C>>)
    ensures
        slots@.len() == items@.len(),
        forall|k: int|
            0 <= k < slots@.len() ==> {
                &&& (#[trigger] slots@[k]) is Some
                &&& *slots@[k]->0 == *items@[k].1
                &&& *final(slots@[k]->0) == *final(items@[k].1)
            },
{
    let ghost all = items@;
    let mut turned = reversed(items);
    let mut slots: Vec<Option<&'a mut C>> = Vec::new();
    while turned.len() > 0
        invariant
            turned@.len() + slots@.len() == all.len(),
            turned@ == all.reverse().take(turned@.len() as int),
            forall|k: int|
                0 <= k < slots@.len() ==> {
                    &&& (#[trigger] slots@[k]) is Some
                    &&& *slots@[k]->0 == *all[k].1
                    &&& *final(slots@[k]->0) == *final(all[k].1)
                },
        decreases turned@.len(),
    {
        let ghost top = turned@.len() - 1;
        match turned.pop() {
            Some(item) => {
                assert(item == all.reverse().take(top + 1)[top]);
                assert(item == all[slots@.len() as int]);
                slots.push(Some(item.1));
            },
            None => {},
        }
        assert(turned@ =~= all.reverse().take(turned@.len() as int));
    }
    slots
}

/// Slot in the first column that a match names; `first_drives` tells
/// whether the first column drove the matching.
pub open spec fn first_slot(found: (EntityId, usize, usize), first_drives: bool) -> usize {
    if first_drives {
        found.1
    } else {
        found.2
    }
}

/// Slot in the second column that a match names.
pub open spec fn second_slot(found: (EntityId, usize, usize), first_drives: bool) -> usize {
    if first_drives {
        found.2
    } else {
        found.1
    }
}

/// Takes the two references of every match out of the slot arrays, and
/// returns them last match first. The references that no match names are
/// let go as they are.
fn paired<'a, C>(
    found: &Vec<(EntityId, usize, usize)>,
    first_drives: bool,
    slots_a: Vec<Option<&'a mut C>>,
    slots_b: Vec<Option<&'a mut C>>,
) -> (items: Vec<(EntityId, (&'a mut C, &'a mut C))>)
    requires
        forall|k: int| 0 <= k < slots_a@.len() ==> (#[trigger] slots_a@[k]) is Some,
        forall|k: int| 0 <= k < slots_b@.len() ==> (#[trigger] slots_b@[k]) is Some,
        forall|i: int|
            0 <= i < found@.len() ==> {
                &&& first_slot(#[trigger] found@[i], first_drives) < slots_a@.len()
                &&& second_slot(found@[i], first_drives) < slots_b@.len()
            },
        forall|i: int, j: int|
            0 <= i < found@.len() && 0 <= j < found@.len() && i != j ==> {
                &&& first_slot(#[trigger] found@[i], first_drives) != first_slot(
                    #[trigger] found@[j],
                    first_drives,
                )
                &&& second_slot(found@[i], first_drives) != second_slot(found@[j], first_drives)
            },
    ensures
        items@.len() == found@.len(),
        forall|i: int|
            0 <= i < found@.len() ==> {
                let yielded = #[trigger] items@[found@.len() - 1 - i];
                let first = slots_a@[first_slot(found@[i], first_drives) as int]->0;
                let second = slots_b@[second_slot(found@[i], first_drives) as int]->0;
                &&& yielded.0 == found@[i].0
                &&& *yielded.1.0 == *first
                &&& *final(yielded.1.0) == *final(first)
                &&& *yielded.1.1 == *second
                &&& *final(yielded.1.1) == *final(second)
            },
        forall|k: int|
            0 <= k < slots_a@.len() && (forall|i: int|
                0 <= i < found@.len() ==> first_slot(#[trigger] found@[i], first_drives) != k)
                ==> *final(#[trigger] slots_a@[k]->0) == *slots_a@[k]->0,
        forall|k: int|
            0 <= k < slots_b@.len() && (forall|i: int|
                0 <= i < found@.len() ==> second_slot(#[trigger] found@[i], first_drives) != k)
                ==> *final(#[trigger] slots_b@[k]->0) == *slots_b@[k]->0,
{
    let ghost before_a = slots_a@;
    let ghost before_b = slots_b@;
    let mut slots_a = slots_a;
    let mut slots_b = slots_b;
    let n = found.len();
    let mut items: Vec<(EntityId, (&'a mut C, &'a mut C))> = Vec::new();
    let mut idx: usize = n;
    while idx > 0
        invariant
            idx <= n,
            n == found@.len(),
            slots_a@.len() == before_a.len(),
            slots_b@.len() == before_b.len(),
            forall|k: int| 0 <= k < before_a.len() ==> (#[trigger] before_a[k]) is Some,
            forall|k: int| 0 <= k < before_b.len() ==> (#[trigger] before_b[k]) is Some,
            forall|i: int|
                0 <= i < found@.len() ==> {
                    &&& first_slot(#[trigger] found@[i], first_drives) < before_a.len()
                    &&& second_slot(found@[i], first_drives) < before_b.len()
                },
            forall|i: int, j: int|
                0 <= i < found@.len() && 0 <= j < found@.len() && i != j ==> {
                    &&& first_slot(#[trigger] found@[i], first_drives) != first_slot(
                        #[trigger] found@[j],
                        first_drives,
                    )
                    &&& second_slot(found@[i], first_drives) != second_slot(
                        found@[j],
                        first_drives,
                    )
                },
            forall|k: int|
                0 <= k < before_a.len() && (forall|i: int|
                    idx <= i < n ==> first_slot(#[trigger] found@[i], first_drives) != k)
                    ==> #[trigger] slots_a@[k] == before_a[k],
            forall|k: int|
                0 <= k < before_b.len() && (forall|i: int|
                    idx <= i < n ==> second_slot(#[trigger] found@[i], first_drives) != k)
                    ==> #[trigger] slots_b@[k] == before_b[k],
            items@.len() == n - idx,
            forall|i: int|
                idx <= i < n ==> {
                    let yielded = #[trigger] items@[n - 1 - i];
                    let first = before_a[first_slot(found@[i], first_drives) as int]->0;
                    let second = before_b[second_slot(found@[i], first_drives) as int]->0;
                    &&& yielded.0 == found@[i].0
                    &&& *yielded.1.0 == *first
                    &&& *final(yielded.1.0) == *final(first)
                    &&& *yielded.1.1 == *second
                    &&& *final(yielded.1.1) == *final(second)
                },
        decreases idx,
    {
        idx -= 1;
        let (entity, driver_slot, other_slot) = found[idx];
        let (slot_a, slot_b) = if first_drives {
            (driver_slot, other_slot)
        } else {
            (other_slot, driver_slot)
        };
        assert(slot_a == first_slot(found@[idx as int], first_drives));
        assert(slot_b == second_slot(found@[idx as int], first_drives));
        assert(slots_a@[slot_a as int] == before_a[slot_a as int]);
        assert(slots_b@[slot_b as int] == before_b[slot_b as int]);
        let first = slots_a[slot_a].take();
        let second = slots_b[slot_b].take();
        match (first, second) {
            (Some(first), Some(second)) => {
                items.push((entity, (first, second)));
            },
            _ => {},
        }
    }
    proof {
        assert(has_resolved(slots_a));
        assert(has_resolved(slots_b));
        assert forall|k: int|
            0 <= k < before_a.len() && (forall|i: int|
                0 <= i < found@.len() ==> first_slot(#[trigger] found@[i], first_drives) != k)
                implies *final(#[trigger] before_a[k]->0) == *before_a[k]->0 by {
            assert(slots_a@[k] == before_a[k]);
            assert(has_resolved(slots_a@[k]));
            assert(has_resolved(slots_a@[k]->0));
        }
        assert forall|k: int|
            0 <= k < before_b.len() && (forall|i: int|
                0 <= i < found@.len() ==> second_slot(#[trigger] found@[i], first_drives) != k)
                implies *final(#[trigger] before_b[k]->0) == *before_b[k]->0 by {
            assert(slots_b@[k] == before_b[k]);
            assert(has_resolved(slots_b@[k]));
            assert(has_resolved(slots_b@[k]->0));
        }
    }
    items
}

/// Iteration over the entities that have a component of each of two
/// different kinds, with mutable access to both components.
pub struct TupleComponentIterMut<'a, C: Component> {
    items: Vec<(EntityId, (&'a mut C, &'a mut C))>,
}

impl<'a, C: Component> TupleComponentIterMut<'a, C> {
    /// What is still to be yielded, in order: each entity with the
    /// references to its two components.
    pub closed spec fn pending(&self) -> Seq<(EntityId, (&'a mut C, &'a mut C))> {
        self.items@.reverse()
    }

    /// The entities of `driver` that `other` has too, in the dense order
    /// of `driver`, each with its slot in `driver` and its slot in `other`.
    fn matched(driver: &TypedComponentVec<C>, other: &TypedComponentVec<C>) -> (found: Vec<
        (EntityId, usize, usize),
    >)
        requires
            driver.wf(),
            other.wf(),
        ensures
            found@.len() == shared(driver@.entities, other@).len(),
            forall|i: int|
                0 <= i < found@.len() ==> {
                    &&& (#[trigger] found@[i]).0 == shared(driver@.entities, other@)[i]
                    &&& found@[i].1 == driver@.slot_of(found@[i].0)
                    &&& found@[i].2 == other@.slot_of(found@[i].0)
                    &&& found@[i].1 < driver@.len()
                    &&& found@[i].2 < other@.len()
                },
    {
        let ghost pred = |e: EntityId| other@.has(e);
        let n = driver.len();
        let mut found: Vec<(EntityId, usize, usize)> = Vec::new();
        let mut i: usize = 0;
        proof {
            driver@.entities.take(0).lemma_filter_len(pred);
            driver.lemma_view_wf();
        }
        while i < n
            invariant
                i <= n,
                n == driver@.len(),
                driver.wf(),
                driver@.wf(),
                other.wf(),
                pred == |e: EntityId| other@.has(e),
                found@.len() == driver@.entities.take(i as int).filter(pred).len(),
                forall|k: int|
                    0 <= k < found@.len() ==> {
                        &&& (#[trigger] found@[k]).0 == driver@.entities.take(i as int).filter(
                            pred,
                        )[k]
                        &&& found@[k].1 == driver@.slot_of(found@[k].0)
                        &&& found@[k].2 == other@.slot_of(found@[k].0)
                        &&& found@[k].1 < driver@.len()
                        &&& found@[k].2 < other@.len()
                    },
            decreases n - i,
        {
            let (entity, _) = driver.at(i);
            proof {
                let before = driver@.entities.take(i as int);
                assert(driver@.entities.take(i + 1) =~= before.push(entity));
                before.lemma_filter_push(entity, pred);
                driver@.lemma_slot_of_index(i as int);
            }
            match other.slot(entity) {
                Some(slot) => {
                    found.push((entity, i, slot));
                },
                None => {},
            }
            i += 1;
        }
        assert(driver@.entities.take(n as int) =~= driver@.entities);
        found
    }

    /// This is a fresh mutable iteration over the join of the columns of
    /// `kind_a` and `kind_b` among `before`: every entity that has both
    /// components is still to be yielded, once, with the references to them,
    /// and `after` is `before` with each of those components replaced by
    /// the one of `written_a` or `written_b`, the values that the references
    /// hold in the end.
    pub open spec fn starts(
        &self,
        before: Map<ComponentId, Column<C>>,
        after: Map<ComponentId, Column<C>>,
        kind_a: ComponentId,
        kind_b: ComponentId,
        written_a: Seq<C>,
        written_b: Seq<C>,
    ) -> bool {
        let order = joined(before[kind_a], before[kind_b]);
        &&& self.pending().len() == order.len()
        &&& forall|i: int|
            0 <= i < self.pending().len() ==> {
                &&& (#[trigger] self.pending()[i]).0 == order[i]
                &&& Some(*self.pending()[i].1.0) == before[kind_a].get(order[i])
                &&& Some(*self.pending()[i].1.1) == before[kind_b].get(order[i])
            }
        &&& after == before.insert(kind_a, merged(before[kind_a], order, written_a)).insert(
            kind_b,
            merged(before[kind_b], order, written_b),
        )
    }

    /// Starts an iteration over the entities that have a component of
    /// `kind_a` and one of `kind_b`, with mutable access to both. The
    /// smaller of the two columns drives it. Both kinds must be registered,
    /// and they must differ, since no component can be lent out twice.
    ///
    /// The values that the references hold in the end become the
    /// components of the yielded entities; no other component changes.
    pub fn new(
        storage: &'a mut ComponentStorage<C>,
        kind_a: ComponentId,
        kind_b: ComponentId,
    ) -> (iter: Self)
        requires
            old(storage).wf(),
            old(storage)@.contains_key(kind_a),
            old(storage)@.contains_key(kind_b),
            kind_a != kind_b,
        ensures
            final(storage).wf(),
            iter.starts(
                old(storage)@,
                final(storage)@,
                kind_a,
                kind_b,
                Seq::new(iter.pending().len(), |i: int| *final(iter.pending()[i].1.0)),
                Seq::new(iter.pending().len(), |i: int| *final(iter.pending()[i].1.1)),
            ),
    {
        let ghost a = old(storage)@[kind_a];
        let ghost b = old(storage)@[kind_b];
        let ghost order = joined(a, b);
        proof {
            old(storage).lemma_columns_wf();
            assert(old(storage).column(kind_a).wf() && old(storage).column(kind_b).wf());
            lemma_joined(a, b);
        }
        let (column_a, column_b) = storage.get_storage_pair_mut(kind_a, kind_b).unwrap();
        let ghost after_a = final(column_a)@;
        let ghost after_b = final(column_b)@;
        let first_drives = column_a.len() <= column_b.len();
        let found = if first_drives {
            Self::matched(column_a, column_b)
        } else {
            Self::matched(column_b, column_a)
        };
        let items_a = column_a.iter_mut();
        let items_b = column_b.iter_mut();
        let ghost dense_a = items_a@;
        let ghost dense_b = items_b@;
        let slots_a = into_slots(items_a);
        let slots_b = into_slots(items_b);
        let ghost given_a = slots_a@;
        let ghost given_b = slots_b@;
        proof {
            assert(found@.len() == order.len());
            assert forall|i: int| 0 <= i < found@.len() implies {
                &&& (#[trigger] found@[i]).0 == order[i]
                &&& first_slot(found@[i], first_drives) == a.slot_of(order[i])
                &&& second_slot(found@[i], first_drives) == b.slot_of(order[i])
                &&& first_slot(found@[i], first_drives) < a.len()
                &&& second_slot(found@[i], first_drives) < b.len()
            } by {}
            assert forall|i: int, j: int|
                0 <= i < found@.len() && 0 <= j < found@.len() && i != j implies {
                &&& first_slot(#[trigger] found@[i], first_drives) != first_slot(
                    #[trigger] found@[j],
                    first_drives,
                )
                &&& second_slot(found@[i], first_drives) != second_slot(
                    found@[j],
                    first_drives,
                )
            } by {
                assert(order[i] != order[j]);
                assert(order.contains(order[i]) && order.contains(order[j]));
                a.lemma_slot_in_range(order[i]);
                a.lemma_slot_in_range(order[j]);
                b.lemma_slot_in_range(order[i]);
                b.lemma_slot_in_range(order[j]);
            }
        }
        let items = paired(&found, first_drives, slots_a, slots_b);
        let iter = TupleComponentIterMut { items };
        proof {
            let n = iter.pending().len();
            let written_a = Seq::new(n, |i: int| *final(iter.pending()[i].1.0));
            let written_b = Seq::new(n, |i: int| *final(iter.pending()[i].1.1));
            assert forall|i: int| 0 <= i < n implies {
                &&& (#[trigger] iter.pending()[i]).0 == order[i]
                &&& *iter.pending()[i].1.0 == a.values[a.slot_of(order[i])]
                &&& *iter.pending()[i].1.1 == b.values[b.slot_of(order[i])]
                &&& written_a[i] == after_a.values[a.slot_of(order[i])]
                &&& written_b[i] == after_b.values[b.slot_of(order[i])]
            } by {
                assert(iter.pending()[i] == items@[n - 1 - i]);
                assert(found@[i].0 == order[i]);
                assert(order.contains(order[i]));
                let slot_a = first_slot(found@[i], first_drives) as int;
                let slot_b = second_slot(found@[i], first_drives) as int;
                assert(given_a[slot_a] is Some);
                assert(given_b[slot_b] is Some);
                assert(*final(dense_a[slot_a].1) == after_a.values[slot_a]);
                assert(*final(dense_b[slot_b].1) == after_b.values[slot_b]);
            }
            assert(after_a.values =~= merged(a, order, written_a).values) by {
                assert forall|k: int| 0 <= k < a.len() implies after_a.values[k] == merged(
                    a,
                    order,
                    written_a,
                ).values[k] by {
                    a.lemma_slot_of_index(k);
                    assert(*final(dense_a[k].1) == after_a.values[k]);
                    assert(given_a[k] is Some);
                    if order.contains(a.entities[k]) {
                        let i = order.index_of(a.entities[k]);
                        assert(order[i] == a.entities[k]);
                        assert(iter.pending()[i].0 == order[i]);
                    } else {
                        assert forall|i: int| 0 <= i < found@.len() implies first_slot(
                            #[trigger] found@[i],
                            first_drives,
                        ) != k by {
                            assert(found@[i].0 == order[i]);
                            assert(order.contains(order[i]));
                            a.lemma_slot_in_range(order[i]);
                        }
                        assert(*final(given_a[k]->0) == *given_a[k]->0);
                    }
                }
            }
            assert(after_b.values =~= merged(b, order, written_b).values) by {
                assert forall|k: int| 0 <= k < b.len() implies after_b.values[k] == merged(
                    b,
                    order,
                    written_b,
                ).values[k] by {
                    b.lemma_slot_of_index(k);
                    assert(*final(dense_b[k].1) == after_b.values[k]);
                    assert(given_b[k] is Some);
                    if order.contains(b.entities[k]) {
                        let i = order.index_of(b.entities[k]);
                        assert(order[i] == b.entities[k]);
                        assert(iter.pending()[i].0 == order[i]);
                    } else {
                        assert forall|i: int| 0 <= i < found@.len() implies second_slot(
                            #[trigger] found@[i],
                            first_drives,
                        ) != k by {
                            assert(found@[i].0 == order[i]);
                            assert(order.contains(order[i]));
                            b.lemma_slot_in_range(order[i]);
                        }
                        assert(*final(given_b[k]->0) == *given_b[k]->0);
                    }
                }
            }
        }
        iter
    }

    /// Yields the next entity with the references to its two components,
    /// or nothing at the end.
    pub fn next(&mut self) -> (item: Option<(EntityId, (&'a mut C, &'a mut C))>)
        ensures
            match item {
                Some(yielded) => {
                    &&& old(self).pending().len() > 0
                    &&& old(self).pending()[0] == yielded
                    &&& final(self).pending() == old(self).pending().skip(1)
                },
                None => {
                    &&& old(self).pending().len() == 0
                    &&& final(self).pending() == old(self).pending()
                },
            },
    {
        let item = self.items.pop();
        assert(final(self).pending() =~= (if item is Some {
            old(self).pending().skip(1)
        } else {
            old(self).pending()
        }));
        item
    }
}

} // verus!
