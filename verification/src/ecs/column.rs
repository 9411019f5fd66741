use vstd::prelude::*;

verus! {

/// Handle of an entity. Unique among the entities that are currently live.
pub type EntityId = u32;

/// Stable identity of one kind of component; one column exists per kind.
pub type ComponentId = u64;

/// Result of removing slot `i` from a dense sequence by moving the last
/// element into it and dropping the last slot.
pub open spec fn swap_removed<A>(s: Seq<A>, i: int) -> Seq<A>
    recommends
        0 <= i < s.len(),
{
    s.update(i, s.last()).drop_last()
}

/// The dense order `entities` after `entity` is dropped from it by
/// swap-remove; unchanged when `entity` does not occur.
pub open spec fn without(entities: Seq<EntityId>, entity: EntityId) -> Seq<EntityId> {
    if entities.contains(entity) {
        swap_removed(entities, entities.index_of(entity))
    } else {
        entities
    }
}

/// Dropping an entity from a duplicate-free dense order leaves a
/// duplicate-free order that holds exactly the other entities.
pub proof fn lemma_without(entities: Seq<EntityId>, entity: EntityId)
    requires
        entities.no_duplicates(),
    ensures
        without(entities, entity).no_duplicates(),
        !without(entities, entity).contains(entity),
        forall|other: EntityId|
            other != entity ==> (#[trigger] without(entities, entity).contains(other)
                <==> entities.contains(other)),
        entities.contains(entity) ==> without(entities, entity).len() == entities.len() - 1,
{
    let after = without(entities, entity);
    if entities.contains(entity) {
        let idx = entities.index_of(entity);
        let last = entities.len() - 1;
        assert forall|i: int| 0 <= i < after.len() implies #[trigger] after[i] == entities[if i
            == idx {
            last
        } else {
            i
        }] by {}
        assert forall|other: EntityId| other != entity implies (#[trigger] after.contains(other)
            <==> entities.contains(other)) by {
            if after.contains(other) {
                let k = after.index_of(other);
                assert(after[k] == other);
            }
            if entities.contains(other) {
                let k = entities.index_of(other);
                assert(entities[k] == other);
                if k == last {
                    assert(after[idx] == other);
                } else {
                    assert(after[k] == other);
                }
            }
        }
        if after.contains(entity) {
            let k = after.index_of(entity);
            assert(after[k] == entity);
        }
    }
}

/// Mathematical content of a dense column: the owning entities in
/// iteration order, and the value of each in the same slot.
pub struct Column<T> {
    pub entities: Seq<EntityId>,
    pub values: Seq<T>,
}

impl<T> Column<T> {
    /// The column without any entity.
    pub open spec fn empty() -> Self {
        Column { entities: Seq::empty(), values: Seq::empty() }
    }

    /// No entity occupies two slots, and every slot has a value.
    pub open spec fn wf(self) -> bool {
        &&& self.entities.no_duplicates()
        &&& self.entities.len() == self.values.len()
    }

    /// Number of slots.
    pub open spec fn len(self) -> nat {
        self.entities.len()
    }

    /// Whether `entity` has a value in the column.
    pub open spec fn has(self, entity: EntityId) -> bool {
        self.entities.contains(entity)
    }

    /// Slot of `entity` in the dense order.
    pub open spec fn slot_of(self, entity: EntityId) -> int {
        self.entities.index_of(entity)
    }

    /// Value of `entity`, if it has one.
    pub open spec fn get(self, entity: EntityId) -> Option<T> {
        if self.has(entity) {
            Some(self.values[self.slot_of(entity)])
        } else {
            None
        }
    }

    /// The column as a map from entity to value, forgetting the order.
    pub open spec fn as_map(self) -> Map<EntityId, T> {
        Map::new(|e: EntityId| self.has(e), |e: EntityId| self.values[self.slot_of(e)])
    }

    /// The slots of the column in dense order, each entity with its value.
    pub open spec fn items(self) -> Seq<(EntityId, T)> {
        Seq::new(self.len(), |i: int| (self.entities[i], self.values[i]))
    }

    /// Column after storing `value` for `entity`: overwritten in place when
    /// the entity has a slot, appended as a new last slot otherwise.
    pub open spec fn insert(self, entity: EntityId, value: T) -> Self {
        if self.has(entity) {
            Column {
                entities: self.entities,
                values: self.values.update(self.slot_of(entity), value),
            }
        } else {
            Column { entities: self.entities.push(entity), values: self.values.push(value) }
        }
    }

    /// Column after dropping `entity` by swap-remove: the last slot moves
    /// into the vacated one. Unchanged when the entity has no slot.
    pub open spec fn remove(self, entity: EntityId) -> Self {
        if self.has(entity) {
            Column {
                entities: without(self.entities, entity),
                values: swap_removed(self.values, self.slot_of(entity)),
            }
        } else {
            self
        }
    }

    /// In a well-formed column the slot of the entity in slot `i` is `i`.
    pub proof fn lemma_slot_of_index(self, i: int)
        requires
            self.wf(),
            0 <= i < self.len(),
        ensures
            self.has(self.entities[i]),
            self.slot_of(self.entities[i]) == i,
    {
        let k = self.entities.index_of(self.entities[i]);
        assert(self.entities[k] == self.entities[i]);
    }

    /// An entity that has a value sits in the slot that `slot_of` names.
    pub proof fn lemma_slot_in_range(self, entity: EntityId)
        requires
            self.has(entity),
        ensures
            0 <= self.slot_of(entity) < self.len(),
            self.entities[self.slot_of(entity)] == entity,
    {
    }

    /// Storing a value keeps the column well formed and is an insert on the
    /// map it stands for.
    pub proof fn lemma_insert(self, entity: EntityId, value: T)
        requires
            self.wf(),
        ensures
            self.insert(entity, value).wf(),
            self.insert(entity, value).as_map() == self.as_map().insert(entity, value),
            self.insert(entity, value).get(entity) == Some(value),
            forall|other: EntityId|
                other != entity ==> #[trigger] self.insert(entity, value).get(other) == self.get(
                    other,
                ),
    {
        let after = self.insert(entity, value);
        assert(after.wf());
        assert forall|e: EntityId| after.has(e) <==> (e == entity || self.has(e)) by {
            if self.has(e) {
                let k = self.slot_of(e);
                assert(after.entities[k] == e);
            }
            if after.has(e) && e != entity {
                let k = after.slot_of(e);
                assert(self.entities[k] == e);
            }
            if e == entity && !self.has(entity) {
                assert(after.entities[self.len() as int] == entity);
            }
        }
        assert forall|e: EntityId| after.has(e) implies after.values[after.slot_of(e)] == (if e
            == entity {
            value
        } else {
            self.values[self.slot_of(e)]
        }) by {
            let k = after.slot_of(e);
            assert(after.entities[k] == e);
            if e == entity {
                if self.has(entity) {
                    assert(self.entities[self.slot_of(entity)] == entity);
                } else {
                    assert(after.entities[self.len() as int] == entity);
                }
            } else {
                assert(self.entities[k] == e);
                let j = self.slot_of(e);
                assert(self.entities[j] == e);
            }
        }
        assert(after.as_map() =~= self.as_map().insert(entity, value));
    }

    /// Swap-remove keeps the column well formed, removes exactly the given
    /// entity from the map, and leaves every other entity's value as it was.
    pub proof fn lemma_remove(self, entity: EntityId)
        requires
            self.wf(),
        ensures
            self.remove(entity).wf(),
            self.remove(entity).as_map() == self.as_map().remove(entity),
            !self.remove(entity).has(entity),
            forall|other: EntityId|
                other != entity ==> #[trigger] self.remove(entity).get(other) == self.get(other),
    {
        let after = self.remove(entity);
        if self.has(entity) {
            let idx = self.slot_of(entity);
            let last = self.len() - 1;
            assert forall|i: int| 0 <= i < after.len() implies #[trigger] after.entities[i]
                == self.entities[if i == idx {
                last
            } else {
                i
            }] by {}
            assert(after.wf());
            assert forall|e: EntityId| after.has(e) <==> (e != entity && self.has(e)) by {
                if after.has(e) {
                    let k = after.slot_of(e);
                    assert(after.entities[k] == e);
                    let src = if k == idx {
                        last
                    } else {
                        k
                    };
                    assert(self.entities[src] == e);
                }
                if self.has(e) && e != entity {
                    let k = self.slot_of(e);
                    assert(self.entities[k] == e);
                    if k == last {
                        assert(after.entities[idx] == e);
                    } else {
                        assert(after.entities[k] == e);
                    }
                }
            }
            assert forall|e: EntityId| after.has(e) implies after.values[after.slot_of(e)]
                == self.values[self.slot_of(e)] by {
                let k = after.slot_of(e);
                assert(after.entities[k] == e);
                let src = if k == idx {
                    last
                } else {
                    k
                };
                assert(self.entities[src] == e);
                let j = self.slot_of(e);
                assert(self.entities[j] == e);
            }
        }
        assert(after.as_map() =~= self.as_map().remove(entity));
    }
}

/// Content of the column of `kind` among `columns`; empty when the kind has
/// no column.
pub open spec fn column_of<T>(columns: Map<ComponentId, Column<T>>, kind: ComponentId) -> Column<
    T,
> {
    if columns.contains_key(kind) {
        columns[kind]
    } else {
        Column::empty()
    }
}

/// The entities of `driver` that have a value in `other`, in the order of
/// `driver`.
pub open spec fn shared<T>(driver: Seq<EntityId>, other: Column<T>) -> Seq<EntityId> {
    driver.filter(|e: EntityId| other.has(e))
}

/// The entities that have a value in both columns, each once, in the dense
/// order of the column that drives the join: the smaller one, and `a` when
/// both are of one size.
pub open spec fn joined<T>(a: Column<T>, b: Column<T>) -> Seq<EntityId> {
    if a.len() <= b.len() {
        shared(a.entities, b)
    } else {
        shared(b.entities, a)
    }
}

/// The entities of `joined`, each with its value in `a` and its value in
/// `b`.
pub open spec fn joined_items<T>(a: Column<T>, b: Column<T>) -> Seq<(EntityId, (T, T))> {
    joined(a, b).map(
        |i: int, e: EntityId| (e, (a.values[a.slot_of(e)], b.values[b.slot_of(e)])),
    )
}

/// A join holds exactly the entities that have a value in both columns,
/// and holds none of them twice.
pub proof fn lemma_joined<T>(a: Column<T>, b: Column<T>)
    requires
        a.wf(),
        b.wf(),
    ensures
        joined(a, b).no_duplicates(),
        forall|e: EntityId| #[trigger] joined(a, b).contains(e) <==> (a.has(e) && b.has(e)),
{
    let (driver, pred) = if a.len() <= b.len() {
        (a.entities, |e: EntityId| b.has(e))
    } else {
        (b.entities, |e: EntityId| a.has(e))
    };
    assert(joined(a, b) == driver.filter(pred));
    lemma_filter_keeps_distinct(driver, pred);
    assert forall|e: EntityId| #[trigger] joined(a, b).contains(e) <==> (a.has(e) && b.has(e)) by {
        let kept = driver.filter(pred);
        if kept.contains(e) {
            driver.lemma_filter_contains_rev(pred, e);
            let k = kept.index_of(e);
            driver.lemma_filter_pred(pred, k);
        }
        if driver.contains(e) && pred(e) {
            let k = driver.index_of(e);
            driver.lemma_filter_contains(pred, k);
        }
    }
}

/// Filtering a duplicate-free sequence leaves it duplicate-free.
pub proof fn lemma_filter_keeps_distinct<A>(s: Seq<A>, pred: spec_fn(A) -> bool)
    requires
        s.no_duplicates(),
    ensures
        s.filter(pred).no_duplicates(),
    decreases s.len(),
{
    if s.len() == 0 {
        s.lemma_filter_len(pred);
    } else {
        let front = s.drop_last();
        assert(s =~= front.push(s.last()));
        lemma_filter_keeps_distinct(front, pred);
        front.lemma_filter_push(s.last(), pred);
        if pred(s.last()) {
            if front.filter(pred).contains(s.last()) {
                front.lemma_filter_contains_rev(pred, s.last());
                let j = front.index_of(s.last());
                assert(s[j] == s.last());
            }
        }
    }
}

} // verus!
