use std::collections::HashMap;
use super::column::column_of;
use super::column::Column;
use super::column::ComponentId;
use super::column::EntityId;
use super::component::Component;
use super::component::ComponentVec;
use super::component::TypedComponentVec;
use vstd::prelude::*;

verus! {

broadcast use vstd::std_specs::hash::group_hash_axioms;

/// Registry of component columns, one per component kind. A column comes
/// into being with the first insert of its kind and is never dropped.
pub struct ComponentStorage<C: Component> {
    storages: Vec<TypedComponentVec<C>>,
    kind_indices: HashMap<ComponentId, usize>,
}

impl<C: Component> ComponentStorage<C> {
    /// The registered kinds, each with the content of its column.
    pub closed spec fn view(&self) -> Map<ComponentId, Column<C>> {
        Map::new(
            |kind: ComponentId| self.kind_indices@.contains_key(kind),
            |kind: ComponentId| self.storages@[self.kind_indices@[kind] as int]@,
        )
    }

    /// Every kind names a column of its own, and every column is well
    /// formed.
    pub closed spec fn wf(&self) -> bool {
        &&& forall|kind: ComponentId| #[trigger]
            self.kind_indices@.contains_key(kind) ==> self.kind_indices@[kind]
                < self.storages@.len()
        &&& forall|a: ComponentId, b: ComponentId|
            self.kind_indices@.contains_key(a) && self.kind_indices@.contains_key(b) && a != b
                ==> self.kind_indices@[a] != self.kind_indices@[b]
        &&& forall|i: int| 0 <= i < self.storages@.len() ==> (#[trigger] self.storages@[i]).wf()
    }

    /// Content of the column of `kind`; empty when the kind has no column.
    pub open spec fn column(&self, kind: ComponentId) -> Column<C> {
        column_of(self@, kind)
    }

    /// The component of `kind` that `entity` has, if any.
    pub open spec fn component(&self, kind: ComponentId, entity: EntityId) -> Option<C> {
        self.column(kind).get(entity)
    }

    /// In a well-formed registry the content of every column is a
    /// well-formed model.
    pub proof fn lemma_columns_wf(&self)
        requires
            self.wf(),
        ensures
            forall|kind: ComponentId| #[trigger] self.column(kind).wf(),
    {
        assert forall|kind: ComponentId| #[trigger] self.column(kind).wf() by {
            if self@.contains_key(kind) {
                self.storages@[self.kind_indices@[kind] as int].lemma_view_wf();
            }
        }
    }

    /// A registry that differs from this one only in the column of `kind`
    /// has this one's content with that column's content replaced.
    proof fn lemma_column_replaced(&self, kind: ComponentId)
        requires
            self.wf(),
            self@.contains_key(kind),
        ensures
            forall|after: Self|
                {
                    &&& after.kind_indices@ == self.kind_indices@
                    &&& after.storages@.len() == self.storages@.len()
                    &&& forall|k: int|
                        0 <= k < self.storages@.len() && k != self.kind_indices@[kind]
                            ==> after.storages@[k] == self.storages@[k]
                } ==> {
                    &&& #[trigger] after@ == self@.insert(
                        kind,
                        after.storages@[self.kind_indices@[kind] as int]@,
                    )
                    &&& after.storages@[self.kind_indices@[kind] as int].wf() ==> after.wf()
                },
    {
        assert forall|after: Self|
            {
                &&& after.kind_indices@ == self.kind_indices@
                &&& after.storages@.len() == self.storages@.len()
                &&& forall|k: int|
                    0 <= k < self.storages@.len() && k != self.kind_indices@[kind]
                        ==> after.storages@[k] == self.storages@[k]
            } implies {
            &&& #[trigger] after@ == self@.insert(
                kind,
                after.storages@[self.kind_indices@[kind] as int]@,
            )
            &&& after.storages@[self.kind_indices@[kind] as int].wf() ==> after.wf()
        } by {
            assert(after@ =~= self@.insert(
                kind,
                after.storages@[self.kind_indices@[kind] as int]@,
            ));
        }
    }

    /// Creates a registry without any column.
    pub fn new() -> (storage: Self)
        ensures
            storage.wf(),
            storage@ == Map::<ComponentId, Column<C>>::empty(),
    {
        let storage = Self { storages: Vec::new(), kind_indices: HashMap::new() };
        assert(storage@ =~= Map::<ComponentId, Column<C>>::empty());
        storage
    }

    /// Position of the column of `kind`, if the kind has one.
    fn position(&self, kind: ComponentId) -> (found: Option<usize>)
        requires
            self.wf(),
        ensures
            match found {
                Some(idx) => {
                    &&& self@.contains_key(kind)
                    &&& idx < self.storages@.len()
                    &&& idx == self.kind_indices@[kind]
                },
                None => !self@.contains_key(kind),
            },
    {
        match self.kind_indices.get(&kind) {
            Some(idx) => Some(*idx),
            None => None,
        }
    }

    /// Stores `component` as the component of `kind` of `entity`, creating
    /// the column of that kind if this is its first value.
    pub fn insert(&mut self, kind: ComponentId, entity: EntityId, component: C)
        requires
            old(self).wf(),
        ensures
            final(self).wf(),
            final(self)@ == old(self)@.insert(
                kind,
                old(self).column(kind).insert(entity, component),
            ),
    {
        let idx = match self.position(kind) {
            Some(idx) => idx,
            None => {
                let idx = self.storages.len();
                self.storages.push(TypedComponentVec::new());
                self.kind_indices.insert(kind, idx);
                idx
            },
        };
        self.storages[idx].insert(entity, component);
        assert(final(self)@ =~= old(self)@.insert(
            kind,
            old(self).column(kind).insert(entity, component),
        ));
    }

    /// Removes and returns the component of `kind` of `entity`.
    pub fn remove(&mut self, kind: ComponentId, entity: EntityId) -> (removed: Option<C>)
        requires
            old(self).wf(),
        ensures
            final(self).wf(),
            removed == old(self).component(kind, entity),
            final(self)@ == (if old(self)@.contains_key(kind) {
                old(self)@.insert(kind, old(self)@[kind].remove(entity))
            } else {
                old(self)@
            }),
    {
        match self.position(kind) {
            Some(idx) => {
                let removed = self.storages[idx].remove(entity);
                assert(final(self)@ =~= old(self)@.insert(kind, old(self)@[kind].remove(entity)));
                removed
            },
            None => None,
        }
    }

    /// The component of `kind` of `entity`, or nothing when it has none.
    pub fn get(&self, kind: ComponentId, entity: EntityId) -> (found: Option<&C>)
        requires
            self.wf(),
        ensures
            match found {
                Some(component) => self.component(kind, entity) == Some(*component),
                None => self.component(kind, entity) is None,
            },
    {
        match self.position(kind) {
            Some(idx) => self.storages[idx].get(entity),
            None => None,
        }
    }

    /// Mutable access to the component of `kind` of `entity`, or nothing
    /// when it has none. Whatever the caller writes through the reference
    /// becomes that component; nothing else changes.
    pub fn get_mut(&mut self, kind: ComponentId, entity: EntityId) -> (found: Option<&mut C>)
        requires
            old(self).wf(),
        ensures
            final(self).wf(),
            match found {
                Some(component) => {
                    &&& old(self).component(kind, entity) == Some(*component)
                    &&& final(self)@ == old(self)@.insert(
                        kind,
                        old(self)@[kind].insert(entity, *final(component)),
                    )
                },
                None => {
                    &&& old(self).component(kind, entity) is None
                    &&& final(self)@ == old(self)@
                },
            },
    {
        match self.position(kind) {
            Some(idx) => {
                proof {
                    old(self).lemma_column_replaced(kind);
                }
                self.storages[idx].get_mut(entity)
            },
            None => None,
        }
    }

    /// The column of `kind`, or nothing when the kind has none yet.
    pub fn get_storage(&self, kind: ComponentId) -> (found: Option<&TypedComponentVec<C>>)
        requires
            self.wf(),
        ensures
            match found {
                Some(column) => {
                    &&& self@.contains_key(kind)
                    &&& column@ == self@[kind]
                    &&& column.wf()
                },
                None => !self@.contains_key(kind),
            },
    {
        match self.position(kind) {
            Some(idx) => Some(&self.storages[idx]),
            None => None,
        }
    }

    /// Mutable access to the column of `kind`, or nothing when the kind
    /// has none yet. The column the caller leaves behind becomes the column
    /// of that kind; no other column changes.
    pub fn get_storage_mut(&mut self, kind: ComponentId) -> (found: Option<
        &mut TypedComponentVec<C>,
    >)
        requires
            old(self).wf(),
        ensures
            match found {
                Some(column) => {
                    &&& old(self)@.contains_key(kind)
                    &&& column@ == old(self)@[kind]
                    &&& column.wf()
                    &&& final(self)@ == old(self)@.insert(kind, final(column)@)
                    &&& final(column).wf() ==> final(self).wf()
                },
                None => {
                    &&& !old(self)@.contains_key(kind)
                    &&& final(self)@ == old(self)@
                    &&& final(self).wf()
                },
            },
    {
        match self.position(kind) {
            Some(idx) => {
                proof {
                    old(self).lemma_column_replaced(kind);
                }
                Some(&mut self.storages[idx])
            },
            None => None,
        }
    }

    /// Mutable access to the columns of two different kinds at once, or
    /// nothing when either kind has no column yet. The columns the caller
    /// leaves behind become the columns of those kinds; no other column
    /// changes.
    pub fn get_storage_pair_mut(&mut self, kind_a: ComponentId, kind_b: ComponentId) -> (found:
        Option<(&mut TypedComponentVec<C>, &mut TypedComponentVec<C>)>)
        requires
            old(self).wf(),
            kind_a != kind_b,
        ensures
            match found {
                Some((column_a, column_b)) => {
                    &&& old(self)@.contains_key(kind_a)
                    &&& old(self)@.contains_key(kind_b)
                    &&& column_a@ == old(self)@[kind_a]
                    &&& column_b@ == old(self)@[kind_b]
                    &&& column_a.wf()
                    &&& column_b.wf()
                    &&& final(self)@ == old(self)@.insert(kind_a, final(column_a)@).insert(
                        kind_b,
                        final(column_b)@,
                    )
                    &&& final(column_a).wf() && final(column_b).wf() ==> final(self).wf()
                },
                None => {
                    &&& !(old(self)@.contains_key(kind_a) && old(self)@.contains_key(kind_b))
                    &&& final(self)@ == old(self)@
                    &&& final(self).wf()
                },
            },
    {
        match (self.position(kind_a), self.position(kind_b)) {
            (Some(idx_a), Some(idx_b)) => {
                proof {
                    old(self).lemma_two_columns_replaced(kind_a, kind_b);
                }
                let slice = self.storages.as_mut_slice();
                if idx_a < idx_b {
                    let (front, back) = slice.split_at_mut(idx_b);
                    let (_, from_a) = front.split_at_mut(idx_a);
                    match (from_a.first_mut(), back.first_mut()) {
                        (Some(column_a), Some(column_b)) => Some((column_a, column_b)),
                        _ => None,
                    }
                } else {
                    let (front, back) = slice.split_at_mut(idx_a);
                    let (_, from_b) = front.split_at_mut(idx_b);
                    match (back.first_mut(), from_b.first_mut()) {
                        (Some(column_a), Some(column_b)) => Some((column_a, column_b)),
                        _ => None,
                    }
                }
            },
            _ => None,
        }
    }

    /// A registry that differs from this one only in the columns of two
    /// kinds has this one's content with those columns' content replaced.
    proof fn lemma_two_columns_replaced(&self, kind_a: ComponentId, kind_b: ComponentId)
        requires
            self.wf(),
            self@.contains_key(kind_a),
            self@.contains_key(kind_b),
            kind_a != kind_b,
        ensures
            forall|after: Self|
                {
                    &&& after.kind_indices@ == self.kind_indices@
                    &&& after.storages@.len() == self.storages@.len()
                    &&& forall|k: int|
                        0 <= k < self.storages@.len() && k != self.kind_indices@[kind_a] && k
                            != self.kind_indices@[kind_b] ==> after.storages@[k]
                            == self.storages@[k]
                } ==> {
                    &&& #[trigger] after@ == self@.insert(
                        kind_a,
                        after.storages@[self.kind_indices@[kind_a] as int]@,
                    ).insert(kind_b, after.storages@[self.kind_indices@[kind_b] as int]@)
                    &&& (after.storages@[self.kind_indices@[kind_a] as int].wf()
                        && after.storages@[self.kind_indices@[kind_b] as int].wf()) ==> after.wf()
                },
    {
        assert forall|after: Self|
            {
                &&& after.kind_indices@ == self.kind_indices@
                &&& after.storages@.len() == self.storages@.len()
                &&& forall|k: int|
                    0 <= k < self.storages@.len() && k != self.kind_indices@[kind_a] && k
                        != self.kind_indices@[kind_b] ==> after.storages@[k] == self.storages@[k]
            } implies {
            &&& #[trigger] after@ == self@.insert(
                kind_a,
                after.storages@[self.kind_indices@[kind_a] as int]@,
            ).insert(kind_b, after.storages@[self.kind_indices@[kind_b] as int]@)
            &&& (after.storages@[self.kind_indices@[kind_a] as int].wf()
                && after.storages@[self.kind_indices@[kind_b] as int].wf()) ==> after.wf()
        } by {
            assert(after@ =~= self@.insert(
                kind_a,
                after.storages@[self.kind_indices@[kind_a] as int]@,
            ).insert(kind_b, after.storages@[self.kind_indices@[kind_b] as int]@));
        }
    }

    /// Drops every component that `entity` has, in every column.
    pub fn remove_all(&mut self, entity: EntityId)
        requires
            old(self).wf(),
        ensures
            final(self).wf(),
            final(self)@.dom() == old(self)@.dom(),
            forall|kind: ComponentId| #[trigger]
                final(self)@.contains_key(kind) ==> final(self)@[kind] == old(self)@[kind].remove(
                    entity,
                ),
    {
        let n = self.storages.len();
        let mut i: usize = 0;
        while i < n
            invariant
                i <= n,
                n == self.storages@.len(),
                n == old(self).storages@.len(),
                self.kind_indices@ == old(self).kind_indices@,
                old(self).wf(),
                forall|k: int| 0 <= k < n ==> (#[trigger] self.storages@[k]).wf(),
                forall|k: int|
                    0 <= k < i ==> (#[trigger] self.storages@[k])@ == old(
                        self,
                    ).storages@[k]@.remove(entity),
                forall|k: int|
                    i <= k < n ==> #[trigger] self.storages@[k] == old(self).storages@[k],
            decreases n - i,
        {
            ComponentVec::remove(&mut self.storages[i], entity);
            i += 1;
        }
        assert(final(self)@.dom() =~= old(self)@.dom());
    }

    /// Empties every column. The columns themselves stay registered.
    pub fn clear(&mut self)
        requires
            old(self).wf(),
        ensures
            final(self).wf(),
            final(self)@.dom() == old(self)@.dom(),
            forall|kind: ComponentId| #[trigger]
                final(self)@.contains_key(kind) ==> final(self)@[kind] == Column::<C>::empty(),
    {
        let n = self.storages.len();
        let mut i: usize = 0;
        while i < n
            invariant
                i <= n,
                n == self.storages@.len(),
                self.kind_indices@ == old(self).kind_indices@,
                old(self).wf(),
                forall|k: int| i <= k < n ==> (#[trigger] self.storages@[k]).wf(),
                forall|k: int|
                    0 <= k < i ==> (#[trigger] self.storages@[k]).wf() && self.storages@[k]@
                        == Column::<C>::empty(),
            decreases n - i,
        {
            ComponentVec::clear(&mut self.storages[i]);
            i += 1;
        }
        assert(final(self)@.dom() =~= old(self)@.dom());
    }
}

} // verus!
