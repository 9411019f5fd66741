use crate::compiler::text::str_eq;
use crate::ecs::column::swap_removed;
use std::sync::Arc;
use vstd::prelude::*;

verus! {

/// The map that a list of keyed entries stands for: each key is mapped to
/// the value of an entry that holds it.
pub open spec fn keyed<V>(entries: Seq<(Seq<char>, V)>) -> Map<Seq<char>, V> {
    Map::new(
        |key: Seq<char>| exists|i: int| 0 <= i < entries.len() && (#[trigger] entries[i]).0 == key,
        |key: Seq<char>| entries[slot_of_key(entries, key)].1,
    )
}

/// A slot of `entries` that holds `key`.
pub open spec fn slot_of_key<V>(entries: Seq<(Seq<char>, V)>, key: Seq<char>) -> int {
    choose|i: int| 0 <= i < entries.len() && (#[trigger] entries[i]).0 == key
}

/// No key is held by two entries.
pub open spec fn distinct_keys<V>(entries: Seq<(Seq<char>, V)>) -> bool {
    forall|i: int, j: int|
        0 <= i < entries.len() && 0 <= j < entries.len() && i != j ==> (#[trigger] entries[i]).0
            != (#[trigger] entries[j]).0
}

/// A list of entries with distinct keys stands for a map with one key for
/// each entry.
pub proof fn lemma_keyed_len<V>(entries: Seq<(Seq<char>, V)>)
    requires
        distinct_keys(entries),
    ensures
        keyed(entries).dom().finite(),
        keyed(entries).dom().len() == entries.len(),
    decreases entries.len(),
{
    if entries.len() == 0 {
        assert(keyed(entries).dom() =~= Set::<Seq<char>>::empty());
    } else {
        let front = entries.drop_last();
        let last = entries.last();
        lemma_keyed_len(front);
        assert(!keyed(front).dom().contains(last.0)) by {
            if keyed(front).dom().contains(last.0) {
                let i = slot_of_key(front, last.0);
                assert(entries[i].0 == last.0);
            }
        }
        assert(keyed(entries).dom() =~= keyed(front).dom().insert(last.0)) by {
            assert forall|key: Seq<char>| keyed(entries).dom().contains(key) <==> keyed(
                front,
            ).dom().insert(last.0).contains(key) by {
                if keyed(entries).dom().contains(key) {
                    let i = slot_of_key(entries, key);
                    if i < front.len() {
                        assert(front[i].0 == key);
                    }
                }
                if keyed(front).dom().contains(key) {
                    let i = slot_of_key(front, key);
                    assert(entries[i].0 == key);
                }
                if key == last.0 {
                    assert(entries[entries.len() - 1].0 == key);
                }
            }
        }
    }
}

/// In a list with distinct keys, the key in slot `i` is mapped to the
/// value in slot `i`.
pub proof fn lemma_keyed_at<V>(entries: Seq<(Seq<char>, V)>, i: int)
    requires
        distinct_keys(entries),
        0 <= i < entries.len(),
    ensures
        keyed(entries).contains_key(entries[i].0),
        keyed(entries)[entries[i].0] == entries[i].1,
{
    let j = slot_of_key(entries, entries[i].0);
    assert(entries[j].0 == entries[i].0);
}

/// Appending an entry under a key that no entry holds is an insert on the
/// map.
pub proof fn lemma_keyed_push<V>(entries: Seq<(Seq<char>, V)>, key: Seq<char>, value: V)
    requires
        distinct_keys(entries),
        !keyed(entries).contains_key(key),
    ensures
        distinct_keys(entries.push((key, value))),
        keyed(entries.push((key, value))) == keyed(entries).insert(key, value),
{
    let after = entries.push((key, value));
    assert forall|i: int, j: int|
        0 <= i < after.len() && 0 <= j < after.len() && i != j implies (#[trigger] after[i]).0 != (
        #[trigger] after[j]).0 by {
        if i < entries.len() && j < entries.len() {
            assert(entries[i].0 != entries[j].0);
        } else if i < entries.len() {
            assert(entries[i].0 != key);
        } else {
            assert(entries[j].0 != key);
        }
    }
    assert forall|k: Seq<char>| keyed(after).contains_key(k) <==> keyed(entries).insert(
        key,
        value,
    ).contains_key(k) by {
        if keyed(after).contains_key(k) {
            let i = slot_of_key(after, k);
            if i < entries.len() {
                assert(entries[i].0 == k);
            }
        }
        if keyed(entries).contains_key(k) {
            let i = slot_of_key(entries, k);
            assert(after[i].0 == k);
        }
        if k == key {
            assert(after[entries.len() as int].0 == k);
        }
    }
    assert forall|k: Seq<char>| keyed(after).contains_key(k) implies #[trigger] keyed(after)[k]
        == keyed(entries).insert(key, value)[k] by {
        let i = slot_of_key(after, k);
        lemma_keyed_at(after, i);
        if i < entries.len() {
            lemma_keyed_at(entries, i);
        }
    }
    assert(keyed(after) =~= keyed(entries).insert(key, value));
}

/// Replacing the value of the entry in slot `i` is an insert on the map
/// under that entry's key.
pub proof fn lemma_keyed_update<V>(entries: Seq<(Seq<char>, V)>, i: int, value: V)
    requires
        distinct_keys(entries),
        0 <= i < entries.len(),
    ensures
        distinct_keys(entries.update(i, (entries[i].0, value))),
        keyed(entries.update(i, (entries[i].0, value))) == keyed(entries).insert(
            entries[i].0,
            value,
        ),
{
    let key = entries[i].0;
    let after = entries.update(i, (key, value));
    assert forall|a: int, b: int|
        0 <= a < after.len() && 0 <= b < after.len() && a != b implies (#[trigger] after[a]).0 != (
        #[trigger] after[b]).0 by {
        assert(after[a].0 == entries[a].0 && after[b].0 == entries[b].0);
    }
    assert forall|k: Seq<char>| keyed(after).contains_key(k) <==> keyed(entries).insert(
        key,
        value,
    ).contains_key(k) by {
        if keyed(after).contains_key(k) {
            let j = slot_of_key(after, k);
            assert(entries[j].0 == k);
        }
        if keyed(entries).contains_key(k) {
            let j = slot_of_key(entries, k);
            assert(after[j].0 == k);
        }
        if k == key {
            assert(after[i].0 == k);
        }
    }
    assert forall|k: Seq<char>| keyed(after).contains_key(k) implies #[trigger] keyed(after)[k]
        == keyed(entries).insert(key, value)[k] by {
        let j = slot_of_key(after, k);
        lemma_keyed_at(after, j);
        lemma_keyed_at(entries, j);
    }
    assert(keyed(after) =~= keyed(entries).insert(key, value));
}

/// Dropping the entry in slot `i`, with the last entry moved into its
/// place, removes that entry's key from the map.
pub proof fn lemma_keyed_remove<V>(entries: Seq<(Seq<char>, V)>, i: int)
    requires
        distinct_keys(entries),
        0 <= i < entries.len(),
    ensures
        distinct_keys(swap_removed(entries, i)),
        keyed(swap_removed(entries, i)) == keyed(entries).remove(entries[i].0),
{
    let key = entries[i].0;
    let after = swap_removed(entries, i);
    let last = entries.len() - 1;
    assert forall|a: int| 0 <= a < after.len() implies #[trigger] after[a] == entries[if a == i {
        last
    } else {
        a
    }] by {}
    assert forall|a: int, b: int|
        0 <= a < after.len() && 0 <= b < after.len() && a != b implies (#[trigger] after[a]).0 != (
        #[trigger] after[b]).0 by {
        let from_a = if a == i {
            last
        } else {
            a
        };
        let from_b = if b == i {
            last
        } else {
            b
        };
        assert(entries[from_a].0 != entries[from_b].0);
    }
    assert forall|k: Seq<char>| keyed(after).contains_key(k) <==> keyed(entries).remove(
        key,
    ).contains_key(k) by {
        if keyed(after).contains_key(k) {
            let j = slot_of_key(after, k);
            let from = if j == i {
                last
            } else {
                j
            };
            assert(entries[from].0 == k);
            assert(from != i);
            assert(entries[from].0 != entries[i].0);
        }
        if keyed(entries).contains_key(k) && k != key {
            let j = slot_of_key(entries, k);
            if j == last {
                assert(after[i].0 == k);
            } else {
                assert(after[j].0 == k);
            }
        }
    }
    assert forall|k: Seq<char>| keyed(after).contains_key(k) implies #[trigger] keyed(after)[k]
        == keyed(entries).remove(key)[k] by {
        let j = slot_of_key(after, k);
        let from = if j == i {
            last
        } else {
            j
        };
        lemma_keyed_at(after, j);
        lemma_keyed_at(entries, from);
    }
    assert(keyed(after) =~= keyed(entries).remove(key));
}

/// `Arc::clone` of std: another handle to the same value.
#[verifier::external_body]
fn share<A>(asset: &Arc<A>) -> (shared: Arc<A>)
    ensures
        *shared == **asset,
{
    Arc::clone(asset)
}

/// A handle to a cached asset: the path it is cached under, and shared
/// access to the asset.
pub struct AssetHandle<A> {
    pub path: String,
    asset: Arc<A>,
}

impl<A> AssetHandle<A> {
    /// The path that the asset is cached under.
    pub closed spec fn cached_path(&self) -> Seq<char> {
        self.path@
    }

    /// The asset that the handle gives access to.
    pub closed spec fn asset(&self) -> A {
        *self.asset
    }

    /// The asset.
    pub fn get(&self) -> (asset: &A)
        ensures
            *asset == self.asset(),
    {
        &*self.asset
    }
}

/// An asset in the cache, with the path it is cached under and the kind of
/// asset it was stored as.
struct CacheEntry<A> {
    path: String,
    kind: u64,
    asset: Arc<A>,
}

/// The loaded assets by path. Each asset is stored with its kind, and is
/// handed out only to who asks for that kind.
pub struct AssetCache<A> {
    entries: Vec<CacheEntry<A>>,
}

impl<A> AssetCache<A> {
    /// The entries as mathematical values: path, and kind with asset.
    closed spec fn model(&self) -> Seq<(Seq<char>, (u64, A))> {
        Seq::new(
            self.entries@.len(),
            |i: int| (self.entries@[i].path@, (self.entries@[i].kind, *self.entries@[i].asset)),
        )
    }

    /// The cached assets: each path with the kind and the asset stored
    /// under it.
    pub closed spec fn view(&self) -> Map<Seq<char>, (u64, A)> {
        keyed(self.model())
    }

    /// No path is cached twice.
    pub closed spec fn wf(&self) -> bool {
        distinct_keys(self.model())
    }

    /// A well-formed cache holds finitely many assets.
    pub proof fn lemma_finite(&self)
        requires
            self.wf(),
        ensures
            self@.dom().finite(),
    {
        lemma_keyed_len(self.model());
    }

    /// Creates an empty cache.
    pub fn new() -> (cache: Self)
        ensures
            cache.wf(),
            cache@ == Map::<Seq<char>, (u64, A)>::empty(),
    {
        let cache = Self { entries: Vec::new() };
        assert(cache@ =~= Map::<Seq<char>, (u64, A)>::empty());
        cache
    }

    /// Slot of the entry cached under `path`, if there is one.
    fn find(&self, path: &str) -> (found: Option<usize>)
        requires
            self.wf(),
        ensures
            match found {
                Some(i) => i < self.model().len() && self.model()[i as int].0 == path@,
                None => !self@.contains_key(path@),
            },
    {
        let n = self.entries.len();
        let mut i: usize = 0;
        while i < n
            invariant
                i <= n,
                n == self.entries@.len(),
                forall|k: int| 0 <= k < i ==> (#[trigger] self.model()[k]).0 != path@,
            decreases n - i,
        {
            if str_eq(self.entries[i].path.as_str(), path) {
                return Some(i);
            }
            i += 1;
        }
        None
    }

    /// Stores `asset` under `path` as an asset of `kind`, in place of what
    /// was cached under that path, and returns a handle to it.
    pub fn insert(&mut self, path: String, kind: u64, asset: A) -> (handle: AssetHandle<A>)
        requires
            old(self).wf(),
        ensures
            final(self).wf(),
            final(self)@ == old(self)@.insert(path@, (kind, asset)),
            handle.cached_path() == path@,
            handle.asset() == asset,
    {
        let shared = Arc::new(asset);
        let handle = AssetHandle { path: path.clone(), asset: share(&shared) };
        let ghost before = self.model();
        match self.find(path.as_str()) {
            Some(i) => {
                self.entries[i] = CacheEntry { path, kind, asset: shared };
                proof {
                    lemma_keyed_update(before, i as int, (kind, asset));
                    assert(self.model() =~= before.update(i as int, (path@, (kind, asset))));
                }
            },
            None => {
                self.entries.push(CacheEntry { path, kind, asset: shared });
                proof {
                    lemma_keyed_push(before, path@, (kind, asset));
                    assert(self.model() =~= before.push((path@, (kind, asset))));
                }
            },
        }
        handle
    }

    /// A handle to the asset cached under `path`, if there is one and it
    /// was stored as an asset of `kind`.
    pub fn get(&self, path: &str, kind: u64) -> (found: Option<AssetHandle<A>>)
        requires
            self.wf(),
        ensures
            match found {
                Some(handle) => {
                    &&& self@.contains_key(path@)
                    &&& self@[path@] == (kind, handle.asset())
                    &&& handle.cached_path() == path@
                },
                None => !self@.contains_key(path@) || self@[path@].0 != kind,
            },
    {
        match self.find(path) {
            Some(i) => {
                proof {
                    lemma_keyed_at(self.model(), i as int);
                }
                if self.entries[i].kind == kind {
                    Some(
                        AssetHandle {
                            path: self.entries[i].path.clone(),
                            asset: share(&self.entries[i].asset),
                        },
                    )
                } else {
                    None
                }
            },
            None => None,
        }
    }

    /// Drops what is cached under `path`, and tells whether anything was.
    pub fn remove(&mut self, path: &str) -> (removed: bool)
        requires
            old(self).wf(),
        ensures
            final(self).wf(),
            removed == old(self)@.contains_key(path@),
            final(self)@ == old(self)@.remove(path@),
    {
        let ghost before = self.model();
        match self.find(path) {
            Some(i) => {
                let _ = self.entries.swap_remove(i);
                proof {
                    lemma_keyed_at(before, i as int);
                    lemma_keyed_remove(before, i as int);
                    assert(self.model() =~= swap_removed(before, i as int));
                }
                true
            },
            None => {
                assert(self@ =~= old(self)@.remove(path@));
                false
            },
        }
    }

    /// Drops every cached asset.
    pub fn clear(&mut self)
        ensures
            final(self).wf(),
            final(self)@ == Map::<Seq<char>, (u64, A)>::empty(),
    {
        self.entries.clear();
        assert(self@ =~= Map::<Seq<char>, (u64, A)>::empty());
    }

    /// Number of cached assets.
    pub fn size(&self) -> (count: usize)
        requires
            self.wf(),
        ensures
            count == self@.dom().len(),
    {
        proof {
            lemma_keyed_len(self.model());
        }
        self.entries.len()
    }
}

} // verus!
