use crate::entity::{lemma_skip_contains, Entity};
use vstd::prelude::*;

verus! {

/// One row of a [`SparseSet`]: the entity it belongs to and what is stored for it.
pub struct Entry<V> {
    pub key: Entity,
    pub value: V,
}

/// A key could not be stored.
#[derive(Clone, Copy, Debug, PartialEq, Eq, Structural)]
pub enum StorageError {
    /// The key's slot number is the reserved one that no live entity has.
    InvalidKey,
}

/// A store of one value per entity slot.
///
/// Rows are kept packed in `dense`, in the order in which they were added; `sparse`
/// leads from an entity's slot number to its row. A row answers only to the exact
/// handle it was stored under, so a stale handle finds nothing.
pub struct SparseSet<V> {
    sparse: Vec<usize>,
    dense: Vec<Entry<V>>,
}

impl<V> SparseSet<V> {
    /// Every row is found under its key's slot number.
    pub closed spec fn wf(&self) -> bool {
        forall|k: int|
            0 <= k < self.dense.len() ==> {
                &&& (#[trigger] self.dense[k]).key.index < self.sparse.len()
                &&& self.sparse[self.dense[k].key.index as int] == k
                &&& self.dense[k].key.index < u32::MAX
            }
    }

    /// The row of `e` in the packed order, meaningful where `contains(e)`.
    pub closed spec fn position(&self, e: Entity) -> int {
        self.sparse[e.index as int] as int
    }

    /// Whether a row is stored under exactly this handle.
    pub closed spec fn contains(&self, e: Entity) -> bool {
        &&& e.index < self.sparse.len()
        &&& self.sparse[e.index as int] < self.dense.len()
        &&& self.dense[self.sparse[e.index as int] as int].key == e
    }

    /// Whether a row is stored under this slot number, whatever its generation.
    pub closed spec fn occupied(&self, index: u32) -> bool {
        &&& index < self.sparse.len()
        &&& self.sparse[index as int] < self.dense.len()
        &&& self.dense[self.sparse[index as int] as int].key.index == index
    }

    /// What is stored for `e`, meaningful where `contains(e)`.
    pub closed spec fn value(&self, e: Entity) -> V {
        self.dense[self.sparse[e.index as int] as int].value
    }

    /// The handles that have a row, in packed order.
    pub closed spec fn keys(&self) -> Seq<Entity> {
        Seq::new(self.dense.len() as nat, |k: int| self.dense[k].key)
    }

    /// How the packed order and the lookups fit together.
    pub proof fn lemma_keys(&self)
        requires
            self.wf(),
        ensures
            forall|k: int|
                0 <= k < self.keys().len() ==> self.contains(#[trigger] self.keys()[k])
                    && self.position(self.keys()[k]) == k,
            forall|e: Entity|
                self.contains(e) ==> 0 <= #[trigger] self.position(e) < self.keys().len()
                    && self.keys()[self.position(e)] == e,
            forall|e: Entity| #[trigger] self.contains(e) ==> self.occupied(e.index),
            forall|j: int, k: int|
                0 <= j < k < self.keys().len() ==> (#[trigger] self.keys()[j]).index
                    != (#[trigger] self.keys()[k]).index,
    {
        assert forall|j: int, k: int| 0 <= j < k < self.keys().len() implies (
        #[trigger] self.keys()[j]).index != (#[trigger] self.keys()[k]).index by {
            assert(self.dense[j].key.index == self.keys()[j].index);
            assert(self.dense[k].key.index == self.keys()[k].index);
        }
    }

    /// Whether every row is found under its key's slot number. It is, unless the
    /// store was tampered with.
    pub fn check(&self) -> (b: bool)
        ensures
            b == self.wf(),
    {
        let mut k: usize = 0;
        while k < self.dense.len()
            invariant
                k <= self.dense.len(),
                forall|j: int|
                    0 <= j < k ==> {
                        &&& (#[trigger] self.dense[j]).key.index < self.sparse.len()
                        &&& self.sparse[self.dense[j].key.index as int] == j
                        &&& self.dense[j].key.index < u32::MAX
                    },
            decreases self.dense.len() - k,
        {
            let index: usize = self.dense[k].key.index as usize;
            if index >= self.sparse.len() || self.sparse[index] != k || self.dense[k].key.index
                == u32::MAX {
                assert(!({
                    &&& self.dense[k as int].key.index < self.sparse.len()
                    &&& self.sparse[self.dense[k as int].key.index as int] == k
                    &&& self.dense[k as int].key.index < u32::MAX
                }));
                return false;
            }
            k += 1;
        }
        true
    }

    /// A store without rows.
    pub fn new() -> (s: Self)
        ensures
            s.wf(),
            s.keys() == Seq::<Entity>::empty(),
            forall|e: Entity| !s.contains(e),
            forall|i: u32| !s.occupied(i),
    {
        let s = SparseSet { sparse: Vec::new(), dense: Vec::new() };
        assert(s.keys() =~= Seq::<Entity>::empty());
        s
    }

    /// The number of rows.
    pub fn len(&self) -> (n: usize)
        ensures
            n == self.keys().len(),
    {
        self.dense.len()
    }

    /// Whether a row is stored under exactly this handle.
    pub fn contains_key(&self, key: Entity) -> (b: bool)
        ensures
            b == self.contains(key),
    {
        let i: usize = key.index as usize;
        if i < self.sparse.len() {
            let k: usize = self.sparse[i];
            k < self.dense.len() && self.dense[k].key == key
        } else {
            false
        }
    }

    /// What is stored for `key`, if anything.
    pub fn get(&self, key: Entity) -> (r: Option<&V>)
        ensures
            r is Some == self.contains(key),
            r matches Some(v) ==> *v == self.value(key),
    {
        if self.contains_key(key) {
            Some(&self.dense[self.sparse[key.index as usize]].value)
        } else {
            None
        }
    }

    /// Lends the value stored for `key` for change; nothing else in the store moves.
    pub fn get_mut(&mut self, key: Entity) -> (r: Option<&mut V>)
        requires
            old(self).wf(),
        ensures
            r is Some == old(self).contains(key),
            r is None ==> *final(self) == *old(self),
            r matches Some(v) ==> {
                &&& *v == old(self).value(key)
                &&& final(self).wf()
                &&& final(self).keys() == old(self).keys()
                &&& final(self).value(key) == *final(v)
                &&& forall|x: Entity| final(self).contains(x) == old(self).contains(x)
                &&& forall|i: u32| final(self).occupied(i) == old(self).occupied(i)
                &&& forall|x: Entity| final(self).position(x) == old(self).position(x)
                &&& forall|x: Entity|
                    x != key && old(self).contains(x) ==> final(self).value(x) == old(self).value(x)
            },
    {
        if self.contains_key(key) {
            let k: usize = self.sparse[key.index as usize];
            let r = &mut self.dense[k].value;
            Some(r)
        } else {
            None
        }
    }

    /// Stores `value` under `key`, in place of whatever row the key's slot had.
    pub fn insert(&mut self, key: Entity, value: V) -> (r: Result<(), StorageError>)
        requires
            old(self).wf(),
        ensures
            final(self).wf(),
            r is Err <==> key.index == u32::MAX,
            r is Err ==> *final(self) == *old(self),
            r is Ok ==> {
                &&& final(self).contains(key)
                &&& final(self).value(key) == value
                &&& forall|x: Entity|
                    final(self).contains(x) == (x == key || (old(self).contains(x) && x.index
                        != key.index))
                &&& forall|x: Entity|
                    old(self).contains(x) && x.index != key.index ==> final(self).value(x) == old(self).value(x) && final(self).position(x) == old(self).position(x)
                &&& forall|i: u32|
                    final(self).occupied(i) == (i == key.index || old(self).occupied(i))
                &&& final(self).keys() == if old(self).occupied(key.index) {
                    old(self).keys().update(old(self).position(key), key)
                } else {
                    old(self).keys().push(key)
                }
            },
    {
        if key.index == u32::MAX {
            return Err(StorageError::InvalidKey);
        }
        let i: usize = key.index as usize;
        let ghost before = *self;
        while self.sparse.len() <= i
            invariant
                self.dense == before.dense,
                self.sparse.len() >= before.sparse.len(),
                forall|j: int| 0 <= j < before.sparse.len() ==> self.sparse[j] == before.sparse[j],
                forall|j: int| before.sparse.len() <= j < self.sparse.len() ==> self.sparse[j] == usize::MAX,
                i < u32::MAX,
            decreases i + 1 - self.sparse.len(),
        {
            self.sparse.push(usize::MAX);
        }
        let ghost grown = *self;
        proof {
            assert(grown.wf());
            assert(grown.keys() =~= before.keys());
            assert forall|x: Entity| grown.contains(x) == before.contains(x) by {}
            assert forall|j: u32| grown.occupied(j) == before.occupied(j) by {}
        }
        let k: usize = self.sparse[i];
        if k < self.dense.len() && self.dense[k].key.index == key.index {
            self.dense.set(k, Entry { key, value });
            proof {
                assert(self.keys() =~= before.keys().update(before.position(key), key));
                assert forall|x: Entity|
                    self.contains(x) == (x == key || (before.contains(x) && x.index
                        != key.index)) by {
                    if x.index != key.index && x.index < self.sparse.len() {
                        let kx = self.sparse[x.index as int];
                        if kx < self.dense.len() {
                            if kx == k {
                                assert(grown.dense[k as int].key.index == key.index);
                            }
                        }
                    }
                }
                assert forall|j: u32| self.occupied(j) == (j == key.index || before.occupied(j)) by {
                    if j != key.index && j < self.sparse.len() {
                        let kj = self.sparse[j as int];
                        if kj < self.dense.len() && kj == k {
                            assert(grown.dense[k as int].key.index == key.index);
                        }
                    }
                }
            }
        } else {
            self.sparse.set(i, self.dense.len());
            self.dense.push(Entry { key, value });
            proof {
                assert(self.keys() =~= before.keys().push(key));
                assert forall|kk: int| 0 <= kk < self.dense.len() implies {
                    &&& (#[trigger] self.dense[kk]).key.index < self.sparse.len()
                    &&& self.sparse[self.dense[kk].key.index as int] == kk
                    &&& self.dense[kk].key.index < u32::MAX
                } by {
                    if kk < grown.dense.len() {
                        assert(self.dense[kk] == grown.dense[kk]);
                        assert(grown.sparse[grown.dense[kk].key.index as int] == kk);
                    }
                }
                assert forall|x: Entity|
                    self.contains(x) == (x == key || (before.contains(x) && x.index
                        != key.index)) by {
                    if x.index == key.index {
                        if grown.contains(x) {
                            assert(grown.dense[k as int].key.index == key.index);
                        }
                    }
                }
                assert forall|j: u32| self.occupied(j) == (j == key.index || before.occupied(j)) by {}
            }
        }
        Ok(())
    }

    /// Takes the row of `key` out, moving the last row into its place.
    pub fn remove(&mut self, key: Entity) -> (r: Option<V>)
        requires
            old(self).wf(),
        ensures
            final(self).wf(),
            r is Some == old(self).contains(key),
            r is None ==> *final(self) == *old(self),
            r matches Some(v) ==> {
                &&& v == old(self).value(key)
                &&& forall|x: Entity| final(self).contains(x) == (old(self).contains(x) && x != key)
                &&& forall|x: Entity|
                    old(self).contains(x) && x != key ==> final(self).value(x) == old(self).value(x)
                &&& forall|i: u32|
                    final(self).occupied(i) == (old(self).occupied(i) && i != key.index)
                &&& final(self).keys() == old(self).keys().update(
                    old(self).position(key),
                    old(self).keys().last(),
                ).drop_last()
            },
    {
        if !self.contains_key(key) {
            return None;
        }
        let ghost before = *self;
        let i: usize = key.index as usize;
        let k: usize = self.sparse[i];
        let last: usize = self.dense.len() - 1;
        let moved: Entity = self.dense[last].key;
        let entry = self.dense.swap_remove(k);
        self.sparse.set(i, usize::MAX);
        if k != last {
            self.sparse.set(moved.index as usize, k);
        }
        proof {
            assert(before.sparse[moved.index as int] == last);
            assert(self.keys() =~= before.keys().update(
                before.position(key),
                before.keys().last(),
            ).drop_last());
            assert forall|kk: int| 0 <= kk < self.dense.len() implies {
                &&& (#[trigger] self.dense[kk]).key.index < self.sparse.len()
                &&& self.sparse[self.dense[kk].key.index as int] == kk
                &&& self.dense[kk].key.index < u32::MAX
            } by {
                if kk == k {
                    assert(self.dense[kk] == before.dense[last as int]);
                } else {
                    assert(self.dense[kk] == before.dense[kk]);
                    assert(before.sparse[before.dense[kk].key.index as int] == kk);
                }
            }
            assert forall|x: Entity| self.contains(x) == (before.contains(x) && x != key) by {
                if x.index < self.sparse.len() && x.index != key.index {
                    if x.index == moved.index {
                    } else {
                        let kx = before.sparse[x.index as int];
                        if kx < before.dense.len() && before.dense[kx as int].key == x {
                            assert(kx != last);
                            assert(kx != k);
                        }
                        if kx as int == last as int {
                        }
                    }
                }
            }
            assert forall|x: Entity| before.contains(x) && x != key implies self.value(x)
                == before.value(x) by {
                let kx = before.sparse[x.index as int];
                assert(before.dense[kx as int].key == x);
                assert(x.index != key.index);
            }
            assert forall|j: u32| self.occupied(j) == (before.occupied(j) && j != key.index) by {
                if j < self.sparse.len() && j != key.index {
                    if j == moved.index {
                    } else {
                        let kj = before.sparse[j as int];
                        if kj < before.dense.len() && before.dense[kj as int].key.index == j {
                            assert(kj != last);
                            assert(kj != k);
                        }
                    }
                }
            }
        }
        Some(entry.value)
    }

    /// Takes the rows of all of `keys` out, the last listed first.
    pub fn remove_each(&mut self, keys: &Vec<Entity>)
        requires
            old(self).wf(),
        ensures
            final(self).wf(),
            forall|x: Entity|
                #[trigger] final(self).contains(x) == (old(self).contains(x) && !keys@.contains(x)),
            forall|x: Entity|
                #[trigger] final(self).contains(x) ==> final(self).value(x) == old(self).value(x),
    {
        let mut k: usize = keys.len();
        proof {
            lemma_skip_contains(keys@, keys@.len() as int);
        }
        while k > 0
            invariant
                k <= keys.len(),
                self.wf(),
                forall|x: Entity|
                    self.contains(x) == (old(self).contains(x) && !keys@.skip(k as int).contains(x)),
                forall|x: Entity| self.contains(x) ==> self.value(x) == old(self).value(x),
            decreases k,
        {
            proof {
                lemma_skip_contains(keys@, k as int);
            }
            k -= 1;
            let _ = self.remove(keys[k]);
        }
        proof {
            lemma_skip_contains(keys@, 0);
        }
    }

    /// The handle of the `k`-th row in packed order.
    pub fn key_at(&self, k: usize) -> (e: Entity)
        requires
            k < self.keys().len(),
        ensures
            e == self.keys()[k as int],
    {
        self.dense[k].key
    }

    /// The value of the `k`-th row in packed order.
    pub fn value_at(&self, k: usize) -> (v: &V)
        requires
            self.wf(),
            k < self.keys().len(),
        ensures
            *v == self.value(self.keys()[k as int]),
    {
        &self.dense[k].value
    }

    /// Drops every row.
    pub fn clear(&mut self)
        ensures
            final(self).wf(),
            final(self).keys() == Seq::<Entity>::empty(),
            forall|e: Entity| !final(self).contains(e),
            forall|i: u32| !final(self).occupied(i),
    {
        self.dense.clear();
        assert(self.keys() =~= Seq::<Entity>::empty());
    }
}

/// `after` is the store `before` without the entry of `key`, which `before` has:
/// the last key has taken the place of `key`.
pub open spec fn taken_out<V>(before: SparseSet<V>, key: Entity, after: SparseSet<V>) -> bool {
    &&& before.contains(key)
    &&& after.wf()
    &&& forall|x: Entity| after.contains(x) == (before.contains(x) && x != key)
    &&& forall|x: Entity| before.contains(x) && x != key ==> after.value(x) == before.value(x)
    &&& forall|i: u32| after.occupied(i) == (before.occupied(i) && i != key.index)
    &&& after.keys() == before.keys().update(before.position(key), before.keys().last()).drop_last()
}

/// `after` is the store `before` with `value` under `key`: in the place of the
/// key that had the slot of `key`, or else behind the keys that are there.
pub open spec fn put_in<V>(before: SparseSet<V>, key: Entity, value: V, after: SparseSet<V>) -> bool {
    &&& after.wf()
    &&& after.contains(key)
    &&& after.value(key) == value
    &&& forall|x: Entity|
        after.contains(x) == (x == key || (before.contains(x) && x.index != key.index))
    &&& forall|x: Entity|
        before.contains(x) && x.index != key.index ==> after.value(x) == before.value(x)
            && after.position(x) == before.position(x)
    &&& forall|i: u32| after.occupied(i) == (i == key.index || before.occupied(i))
    &&& after.keys() == if before.occupied(key.index) {
        before.keys().update(before.position(key), key)
    } else {
        before.keys().push(key)
    }
}

} // verus!
