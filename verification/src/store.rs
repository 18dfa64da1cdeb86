//! Keyed storage: a finite map held as a list of entries.

use vstd::prelude::*;

verus! {

/// A key that is told apart by what it stands for.
pub trait Key: Sized {
    /// What a key stands for.
    type Id;

    /// What this key stands for.
    spec fn id(&self) -> Self::Id;

    /// Whether two keys stand for the same thing.
    fn same(&self, other: &Self) -> (same: bool)
        ensures
            same == (self.id() == other.id()),
    ;
}

impl Key for u64 {
    type Id = u64;

    open spec fn id(&self) -> u64 {
        *self
    }

    fn same(&self, other: &u64) -> (same: bool) {
        *self == *other
    }
}

impl Key for [u8; 32] {
    type Id = Seq<u8>;

    open spec fn id(&self) -> Seq<u8> {
        self@
    }

    fn same(&self, other: &[u8; 32]) -> (same: bool) {
        crate::bytes::same32(self, other)
    }
}

impl Key for String {
    type Id = Seq<char>;

    open spec fn id(&self) -> Seq<char> {
        self@
    }

    fn same(&self, other: &String) -> (same: bool) {
        *self == *other
    }
}

/// A map from keys to values.
#[derive(Debug)]
pub struct Store<K, V> {
    entries: Vec<(K, V)>,
}

/// Some entry has the key.
spec fn holds<K: Key, V>(entries: Seq<(K, V)>, id: K::Id) -> bool {
    exists|i: int| 0 <= i < entries.len() && (#[trigger] entries[i]).0.id() == id
}

/// An entry that has the key.
spec fn place<K: Key, V>(entries: Seq<(K, V)>, id: K::Id) -> int {
    choose|i: int| 0 <= i < entries.len() && (#[trigger] entries[i]).0.id() == id
}

impl<K: Key, V> Store<K, V> {
    /// The map.
    pub closed spec fn map(self) -> Map<K::Id, V> {
        Map::new(
            |id: K::Id| holds(self.entries@, id),
            |id: K::Id| self.entries@[place(self.entries@, id)].1,
        )
    }

    /// No two entries have the same key.
    pub closed spec fn wf(self) -> bool {
        forall|i: int, j: int|
            0 <= i < self.entries@.len() && 0 <= j < self.entries@.len() && i != j ==> (
            #[trigger] self.entries@[i]).0.id() != (#[trigger] self.entries@[j]).0.id()
    }

    /// An empty map.
    pub fn new() -> (store: Store<K, V>)
        ensures
            store.wf(),
            store.map() == Map::<K::Id, V>::empty(),
    {
        let store = Store { entries: Vec::new() };
        proof {
            assert(store.map() =~= Map::<K::Id, V>::empty());
        }
        store
    }

    /// Where an entry with the key stands.
    fn find(&self, key: &K) -> (found: Option<usize>)
        requires
            self.wf(),
        ensures
            match found {
                Some(i) => {
                    &&& i < self.entries@.len()
                    &&& self.entries@[i as int].0.id() == key.id()
                    &&& self.map().dom().contains(key.id())
                    &&& self.map()[key.id()] == self.entries@[i as int].1
                },
                None => {
                    &&& !self.map().dom().contains(key.id())
                    &&& forall|i: int|
                        0 <= i < self.entries@.len() ==> (#[trigger] self.entries@[i]).0.id()
                            != key.id()
                },
            },
    {
        let mut i: usize = 0;
        while i < self.entries.len()
            invariant
                i <= self.entries@.len(),
                self.wf(),
                forall|k: int|
                    0 <= k < i ==> (#[trigger] self.entries@[k]).0.id() != key.id(),
            decreases self.entries@.len() - i,
        {
            if self.entries[i].0.same(key) {
                proof {
                    let at = place(self.entries@, key.id());
                    assert(self.entries@[i as int].0.id() == key.id());
                    assert(self.entries@[at].0.id() == key.id());
                    assert(at == i);
                }
                return Some(i);
            }
            i = i + 1;
        }
        None
    }

    /// Whether the key has a value.
    pub fn has(&self, key: &K) -> (has: bool)
        requires
            self.wf(),
        ensures
            has == self.map().dom().contains(key.id()),
    {
        match self.find(key) {
            Some(_) => true,
            None => false,
        }
    }

    /// The value of the key.
    pub fn get(&self, key: &K) -> (value: Option<&V>)
        requires
            self.wf(),
        ensures
            match value {
                Some(v) => self.map().dom().contains(key.id()) && *v == self.map()[key.id()],
                None => !self.map().dom().contains(key.id()),
            },
    {
        match self.find(key) {
            Some(i) => Some(&self.entries[i].1),
            None => None,
        }
    }

    /// Gives the key a value, in place of the one it may have had.
    pub fn set(&mut self, key: K, value: V)
        requires
            old(self).wf(),
        ensures
            final(self).wf(),
            final(self).map() == old(self).map().insert(key.id(), value),
    {
        let ghost before = self.entries@;
        let ghost id = key.id();
        match self.find(&key) {
            Some(i) => {
                self.entries[i] = (key, value);
                proof {
                    let after = self.entries@;
                    assert(after =~= before.update(i as int, (key, value)));
                    assert(self.wf()) by {
                        assert forall|a: int, b: int|
                            0 <= a < after.len() && 0 <= b < after.len() && a != b implies (
                        #[trigger] after[a]).0.id() != (#[trigger] after[b]).0.id() by {
                            assert(before[a].0.id() == after[a].0.id());
                            assert(before[b].0.id() == after[b].0.id());
                        }
                    }
                    assert forall|x: K::Id| holds(after, x) == (holds(before, x) || x == id) by {
                        if holds(after, x) {
                            let k = place(after, x);
                            assert(before[k].0.id() == after[k].0.id());
                        }
                        if holds(before, x) {
                            let k = place(before, x);
                            assert(before[k].0.id() == after[k].0.id());
                        }
                        assert(after[i as int].0.id() == id);
                    }
                    assert forall|x: K::Id| holds(after, x) implies self.map()[x] == old(
                        self,
                    ).map().insert(id, value)[x] by {
                        let k = place(after, x);
                        assert(before[k].0.id() == after[k].0.id());
                        if x == id {
                            assert(after[i as int].0.id() == after[k].0.id());
                        } else {
                            assert(holds(before, x));
                            let m = place(before, x);
                            assert(before[m].0.id() == before[k].0.id());
                        }
                    }
                    assert(self.map() =~= old(self).map().insert(id, value));
                }
            },
            None => {
                self.entries.push((key, value));
                proof {
                    let after = self.entries@;
                    let n = before.len() as int;
                    assert(after =~= before.push((key, value)));
                    assert forall|x: K::Id| holds(after, x) == (holds(before, x) || x == id) by {
                        if holds(after, x) {
                            let k = place(after, x);
                            if k < n {
                                assert(before[k] == after[k]);
                            }
                        }
                        if holds(before, x) {
                            let k = place(before, x);
                            assert(before[k] == after[k]);
                        }
                        assert(after[n].0.id() == id);
                    }
                    assert forall|x: K::Id| holds(after, x) implies self.map()[x] == old(
                        self,
                    ).map().insert(id, value)[x] by {
                        let k = place(after, x);
                        if k < n {
                            assert(before[k] == after[k]);
                            let m = place(before, x);
                            assert(before[m].0.id() == before[k].0.id());
                        }
                    }
                    assert(self.map() =~= old(self).map().insert(id, value));
                }
            },
        }
    }

    /// Takes the key's value away, if it has one.
    pub fn remove(&mut self, key: &K)
        requires
            old(self).wf(),
        ensures
            final(self).wf(),
            final(self).map() == old(self).map().remove(key.id()),
    {
        let ghost before = self.entries@;
        match self.find(key) {
            Some(i) => {
                self.entries.remove(i);
                proof {
                    let after = self.entries@;
                    assert(after =~= before.remove(i as int));
                    assert forall|a: int, b: int|
                        0 <= a < after.len() && 0 <= b < after.len() && a != b implies (
                    #[trigger] after[a]).0.id() != (#[trigger] after[b]).0.id() by {
                        let a0 = if a < i {
                            a
                        } else {
                            a + 1
                        };
                        let b0 = if b < i {
                            b
                        } else {
                            b + 1
                        };
                        assert(before[a0] == after[a] && before[b0] == after[b]);
                    }
                    let id = key.id();
                    assert forall|x: K::Id| holds(after, x) == (holds(before, x) && x != id) by {
                        if holds(after, x) {
                            let k = place(after, x);
                            let k0 = if k < i {
                                k
                            } else {
                                k + 1
                            };
                            assert(before[k0] == after[k]);
                            assert(before[i as int].0.id() == id);
                        }
                        if holds(before, x) && x != id {
                            let k = place(before, x);
                            let k1 = if k < i {
                                k
                            } else {
                                k - 1
                            };
                            assert(before[k] == after[k1]);
                        }
                    }
                    assert forall|x: K::Id| holds(after, x) implies self.map()[x] == old(
                        self,
                    ).map()[x] by {
                        let k = place(after, x);
                        let k0 = if k < i {
                            k
                        } else {
                            k + 1
                        };
                        assert(before[k0] == after[k]);
                        let m = place(before, x);
                        assert(before[m].0.id() == before[k0].0.id());
                    }
                    assert(self.map() =~= old(self).map().remove(id));
                }
            },
            None => {
                proof {
                    assert(self.map() =~= self.map().remove(key.id()));
                }
            },
        }
    }
}

} // verus!
