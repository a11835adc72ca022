//! Rows that are found by their key.
use crate::index;
use crate::index::{mapping, KeyNumbers};
use ahash::AHashMap;
use vstd::prelude::*;

verus! {

/// Values under keys, with an index from each key to its row.
pub struct Table<V> {
    index: AHashMap<KeyNumbers, usize>,
    rows: Vec<(KeyNumbers, V)>,
    values: Ghost<Map<KeyNumbers, V>>,
}

impl<V> View for Table<V> {
    type V = Map<KeyNumbers, V>;

    closed spec fn view(&self) -> Map<KeyNumbers, V> {
        self.values@
    }
}

impl<V> Table<V> {
    /// Row `i` holds the value of its key.
    spec fn placed(self, i: int) -> bool {
        let key = self.rows@[i].0;
        &&& self.values@.contains_key(key)
        &&& self.values@[key] == self.rows@[i].1
        &&& mapping(self.index).contains_key(key)
        &&& mapping(self.index)[key] == i
    }

    /// A key has a value exactly if the index knows it, and the index points to
    /// its row.
    spec fn indexed(self, key: KeyNumbers) -> bool {
        &&& self.values@.contains_key(key) <==> mapping(self.index).contains_key(key)
        &&& self.values@.contains_key(key) ==> {
            let i = mapping(self.index)[key];
            &&& i < self.rows@.len()
            &&& self.rows@[i as int].0 == key
        }
    }

    pub closed spec fn wf(self) -> bool {
        &&& forall|i: int| 0 <= i < self.rows@.len() ==> #[trigger] self.placed(i)
        &&& forall|key: KeyNumbers| #[trigger] self.indexed(key)
    }

    /// How many rows there are.
    pub closed spec fn spec_len(self) -> int {
        self.rows@.len() as int
    }

    /// The key of a row.
    pub closed spec fn spec_key(self, i: int) -> KeyNumbers {
        self.rows@[i].0
    }

    pub fn new() -> (r: Table<V>)
        ensures
            r.wf(),
            r@ == Map::<KeyNumbers, V>::empty(),
            r.spec_len() == 0,
    {
        let r = Table { index: index::empty(), rows: Vec::new(), values: Ghost(Map::empty()) };
        assert forall|key: KeyNumbers| #[trigger] r.indexed(key) by {}
        r
    }

    pub fn len(&self) -> (r: usize)
        requires
            self.wf(),
        ensures
            r == self.spec_len(),
            r == 0 <==> self@ =~= Map::<KeyNumbers, V>::empty(),
    {
        proof {
            if self.rows@.len() == 0 {
                assert forall|key: KeyNumbers| !self@.contains_key(key) by {
                    assert(self.indexed(key));
                }
            } else {
                assert(self.placed(0));
                assert(self@.contains_key(self.rows@[0].0));
            }
        }
        self.rows.len()
    }

    /// The key of a row. Every key has a row.
    pub fn key_at(&self, i: usize) -> (r: KeyNumbers)
        requires
            self.wf(),
            i < self.spec_len(),
        ensures
            r == self.spec_key(i as int),
            self@.contains_key(r),
    {
        assert(self.placed(i as int));
        self.rows[i].0
    }

    /// Every key is the key of a row.
    pub proof fn lemma_rows(&self, key: KeyNumbers)
        requires
            self.wf(),
            self@.contains_key(key),
        ensures
            exists|i: int| 0 <= i < self.spec_len() && #[trigger] self.spec_key(i) == key,
    {
        assert(self.indexed(key));
        assert(self.spec_key(mapping(self.index)[key] as int) == key);
    }

    pub fn get(&self, key: KeyNumbers) -> (r: Option<&V>)
        requires
            self.wf(),
        ensures
            r is Some == self@.contains_key(key),
            r matches Some(v) ==> *v == self@[key],
    {
        assert(self.indexed(key));
        match index::get(&self.index, key) {
            Some(i) => {
                assert(self.placed(i as int));
                Some(&self.rows[i].1)
            },
            None => None,
        }
    }

    /// Gives a key a value, in place of the one that it had.
    pub fn insert(&mut self, key: KeyNumbers, value: V)
        requires
            old(self).wf(),
        ensures
            final(self).wf(),
            final(self)@ == old(self)@.insert(key, value),
    {
        let ghost before = *self;
        assert(self.indexed(key));
        match index::get(&self.index, key) {
            Some(i) => {
                self.rows[i] = (key, value);
                proof {
                    self.values = Ghost(self.values@.insert(key, value));
                    assert forall|j: int| 0 <= j < self.rows@.len() implies #[trigger] self.placed(
                        j,
                    ) by {
                        assert(before.placed(j));
                        assert(before.placed(i as int));
                    }
                    assert forall|k: KeyNumbers| #[trigger] self.indexed(k) by {
                        assert(before.indexed(k));
                    }
                }
            },
            None => {
                let at: usize = self.rows.len();
                index::insert(&mut self.index, key, at);
                self.rows.push((key, value));
                proof {
                    self.values = Ghost(self.values@.insert(key, value));
                    assert forall|j: int| 0 <= j < self.rows@.len() implies #[trigger] self.placed(
                        j,
                    ) by {
                        if j < at {
                            assert(before.placed(j));
                            assert(self.rows@[j] == before.rows@[j]);
                        }
                    }
                    assert forall|k: KeyNumbers| #[trigger] self.indexed(k) by {
                        assert(before.indexed(k));
                    }
                }
            },
        }
    }

    /// Takes a key's value away.
    pub fn remove(&mut self, key: KeyNumbers)
        requires
            old(self).wf(),
        ensures
            final(self).wf(),
            final(self)@ == old(self)@.remove(key),
    {
        let ghost before = *self;
        assert(self.indexed(key));
        match index::get(&self.index, key) {
            None => {
                assert(self@ =~= before@.remove(key));
            },
            Some(i) => {
                index::remove(&mut self.index, key);
                let _gone = self.rows.swap_remove(i);
                if i < self.rows.len() {
                    let moved: KeyNumbers = self.rows[i].0;
                    index::insert(&mut self.index, moved, i);
                }
                proof {
                    self.values = Ghost(self.values@.remove(key));
                    let last = before.rows@.len() - 1;
                    assert(before.placed(i as int));
                    assert(before.placed(last));
                    assert forall|j: int| 0 <= j < self.rows@.len() implies #[trigger] self.placed(
                        j,
                    ) by {
                        let k = if j == i {
                            last
                        } else {
                            j
                        };
                        assert(before.placed(k));
                        assert(self.rows@[j] == before.rows@[k]);
                    }
                    assert forall|k: KeyNumbers| #[trigger] self.indexed(k) by {
                        assert(before.indexed(k));
                        if k != key && before.values@.contains_key(k) {
                            assert(before.placed(mapping(before.index)[k] as int));
                        }
                    }
                }
            },
        }
    }
}

} // verus!
