//! Verified association tables used throughout the engine: one keyed by
//! names, one keyed by numeric ids. Each reads as a `Map` in specifications
//! and keeps its keys distinct.

use vstd::prelude::*;
use crate::kvmap::{map_of, kv_get, distinct_keys, lemma_map_of_get, lemma_map_of_push,
    lemma_map_of_update, lemma_map_of_remove, lemma_map_of_len, lemma_map_of_index};

verus! {

/// The views of a name-keyed entry vector.
pub open spec fn str_entries_kv<V>(es: Seq<(String, V)>) -> Seq<(Seq<char>, V)> {
    es.map_values(|p: (String, V)| (p.0@, p.1))
}

/// A table from names to values; in specifications a `Map<Seq<char>, V>`.
pub struct StrTable<V> {
    entries: Vec<(String, V)>,
}

impl<V> View for StrTable<V> {
    type V = Map<Seq<char>, V>;

    closed spec fn view(&self) -> Map<Seq<char>, V> {
        map_of(self.kv())
    }
}

impl<V> StrTable<V> {
    pub closed spec fn kv(self) -> Seq<(Seq<char>, V)> {
        str_entries_kv(self.entries@)
    }

    pub closed spec fn wf(self) -> bool {
        distinct_keys(self.kv())
    }

    pub fn new() -> (r: Self)
        ensures
            r@ == Map::<Seq<char>, V>::empty(),
            r.wf(),
            r.kv().len() == 0,
    {
        let r = StrTable { entries: Vec::new() };
        proof {
            assert(r.kv().len() == 0);
        }
        r
    }

    pub fn len(&self) -> (r: usize)
        requires
            self.wf(),
        ensures
            r == self@.len(),
            self@.dom().finite(),
    {
        proof {
            lemma_map_of_len(self.kv());
        }
        self.entries.len()
    }

    #[verifier::loop_isolation(false)]
    pub fn get(&self, key: &String) -> (r: Option<&V>)
        ensures
            self@.contains_key(key@) == (r is Some),
            r is Some ==> *r->0 == self@[key@],
    {
        proof {
            lemma_map_of_get(self.kv(), key@);
        }
        let n = self.entries.len();
        let mut i: usize = n;
        proof {
            assert(self.kv().take(n as int) =~= self.kv());
        }
        while i > 0
            invariant
                i <= n,
                kv_get(self.kv(), key@) == kv_get(self.kv().take(i as int), key@),
            decreases i,
        {
            let j = i - 1;
            proof {
                assert(self.kv().take(i as int).drop_last() =~= self.kv().take(j as int));
                assert(self.kv().take(i as int).last() == self.kv()[j as int]);
                assert(self.kv()[j as int] == (self.entries@[j as int].0@, self.entries@[j as int].1));
            }
            if self.entries[j].0 == *key {
                return Some(&self.entries[j].1);
            }
            i = j;
        }
        None
    }

    pub fn contains_key(&self, key: &String) -> (r: bool)
        ensures
            r == self@.contains_key(key@),
    {
        self.get(key).is_some()
    }

    /// Bind `key` to `value`, replacing any earlier binding.
    #[verifier::loop_isolation(false)]
    pub fn put(&mut self, key: String, value: V)
        requires
            old(self).wf(),
        ensures
            final(self).wf(),
            final(self)@ == old(self)@.insert(key@, value),
    {
        let n = self.entries.len();
        let mut i: usize = 0;
        while i < n
            invariant
                i <= n,
                n == self.entries.len(),
                self == old(self),
                forall|x: int| 0 <= x < i ==> self.kv()[x].0 != key@,
            decreases n - i,
        {
            proof {
                assert(self.kv()[i as int] == (self.entries@[i as int].0@, self.entries@[i as int].1));
            }
            if self.entries[i].0 == key {
                proof {
                    lemma_map_of_update(self.kv(), i as int, value);
                }
                self.entries.set(i, (key, value));
                proof {
                    assert(self.kv() =~= old(self).kv().update(
                        i as int, (old(self).kv()[i as int].0, value)));
                    assert(distinct_keys(self.kv())) by {
                        assert(forall|x: int| 0 <= x < self.kv().len()
                            ==> self.kv()[x].0 == old(self).kv()[x].0);
                    }
                }
                return;
            }
            i = i + 1;
        }
        proof {
            lemma_map_of_push(self.kv(), key@, value);
        }
        self.entries.push((key, value));
        proof {
            assert(self.kv() =~= old(self).kv().push((key@, value)));
            assert(distinct_keys(self.kv())) by {
                assert(forall|x: int| 0 <= x < old(self).kv().len()
                    ==> self.kv()[x] == old(self).kv()[x]);
                assert(self.kv().last().0 == key@);
            }
        }
    }

    /// Remove and return the value bound to `key`, if any.
    #[verifier::loop_isolation(false)]
    pub fn take_out(&mut self, key: &String) -> (r: Option<V>)
        requires
            old(self).wf(),
        ensures
            final(self).wf(),
            (r is Some) == old(self)@.contains_key(key@),
            r is Some ==> r->0 == old(self)@[key@],
            r is None ==> *final(self) == *old(self),
            final(self)@ == old(self)@.remove(key@),
    {
        let n = self.entries.len();
        let mut i: usize = 0;
        while i < n
            invariant
                i <= n,
                n == self.entries.len(),
                self == old(self),
                forall|x: int| 0 <= x < i ==> self.kv()[x].0 != key@,
            decreases n - i,
        {
            proof {
                assert(self.kv()[i as int] == (self.entries@[i as int].0@, self.entries@[i as int].1));
            }
            if self.entries[i].0 == *key {
                proof {
                    lemma_map_of_remove(self.kv(), i as int);
                    lemma_map_of_index(self.kv(), i as int);
                }
                let p = self.entries.remove(i);
                proof {
                    assert(self.kv() =~= old(self).kv().remove(i as int));
                    assert(distinct_keys(self.kv())) by {
                        assert(forall|x: int| 0 <= x < self.kv().len()
                            ==> (if x < i { self.kv()[x] == old(self).kv()[x] }
                                 else { self.kv()[x] == old(self).kv()[x + 1] }));
                    }
                }
                return Some(p.1);
            }
            i = i + 1;
        }
        proof {
            crate::kvmap::lemma_map_of_no_key(self.kv(), key@);
            assert(final(self)@ =~= old(self)@.remove(key@));
        }
        None
    }

    /// The entry at position `i`, for walking the table.
    pub fn entry_at(&self, i: usize) -> (p: &(String, V))
        requires
            i < self.kv().len(),
        ensures
            p.0@ == self.kv()[i as int].0,
            p.1 == self.kv()[i as int].1,
            self.wf() ==> self@.contains_key(p.0@) && self@[p.0@] == p.1,
    {
        proof {
            assert(self.kv()[i as int] == (self.entries@[i as int].0@, self.entries@[i as int].1));
            if self.wf() {
                lemma_map_of_index(self.kv(), i as int);
            }
        }
        &self.entries[i]
    }

    pub fn entry_count(&self) -> (r: usize)
        ensures
            r == self.kv().len(),
    {
        self.entries.len()
    }

    /// The map a table denotes is exactly the one its entries build.
    pub proof fn lemma_view_entries(self)
        ensures
            self@ == map_of(self.kv()),
    {
    }
}

/// A table from numeric ids to values; in specifications a `Map<u64, V>`.
pub struct U64Table<V> {
    entries: Vec<(u64, V)>,
}

impl<V> View for U64Table<V> {
    type V = Map<u64, V>;

    closed spec fn view(&self) -> Map<u64, V> {
        map_of(self.kv())
    }
}

impl<V> U64Table<V> {
    pub closed spec fn kv(self) -> Seq<(u64, V)> {
        self.entries@
    }

    pub closed spec fn wf(self) -> bool {
        distinct_keys(self.kv())
    }

    pub fn new() -> (r: Self)
        ensures
            r@ == Map::<u64, V>::empty(),
            r.wf(),
            r.kv().len() == 0,
    {
        U64Table { entries: Vec::new() }
    }

    pub fn len(&self) -> (r: usize)
        requires
            self.wf(),
        ensures
            r == self@.len(),
            self@.dom().finite(),
    {
        proof {
            lemma_map_of_len(self.kv());
        }
        self.entries.len()
    }

    #[verifier::loop_isolation(false)]
    pub fn get(&self, key: u64) -> (r: Option<&V>)
        ensures
            self@.contains_key(key) == (r is Some),
            r is Some ==> *r->0 == self@[key],
    {
        proof {
            lemma_map_of_get(self.kv(), key);
        }
        let n = self.entries.len();
        let mut i: usize = n;
        proof {
            assert(self.kv().take(n as int) =~= self.kv());
        }
        while i > 0
            invariant
                i <= n,
                kv_get(self.kv(), key) == kv_get(self.kv().take(i as int), key),
            decreases i,
        {
            let j = i - 1;
            proof {
                assert(self.kv().take(i as int).drop_last() =~= self.kv().take(j as int));
                assert(self.kv().take(i as int).last() == self.kv()[j as int]);
            }
            if self.entries[j].0 == key {
                return Some(&self.entries[j].1);
            }
            i = j;
        }
        None
    }

    pub fn contains_key(&self, key: u64) -> (r: bool)
        ensures
            r == self@.contains_key(key),
    {
        self.get(key).is_some()
    }

    /// Bind `key` to `value`, replacing any earlier binding.
    #[verifier::loop_isolation(false)]
    pub fn put(&mut self, key: u64, value: V)
        requires
            old(self).wf(),
        ensures
            final(self).wf(),
            final(self)@ == old(self)@.insert(key, value),
    {
        let n = self.entries.len();
        let mut i: usize = 0;
        while i < n
            invariant
                i <= n,
                n == self.entries.len(),
                self == old(self),
                forall|x: int| 0 <= x < i ==> self.kv()[x].0 != key,
            decreases n - i,
        {
            if self.entries[i].0 == key {
                proof {
                    lemma_map_of_update(self.kv(), i as int, value);
                }
                self.entries.set(i, (key, value));
                proof {
                    assert(self.kv() =~= old(self).kv().update(
                        i as int, (old(self).kv()[i as int].0, value)));
                    assert(distinct_keys(self.kv())) by {
                        assert(forall|x: int| 0 <= x < self.kv().len()
                            ==> self.kv()[x].0 == old(self).kv()[x].0);
                    }
                }
                return;
            }
            i = i + 1;
        }
        proof {
            lemma_map_of_push(self.kv(), key, value);
        }
        self.entries.push((key, value));
        proof {
            assert(self.kv() =~= old(self).kv().push((key, value)));
            assert(distinct_keys(self.kv())) by {
                assert(forall|x: int| 0 <= x < old(self).kv().len()
                    ==> self.kv()[x] == old(self).kv()[x]);
                assert(self.kv().last().0 == key);
            }
        }
    }

    /// Remove and return the value bound to `key`, if any.
    #[verifier::loop_isolation(false)]
    pub fn take_out(&mut self, key: u64) -> (r: Option<V>)
        requires
            old(self).wf(),
        ensures
            final(self).wf(),
            (r is Some) == old(self)@.contains_key(key),
            r is Some ==> r->0 == old(self)@[key],
            r is None ==> *final(self) == *old(self),
            final(self)@ == old(self)@.remove(key),
    {
        let n = self.entries.len();
        let mut i: usize = 0;
        while i < n
            invariant
                i <= n,
                n == self.entries.len(),
                self == old(self),
                forall|x: int| 0 <= x < i ==> self.kv()[x].0 != key,
            decreases n - i,
        {
            if self.entries[i].0 == key {
                proof {
                    lemma_map_of_remove(self.kv(), i as int);
                    lemma_map_of_index(self.kv(), i as int);
                }
                let p = self.entries.remove(i);
                proof {
                    assert(self.kv() =~= old(self).kv().remove(i as int));
                    assert(distinct_keys(self.kv())) by {
                        assert(forall|x: int| 0 <= x < self.kv().len()
                            ==> (if x < i { self.kv()[x] == old(self).kv()[x] }
                                 else { self.kv()[x] == old(self).kv()[x + 1] }));
                    }
                }
                return Some(p.1);
            }
            i = i + 1;
        }
        proof {
            crate::kvmap::lemma_map_of_no_key(self.kv(), key);
            assert(final(self)@ =~= old(self)@.remove(key));
        }
        None
    }

    /// The entry at position `i`, for walking the table.
    pub fn entry_at(&self, i: usize) -> (p: &(u64, V))
        requires
            i < self.kv().len(),
        ensures
            p.0 == self.kv()[i as int].0,
            p.1 == self.kv()[i as int].1,
            self.wf() ==> self@.contains_key(p.0) && self@[p.0] == p.1,
    {
        proof {
            if self.wf() {
                lemma_map_of_index(self.kv(), i as int);
            }
        }
        &self.entries[i]
    }

    pub fn entry_count(&self) -> (r: usize)
        ensures
            r == self.kv().len(),
    {
        self.entries.len()
    }

    /// The map a table denotes is exactly the one its entries build.
    pub proof fn lemma_view_entries(self)
        ensures
            self@ == map_of(self.kv()),
    {
    }
}

} // verus!
