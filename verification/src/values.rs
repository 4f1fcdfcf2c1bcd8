//! The value model of the engine: the plain data that flows between steps.
//!
//! Step inputs and outputs are finite maps from field names to values of the
//! kinds a definition document can declare (null, boolean, integer, text).

use vstd::prelude::*;
use vstd::pervasive::VecAdditionalExecFns;
use crate::kvmap::{map_of, kv_get, distinct_keys, lemma_map_of_get, lemma_map_of_push,
    lemma_map_of_update, lemma_map_of_len, lemma_map_of_index};

verus! {

/// Mathematical shape of a [`JsonValue`].
pub enum JsonValueView {
    Null,
    Bool(bool),
    Int(int),
    Str(Seq<char>),
}

/// A plain value carried between steps.
///
/// Payloads are flat maps of scalar values: null, booleans, integers and
/// text. Nested objects, arrays and non-integral numbers are outside this
/// engine's value model; hosts must refuse them at the boundary.
#[derive(Debug)]
pub enum JsonValue {
    Null,
    Bool(bool),
    Int(i64),
    Text(String),
}

impl View for JsonValue {
    type V = JsonValueView;

    open spec fn view(&self) -> JsonValueView {
        match self {
            JsonValue::Null => JsonValueView::Null,
            JsonValue::Bool(b) => JsonValueView::Bool(*b),
            JsonValue::Int(i) => JsonValueView::Int(*i as int),
            JsonValue::Text(s) => JsonValueView::Str(s@),
        }
    }
}

impl Clone for JsonValue {
    fn clone(&self) -> (r: Self)
        ensures
            r@ == self@,
    {
        match self {
            JsonValue::Null => JsonValue::Null,
            JsonValue::Bool(b) => JsonValue::Bool(*b),
            JsonValue::Int(i) => JsonValue::Int(*i),
            JsonValue::Text(s) => JsonValue::Text(s.clone()),
        }
    }
}

impl JsonValue {
    /// Whether the value is a boolean.
    pub fn is_boolean(&self) -> (r: bool)
        ensures
            r == (self@ is Bool),
    {
        match self {
            JsonValue::Bool(_) => true,
            _ => false,
        }
    }

    /// The boolean carried by the value, if it is one.
    pub fn as_bool(&self) -> (r: Option<bool>)
        ensures
            (r is Some) == (self@ is Bool),
            r is Some ==> self@ == JsonValueView::Bool(r->0),
    {
        match self {
            JsonValue::Bool(b) => Some(*b),
            _ => None,
        }
    }
}

/// The view of one stored entry.
pub open spec fn entry_view(p: (String, JsonValue)) -> (Seq<char>, JsonValueView) {
    (p.0@, p.1@)
}

/// The views of a whole entry vector.
pub open spec fn entries_kv(es: Seq<(String, JsonValue)>) -> Seq<(Seq<char>, JsonValueView)> {
    es.map_values(|p: (String, JsonValue)| entry_view(p))
}

/// A finite map from field names to values, the payload shape of every step.
#[derive(Debug)]
pub struct ValueMap {
    entries: Vec<(String, JsonValue)>,
}

impl View for ValueMap {
    type V = Map<Seq<char>, JsonValueView>;

    closed spec fn view(&self) -> Map<Seq<char>, JsonValueView> {
        map_of(self.kv())
    }
}

impl ValueMap {
    /// The entry sequence, with names and values abstracted.
    pub closed spec fn kv(self) -> Seq<(Seq<char>, JsonValueView)> {
        entries_kv(self.entries@)
    }

    /// No field name occurs twice; every map built through this interface
    /// keeps this shape.
    pub closed spec fn wf(self) -> bool {
        distinct_keys(self.kv())
    }

    pub fn new() -> (r: Self)
        ensures
            r@ == Map::<Seq<char>, JsonValueView>::empty(),
            r.wf(),
            r.kv().len() == 0,
    {
        let r = ValueMap { entries: Vec::new() };
        proof {
            assert(r.kv().len() == 0);
        }
        r
    }

    /// How many fields the map holds.
    pub fn len(&self) -> (r: usize)
        requires
            self.wf(),
        ensures
            r == self@.len(),
            self@.dom().finite(),
    {
        proof {
            lemma_map_of_len(self.kv());
        }
        self.entries.len()
    }

    /// The value bound to `key`, if any.
    #[verifier::loop_isolation(false)]
    pub fn get(&self, key: &String) -> (r: Option<&JsonValue>)
        ensures
            self@.contains_key(key@) == (r is Some),
            r is Some ==> r->0@ == self@[key@],
    {
        proof {
            lemma_map_of_get(self.kv(), key@);
        }
        let n = self.entries.len();
        let mut i: usize = n;
        proof {
            assert(self.kv().take(n as int) =~= self.kv());
        }
        while i > 0
            invariant
                i <= n,
                n == self.entries.len(),
                kv_get(self.kv(), key@) == kv_get(self.kv().take(i as int), key@),
            decreases i,
        {
            let j = i - 1;
            proof {
                assert(self.kv().take(i as int).drop_last() =~= self.kv().take(j as int));
                assert(self.kv().take(i as int).last() == self.kv()[j as int]);
                assert(self.kv()[j as int] == entry_view(self.entries@[j as int]));
            }
            if self.entries[j].0 == *key {
                proof {
                    assert(kv_get(self.kv().take(i as int), key@)
                        == Some(self.kv()[j as int].1));
                }
                return Some(&self.entries[j].1);
            }
            i = j;
        }
        None
    }

    /// Whether a field of that name is present.
    pub fn contains_key(&self, key: &String) -> (r: bool)
        ensures
            r == self@.contains_key(key@),
    {
        self.get(key).is_some()
    }

    /// Bind `key` to `value`, replacing any earlier binding.
    #[verifier::loop_isolation(false)]
    pub fn insert(&mut self, key: String, value: JsonValue)
        requires
            old(self).wf(),
        ensures
            final(self).wf(),
            final(self)@ == old(self)@.insert(key@, value@),
    {
        let n = self.entries.len();
        let mut i: usize = 0;
        while i < n
            invariant
                i <= n,
                n == self.entries.len(),
                self.wf(),
                self == old(self),
                forall|x: int| 0 <= x < i ==> self.kv()[x].0 != key@,
            decreases n - i,
        {
            proof {
                assert(self.kv()[i as int] == entry_view(self.entries@[i as int]));
            }
            if self.entries[i].0 == key {
                proof {
                    lemma_map_of_update(self.kv(), i as int, value@);
                }
                self.entries.set(i, (key, value));
                proof {
                    assert(self.kv() =~= old(self).kv().update(
                        i as int, (old(self).kv()[i as int].0, value@)));
                    assert(distinct_keys(self.kv())) by {
                        assert(forall|x: int| 0 <= x < self.kv().len()
                            ==> self.kv()[x].0 == old(self).kv()[x].0);
                    }
                }
                return;
            }
            i = i + 1;
        }
        proof {
            lemma_map_of_push(self.kv(), key@, value@);
        }
        self.entries.push((key, value));
        proof {
            assert(self.kv() =~= old(self).kv().push((key@, value@)));
            assert(distinct_keys(self.kv())) by {
                assert(forall|x: int| 0 <= x < old(self).kv().len()
                    ==> self.kv()[x] == old(self).kv()[x]);
                assert(self.kv().last().0 == key@);
            }
        }
    }

    /// Merge every binding of `other` into this map; on a shared field name
    /// the binding of `other` wins.
    #[verifier::loop_isolation(false)]
    pub fn extend_with(&mut self, other: &ValueMap)
        requires
            old(self).wf(),
        ensures
            final(self).wf(),
            final(self)@ == old(self)@.union_prefer_right(other@),
    {
        let n = other.entries.len();
        let mut i: usize = 0;
        proof {
            assert(map_of(other.kv().take(0int)) =~= Map::<Seq<char>, JsonValueView>::empty());
            assert(self@ =~= old(self)@.union_prefer_right(map_of(other.kv().take(0int))));
        }
        while i < n
            invariant
                i <= n,
                n == other.entries.len(),
                self.wf(),
                self@ == old(self)@.union_prefer_right(map_of(other.kv().take(i as int))),
            decreases n - i,
        {
            proof {
                assert(other.kv()[i as int] == entry_view(other.entries@[i as int]));
            }
            let k = other.entries[i].0.clone();
            let v = other.entries[i].1.clone();
            self.insert(k, v);
            proof {
                assert(other.kv().take(i + 1 as int).drop_last() =~= other.kv().take(i as int));
                assert(other.kv().take(i + 1 as int).last() == other.kv()[i as int]);
                assert(map_of(other.kv().take(i + 1 as int))
                    == map_of(other.kv().take(i as int))
                        .insert(other.kv()[i as int].0, other.kv()[i as int].1));
                assert(self@ =~= old(self)@.union_prefer_right(
                    map_of(other.kv().take(i + 1 as int))));
            }
            i = i + 1;
        }
        proof {
            assert(other.kv().take(n as int) =~= other.kv());
        }
    }

    /// The name and value of the entry at `i`, for walking the map.
    pub fn entry_at(&self, i: usize) -> (p: &(String, JsonValue))
        requires
            i < self.kv().len(),
        ensures
            p.0@ == self.kv()[i as int].0,
            p.1@ == self.kv()[i as int].1,
            self.wf() ==> self@.contains_key(p.0@) && self@[p.0@] == p.1@,
    {
        proof {
            assert(self.kv()[i as int] == entry_view(self.entries@[i as int]));
            if self.wf() {
                lemma_map_of_index(self.kv(), i as int);
            }
        }
        &self.entries[i]
    }

    /// The map a `ValueMap` denotes is exactly the one its entries build.
    pub proof fn lemma_view_entries(self)
        ensures
            self@ == map_of(self.kv()),
    {
    }

    /// The number of entries; with a well-formed map this is its length.
    pub fn entry_count(&self) -> (r: usize)
        ensures
            r == self.kv().len(),
    {
        self.entries.len()
    }
}

impl Clone for ValueMap {
    #[verifier::loop_isolation(false)]
    fn clone(&self) -> (r: Self)
        ensures
            r.kv() == self.kv(),
            r@ == self@,
            r.wf() == self.wf(),
    {
        let n = self.entries.len();
        let mut out: Vec<(String, JsonValue)> = Vec::new();
        let mut i: usize = 0;
        proof {
            assert(entries_kv(out@) =~= self.kv().take(0int));
        }
        while i < n
            invariant
                i <= n,
                n == self.entries.len(),
                entries_kv(out@) == self.kv().take(i as int),
            decreases n - i,
        {
            let k = self.entries[i].0.clone();
            let v = self.entries[i].1.clone();
            proof {
                assert(self.kv()[i as int] == entry_view(self.entries@[i as int]));
            }
            let ghost pre = out@;
            out.push((k, v));
            proof {
                assert(entries_kv(out@) =~= self.kv().take(i + 1 as int)) by {
                    assert(entries_kv(out@).len() == i + 1);
                    assert(forall|x: int| 0 <= x < i
                        ==> entries_kv(out@)[x] == entry_view(out@[x])
                            && out@[x] == pre[x]
                            && entries_kv(pre)[x] == entry_view(pre[x]));
                    assert(entries_kv(out@)[i as int] == entry_view(out@[i as int]));
                }
            }
            i = i + 1;
        }
        proof {
            assert(self.kv().take(n as int) =~= self.kv());
        }
        let r = ValueMap { entries: out };
        r
    }
}

} // verus!
