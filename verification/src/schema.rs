//! The schema model: what the engine reads from a schema document — the
//! required field names and the declared type of each property — and the
//! required/typed-field check applied to step payloads at run time.

use vstd::prelude::*;
use crate::tables::StrTable;
use crate::values::{JsonValue, JsonValueView, ValueMap};

verus! {

/// Mathematical shape of an [`IODescriptor`].
pub struct IODescriptorView {
    pub name: Seq<char>,
    pub rtype: Seq<char>,
    pub required: bool,
}

/// One field of a schema as the validator reads it: its name, declared
/// type, and whether the schema marks it required.
#[derive(Debug)]
pub struct IODescriptor {
    pub name: String,
    pub rtype: String,
    pub required: bool,
}

impl View for IODescriptor {
    type V = IODescriptorView;

    open spec fn view(&self) -> IODescriptorView {
        IODescriptorView { name: self.name@, rtype: self.rtype@, required: self.required }
    }
}

impl IODescriptor {
    pub fn new(name: String, rtype: String, required: bool) -> (r: Self)
        ensures
            r@.name == name@,
            r@.rtype == rtype@,
            r@.required == required,
    {
        IODescriptor { name, rtype, required }
    }
}

/// The views of a name vector.
pub open spec fn names_view(s: Seq<String>) -> Seq<Seq<char>> {
    s.map_values(|n: String| n@)
}

/// A schema document as the engine reads it: which fields are required,
/// and the declared type of each property.
pub struct Schema {
    required: Vec<String>,
    properties: StrTable<String>,
}

impl Schema {
    /// The names the schema marks required.
    pub closed spec fn spec_required(self) -> Seq<Seq<char>> {
        names_view(self.required@)
    }

    /// The declared type of each property.
    pub closed spec fn spec_props(self) -> Map<Seq<char>, Seq<char>> {
        self.properties@.map_values(|t: String| t@)
    }

    pub closed spec fn wf(self) -> bool {
        self.properties.wf()
    }

    /// Whether the schema marks `name` required.
    pub open spec fn is_required(self, name: Seq<char>) -> bool {
        self.spec_required().contains(name)
    }

    /// Build a schema from its required names and (property name, declared
    /// type) pairs; a later pair replaces an earlier one of the same name.
    #[verifier::loop_isolation(false)]
    pub fn new(required: Vec<String>, properties: Vec<(String, String)>) -> (r: Self)
        ensures
            r.wf(),
            r.spec_required() == names_view(required@),
            r.spec_props() == crate::kvmap::map_of(
                properties@.map_values(|p: (String, String)| (p.0@, p.1@))),
    {
        let ghost goal = crate::kvmap::map_of(
            properties@.map_values(|p: (String, String)| (p.0@, p.1@)));
        let ghost pairs = properties@.map_values(|p: (String, String)| (p.0@, p.1@));
        let mut properties = properties;
        let mut table: StrTable<String> = StrTable::new();
        proof {
            assert(pairs.take(0int) =~= Seq::<(Seq<char>, Seq<char>)>::empty());
            assert(table@.map_values(|t: String| t@)
                =~= crate::kvmap::map_of(pairs.take(0int)));
        }
        let n = properties.len();
        let ghost all = properties@;
        let mut i: usize = 0;
        while i < n
            invariant
                i <= n,
                n == all.len(),
                properties@ == all.skip(i as int),
                pairs == all.map_values(|p: (String, String)| (p.0@, p.1@)),
                table.wf(),
                table@.map_values(|t: String| t@) == crate::kvmap::map_of(pairs.take(i as int)),
            decreases n - i,
        {
            let p = properties.remove(0);
            proof {
                assert(p == all[i as int]);
                assert(properties@ =~= all.skip(i + 1 as int));
            }
            table.put(p.0, p.1);
            proof {
                assert(pairs.take(i + 1 as int).drop_last() =~= pairs.take(i as int));
                assert(pairs.take(i + 1 as int).last() == pairs[i as int]);
                assert(pairs[i as int] == (all[i as int].0@, all[i as int].1@));
                assert(table@.map_values(|t: String| t@)
                    =~= crate::kvmap::map_of(pairs.take(i + 1 as int)));
            }
            i = i + 1;
        }
        proof {
            assert(pairs.take(n as int) =~= pairs);
        }
        Schema { required, properties: table }
    }

    /// Whether the schema marks `name` required, executably.
    #[verifier::loop_isolation(false)]
    pub fn required_contains(&self, name: &String) -> (r: bool)
        ensures
            r == self.is_required(name@),
    {
        let n = self.required.len();
        let mut i: usize = 0;
        while i < n
            invariant
                i <= n,
                forall|x: int| 0 <= x < i ==> self.spec_required()[x] != name@,
            decreases n - i,
        {
            proof {
                assert(self.spec_required()[i as int] == self.required@[i as int]@);
            }
            if self.required[i] == *name {
                proof {
                    assert(self.spec_required().contains(name@));
                }
                return true;
            }
            i = i + 1;
        }
        proof {
            assert(!self.spec_required().contains(name@)) by {
                assert(forall|x: int| 0 <= x < self.spec_required().len()
                    ==> self.spec_required()[x] != name@);
            }
        }
        false
    }

    /// The descriptor of `name`, if the schema declares such a property:
    /// its declared type and whether it is required.
    pub fn get_field(&self, name: &String) -> (r: Option<IODescriptor>)
        ensures
            (r is Some) == self.spec_props().contains_key(name@),
            r is Some ==> r->0@.name == name@
                && r->0@.rtype == self.spec_props()[name@]
                && r->0@.required == self.is_required(name@),
    {
        match self.properties.get(name) {
            Some(t) => {
                let req = self.required_contains(name);
                Some(IODescriptor::new(name.clone(), t.clone(), req))
            },
            None => None,
        }
    }

    /// The number of required names, for walking them.
    pub fn required_count(&self) -> (r: usize)
        ensures
            r == self.spec_required().len(),
    {
        self.required.len()
    }

    /// The required name at position `i`.
    pub fn required_at(&self, i: usize) -> (r: &String)
        requires
            i < self.spec_required().len(),
        ensures
            r@ == self.spec_required()[i as int],
            self.is_required(r@),
    {
        proof {
            assert(self.spec_required()[i as int] == self.required@[i as int]@);
        }
        &self.required[i]
    }
}

/// A payload conforms when every required field is present and every
/// present field that the schema types has a value of that type.
pub open spec fn payload_conforms(m: Map<Seq<char>, JsonValueView>, sch: Schema) -> bool {
    (forall|i: int| 0 <= i < sch.spec_required().len()
        ==> m.contains_key(#[trigger] sch.spec_required()[i]))
    && (forall|k: Seq<char>| #[trigger] m.contains_key(k) && sch.spec_props().contains_key(k)
        ==> type_matches(sch.spec_props()[k], m[k]))
}

/// Whether a value fits a declared type name; unknown type names are
/// tolerated.
pub open spec fn type_matches(t: Seq<char>, v: JsonValueView) -> bool {
    if t == "string"@ {
        v is Str
    } else if t == "number"@ {
        v is Int
    } else if t == "boolean"@ {
        v is Bool
    } else {
        true
    }
}

/// Check a payload against a schema: every required field present, every
/// typed field of the right type.
#[verifier::loop_isolation(false)]
pub fn check_payload(m: &ValueMap, sch: &Schema) -> (r: bool)
    requires
        m.wf(),
    ensures
        r == payload_conforms(m@, *sch),
{
    let nr = sch.required_count();
    let mut i: usize = 0;
    while i < nr
        invariant
            i <= nr,
            forall|x: int| 0 <= x < i ==> m@.contains_key(#[trigger] sch.spec_required()[x]),
        decreases nr - i,
    {
        let name = sch.required_at(i);
        if !m.contains_key(name) {
            proof {
                assert(!payload_conforms(m@, *sch));
            }
            return false;
        }
        i = i + 1;
    }
    let ne = m.entry_count();
    let mut j: usize = 0;
    while j < ne
        invariant
            j <= ne,
            forall|x: int| 0 <= x < j
                ==> (sch.spec_props().contains_key(#[trigger] m.kv()[x].0)
                    ==> type_matches(sch.spec_props()[m.kv()[x].0], m.kv()[x].1)),
        decreases ne - j,
    {
        let p = m.entry_at(j);
        match sch.get_field(&p.0) {
            Some(d) => {
                if !type_ok(&d.rtype, &p.1) {
                    proof {
                        assert(!type_matches(sch.spec_props()[p.0@], m@[p.0@]));
                        assert(!payload_conforms(m@, *sch));
                    }
                    return false;
                }
            },
            None => {},
        }
        j = j + 1;
    }
    proof {
        assert forall|k: Seq<char>| #[trigger] m@.contains_key(k)
            && sch.spec_props().contains_key(k)
            implies type_matches(sch.spec_props()[k], m@[k]) by {
            m.lemma_view_entries();
            crate::kvmap::lemma_map_of_to_index(m.kv(), k);
            let x = choose|x: int| 0 <= x < m.kv().len()
                && m.kv()[x].0 == k && m.kv()[x].1 == m@[k];
            assert(type_matches(sch.spec_props()[m.kv()[x].0], m.kv()[x].1));
        };
    }
    true
}

/// Whether a value fits a declared type name, executably.
pub fn type_ok(t: &String, v: &JsonValue) -> (r: bool)
    ensures
        r == type_matches(t@, v@),
{
    if *t == "string".to_owned() {
        matches!(v, JsonValue::Text(_))
    } else if *t == "number".to_owned() {
        matches!(v, JsonValue::Int(_))
    } else if *t == "boolean".to_owned() {
        matches!(v, JsonValue::Bool(_))
    } else {
        true
    }
}

} // verus!
