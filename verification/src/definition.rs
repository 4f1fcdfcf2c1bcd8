//! The immutable process graph: steps keyed by id, directed flow edges, and
//! the id of the start step. Shared read-only by every instance running it.

use vstd::prelude::*;
use std::sync::Arc;
use crate::steps::StepDef;
use crate::step::{FlowLeaf, FlowLeafView};
use crate::tables::StrTable;

verus! {

/// The step map described by a step vector: each step keyed by its own id,
/// a later step replacing an earlier one with the same id.
pub open spec fn steps_map_of(s: Seq<StepDef>) -> Map<Seq<char>, StepDef>
    decreases s.len(),
{
    if s.len() == 0 {
        Map::empty()
    } else {
        steps_map_of(s.drop_last()).insert(s.last().spec_id(), s.last())
    }
}

/// Every step of the vector stands in the map it builds, under its id.
pub proof fn lemma_steps_map_of_contains(s: Seq<StepDef>, x: int)
    requires
        0 <= x < s.len(),
    ensures
        steps_map_of(s).contains_key(s[x].spec_id()),
    decreases s.len(),
{
    if x < s.len() - 1 {
        lemma_steps_map_of_contains(s.drop_last(), x);
        assert(s.drop_last()[x] == s[x]);
    }
}

/// Every key of the built map is some step's id.
pub proof fn lemma_steps_map_of_source(s: Seq<StepDef>, k: Seq<char>)
    requires
        steps_map_of(s).contains_key(k),
    ensures
        exists|x: int| 0 <= x < s.len() && (#[trigger] s[x]).spec_id() == k,
    decreases s.len(),
{
    if s.len() > 0 {
        if s.last().spec_id() == k {
            assert(s[s.len() - 1].spec_id() == k);
        } else {
            lemma_steps_map_of_source(s.drop_last(), k);
            let x = choose|x: int| 0 <= x < s.drop_last().len()
                && (#[trigger] s.drop_last()[x]).spec_id() == k;
            assert(s[x].spec_id() == k);
        }
    }
}

/// The last step of an id decides what the map holds under that id.
pub proof fn lemma_steps_map_of_last(s: Seq<StepDef>, x: int)
    requires
        0 <= x < s.len(),
        forall|y: int| x < y < s.len() ==> (#[trigger] s[y]).spec_id() != s[x].spec_id(),
    ensures
        steps_map_of(s).contains_key(s[x].spec_id()),
        steps_map_of(s)[s[x].spec_id()] == s[x],
    decreases s.len(),
{
    if x < s.len() - 1 {
        assert(s.last().spec_id() != s[x].spec_id());
        assert(forall|y: int| x < y < s.drop_last().len()
            ==> (#[trigger] s.drop_last()[y]).spec_id() != s.drop_last()[x].spec_id());
        lemma_steps_map_of_last(s.drop_last(), x);
        assert(s.drop_last()[x] == s[x]);
    }
}

/// The views of a flow-edge vector.
pub open spec fn flow_view(s: Seq<(String, FlowLeaf)>) -> Seq<(Seq<char>, FlowLeafView)> {
    s.map_values(|p: (String, FlowLeaf)| (p.0@, p.1@))
}

/// The edges leaving `from`, in document order.
pub open spec fn edges_from(s: Seq<(Seq<char>, FlowLeafView)>, from: Seq<char>)
    -> Seq<FlowLeafView>
    decreases s.len(),
{
    if s.len() == 0 {
        Seq::empty()
    } else {
        let rest = edges_from(s.drop_last(), from);
        if s.last().0 == from {
            rest.push(s.last().1)
        } else {
            rest
        }
    }
}

/// A named, immutable workflow graph.
pub struct ProcessDefinition {
    start_step_id: String,
    steps: StrTable<StepDef>,
    flow: Vec<(String, FlowLeaf)>,
}

impl ProcessDefinition {
    /// The id of the start step.
    pub closed spec fn start_id(self) -> Seq<char> {
        self.start_step_id@
    }

    /// The steps of the graph, keyed by id.
    pub closed spec fn steps_map(self) -> Map<Seq<char>, StepDef> {
        self.steps@
    }

    /// The flow edges of the graph, as (from, edge) pairs.
    pub closed spec fn flow_seq(self) -> Seq<(Seq<char>, FlowLeafView)> {
        flow_view(self.flow@)
    }

    /// The edges leaving the step `from`.
    pub open spec fn next_of(self, from: Seq<char>) -> Seq<FlowLeafView> {
        edges_from(self.flow_seq(), from)
    }

    /// Every step stands in the map under its own id.
    pub closed spec fn wf(self) -> bool {
        self.steps.wf()
            && forall|k: Seq<char>| #[trigger] self.steps@.contains_key(k)
                ==> self.steps@[k].spec_id() == k
    }

    /// Assemble a graph from its steps and edges; each step is keyed by its
    /// own id, a later one replacing an earlier one with the same id.
    #[verifier::loop_isolation(false)]
    pub fn new(steps: Vec<StepDef>, flow: Vec<(String, FlowLeaf)>, start_step_id: String)
        -> (r: Self)
        ensures
            r.wf(),
            r.start_id() == start_step_id@,
            r.steps_map() == steps_map_of(steps@),
            r.flow_seq() == flow_view(flow@),
    {
        let ghost all = steps@;
        let mut steps = steps;
        let mut table: StrTable<StepDef> = StrTable::new();
        proof {
            assert(all.take(0int) =~= Seq::<StepDef>::empty());
            assert(table@ =~= steps_map_of(all.take(0int)));
        }
        let mut i: usize = 0;
        let n = steps.len();
        while i < n
            invariant
                i <= n,
                n == all.len(),
                steps@ == all.skip(i as int),
                table.wf(),
                table@ == steps_map_of(all.take(i as int)),
                forall|k: Seq<char>| #[trigger] table@.contains_key(k)
                    ==> table@[k].spec_id() == k,
            decreases n - i,
        {
            let s = steps.remove(0);
            proof {
                assert(s == all[i as int]);
                assert(steps@ =~= all.skip(i + 1 as int));
            }
            let key = s.id().clone();
            table.put(key, s);
            proof {
                assert(all.take(i + 1 as int).drop_last() =~= all.take(i as int));
                assert(all.take(i + 1 as int).last() == all[i as int]);
            }
            i = i + 1;
        }
        proof {
            assert(all.take(n as int) =~= all);
        }
        ProcessDefinition { start_step_id, steps: table, flow }
    }

    /// How many steps the graph holds.
    pub fn step_count(&self) -> (r: usize)
        requires
            self.wf(),
        ensures
            r == self.steps_map().len(),
    {
        self.steps.len()
    }

    /// The start step's id, as a fresh string.
    pub fn get_start_step_id(&self) -> (r: String)
        ensures
            r@ == self.start_id(),
    {
        self.start_step_id.clone()
    }

    /// The step with the given id, if any.
    pub fn get_step(&self, id: &String) -> (r: Option<&StepDef>)
        requires
            self.wf(),
        ensures
            (r is Some) == self.steps_map().contains_key(id@),
            r is Some ==> *r->0 == self.steps_map()[id@],
    {
        self.steps.get(id)
    }

    /// The edges leaving the step with the given id, in document order.
    #[verifier::loop_isolation(false)]
    pub fn get_next(&self, id: &String) -> (r: Vec<FlowLeaf>)
        ensures
            crate::steps::leaves_view(r@) == self.next_of(id@),
    {
        let n = self.flow.len();
        let mut out: Vec<FlowLeaf> = Vec::new();
        let mut i: usize = 0;
        proof {
            assert(crate::steps::leaves_view(out@)
                =~= edges_from(self.flow_seq().take(0int), id@));
        }
        while i < n
            invariant
                i <= n,
                n == self.flow.len(),
                crate::steps::leaves_view(out@)
                    == edges_from(self.flow_seq().take(i as int), id@),
            decreases n - i,
        {
            proof {
                assert(self.flow_seq().take(i + 1 as int).drop_last()
                    =~= self.flow_seq().take(i as int));
                assert(self.flow_seq().take(i + 1 as int).last() == self.flow_seq()[i as int]);
                assert(self.flow_seq()[i as int] == (self.flow@[i as int].0@, self.flow@[i as int].1@));
            }
            if self.flow[i].0 == *id {
                out.push(self.flow[i].1.clone());
                proof {
                    assert(crate::steps::leaves_view(out@)
                        =~= edges_from(self.flow_seq().take(i + 1 as int), id@));
                }
            } else {
                proof {
                    assert(crate::steps::leaves_view(out@)
                        =~= edges_from(self.flow_seq().take(i + 1 as int), id@));
                }
            }
            i = i + 1;
        }
        proof {
            assert(self.flow_seq().take(n as int) =~= self.flow_seq());
        }
        out
    }
}

/// Relies on `Arc::clone`: the returned handle is the same shared,
/// reference-counted definition, not a copy.
#[verifier::external_body]
pub(crate) fn share_definition(d: &Arc<ProcessDefinition>) -> (r: Arc<ProcessDefinition>)
    ensures
        r == *d,
{
    Arc::clone(d)
}

} // verus!
