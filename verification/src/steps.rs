//! The step variants of a process graph and their shared behavior: each
//! variant carries its declared data, and every step selects which outgoing
//! edges to follow once it completes.

use vstd::prelude::*;
use crate::values::{JsonValue, JsonValueView, ValueMap};
use crate::step::{StepType, StepInputRequest, StepInputRequestView, FlowLeaf, FlowLeafView,
    requests_view, clone_requests};

verus! {

/// The entry point of a graph; completes at once, re-exposing the
/// instance's initial inputs as its outputs.
#[derive(Debug)]
pub struct StartStep {
    pub id: String,
}

impl StartStep {
    pub fn new(id: String) -> (r: Self)
        ensures
            r.id@ == id@,
    {
        Self { id }
    }
}

/// Ends the instance, handing its bound inputs out as the instance outputs.
#[derive(Debug)]
pub struct EndStep {
    pub id: String,
    pub inputs: Vec<StepInputRequest>,
}

impl EndStep {
    pub fn new(id: String, inputs: Vec<StepInputRequest>) -> (r: Self)
        ensures
            r.id@ == id@,
            r.inputs@ == inputs@,
    {
        Self { id, inputs }
    }
}

/// Dispatches a named job to the external workers and waits for its
/// completion.
#[derive(Debug)]
pub struct ActivityStep {
    pub id: String,
    pub name: String,
    pub job: String,
    pub input_schema: String,
    pub output_schema: String,
    pub inputs: Vec<StepInputRequest>,
}

impl ActivityStep {
    pub fn new(
        id: String,
        name: String,
        input_schema: String,
        output_schema: String,
        job: String,
        inputs: Vec<StepInputRequest>,
    ) -> (r: Self)
        ensures
            r.id@ == id@,
            r.name@ == name@,
            r.job@ == job@,
            r.input_schema@ == input_schema@,
            r.output_schema@ == output_schema@,
            r.inputs@ == inputs@,
    {
        Self { id, name, input_schema, output_schema, job, inputs }
    }
}

/// Supplies one statically configured value under the output name `value`.
#[derive(Debug)]
pub struct DataStep {
    pub id: String,
    pub value: JsonValue,
}

impl DataStep {
    pub fn new(id: String, value: JsonValue) -> (r: Self)
        ensures
            r.id@ == id@,
            r.value@ == value@,
    {
        Self { id, value }
    }
}

/// Runs a named script through the external scripting collaborator and
/// completes with whatever output map the script produced.
#[derive(Debug)]
pub struct ScriptStep {
    pub id: String,
    pub script: String,
    pub input_schema: String,
    pub output_schema: String,
    pub inputs: Vec<StepInputRequest>,
}

impl ScriptStep {
    pub fn new(
        id: String,
        script: String,
        input_schema: String,
        output_schema: String,
        inputs: Vec<StepInputRequest>,
    ) -> (r: Self)
        ensures
            r.id@ == id@,
            r.script@ == script@,
            r.input_schema@ == input_schema@,
            r.output_schema@ == output_schema@,
            r.inputs@ == inputs@,
    {
        Self { id, script, input_schema, output_schema, inputs }
    }
}

/// Branches: follows the guarded edges whose guard input is boolean true,
/// or the unguarded edges when no guard holds.
#[derive(Debug)]
pub struct ConditionStep {
    pub id: String,
    pub inputs: Vec<StepInputRequest>,
}

impl ConditionStep {
    pub fn new(id: String, inputs: Vec<StepInputRequest>) -> (r: Self)
        ensures
            r.id@ == id@,
            r.inputs@ == inputs@,
    {
        Self { id, inputs }
    }
}

/// Invokes a named sub-process; the spawned child instance's id doubles as
/// the job id whose completion the parent waits for.
#[derive(Debug)]
pub struct CallStep {
    pub id: String,
    pub process: String,
    pub inputs: Vec<StepInputRequest>,
}

impl CallStep {
    pub fn new(id: String, process: String, inputs: Vec<StepInputRequest>) -> (r: Self)
        ensures
            r.id@ == id@,
            r.process@ == process@,
            r.inputs@ == inputs@,
    {
        Self { id, process, inputs }
    }
}

/// A step of a process graph: a closed union of the seven variants.
#[derive(Debug)]
pub enum StepDef {
    Start(StartStep),
    End(EndStep),
    Activity(ActivityStep),
    Data(DataStep),
    Script(ScriptStep),
    Condition(ConditionStep),
    Call(CallStep),
}

impl StepDef {
    pub open spec fn spec_id(self) -> Seq<char> {
        match self {
            StepDef::Start(s) => s.id@,
            StepDef::End(s) => s.id@,
            StepDef::Activity(s) => s.id@,
            StepDef::Data(s) => s.id@,
            StepDef::Script(s) => s.id@,
            StepDef::Condition(s) => s.id@,
            StepDef::Call(s) => s.id@,
        }
    }

    pub open spec fn spec_type(self) -> StepType {
        match self {
            StepDef::Start(_) => StepType::StartStep,
            StepDef::End(_) => StepType::EndStep,
            StepDef::Activity(_) => StepType::ActivityStep,
            StepDef::Data(_) => StepType::DataStep,
            StepDef::Script(_) => StepType::ScriptStep,
            StepDef::Condition(_) => StepType::ConditionStep,
            StepDef::Call(_) => StepType::CallStep,
        }
    }

    pub open spec fn spec_input_schema(self) -> Option<Seq<char>> {
        match self {
            StepDef::Activity(s) => Some(s.input_schema@),
            StepDef::Script(s) => Some(s.input_schema@),
            _ => None,
        }
    }

    pub open spec fn spec_output_schema(self) -> Option<Seq<char>> {
        match self {
            StepDef::Activity(s) => Some(s.output_schema@),
            StepDef::Script(s) => Some(s.output_schema@),
            _ => None,
        }
    }

    pub open spec fn spec_input_requests(self) -> Seq<StepInputRequestView> {
        match self {
            StepDef::Start(_) => Seq::empty(),
            StepDef::End(s) => requests_view(s.inputs@),
            StepDef::Activity(s) => requests_view(s.inputs@),
            StepDef::Data(_) => Seq::empty(),
            StepDef::Script(s) => requests_view(s.inputs@),
            StepDef::Condition(s) => requests_view(s.inputs@),
            StepDef::Call(s) => requests_view(s.inputs@),
        }
    }

    /// The id of the step.
    pub fn id(&self) -> (r: &String)
        ensures
            r@ == self.spec_id(),
    {
        match self {
            StepDef::Start(s) => &s.id,
            StepDef::End(s) => &s.id,
            StepDef::Activity(s) => &s.id,
            StepDef::Data(s) => &s.id,
            StepDef::Script(s) => &s.id,
            StepDef::Condition(s) => &s.id,
            StepDef::Call(s) => &s.id,
        }
    }

    /// The kind of the step.
    pub fn get_type(&self) -> (r: StepType)
        ensures
            r == self.spec_type(),
    {
        match self {
            StepDef::Start(_) => StepType::StartStep,
            StepDef::End(_) => StepType::EndStep,
            StepDef::Activity(_) => StepType::ActivityStep,
            StepDef::Data(_) => StepType::DataStep,
            StepDef::Script(_) => StepType::ScriptStep,
            StepDef::Condition(_) => StepType::ConditionStep,
            StepDef::Call(_) => StepType::CallStep,
        }
    }

    /// The declared input schema name, if any; Activity and Script steps
    /// declare both schemas.
    pub fn input_schema(&self) -> (r: Option<String>)
        ensures
            (r is Some) == (self.spec_input_schema() is Some),
            r is Some ==> r->0@ == self.spec_input_schema()->0,
    {
        match self {
            StepDef::Activity(s) => Some(s.input_schema.clone()),
            StepDef::Script(s) => Some(s.input_schema.clone()),
            _ => None,
        }
    }

    /// The declared output schema name, if any.
    pub fn output_schema(&self) -> (r: Option<String>)
        ensures
            (r is Some) == (self.spec_output_schema() is Some),
            r is Some ==> r->0@ == self.spec_output_schema()->0,
    {
        match self {
            StepDef::Activity(s) => Some(s.output_schema.clone()),
            StepDef::Script(s) => Some(s.output_schema.clone()),
            _ => None,
        }
    }

    /// The declared data dependencies of the step.
    pub fn get_input_requests(&self) -> (r: Vec<StepInputRequest>)
        ensures
            requests_view(r@) == self.spec_input_requests(),
    {
        match self {
            StepDef::Start(_) => Vec::new(),
            StepDef::End(s) => clone_requests(&s.inputs),
            StepDef::Activity(s) => clone_requests(&s.inputs),
            StepDef::Data(_) => Vec::new(),
            StepDef::Script(s) => clone_requests(&s.inputs),
            StepDef::Condition(s) => clone_requests(&s.inputs),
            StepDef::Call(s) => clone_requests(&s.inputs),
        }
    }

    /// Which of the candidate edges the step follows once complete.
    ///
    /// Every kind but Condition takes every unguarded edge; a Condition step
    /// takes the qualifying guarded edges, or, when no guard holds, the
    /// unguarded ones.
    pub fn get_next_steps(&self, inputs: &ValueMap, next_steps: &Vec<FlowLeaf>) -> (r: Vec<String>)
        ensures
            targets_view(r@) == selected_targets(self.spec_type(), inputs@, leaves_view(next_steps@)),
    {
        match self {
            StepDef::Condition(_) => condition_next_steps(inputs, next_steps),
            _ => default_next_steps(next_steps),
        }
    }
}

/// The views of an edge vector.
pub open spec fn leaves_view(s: Seq<FlowLeaf>) -> Seq<FlowLeafView> {
    s.map_values(|l: FlowLeaf| l@)
}

/// The views of a target vector.
pub open spec fn targets_view(s: Seq<String>) -> Seq<Seq<char>> {
    s.map_values(|t: String| t@)
}

/// The targets of the unguarded edges, in order.
pub open spec fn default_targets(edges: Seq<FlowLeafView>) -> Seq<Seq<char>>
    decreases edges.len(),
{
    if edges.len() == 0 {
        Seq::empty()
    } else {
        let rest = default_targets(edges.drop_last());
        if edges.last().input is None {
            rest.push(edges.last().to)
        } else {
            rest
        }
    }
}

/// A guarded edge qualifies when the named input is present and boolean
/// true.
pub open spec fn guard_holds(inputs: Map<Seq<char>, JsonValueView>, e: FlowLeafView) -> bool {
    match e.input {
        Some(g) => inputs.contains_key(g) && inputs[g] == JsonValueView::Bool(true),
        None => false,
    }
}

/// The targets of the qualifying guarded edges, in order.
pub open spec fn guarded_targets(inputs: Map<Seq<char>, JsonValueView>, edges: Seq<FlowLeafView>)
    -> Seq<Seq<char>>
    decreases edges.len(),
{
    if edges.len() == 0 {
        Seq::empty()
    } else {
        let rest = guarded_targets(inputs, edges.drop_last());
        if guard_holds(inputs, edges.last()) {
            rest.push(edges.last().to)
        } else {
            rest
        }
    }
}

/// What a Condition step selects: the qualifying guarded targets if any
/// guard holds, otherwise the unguarded targets.
pub open spec fn condition_targets(inputs: Map<Seq<char>, JsonValueView>, edges: Seq<FlowLeafView>)
    -> Seq<Seq<char>>
{
    if guarded_targets(inputs, edges).len() > 0 {
        guarded_targets(inputs, edges)
    } else {
        default_targets(edges)
    }
}

/// What a step of the given kind selects from the candidate edges.
pub open spec fn selected_targets(
    kind: StepType,
    inputs: Map<Seq<char>, JsonValueView>,
    edges: Seq<FlowLeafView>,
) -> Seq<Seq<char>> {
    if kind is ConditionStep {
        condition_targets(inputs, edges)
    } else {
        default_targets(edges)
    }
}

/// The shared edge selection: take every unguarded edge.
#[verifier::loop_isolation(false)]
pub fn default_next_steps(next_steps: &Vec<FlowLeaf>) -> (r: Vec<String>)
    ensures
        targets_view(r@) == default_targets(leaves_view(next_steps@)),
{
    let n = next_steps.len();
    let mut out: Vec<String> = Vec::new();
    let mut i: usize = 0;
    proof {
        assert(targets_view(out@) =~= default_targets(leaves_view(next_steps@).take(0int)));
    }
    while i < n
        invariant
            i <= n,
            targets_view(out@) == default_targets(leaves_view(next_steps@).take(i as int)),
        decreases n - i,
    {
        proof {
            assert(leaves_view(next_steps@).take(i + 1 as int).drop_last()
                =~= leaves_view(next_steps@).take(i as int));
            assert(leaves_view(next_steps@).take(i + 1 as int).last()
                == leaves_view(next_steps@)[i as int]);
        }
        if next_steps[i].input.is_none() {
            out.push(next_steps[i].to.clone());
            proof {
                assert(targets_view(out@)
                    =~= default_targets(leaves_view(next_steps@).take(i + 1 as int)));
            }
        } else {
            proof {
                assert(targets_view(out@)
                    =~= default_targets(leaves_view(next_steps@).take(i + 1 as int)));
            }
        }
        i = i + 1;
    }
    proof {
        assert(leaves_view(next_steps@).take(n as int) =~= leaves_view(next_steps@));
    }
    out
}

/// The Condition selection: qualifying guarded edges first, unguarded edges
/// as the fallback.
#[verifier::loop_isolation(false)]
pub fn condition_next_steps(inputs: &ValueMap, next_steps: &Vec<FlowLeaf>) -> (r: Vec<String>)
    ensures
        targets_view(r@) == condition_targets(inputs@, leaves_view(next_steps@)),
{
    let n = next_steps.len();
    let mut out: Vec<String> = Vec::new();
    let mut i: usize = 0;
    proof {
        assert(targets_view(out@) =~= guarded_targets(inputs@, leaves_view(next_steps@).take(0int)));
    }
    while i < n
        invariant
            i <= n,
            targets_view(out@) == guarded_targets(inputs@, leaves_view(next_steps@).take(i as int)),
        decreases n - i,
    {
        proof {
            assert(leaves_view(next_steps@).take(i + 1 as int).drop_last()
                =~= leaves_view(next_steps@).take(i as int));
            assert(leaves_view(next_steps@).take(i + 1 as int).last()
                == leaves_view(next_steps@)[i as int]);
        }
        let leaf = &next_steps[i];
        let take_it: bool = match &leaf.input {
            Some(g) => {
                match inputs.get(g) {
                    Some(v) => {
                        match v.as_bool() {
                            Some(b) => b,
                            None => false,
                        }
                    },
                    None => false,
                }
            },
            None => false,
        };
        proof {
            assert(take_it == guard_holds(inputs@, leaves_view(next_steps@)[i as int]));
        }
        if take_it {
            out.push(leaf.to.clone());
            proof {
                assert(targets_view(out@)
                    =~= guarded_targets(inputs@, leaves_view(next_steps@).take(i + 1 as int)));
            }
        } else {
            proof {
                assert(targets_view(out@)
                    =~= guarded_targets(inputs@, leaves_view(next_steps@).take(i + 1 as int)));
            }
        }
        i = i + 1;
    }
    proof {
        assert(leaves_view(next_steps@).take(n as int) =~= leaves_view(next_steps@));
    }
    if out.len() > 0 {
        out
    } else {
        default_next_steps(next_steps)
    }
}

} // verus!
