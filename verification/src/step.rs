//! Core step types: the kinds of steps a definition can hold, the declared
//! data dependencies between them, and the per-instance runtime state of a
//! step.

use vstd::prelude::*;
use crate::values::ValueMap;

verus! {

/// Identifier of one unit of dispatched asynchronous work.
pub type JobId = u64;

/// The kind of a step.
#[derive(Clone, Copy, Debug, PartialEq, Eq, Structural)]
pub enum StepType {
    StartStep,
    EndStep,
    ActivityStep,
    DataStep,
    ScriptStep,
    ConditionStep,
    CallStep,
}

impl StepType {
    /// Whether this is the End kind, the only kind allowed to close a path.
    pub fn is_end(&self) -> (r: bool)
        ensures
            r == (*self is EndStep),
    {
        match self {
            StepType::EndStep => true,
            _ => false,
        }
    }

    /// Whether the step takes part in the control flow of the graph; Data
    /// and Script steps are pure suppliers and do not.
    pub fn is_flow_step(&self) -> (r: bool)
        ensures
            r == !(*self is DataStep || *self is ScriptStep),
    {
        match self {
            StepType::DataStep | StepType::ScriptStep => false,
            _ => true,
        }
    }
}

/// Mathematical shape of a [`FlowLeaf`].
pub struct FlowLeafView {
    pub to: Seq<char>,
    pub input: Option<Seq<char>>,
}

/// One outgoing transition of a step: a target, and optionally the name of a
/// boolean input that guards the edge.
#[derive(Debug)]
pub struct FlowLeaf {
    pub to: String,
    pub input: Option<String>,
}

impl View for FlowLeaf {
    type V = FlowLeafView;

    open spec fn view(&self) -> FlowLeafView {
        FlowLeafView {
            to: self.to@,
            input: match self.input {
                Some(g) => Some(g@),
                None => None,
            },
        }
    }
}

impl Clone for FlowLeaf {
    fn clone(&self) -> (r: Self)
        ensures
            r@ == self@,
    {
        FlowLeaf {
            to: self.to.clone(),
            input: match &self.input {
                Some(g) => Some(g.clone()),
                None => None,
            },
        }
    }
}

/// Mathematical shape of a [`StepInputRequest`].
pub struct StepInputRequestView {
    pub name: Seq<char>,
    pub from: Seq<char>,
    pub output: Seq<char>,
}

/// A declared data dependency: before the owning step runs, its input
/// `name` is read from output `output` of step `from`.
#[derive(Debug)]
pub struct StepInputRequest {
    pub name: String,
    pub from: String,
    pub output: String,
}

impl View for StepInputRequest {
    type V = StepInputRequestView;

    open spec fn view(&self) -> StepInputRequestView {
        StepInputRequestView {
            name: self.name@,
            from: self.from@,
            output: self.output@,
        }
    }
}

impl Clone for StepInputRequest {
    fn clone(&self) -> (r: Self)
        ensures
            r@ == self@,
    {
        StepInputRequest {
            name: self.name.clone(),
            from: self.from.clone(),
            output: self.output.clone(),
        }
    }
}

impl StepInputRequest {
    pub fn new(name: String, from: String, output: String) -> (r: Self)
        ensures
            r@.name == name@,
            r@.from == from@,
            r@.output == output@,
    {
        Self { name, from, output }
    }
}

/// The views of a request vector.
pub open spec fn requests_view(rs: Seq<StepInputRequest>) -> Seq<StepInputRequestView> {
    rs.map_values(|r: StepInputRequest| r@)
}

/// Copy a request vector; the executor hands copies of declared
/// dependencies around.
#[verifier::loop_isolation(false)]
pub fn clone_requests(rs: &Vec<StepInputRequest>) -> (r: Vec<StepInputRequest>)
    ensures
        requests_view(r@) == requests_view(rs@),
{
    let n = rs.len();
    let mut out: Vec<StepInputRequest> = Vec::new();
    let mut i: usize = 0;
    proof {
        assert(requests_view(out@) =~= requests_view(rs@).take(0int));
    }
    while i < n
        invariant
            i <= n,
            requests_view(out@) == requests_view(rs@).take(i as int),
        decreases n - i,
    {
        out.push(rs[i].clone());
        proof {
            assert(requests_view(out@) =~= requests_view(rs@).take(i + 1 as int));
        }
        i = i + 1;
    }
    proof {
        assert(requests_view(rs@).take(n as int) =~= requests_view(rs@));
    }
    out
}

/// What the start of a step produced.
#[derive(Debug)]
pub enum StepResult {
    /// Work was dispatched; the instance must wait for this job id.
    AsyncJob(JobId),
    /// The step finished synchronously with these outputs.
    Completed(ValueMap),
    /// An End step ran: the whole instance is done with these outputs.
    ProcessEnded(ValueMap),
}

/// Runtime progress of one step within one running instance.
#[derive(Clone, Copy, Debug, PartialEq, Eq, Structural)]
pub enum StepExecutionStatus {
    Started,
    Waiting,
    Completed,
}

/// The state the executor keeps for one step of one instance.
#[derive(Debug)]
pub struct StepState {
    pub step_id: String,
    pub status: StepExecutionStatus,
    pub inputs: ValueMap,
    pub outputs: ValueMap,
}

impl StepState {
    /// Both payload maps are well formed.
    pub open spec fn wf(self) -> bool {
        self.inputs.wf() && self.outputs.wf()
    }

    pub fn new(step_id: String) -> (r: Self)
        ensures
            r.step_id@ == step_id@,
            r.status is Started,
            r.inputs@ == Map::<Seq<char>, crate::values::JsonValueView>::empty(),
            r.outputs@ == Map::<Seq<char>, crate::values::JsonValueView>::empty(),
            r.wf(),
    {
        Self {
            step_id,
            status: StepExecutionStatus::Started,
            inputs: ValueMap::new(),
            outputs: ValueMap::new(),
        }
    }
}

} // verus!
