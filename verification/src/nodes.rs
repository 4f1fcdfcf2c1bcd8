//! The node shapes of a definition document and their assembly into a
//! process graph: one node type per step variant, the declared input
//! requests, and the flow edges. Decoding the document bytes happens
//! outside; everything from decoded nodes to a [`ProcessDefinition`] is
//! checked here.

use vstd::prelude::*;
use crate::definition::ProcessDefinition;
use crate::errors::EngineError;
use crate::step::{FlowLeaf, StepInputRequest, StepInputRequestView};
use crate::steps::{StepDef, StartStep, EndStep, ActivityStep, DataStep, ScriptStep,
    ConditionStep, CallStep};
use crate::values::{JsonValue, JsonValueView};

verus! {

/// One declared input request of a node.
#[derive(Debug)]
pub struct InputRequest {
    pub name: String,
    pub from: String,
    pub output: String,
}

impl InputRequest {
    /// The request as the step model reads it.
    pub fn into_request(self) -> (r: StepInputRequest)
        ensures
            r@.name == self.name@,
            r@.from == self.from@,
            r@.output == self.output@,
    {
        StepInputRequest::new(self.name, self.from, self.output)
    }
}

/// The declared input requests of a node.
#[derive(Debug)]
pub struct InputRequests {
    pub inputs: Vec<InputRequest>,
}

/// The views of a request-node vector.
pub open spec fn input_requests_view(s: Seq<InputRequest>) -> Seq<StepInputRequestView> {
    s.map_values(|r: InputRequest| StepInputRequestView {
        name: r.name@,
        from: r.from@,
        output: r.output@,
    })
}

impl InputRequests {
    /// The requests as the step model reads them.
    #[verifier::loop_isolation(false)]
    pub fn into_requests(self) -> (r: Vec<StepInputRequest>)
        ensures
            crate::step::requests_view(r@) == input_requests_view(self.inputs@),
    {
        let mut inputs = self.inputs;
        let ghost all = inputs@;
        let mut out: Vec<StepInputRequest> = Vec::new();
        proof {
            assert(crate::step::requests_view(out@) =~= input_requests_view(all.take(0int)));
        }
        let n = inputs.len();
        let mut i: usize = 0;
        while i < n
            invariant
                i <= n,
                n == all.len(),
                inputs@ == all.skip(i as int),
                crate::step::requests_view(out@) == input_requests_view(all.take(i as int)),
            decreases n - i,
        {
            let rq = inputs.remove(0);
            proof {
                assert(rq == all[i as int]);
                assert(inputs@ =~= all.skip(i + 1 as int));
            }
            let sv = rq.into_request();
            let ghost pre = out@;
            out.push(sv);
            proof {
                assert(crate::step::requests_view(out@)
                    =~= input_requests_view(all.take(i + 1 as int))) by {
                    assert(crate::step::requests_view(out@).len() == i + 1);
                    assert(forall|x: int| 0 <= x < i
                        ==> out@[x] == pre[x]
                            && crate::step::requests_view(out@)[x] == out@[x]@
                            && crate::step::requests_view(pre)[x] == pre[x]@);
                    assert(crate::step::requests_view(out@)[i as int] == sv@);
                    assert(input_requests_view(all.take(i + 1 as int))[i as int]
                        == StepInputRequestView {
                            name: all[i as int].name@,
                            from: all[i as int].from@,
                            output: all[i as int].output@,
                        });
                }
            }
            i = i + 1;
        }
        proof {
            assert(all.take(n as int) =~= all);
        }
        out
    }
}

/// The entry node of a document.
#[derive(Debug)]
pub struct StartNode {
    pub id: String,
}

/// The closing node of a document.
#[derive(Debug)]
pub struct EndNode {
    pub id: String,
    pub inputs: InputRequests,
}

/// A node dispatching a named job.
#[derive(Debug)]
pub struct ActivityNode {
    pub id: String,
    pub name: String,
    pub input: String,
    pub output: String,
    pub job: String,
    pub inputs: InputRequests,
}

/// The kinds of literal a Data node can carry.
#[derive(Clone, Copy, Debug, PartialEq, Eq, Structural)]
pub enum DataNodeTypes {
    Text,
    Number,
    Boolean,
}

/// A node supplying one configured literal.
#[derive(Debug)]
pub struct DataNode {
    pub id: String,
    pub rtype: DataNodeTypes,
    pub value: String,
}

/// A node running a named script.
#[derive(Debug)]
pub struct ScriptNode {
    pub id: String,
    pub script: String,
    pub input: String,
    pub output: String,
    pub inputs: InputRequests,
}

/// A branching node.
#[derive(Debug)]
pub struct ConditionNode {
    pub id: String,
    pub inputs: InputRequests,
}

/// A node invoking a named sub-process.
#[derive(Debug)]
pub struct CallNode {
    pub id: String,
    pub process: String,
    pub inputs: InputRequests,
}

/// One node of a document: a closed union of the seven shapes.
#[derive(Debug)]
pub enum NodeType {
    StartNode(StartNode),
    EndNode(EndNode),
    ActivityNode(ActivityNode),
    DataNode(DataNode),
    ScriptNode(ScriptNode),
    ConditionNode(ConditionNode),
    CallNode(CallNode),
}

impl NodeType {
    /// The id the node declares.
    pub open spec fn spec_id(self) -> Seq<char> {
        match self {
            NodeType::StartNode(n) => n.id@,
            NodeType::EndNode(n) => n.id@,
            NodeType::ActivityNode(n) => n.id@,
            NodeType::DataNode(n) => n.id@,
            NodeType::ScriptNode(n) => n.id@,
            NodeType::ConditionNode(n) => n.id@,
            NodeType::CallNode(n) => n.id@,
        }
    }
}

/// The nodes of a document.
#[derive(Debug)]
pub struct Nodes {
    pub field: Vec<NodeType>,
}

/// One directed edge of a document.
#[derive(Debug)]
pub struct FlowNode {
    pub from: String,
    pub to: String,
    pub input: Option<String>,
}

/// The edges of a document.
#[derive(Debug)]
pub struct FlowNodes {
    pub nodes: Vec<FlowNode>,
}

impl FlowNodes {
    /// The edges as (from, edge) pairs, in document order.
    pub fn into_flow(self) -> (r: Vec<(String, FlowLeaf)>)
        ensures
            r@.len() == self.nodes@.len(),
            forall|i: int| 0 <= i < r@.len()
                ==> (#[trigger] r@[i]).0@ == self.nodes@[i].from@
                    && r@[i].1@.to == self.nodes@[i].to@
                    && ((r@[i].1@.input is Some) == (self.nodes@[i].input is Some))
                    && (self.nodes@[i].input matches Some(h)
                        ==> r@[i].1@.input == Some(h@)),
    {
        let mut nodes = self.nodes;
        let ghost all = nodes@;
        let mut out: Vec<(String, FlowLeaf)> = Vec::new();
        let n = nodes.len();
        let mut i: usize = 0;
        while i < n
            invariant
                i <= n,
                n == all.len(),
                nodes@ == all.skip(i as int),
                out@.len() == i,
                forall|x: int| 0 <= x < i
                    ==> (#[trigger] out@[x]).0@ == all[x].from@
                        && out@[x].1@.to == all[x].to@
                        && ((out@[x].1@.input is Some) == (all[x].input is Some))
                        && (all[x].input matches Some(h)
                            ==> out@[x].1@.input == Some(h@)),
            decreases n - i,
        {
            let edge = nodes.remove(0);
            proof {
                assert(edge == all[i as int]);
                assert(nodes@ =~= all.skip(i + 1 as int));
            }
            let leaf = FlowLeaf { to: edge.to, input: edge.input };
            out.push((edge.from, leaf));
            i = i + 1;
        }
        out
    }
}

/// Ten to the `n`.
/// All characters are decimal digits, and there is at least one.
pub open spec fn all_digits(s: Seq<char>) -> bool {
    s.len() > 0 && forall|i: int| 0 <= i < s.len() ==> '0' <= #[trigger] s[i] <= '9'
}

/// The value of a digit string.
pub open spec fn dec_val(s: Seq<char>) -> int
    decreases s.len(),
{
    if s.len() == 0 {
        0
    } else {
        dec_val(s.drop_last()) * 10 + (s.last() as int - '0' as int)
    }
}

proof fn lemma_dec_val_nonneg(s: Seq<char>)
    requires
        forall|i: int| 0 <= i < s.len() ==> '0' <= #[trigger] s[i] <= '9',
    ensures
        dec_val(s) >= 0,
    decreases s.len(),
{
    if s.len() > 0 {
        lemma_dec_val_nonneg(s.drop_last());
        assert(dec_val(s.drop_last()) * 10 >= 0) by (nonlinear_arith)
            requires
                dec_val(s.drop_last()) >= 0,
        ;
    }
}

/// Appending digits never shrinks the value.
proof fn lemma_dec_val_monotone(s: Seq<char>, j: int)
    requires
        0 <= j <= s.len(),
        forall|i: int| 0 <= i < s.len() ==> '0' <= #[trigger] s[i] <= '9',
    ensures
        dec_val(s) >= dec_val(s.take(j)),
    decreases s.len() - j,
{
    if j < s.len() {
        lemma_dec_val_monotone(s, j + 1);
        assert(s.take(j + 1).drop_last() =~= s.take(j));
        assert(s.take(j + 1).last() == s[j]);
        assert(forall|i: int| 0 <= i < s.take(j).len()
            ==> '0' <= #[trigger] s.take(j)[i] <= '9');
        lemma_dec_val_nonneg(s.take(j));
        assert(dec_val(s.take(j)) * 10 >= dec_val(s.take(j))) by (nonlinear_arith)
            requires
                dec_val(s.take(j)) >= 0,
        ;
    } else {
        assert(s.take(j) =~= s);
    }
}

/// The number a Data node literal of Number kind denotes: an optional
/// minus sign and decimal digits, anywhere in the range of a 64-bit
/// signed integer.
pub open spec fn int_literal(s: Seq<char>) -> Option<int> {
    if s.len() > 0 && s[0] == '-' {
        if all_digits(s.skip(1)) && dec_val(s.skip(1)) <= 0x8000000000000000 {
            Some(-dec_val(s.skip(1)))
        } else {
            None
        }
    } else if all_digits(s) && dec_val(s) <= 0x7fffffffffffffff {
        Some(dec_val(s))
    } else {
        None
    }
}

/// Parse a decimal integer literal: an optional minus sign, then digits;
/// rejected exactly when a character is no digit or the value leaves the
/// 64-bit signed range.
#[verifier::loop_isolation(false)]
pub fn parse_int_literal(s: &String) -> (r: Option<i64>)
    ensures
        (r is Some) == (int_literal(s@) is Some),
        r matches Some(v) ==> int_literal(s@) == Some(v as int),
{
    let s_str = s.as_str();
    let bytes = s_str.as_bytes();
    let n = bytes.len();
    proof {
        vstd::string::is_ascii_spec_bytes(s_str);
    }
    if n == 0 {
        return None;
    }
    let negative = bytes[0] == 45u8;
    if !s.is_ascii() {
        proof {
            if int_literal(s@) is Some {
                assert forall|i: int| 0 <= i < s@.len()
                    implies '\0' <= (#[trigger] s@[i]) <= '\u{7f}' by {
                    if s@.len() > 0 && s@[0] == '-' {
                        if i >= 1 {
                            assert('0' <= s@.skip(1)[i - 1] <= '9');
                            assert(s@.skip(1)[i - 1] == s@[i]);
                        }
                    } else {
                        assert('0' <= s@[i] <= '9');
                    }
                };
                assert(vstd::utf8::is_ascii_chars(s@));
                assert(false);
            }
        }
        return None;
    }
    proof {
        assert(bytes@ =~= Seq::new(s@.len(), |i: int| s@[i] as u8));
    }
    let start: usize = if negative { 1 } else { 0 };
    if n == start {
        return None;
    }
    let ghost digits = if negative { s@.skip(1) } else { s@ };
    let ghost bound: int = if negative { 0x8000000000000000 } else { 0x7fffffffffffffff };
    let threshold: u64 = 922337203685477580;
    let last_max: u64 = if negative { 8 } else { 7 };
    let mut acc: u64 = 0;
    let mut i: usize = start;
    proof {
        assert(digits.take(0int) =~= Seq::<char>::empty());
    }
    while i < n
        invariant
            start <= i <= n,
            acc as int == dec_val(digits.take(i - start)),
            acc as int <= bound,
            forall|x: int| 0 <= x < i - start ==> '0' <= #[trigger] digits[x] <= '9',
        decreases n - i,
    {
        let b = bytes[i];
        if b < 48u8 || b > 57u8 {
            proof {
                assert(digits[i - start] == s@[i as int]);
                assert(!('0' <= digits[i - start] <= '9'));
                assert(int_literal(s@) is None);
            }
            return None;
        }
        let d = (b - 48u8) as u64;
        proof {
            let k = i - start;
            assert(digits[k] == s@[i as int]);
            assert('0' <= digits[k] <= '9');
            assert(digits.take(k + 1).drop_last() =~= digits.take(k));
            assert(digits.take(k + 1).last() == digits[k]);
        }
        if acc > threshold || (acc == threshold && d > last_max) {
            proof {
                let k = i - start;
                assert(dec_val(digits.take(k + 1)) > bound);
                assert(int_literal(s@) is None) by {
                    if negative {
                        if all_digits(s@.skip(1)) {
                            lemma_dec_val_monotone(digits, k + 1);
                        }
                    } else {
                        if all_digits(s@) {
                            lemma_dec_val_monotone(digits, k + 1);
                        }
                    }
                }
            }
            return None;
        }
        acc = acc * 10 + d;
        i = i + 1;
    }
    proof {
        assert(digits.take(n - start) =~= digits);
        assert(all_digits(digits));
        if negative {
            assert(int_literal(s@) == Some(-dec_val(digits)));
        } else {
            assert(int_literal(s@) == Some(dec_val(digits)));
        }
    }
    if negative {
        if acc == 9223372036854775808u64 {
            Some(i64::MIN)
        } else {
            Some(-(acc as i64))
        }
    } else {
        Some(acc as i64)
    }
}

impl DataNode {
    /// The value a Data node's literal denotes: a text, a decimal number
    /// in the 64-bit signed range, or one of the two boolean words.
    pub fn literal_value(self) -> (r: Result<JsonValue, EngineError>)
        ensures
            self.rtype is Text ==> (r matches Ok(v) && v@ == JsonValueView::Str(self.value@)),
            self.rtype is Number ==> match int_literal(self.value@) {
                Some(v) => r matches Ok(jv) && jv@ == JsonValueView::Int(v),
                None => r matches Err(e) && e is ParseError,
            },
            self.rtype is Boolean ==> {
                if self.value@ == "true"@ {
                    r matches Ok(jv) && jv@ == JsonValueView::Bool(true)
                } else if self.value@ == "false"@ {
                    r matches Ok(jv) && jv@ == JsonValueView::Bool(false)
                } else {
                    r matches Err(e) && e is ParseError
                }
            },
    {
        match self.rtype {
            DataNodeTypes::Text => Ok(JsonValue::Text(self.value)),
            DataNodeTypes::Number => {
                match parse_int_literal(&self.value) {
                    Some(v) => Ok(JsonValue::Int(v)),
                    None => Err(EngineError::ParseError),
                }
            },
            DataNodeTypes::Boolean => {
                if self.value == "true".to_owned() {
                    Ok(JsonValue::Bool(true))
                } else if self.value == "false".to_owned() {
                    Ok(JsonValue::Bool(false))
                } else {
                    Err(EngineError::ParseError)
                }
            },
        }
    }
}

impl NodeType {
    /// The step a node describes; fails exactly on a malformed Data
    /// literal, and otherwise carries every declared payload over.
    pub fn into_step(self) -> (r: Result<StepDef, EngineError>)
        ensures
            (r is Ok) == node_buildable(self),
            r matches Ok(step) ==> step.spec_id() == self.spec_id()
                && step_matches_node(step, self),
            r matches Err(e) ==> e is ParseError,
    {
        match self {
            NodeType::StartNode(n) => Ok(StepDef::Start(StartStep::new(n.id))),
            NodeType::EndNode(n) => {
                let requests = n.inputs.into_requests();
                Ok(StepDef::End(EndStep::new(n.id, requests)))
            },
            NodeType::ActivityNode(n) => {
                let requests = n.inputs.into_requests();
                Ok(StepDef::Activity(ActivityStep::new(
                    n.id, n.name, n.input, n.output, n.job, requests)))
            },
            NodeType::DataNode(n) => {
                let id = n.id.clone();
                match n.literal_value() {
                    Ok(value) => Ok(StepDef::Data(DataStep::new(id, value))),
                    Err(e) => Err(e),
                }
            },
            NodeType::ScriptNode(n) => {
                let requests = n.inputs.into_requests();
                Ok(StepDef::Script(ScriptStep::new(
                    n.id, n.script, n.input, n.output, requests)))
            },
            NodeType::ConditionNode(n) => {
                let requests = n.inputs.into_requests();
                Ok(StepDef::Condition(ConditionStep::new(n.id, requests)))
            },
            NodeType::CallNode(n) => {
                let requests = n.inputs.into_requests();
                Ok(StepDef::Call(CallStep::new(n.id, n.process, requests)))
            },
        }
    }
}

/// Whether a Data node's literal denotes a value: any text, a decimal
/// number in the 64-bit signed range, or one of the two boolean words.
pub open spec fn data_literal_ok(n: DataNode) -> bool {
    match n.rtype {
        DataNodeTypes::Text => true,
        DataNodeTypes::Number => int_literal(n.value@) is Some,
        DataNodeTypes::Boolean => n.value@ == "true"@ || n.value@ == "false"@,
    }
}

/// Whether a node describes a step at all; only a malformed Data literal
/// stops it.
pub open spec fn node_buildable(node: NodeType) -> bool {
    match node {
        NodeType::DataNode(n) => data_literal_ok(n),
        _ => true,
    }
}

/// The value a well-formed Data literal denotes.
pub open spec fn data_literal_view(n: DataNode) -> JsonValueView {
    match n.rtype {
        DataNodeTypes::Text => JsonValueView::Str(n.value@),
        DataNodeTypes::Number => JsonValueView::Int(int_literal(n.value@)->0),
        DataNodeTypes::Boolean => JsonValueView::Bool(n.value@ == "true"@),
    }
}

/// The step `step` is exactly what the node describes: same variant, same
/// id, and every declared payload carried over.
pub open spec fn step_matches_node(step: StepDef, node: NodeType) -> bool {
    match node {
        NodeType::StartNode(n) => (step matches StepDef::Start(s) && s.id@ == n.id@),
        NodeType::EndNode(n) => (step matches StepDef::End(s) && s.id@ == n.id@
            && crate::step::requests_view(s.inputs@) == input_requests_view(n.inputs.inputs@)),
        NodeType::ActivityNode(n) => (step matches StepDef::Activity(s) && s.id@ == n.id@
            && s.name@ == n.name@
            && s.job@ == n.job@
            && s.input_schema@ == n.input@
            && s.output_schema@ == n.output@
            && crate::step::requests_view(s.inputs@) == input_requests_view(n.inputs.inputs@)),
        NodeType::DataNode(n) => (step matches StepDef::Data(s) && s.id@ == n.id@
            && data_literal_ok(n)
            && s.value@ == data_literal_view(n)),
        NodeType::ScriptNode(n) => (step matches StepDef::Script(s) && s.id@ == n.id@
            && s.script@ == n.script@
            && s.input_schema@ == n.input@
            && s.output_schema@ == n.output@
            && crate::step::requests_view(s.inputs@) == input_requests_view(n.inputs.inputs@)),
        NodeType::ConditionNode(n) => (step matches StepDef::Condition(s) && s.id@ == n.id@
            && crate::step::requests_view(s.inputs@) == input_requests_view(n.inputs.inputs@)),
        NodeType::CallNode(n) => (step matches StepDef::Call(s) && s.id@ == n.id@
            && s.process@ == n.process@
            && crate::step::requests_view(s.inputs@) == input_requests_view(n.inputs.inputs@)),
    }
}

/// How many Start nodes the vector holds.
pub open spec fn start_count(ns: Seq<NodeType>) -> int
    decreases ns.len(),
{
    if ns.len() == 0 {
        0
    } else {
        start_count(ns.drop_last()) + if ns.last() is StartNode { 1int } else { 0int }
    }
}

/// The id of the unique Start node of a document.
///
/// Fails with `ParseError` unless the document holds exactly one Start
/// node.
#[verifier::loop_isolation(false)]
pub fn get_start_step(nodes: &Nodes) -> (r: Result<&String, EngineError>)
    ensures
        (r is Ok) == (start_count(nodes.field@) == 1),
        r matches Ok(id) ==> exists|i: int| 0 <= i < nodes.field@.len()
            && (#[trigger] nodes.field@[i]) is StartNode && nodes.field@[i].spec_id() == id@,
        r matches Err(e) ==> e is ParseError,
{
    let n = nodes.field.len();
    let mut found: Option<&String> = None;
    let mut i: usize = 0;
    proof {
        assert(start_count(nodes.field@.take(0int)) == 0);
    }
    while i < n
        invariant
            i <= n,
            found is Some ==> start_count(nodes.field@.take(i as int)) == 1
                && exists|x: int| 0 <= x < i && (#[trigger] nodes.field@[x]) is StartNode
                    && nodes.field@[x].spec_id() == found->0@,
            found is None ==> start_count(nodes.field@.take(i as int)) == 0,
        decreases n - i,
    {
        proof {
            assert(nodes.field@.take(i + 1 as int).drop_last() =~= nodes.field@.take(i as int));
            assert(nodes.field@.take(i + 1 as int).last() == nodes.field@[i as int]);
        }
        match &nodes.field[i] {
            NodeType::StartNode(start) => {
                match found {
                    Some(_) => {
                        proof {
                            lemma_start_count_mono(nodes.field@, i + 1 as int);
                        }
                        return Err(EngineError::ParseError);
                    },
                    None => {
                        found = Some(&start.id);
                    },
                }
            },
            _ => {},
        }
        i = i + 1;
    }
    proof {
        assert(nodes.field@.take(n as int) =~= nodes.field@);
    }
    match found {
        Some(id) => Ok(id),
        None => Err(EngineError::ParseError),
    }
}

/// A later prefix never counts fewer Start nodes.
proof fn lemma_start_count_mono(ns: Seq<NodeType>, i: int)
    requires
        0 <= i <= ns.len(),
    ensures
        start_count(ns) >= start_count(ns.take(i)),
    decreases ns.len() - i,
{
    if i < ns.len() {
        lemma_start_count_mono(ns, i + 1);
        assert(ns.take(i + 1).drop_last() =~= ns.take(i));
        assert(start_count(ns.take(i + 1)) >= start_count(ns.take(i)));
    } else {
        assert(ns.take(i) =~= ns);
    }
}

/// Assemble a decoded document into a process graph: each node becomes
/// its step, the edges become the flow, and the unique Start node's id
/// becomes the start step id.
///
/// Fails with `ParseError` when the document does not hold exactly one
/// Start node or a Data literal is malformed.
#[verifier::loop_isolation(false)]
pub fn build_definition(nodes: Nodes, flow: FlowNodes) -> (r: Result<ProcessDefinition, EngineError>)
    ensures
        (r is Ok) == (start_count(nodes.field@) == 1
            && forall|x: int| 0 <= x < nodes.field@.len()
                ==> node_buildable(#[trigger] nodes.field@[x])),
        r matches Err(e) ==> e is ParseError,
        r matches Ok(d) ==> d.wf()
            && (exists|x: int| 0 <= x < nodes.field@.len()
                && (#[trigger] nodes.field@[x]) is StartNode
                && nodes.field@[x].spec_id() == d.start_id())
            && d.flow_seq().len() == flow.nodes@.len()
            && (forall|x: int| 0 <= x < flow.nodes@.len()
                ==> (#[trigger] d.flow_seq()[x]).0 == flow.nodes@[x].from@
                    && d.flow_seq()[x].1.to == flow.nodes@[x].to@
                    && ((d.flow_seq()[x].1.input is Some)
                        == (flow.nodes@[x].input is Some))
                    && (flow.nodes@[x].input matches Some(g)
                        ==> d.flow_seq()[x].1.input == Some(g@)))
            && (forall|x: int| 0 <= x < nodes.field@.len()
                ==> d.steps_map().contains_key((#[trigger] nodes.field@[x]).spec_id()))
            && (forall|k: Seq<char>| #[trigger] d.steps_map().contains_key(k)
                ==> exists|x: int| 0 <= x < nodes.field@.len()
                    && (#[trigger] nodes.field@[x]).spec_id() == k)
            && (forall|x: int| 0 <= x < nodes.field@.len()
                    && (forall|y: int| x < y < nodes.field@.len()
                        ==> (#[trigger] nodes.field@[y]).spec_id()
                            != nodes.field@[x].spec_id())
                ==> step_matches_node(
                        d.steps_map()[(#[trigger] nodes.field@[x]).spec_id()],
                        nodes.field@[x])),
{
    let ghost all = nodes.field@;
    let start_step_id = match get_start_step(&nodes) {
        Ok(id) => id.clone(),
        Err(e) => {
            return Err(e);
        },
    };
    let mut remaining = nodes.field;
    let mut steps: Vec<StepDef> = Vec::new();
    let n = remaining.len();
    let mut i: usize = 0;
    while i < n
        invariant
            i <= n,
            n == all.len(),
            remaining@ == all.skip(i as int),
            steps@.len() == i,
            forall|x: int| 0 <= x < i ==> node_buildable(#[trigger] all[x]),
            forall|x: int| 0 <= x < i
                ==> (#[trigger] steps@[x]).spec_id() == all[x].spec_id()
                    && step_matches_node(steps@[x], all[x]),
        decreases n - i,
    {
        let node = remaining.remove(0);
        proof {
            assert(node == all[i as int]);
            assert(remaining@ =~= all.skip(i + 1 as int));
        }
        match node.into_step() {
            Ok(step) => {
                steps.push(step);
            },
            Err(e) => {
                proof {
                    assert(!node_buildable(all[i as int]));
                }
                return Err(e);
            },
        }
        i = i + 1;
    }
    let ghost built = steps@;
    let flow_pairs = flow.into_flow();
    let ghost pairs = flow_pairs@;
    let d = ProcessDefinition::new(steps, flow_pairs, start_step_id);
    proof {
        assert(d.steps_map() == crate::definition::steps_map_of(built));
        assert forall|x: int| 0 <= x < all.len()
            implies d.steps_map().contains_key((#[trigger] all[x]).spec_id()) by {
            crate::definition::lemma_steps_map_of_contains(built, x);
        };
        assert forall|k: Seq<char>| #[trigger] d.steps_map().contains_key(k)
            implies exists|x: int| 0 <= x < all.len()
                && (#[trigger] all[x]).spec_id() == k by {
            crate::definition::lemma_steps_map_of_source(built, k);
            let x = choose|x: int| 0 <= x < built.len()
                && (#[trigger] built[x]).spec_id() == k;
            assert(all[x].spec_id() == k);
        };
        assert forall|x: int| 0 <= x < all.len()
                && (forall|y: int| x < y < all.len()
                    ==> (#[trigger] all[y]).spec_id() != all[x].spec_id())
            implies step_matches_node(
                d.steps_map()[(#[trigger] all[x]).spec_id()], all[x]) by {
            assert(forall|y: int| x < y < built.len()
                ==> (#[trigger] built[y]).spec_id() != built[x].spec_id());
            crate::definition::lemma_steps_map_of_last(built, x);
        };
        assert forall|x: int| 0 <= x < flow.nodes@.len()
            implies (#[trigger] d.flow_seq()[x]).0 == flow.nodes@[x].from@
                && d.flow_seq()[x].1.to == flow.nodes@[x].to@
                && ((d.flow_seq()[x].1.input is Some) == (flow.nodes@[x].input is Some))
                && (flow.nodes@[x].input matches Some(g)
                    ==> d.flow_seq()[x].1.input == Some(g@)) by {
            assert(d.flow_seq()[x] == (pairs[x].0@, pairs[x].1@));
        };
    }
    Ok(d)
}

} // verus!
