//! End-to-end scenarios of the engine: whole instances run against small
//! graphs, driven only through the public registry operations.

use std::sync::Arc;

use ploy::definition::ProcessDefinition;
use ploy::engine::{Engine, GetProcessMessage, ProcessState, ValidateProcessMessage};
use ploy::errors::EngineError;
use ploy::executor::{IdGen, InstanceExecutor};
use ploy::jobs::JobStatus;
use ploy::schema::Schema;
use ploy::script::NullScriptEngine;
use ploy::step::{FlowLeaf, StepInputRequest};
use ploy::steps::{StepDef, StartStep, EndStep, ActivityStep, DataStep, ConditionStep, CallStep};
use ploy::tables::StrTable;
use ploy::values::{JsonValue, ValueMap};

fn request(name: &str, from: &str, output: &str) -> StepInputRequest {
    StepInputRequest::new(name.to_string(), from.to_string(), output.to_string())
}

fn edge(from: &str, to: &str) -> (String, FlowLeaf) {
    (from.to_string(), FlowLeaf { to: to.to_string(), input: None })
}

fn guarded_edge(from: &str, to: &str, guard: &str) -> (String, FlowLeaf) {
    (from.to_string(), FlowLeaf { to: to.to_string(), input: Some(guard.to_string()) })
}

fn new_engine() -> Engine<NullScriptEngine> {
    Engine::new(NullScriptEngine {})
}

/// Start -> Data(y=10) -> End, with the End binding x from the start step
/// and y from the data step: inputs {x:5} come back as {x:5, y:10}.
#[test]
fn round_trip_start_data_end() {
    let steps = vec![
        StepDef::Start(StartStep::new("start".to_string())),
        StepDef::Data(DataStep::new("data".to_string(), JsonValue::Int(10))),
        StepDef::End(EndStep::new("end".to_string(), vec![
            request("x", "start", "x"),
            request("y", "data", "value"),
        ])),
    ];
    let flow = vec![edge("start", "data"), edge("data", "end")];
    let definition = ProcessDefinition::new(steps, flow, "start".to_string());

    let mut engine = new_engine();
    engine.register_definition("main".to_string(), definition);

    let mut inputs = ValueMap::new();
    inputs.insert("x".to_string(), JsonValue::Int(5));
    let id = engine.start_process(&"main".to_string(), inputs).unwrap();

    let record = engine.get_process(id).unwrap();
    assert_eq!(record.state, ProcessState::Completed);
    let outputs = record.outputs.as_ref().unwrap();
    assert!(matches!(outputs.get(&"x".to_string()), Some(JsonValue::Int(5))));
    assert!(matches!(outputs.get(&"y".to_string()), Some(JsonValue::Int(10))));
    assert_eq!(outputs.len(), 2);
}

/// An Activity step leaves the instance Running and an Open work item in
/// the queue; completing the job drives the instance to its End step.
#[test]
fn activity_dispatch_and_completion() {
    let steps = vec![
        StepDef::Start(StartStep::new("s".to_string())),
        StepDef::Activity(ActivityStep::new(
            "work".to_string(),
            "charge".to_string(),
            "io".to_string(),
            "io".to_string(),
            "charge-card".to_string(),
            vec![request("amount", "s", "amount")],
        )),
        StepDef::End(EndStep::new("e".to_string(), vec![
            request("receipt", "work", "receipt"),
        ])),
    ];
    let flow = vec![edge("s", "work"), edge("work", "e")];
    let definition = ProcessDefinition::new(steps, flow, "s".to_string());

    let mut engine = new_engine();
    // A permissive schema: no required fields, no typed properties.
    engine.register_schema("io".to_string(), Schema::new(vec![], vec![]));
    engine.register_definition("main".to_string(), definition);

    let mut inputs = ValueMap::new();
    inputs.insert("amount".to_string(), JsonValue::Int(40));
    let id = engine.start_process(&"main".to_string(), inputs).unwrap();
    assert_eq!(engine.get_process(id).unwrap().state, ProcessState::Running);

    let batch = engine.get_work_items();
    assert_eq!(batch.len(), 1);
    assert_eq!(batch[0].job_name, "charge-card");
    assert_eq!(batch[0].status, JobStatus::Open);
    assert!(matches!(batch[0].inputs.get(&"amount".to_string()), Some(JsonValue::Int(40))));

    let mut outputs = ValueMap::new();
    outputs.insert("receipt".to_string(), JsonValue::Text("ok".to_string()));
    engine.complete_work_item(batch[0].id, outputs).unwrap();

    let record = engine.get_process(id).unwrap();
    assert_eq!(record.state, ProcessState::Completed);
    let outs = record.outputs.as_ref().unwrap();
    assert!(matches!(outs.get(&"receipt".to_string()), Some(JsonValue::Text(t)) if t == "ok"));
}

/// Delivering a completion for an already-completed or unknown job id
/// fails with UnknownJob and mutates no step state.
#[test]
fn unknown_job_completion_is_rejected() {
    let steps = vec![
        StepDef::Start(StartStep::new("s".to_string())),
        StepDef::End(EndStep::new("e".to_string(), vec![])),
    ];
    let flow = vec![edge("s", "e")];
    let definition = ProcessDefinition::new(steps, flow, "s".to_string());

    let mut executor = InstanceExecutor::new(7, Arc::new(definition), ValueMap::new());
    let mut script = NullScriptEngine {};
    let schemas: StrTable<Schema> = StrTable::new();
    let mut idgen = IdGen::new(100);
    let mut effects = Vec::new();

    let r = executor.on_job_completed(
        99, ValueMap::new(), &mut script, &schemas, &mut idgen, &mut effects);
    assert!(matches!(r, Err(EngineError::UnknownJob)));
    assert_eq!(effects.len(), 0);
}

/// Completing the same job twice: the second delivery is an UnknownJob
/// for every instance and changes nothing.
#[test]
fn duplicate_completion_is_harmless() {
    let steps = vec![
        StepDef::Start(StartStep::new("s".to_string())),
        StepDef::Activity(ActivityStep {
            id: "work".to_string(),
            name: "w".to_string(),
            job: "job-a".to_string(),
            input_schema: "io".to_string(),
            output_schema: "io".to_string(),
            inputs: vec![],
        }),
        StepDef::End(EndStep::new("e".to_string(), vec![
            request("r", "work", "r"),
        ])),
    ];
    let flow = vec![edge("s", "work"), edge("work", "e")];
    let definition = ProcessDefinition::new(steps, flow, "s".to_string());

    let mut engine = new_engine();
    engine.register_schema("io".to_string(), Schema::new(vec![], vec![]));
    engine.register_definition("main".to_string(), definition);
    let id = engine.start_process(&"main".to_string(), ValueMap::new()).unwrap();

    let batch = engine.get_work_items();
    let job_id = batch[0].id;
    let mut outputs = ValueMap::new();
    outputs.insert("r".to_string(), JsonValue::Bool(true));
    engine.complete_work_item(job_id, outputs).unwrap();
    assert_eq!(engine.get_process(id).unwrap().state, ProcessState::Completed);

    // Second delivery of the same job id: accepted by the queue interface,
    // ignored by every instance, and the finished record is untouched.
    let mut again = ValueMap::new();
    again.insert("r".to_string(), JsonValue::Bool(false));
    engine.complete_work_item(job_id, again).unwrap();
    let record = engine.get_process(id).unwrap();
    assert_eq!(record.state, ProcessState::Completed);
    let outs = record.outputs.as_ref().unwrap();
    assert!(matches!(outs.get(&"r".to_string()), Some(JsonValue::Bool(true))));
}

/// Condition step: guards approved -> ship, rejected -> cancel, and a
/// default edge to review. With {approved:true} only ship runs; with no
/// guard true the default edge to review runs.
#[test]
fn condition_selects_guarded_then_default() {
    // Direct check of the edge selection, on exactly the edges of the
    // description.
    let condition = StepDef::Condition(ConditionStep::new("cond".to_string(), vec![]));
    let edges = vec![
        FlowLeaf { to: "ship".to_string(), input: Some("approved".to_string()) },
        FlowLeaf { to: "cancel".to_string(), input: Some("rejected".to_string()) },
        FlowLeaf { to: "review".to_string(), input: None },
    ];
    let mut approved = ValueMap::new();
    approved.insert("approved".to_string(), JsonValue::Bool(true));
    let selected = condition.get_next_steps(&approved, &edges);
    assert_eq!(selected.len(), 1);
    assert_eq!(selected[0], "ship");

    let none = ValueMap::new();
    let selected = condition.get_next_steps(&none, &edges);
    assert_eq!(selected.len(), 1);
    assert_eq!(selected[0], "review");
}

/// The same branching, run as a whole instance: the guarded target's End
/// step finishes the instance.
#[test]
fn condition_branch_runs_selected_target() {
    let steps = vec![
        StepDef::Start(StartStep::new("s".to_string())),
        StepDef::Condition(ConditionStep::new("cond".to_string(), vec![
            request("approved", "s", "approved"),
        ])),
        StepDef::Data(DataStep::new("dship".to_string(), JsonValue::Text("ship".to_string()))),
        StepDef::Data(DataStep::new("dreview".to_string(), JsonValue::Text("review".to_string()))),
        StepDef::End(EndStep::new("ship".to_string(), vec![request("route", "dship", "value")])),
        StepDef::End(EndStep::new("review".to_string(), vec![request("route", "dreview", "value")])),
    ];
    let flow = vec![
        edge("s", "cond"),
        guarded_edge("cond", "ship", "approved"),
        edge("cond", "review"),
    ];
    let definition = ProcessDefinition::new(steps, flow, "s".to_string());
    let mut engine = new_engine();
    engine.register_definition("branch".to_string(), definition);

    let mut inputs = ValueMap::new();
    inputs.insert("approved".to_string(), JsonValue::Bool(true));
    let id = engine.start_process(&"branch".to_string(), inputs).unwrap();
    let record = engine.get_process(id).unwrap();
    assert_eq!(record.state, ProcessState::Completed);
    let outs = record.outputs.as_ref().unwrap();
    assert!(matches!(outs.get(&"route".to_string()), Some(JsonValue::Text(t)) if t == "ship"));
}

/// A Call step correlates: when the "refund" child instance reaches its
/// End with {refunded:true}, the parent's pending job completes with
/// exactly those outputs and the pending correlation is gone.
#[test]
fn call_step_correlates_child_outputs() {
    let refund_steps = vec![
        StepDef::Start(StartStep::new("rs".to_string())),
        StepDef::Data(DataStep::new("rd".to_string(), JsonValue::Bool(true))),
        StepDef::End(EndStep::new("re".to_string(), vec![request("refunded", "rd", "value")])),
    ];
    let refund_flow = vec![edge("rs", "rd"), edge("rd", "re")];
    let refund = ProcessDefinition::new(refund_steps, refund_flow, "rs".to_string());

    let parent_steps = vec![
        StepDef::Start(StartStep::new("p".to_string())),
        StepDef::Call(CallStep::new("call1".to_string(), "refund".to_string(), vec![])),
        StepDef::End(EndStep::new("pe".to_string(), vec![
            request("refunded", "call1", "refunded"),
        ])),
    ];
    let parent_flow = vec![edge("p", "call1"), edge("call1", "pe")];
    let parent = ProcessDefinition::new(parent_steps, parent_flow, "p".to_string());

    let mut engine = new_engine();
    engine.register_definition("refund".to_string(), refund);
    engine.register_definition("parent".to_string(), parent);

    let parent_id = engine.start_process(&"parent".to_string(), ValueMap::new()).unwrap();
    let record = engine.get_process(parent_id).unwrap();
    assert_eq!(record.state, ProcessState::Completed);
    let outs = record.outputs.as_ref().unwrap();
    assert!(matches!(outs.get(&"refunded".to_string()), Some(JsonValue::Bool(true))));
    assert_eq!(outs.len(), 1);

    // No pending correlation survives the child's completion, under any id.
    for candidate in 0..8u64 {
        assert!(!engine.has_pending_call(candidate));
    }
}

/// Starting an unregistered definition is the one way start fails.
#[test]
fn start_unknown_definition_fails() {
    let mut engine = new_engine();
    let r = engine.start_process(&"nowhere".to_string(), ValueMap::new());
    assert!(matches!(r, Err(EngineError::DefinitionNotFound)));
}

/// Asking for an unknown instance id fails with InstanceNotFound.
#[test]
fn get_unknown_instance_fails() {
    let engine = new_engine();
    let msg = GetProcessMessage { process_id: 42 };
    assert!(matches!(engine.get_process(msg.process_id), Err(EngineError::InstanceNotFound)));
}

/// The registry's validate operation: a well-shaped graph passes, an
/// unregistered name fails.
#[test]
fn validate_through_registry() {
    let steps = vec![
        StepDef::Start(StartStep::new("s".to_string())),
        StepDef::End(EndStep::new("e".to_string(), vec![])),
    ];
    let flow = vec![edge("s", "e")];
    let definition = ProcessDefinition::new(steps, flow, "s".to_string());
    let mut engine = new_engine();
    engine.register_definition("main".to_string(), definition);
    let ask = ValidateProcessMessage { process_name: "main".to_string() };
    assert_eq!(engine.validate_process(&ask.process_name).unwrap(), true);
    assert!(matches!(
        engine.validate_process(&"other".to_string()),
        Err(EngineError::DefinitionNotFound)
    ));
}

/// The runtime schema check also rejects a present field of the wrong
/// declared type.
#[test]
fn runtime_schema_check_rejects_wrong_type() {
    let steps = vec![
        StepDef::Start(StartStep::new("s".to_string())),
        StepDef::Activity(ActivityStep::new(
            "work".to_string(),
            "w".to_string(),
            "amount-schema".to_string(),
            "io".to_string(),
            "job-a".to_string(),
            vec![request("amount", "s", "amount")],
        )),
        StepDef::End(EndStep::new("e".to_string(), vec![])),
    ];
    let flow = vec![edge("s", "work"), edge("work", "e")];
    let definition = ProcessDefinition::new(steps, flow, "s".to_string());
    let mut engine = new_engine();
    engine.register_schema("io".to_string(), Schema::new(vec![], vec![]));
    engine.register_schema("amount-schema".to_string(), Schema::new(
        vec!["amount".to_string()],
        vec![("amount".to_string(), "number".to_string())],
    ));
    engine.register_definition("main".to_string(), definition);
    let mut inputs = ValueMap::new();
    inputs.insert("amount".to_string(), JsonValue::Text("forty".to_string()));
    let id = engine.start_process(&"main".to_string(), inputs).unwrap();
    assert_eq!(engine.get_process(id).unwrap().state, ProcessState::Failed);
}

/// A Script step without a runtime fails its instance, and the record
/// says so.
#[test]
fn script_without_runtime_fails_instance() {
    let steps = vec![
        StepDef::Start(StartStep::new("s".to_string())),
        StepDef::Script(ploy::steps::ScriptStep {
            id: "scr".to_string(),
            script: "calc".to_string(),
            input_schema: "io".to_string(),
            output_schema: "io".to_string(),
            inputs: vec![],
        }),
        StepDef::End(EndStep::new("e".to_string(), vec![])),
    ];
    let flow = vec![edge("s", "scr"), edge("scr", "e")];
    let definition = ProcessDefinition::new(steps, flow, "s".to_string());
    let mut engine = new_engine();
    engine.register_schema("io".to_string(), Schema::new(vec![], vec![]));
    engine.register_definition("main".to_string(), definition);
    let id = engine.start_process(&"main".to_string(), ValueMap::new()).unwrap();
    assert_eq!(engine.get_process(id).unwrap().state, ProcessState::Failed);
}

/// A binding whose source never produced the named output fails the
/// instance with a missing output.
#[test]
fn missing_output_fails_instance() {
    let steps = vec![
        StepDef::Start(StartStep::new("s".to_string())),
        StepDef::End(EndStep::new("e".to_string(), vec![
            request("y", "s", "no-such-output"),
        ])),
    ];
    let flow = vec![edge("s", "e")];
    let definition = ProcessDefinition::new(steps, flow, "s".to_string());
    let mut engine = new_engine();
    engine.register_definition("main".to_string(), definition);
    let id = engine.start_process(&"main".to_string(), ValueMap::new()).unwrap();
    assert_eq!(engine.get_process(id).unwrap().state, ProcessState::Failed);
}

/// The runtime schema check: a required field that the assembled inputs
/// miss fails the step's instance.
#[test]
fn runtime_schema_check_rejects_missing_required() {
    let steps = vec![
        StepDef::Start(StartStep::new("s".to_string())),
        StepDef::Activity(ActivityStep {
            id: "work".to_string(),
            name: "w".to_string(),
            job: "job-a".to_string(),
            input_schema: "needs-amount".to_string(),
            output_schema: "io".to_string(),
            inputs: vec![],
        }),
        StepDef::End(EndStep::new("e".to_string(), vec![])),
    ];
    let flow = vec![edge("s", "work"), edge("work", "e")];
    let definition = ProcessDefinition::new(steps, flow, "s".to_string());
    let mut engine = new_engine();
    engine.register_schema("io".to_string(), Schema::new(vec![], vec![]));
    engine.register_schema("needs-amount".to_string(), Schema::new(
        vec!["amount".to_string()],
        vec![("amount".to_string(), "number".to_string())],
    ));
    engine.register_definition("main".to_string(), definition);
    let id = engine.start_process(&"main".to_string(), ValueMap::new()).unwrap();
    assert_eq!(engine.get_process(id).unwrap().state, ProcessState::Failed);
}
