//! The definition validator: cycle rejection, dangling-path rejection,
//! and schema conformance of declared bindings.

use std::sync::Arc;

use ploy::definition::ProcessDefinition;
use ploy::schema::Schema;
use ploy::step::{FlowLeaf, StepInputRequest};
use ploy::steps::{StepDef, StartStep, EndStep, ActivityStep, CallStep};
use ploy::tables::StrTable;
use ploy::validator::ProcessValidator;

fn request(name: &str, from: &str, output: &str) -> StepInputRequest {
    StepInputRequest::new(name.to_string(), from.to_string(), output.to_string())
}

fn edge(from: &str, to: &str) -> (String, FlowLeaf) {
    (from.to_string(), FlowLeaf { to: to.to_string(), input: None })
}

fn no_schemas() -> StrTable<Schema> {
    StrTable::new()
}

/// A straight Start -> End graph is accepted.
#[test]
fn accepts_straight_line() {
    let steps = vec![
        StepDef::Start(StartStep::new("s".to_string())),
        StepDef::End(EndStep::new("e".to_string(), vec![])),
    ];
    let flow = vec![edge("s", "e")];
    let definition = Arc::new(ProcessDefinition::new(steps, flow, "s".to_string()));
    assert!(ProcessValidator::validate(&definition, &no_schemas()));
}

/// An edge cycle A -> B -> A is rejected, regardless of whether an End
/// step is reachable elsewhere.
#[test]
fn rejects_edge_cycle() {
    let steps = vec![
        StepDef::Start(StartStep::new("s".to_string())),
        StepDef::Call(CallStep::new("A".to_string(), "x".to_string(), vec![])),
        StepDef::Call(CallStep::new("B".to_string(), "x".to_string(), vec![])),
        StepDef::End(EndStep::new("e".to_string(), vec![])),
    ];
    let flow = vec![
        edge("s", "A"),
        edge("A", "B"),
        edge("B", "A"),
        edge("B", "e"),
    ];
    let definition = Arc::new(ProcessDefinition::new(steps, flow, "s".to_string()));
    assert!(!ProcessValidator::validate(&definition, &no_schemas()));
}

/// A path that stops at a step which is not an End step is rejected.
#[test]
fn rejects_dangling_path() {
    let steps = vec![
        StepDef::Start(StartStep::new("s".to_string())),
        StepDef::Call(CallStep::new("A".to_string(), "x".to_string(), vec![])),
    ];
    let flow = vec![edge("s", "A")];
    let definition = Arc::new(ProcessDefinition::new(steps, flow, "s".to_string()));
    assert!(!ProcessValidator::validate(&definition, &no_schemas()));
}

/// An edge to a step id the definition does not declare is rejected.
#[test]
fn rejects_unknown_target() {
    let steps = vec![
        StepDef::Start(StartStep::new("s".to_string())),
        StepDef::End(EndStep::new("e".to_string(), vec![])),
    ];
    let flow = vec![edge("s", "ghost")];
    let definition = Arc::new(ProcessDefinition::new(steps, flow, "s".to_string()));
    assert!(!ProcessValidator::validate(&definition, &no_schemas()));
}

fn typed_graph(amount_type_in_output_schema: &str) -> (Arc<ProcessDefinition>, StrTable<Schema>) {
    let steps = vec![
        StepDef::Start(StartStep::new("s".to_string())),
        StepDef::Activity(ActivityStep {
            id: "a1".to_string(),
            name: "first".to_string(),
            job: "j1".to_string(),
            input_schema: "in1".to_string(),
            output_schema: "out1".to_string(),
            inputs: vec![],
        }),
        StepDef::Activity(ActivityStep {
            id: "a2".to_string(),
            name: "second".to_string(),
            job: "j2".to_string(),
            input_schema: "in2".to_string(),
            output_schema: "out2".to_string(),
            inputs: vec![request("amount", "a1", "amount")],
        }),
        StepDef::End(EndStep::new("e".to_string(), vec![])),
    ];
    let flow = vec![edge("s", "a1"), edge("a1", "a2"), edge("a2", "e")];
    let definition = Arc::new(ProcessDefinition::new(steps, flow, "s".to_string()));

    let mut schemas = StrTable::new();
    schemas.put("in1".to_string(), Schema::new(vec![], vec![]));
    schemas.put("out1".to_string(), Schema::new(
        vec!["amount".to_string()],
        vec![("amount".to_string(), amount_type_in_output_schema.to_string())],
    ));
    schemas.put("in2".to_string(), Schema::new(
        vec!["amount".to_string()],
        vec![("amount".to_string(), "number".to_string())],
    ));
    schemas.put("out2".to_string(), Schema::new(vec![], vec![]));
    (definition, schemas)
}

/// Schema check: the input schema requires amount as a number; the output
/// schema types amount as a string, so validation fails on the type
/// mismatch.
#[test]
fn rejects_binding_type_mismatch() {
    let (definition, schemas) = typed_graph("string");
    assert!(!ProcessValidator::validate(&definition, &schemas));
}

/// The same binding with matching declared types is accepted.
#[test]
fn accepts_binding_with_matching_types() {
    let (definition, schemas) = typed_graph("number");
    assert!(ProcessValidator::validate(&definition, &schemas));
}

/// A required input field with no declared binding is rejected.
#[test]
fn rejects_missing_required_binding() {
    let steps = vec![
        StepDef::Start(StartStep::new("s".to_string())),
        StepDef::Activity(ActivityStep {
            id: "a1".to_string(),
            name: "first".to_string(),
            job: "j1".to_string(),
            input_schema: "in1".to_string(),
            output_schema: "out1".to_string(),
            inputs: vec![],
        }),
        StepDef::End(EndStep::new("e".to_string(), vec![])),
    ];
    let flow = vec![edge("s", "a1"), edge("a1", "e")];
    let definition = Arc::new(ProcessDefinition::new(steps, flow, "s".to_string()));
    let mut schemas = StrTable::new();
    schemas.put("in1".to_string(), Schema::new(
        vec!["amount".to_string()],
        vec![("amount".to_string(), "number".to_string())],
    ));
    schemas.put("out1".to_string(), Schema::new(vec![], vec![]));
    assert!(!ProcessValidator::validate(&definition, &schemas));
}

/// A required input mapped from an output the schema does not mark
/// required is rejected.
#[test]
fn rejects_required_from_optional() {
    let steps = vec![
        StepDef::Start(StartStep::new("s".to_string())),
        StepDef::Activity(ActivityStep {
            id: "a1".to_string(),
            name: "first".to_string(),
            job: "j1".to_string(),
            input_schema: "in1".to_string(),
            output_schema: "out1".to_string(),
            inputs: vec![],
        }),
        StepDef::Activity(ActivityStep {
            id: "a2".to_string(),
            name: "second".to_string(),
            job: "j2".to_string(),
            input_schema: "in2".to_string(),
            output_schema: "out2".to_string(),
            inputs: vec![request("amount", "a1", "amount")],
        }),
        StepDef::End(EndStep::new("e".to_string(), vec![])),
    ];
    let flow = vec![edge("s", "a1"), edge("a1", "a2"), edge("a2", "e")];
    let definition = Arc::new(ProcessDefinition::new(steps, flow, "s".to_string()));
    let mut schemas = StrTable::new();
    schemas.put("in1".to_string(), Schema::new(vec![], vec![]));
    // amount is typed but not required on the output side.
    schemas.put("out1".to_string(), Schema::new(
        vec![],
        vec![("amount".to_string(), "number".to_string())],
    ));
    schemas.put("in2".to_string(), Schema::new(
        vec!["amount".to_string()],
        vec![("amount".to_string(), "number".to_string())],
    ));
    schemas.put("out2".to_string(), Schema::new(vec![], vec![]));
    assert!(!ProcessValidator::validate(&definition, &schemas));
}
