//! Unit checks of the engine's components: the value maps, the job
//! queue's pull and completion rules, literal parsing, and the assembly
//! of decoded documents into process graphs.

use ploy::engine::{Engine, ProcessState};
use ploy::errors::EngineError;
use ploy::jobs::{AddWorkItem, GetWorkItems, JobCompletedMessage, JobItem, JobQueue, JobStatus};
use ploy::nodes::{build_definition, parse_int_literal, CallNode, ConditionNode, DataNode,
    DataNodeTypes, EndNode, FlowNode, FlowNodes, InputRequest, InputRequests, NodeType, Nodes,
    ScriptNode, StartNode};
use ploy::script::NullScriptEngine;
use ploy::step::StepType;
use ploy::values::{JsonValue, ValueMap};

#[test]
fn value_map_insert_get_and_replace() {
    let mut m = ValueMap::new();
    assert_eq!(m.len(), 0);
    m.insert("a".to_string(), JsonValue::Int(1));
    m.insert("b".to_string(), JsonValue::Bool(true));
    m.insert("a".to_string(), JsonValue::Int(2));
    assert_eq!(m.len(), 2);
    assert!(matches!(m.get(&"a".to_string()), Some(JsonValue::Int(2))));
    assert!(matches!(m.get(&"b".to_string()), Some(JsonValue::Bool(true))));
    assert!(m.get(&"c".to_string()).is_none());
    assert!(m.contains_key(&"b".to_string()));
}

#[test]
fn value_map_extend_prefers_right() {
    let mut left = ValueMap::new();
    left.insert("x".to_string(), JsonValue::Int(1));
    left.insert("y".to_string(), JsonValue::Int(2));
    let mut right = ValueMap::new();
    right.insert("y".to_string(), JsonValue::Int(20));
    right.insert("z".to_string(), JsonValue::Int(30));
    left.extend_with(&right);
    assert_eq!(left.len(), 3);
    assert!(matches!(left.get(&"x".to_string()), Some(JsonValue::Int(1))));
    assert!(matches!(left.get(&"y".to_string()), Some(JsonValue::Int(20))));
    assert!(matches!(left.get(&"z".to_string()), Some(JsonValue::Int(30))));
}

#[test]
fn job_queue_pulls_at_most_two_open_items() {
    let mut queue = JobQueue::new();
    queue.add_work_item(JobItem::new(1, ValueMap::new(), "a".to_string()));
    queue.add_work_item(JobItem::new(2, ValueMap::new(), "b".to_string()));
    queue.add_work_item(JobItem::new(3, ValueMap::new(), "c".to_string()));

    let first = queue.get_work_items();
    assert_eq!(first.len(), 2);
    assert_eq!(first[0].id, 1);
    assert_eq!(first[1].id, 2);

    // The first two are now InProgress: only the third is still Open.
    let second = queue.get_work_items();
    assert_eq!(second.len(), 1);
    assert_eq!(second[0].id, 3);

    // Nothing is redelivered once dispatched.
    let third = queue.get_work_items();
    assert_eq!(third.len(), 0);
}

#[test]
fn job_queue_marks_completion_by_id() {
    let mut queue = JobQueue::new();
    queue.add_work_item(JobItem::new(5, ValueMap::new(), "a".to_string()));
    queue.complete_work_item(5);
    let batch = queue.get_work_items();
    assert_eq!(batch.len(), 0);
    // Completing an id the queue does not hold changes nothing.
    queue.complete_work_item(99);
    assert_eq!(queue.item_count(), 1);
    assert_eq!(queue.item_at(0).status, JobStatus::Completed);
}

/// The request shapes of the worker interface carry their payloads
/// through unchanged.
#[test]
fn worker_messages_carry_their_payloads() {
    let mut queue = JobQueue::new();
    let mut inputs = ValueMap::new();
    inputs.insert("k".to_string(), JsonValue::Int(9));
    let add = AddWorkItem(JobItem::new(11, inputs, "speak".to_string()));
    queue.add_work_item(add.0);
    let _pull = GetWorkItems;
    let batch = queue.get_work_items();
    assert_eq!(batch.len(), 1);
    assert_eq!(batch[0].id, 11);

    let mut outputs = ValueMap::new();
    outputs.insert("said".to_string(), JsonValue::Bool(true));
    let done = JobCompletedMessage::new(11, outputs);
    assert_eq!(done.job_id, 11);
    queue.complete_work_item(done.job_id);
    assert_eq!(queue.item_at(0).status, JobStatus::Completed);
    assert!(matches!(done.outputs.get(&"said".to_string()), Some(JsonValue::Bool(true))));
}

#[test]
fn integer_literals_parse_exactly() {
    assert_eq!(parse_int_literal(&"10".to_string()), Some(10));
    assert_eq!(parse_int_literal(&"0".to_string()), Some(0));
    assert_eq!(parse_int_literal(&"-5".to_string()), Some(-5));
    assert_eq!(parse_int_literal(&"1234567890123456789".to_string()), Some(1234567890123456789));
    assert_eq!(parse_int_literal(&"1.5".to_string()), None);
    assert_eq!(parse_int_literal(&"".to_string()), None);
    assert_eq!(parse_int_literal(&"-".to_string()), None);
    assert_eq!(parse_int_literal(&"12a".to_string()), None);
    // The whole signed 64-bit range is accepted, nothing beyond it.
    assert_eq!(parse_int_literal(&"9223372036854775807".to_string()), Some(i64::MAX));
    assert_eq!(parse_int_literal(&"9223372036854775808".to_string()), None);
    assert_eq!(parse_int_literal(&"-9223372036854775808".to_string()), Some(i64::MIN));
    assert_eq!(parse_int_literal(&"-9223372036854775809".to_string()), None);
    // Leading zeros only pad the value.
    assert_eq!(parse_int_literal(&"00000000000000000000042".to_string()), Some(42));
}

fn no_inputs() -> InputRequests {
    InputRequests { inputs: vec![] }
}

#[test]
fn document_with_one_start_builds_and_runs() {
    let nodes = Nodes {
        field: vec![
            NodeType::StartNode(StartNode { id: "s".to_string() }),
            NodeType::DataNode(DataNode {
                id: "d".to_string(),
                rtype: DataNodeTypes::Number,
                value: "10".to_string(),
            }),
            NodeType::EndNode(EndNode {
                id: "e".to_string(),
                inputs: InputRequests {
                    inputs: vec![InputRequest {
                        name: "y".to_string(),
                        from: "d".to_string(),
                        output: "value".to_string(),
                    }],
                },
            }),
        ],
    };
    let flow = FlowNodes {
        nodes: vec![
            FlowNode { from: "s".to_string(), to: "d".to_string(), input: None },
            FlowNode { from: "d".to_string(), to: "e".to_string(), input: None },
        ],
    };
    let definition = build_definition(nodes, flow).unwrap();

    let mut engine = Engine::new(NullScriptEngine {});
    engine.register_definition("doc".to_string(), definition);
    let id = engine.start_process(&"doc".to_string(), ValueMap::new()).unwrap();
    let record = engine.get_process(id).unwrap();
    assert_eq!(record.state, ProcessState::Completed);
    let outs = record.outputs.as_ref().unwrap();
    assert!(matches!(outs.get(&"y".to_string()), Some(JsonValue::Int(10))));
}

#[test]
fn document_with_two_starts_is_refused() {
    let nodes = Nodes {
        field: vec![
            NodeType::StartNode(StartNode { id: "s1".to_string() }),
            NodeType::StartNode(StartNode { id: "s2".to_string() }),
            NodeType::EndNode(EndNode { id: "e".to_string(), inputs: no_inputs() }),
        ],
    };
    let flow = FlowNodes { nodes: vec![] };
    assert!(matches!(build_definition(nodes, flow), Err(EngineError::ParseError)));
}

#[test]
fn document_without_start_is_refused() {
    let nodes = Nodes {
        field: vec![NodeType::EndNode(EndNode { id: "e".to_string(), inputs: no_inputs() })],
    };
    let flow = FlowNodes { nodes: vec![] };
    assert!(matches!(build_definition(nodes, flow), Err(EngineError::ParseError)));
}

#[test]
fn malformed_data_literal_is_refused() {
    let nodes = Nodes {
        field: vec![
            NodeType::StartNode(StartNode { id: "s".to_string() }),
            NodeType::DataNode(DataNode {
                id: "d".to_string(),
                rtype: DataNodeTypes::Boolean,
                value: "maybe".to_string(),
            }),
            NodeType::EndNode(EndNode { id: "e".to_string(), inputs: no_inputs() }),
        ],
    };
    let flow = FlowNodes { nodes: vec![] };
    assert!(matches!(build_definition(nodes, flow), Err(EngineError::ParseError)));
}

#[test]
fn every_node_shape_becomes_its_step() {
    let shapes: Vec<NodeType> = vec![
        NodeType::StartNode(StartNode { id: "a".to_string() }),
        NodeType::EndNode(EndNode { id: "b".to_string(), inputs: no_inputs() }),
        NodeType::ActivityNode(ploy::nodes::ActivityNode {
            id: "c".to_string(),
            name: "n".to_string(),
            input: "i".to_string(),
            output: "o".to_string(),
            job: "j".to_string(),
            inputs: no_inputs(),
        }),
        NodeType::DataNode(DataNode {
            id: "d".to_string(),
            rtype: DataNodeTypes::Text,
            value: "v".to_string(),
        }),
        NodeType::ScriptNode(ScriptNode {
            id: "e".to_string(),
            script: "m".to_string(),
            input: "i".to_string(),
            output: "o".to_string(),
            inputs: no_inputs(),
        }),
        NodeType::ConditionNode(ConditionNode { id: "f".to_string(), inputs: no_inputs() }),
        NodeType::CallNode(CallNode {
            id: "g".to_string(),
            process: "p".to_string(),
            inputs: no_inputs(),
        }),
    ];
    let ids = ["a", "b", "c", "d", "e", "f", "g"];
    let mut k = 0;
    for shape in shapes {
        let step = shape.into_step().unwrap();
        assert_eq!(step.id().as_str(), ids[k]);
        k += 1;
    }
}

#[test]
fn step_type_predicates() {
    assert!(StepType::EndStep.is_end());
    assert!(!StepType::StartStep.is_end());
    assert!(StepType::ActivityStep.is_flow_step());
    assert!(StepType::CallStep.is_flow_step());
    assert!(!StepType::DataStep.is_flow_step());
    assert!(!StepType::ScriptStep.is_flow_step());
}
