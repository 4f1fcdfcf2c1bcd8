//! The scripting collaborator: Script steps hand their bound inputs to an
//! external runtime and complete with whatever output map it produced. The
//! engine states nothing about the result; callers supply the runtime.

use vstd::prelude::*;
use crate::values::ValueMap;

verus! {

/// The interface of the external script runtime: run the named script on
/// the given inputs and hand back its output map, or report a failure.
///
/// Nothing is assumed of the result; the executor's contracts hold for
/// every outcome.
pub trait ScriptEngine {
    fn execute(&mut self, script: &String, inputs: &ValueMap) -> Result<ValueMap, String>;
}

/// A runtime that runs nothing: every script fails. Engines assembled
/// without a scripting collaborator use this one.
pub struct NullScriptEngine {}

impl ScriptEngine for NullScriptEngine {
    fn execute(&mut self, _script: &String, _inputs: &ValueMap) -> Result<ValueMap, String> {
        Err("no script runtime is attached to this engine".to_owned())
    }
}

} // verus!
