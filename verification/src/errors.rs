use vstd::prelude::*;

verus! {

/// Every failure the engine can report.
///
/// Errors raised while starting or advancing a step abort only the owning
/// instance; validation failures are reported as a boolean outcome instead.
#[derive(Clone, Copy, Debug, PartialEq, Eq, Structural)]
pub enum EngineError {
    /// No process definition is registered under the requested name.
    DefinitionNotFound,
    /// A definition document could not be assembled into a process graph.
    ParseError,
    /// A step id does not exist in the definition.
    StepNotFound,
    /// A binding's source step has produced no output under the requested name.
    MissingOutput,
    /// A payload failed the required/typed-field checks of a declared schema.
    SchemaViolation,
    /// A job completion was delivered for an id the instance does not track.
    UnknownJob,
    /// No instance record exists under the requested instance id.
    InstanceNotFound,
    /// The scripting collaborator reported a failure.
    ScriptExecutionError,
    /// A defensive machine limit was hit: the recursion-depth guard of the
    /// executor, or exhaustion of the id counter.
    LimitExceeded,
}

} // verus!
