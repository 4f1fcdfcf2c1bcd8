//! A process-orchestration engine: declarative process definitions (directed
//! graphs of typed steps) are validated, instantiated, and executed. Running
//! instances resolve data dependencies lazily, dispatch asynchronous jobs to
//! external workers, and correlate sub-process calls back to their parents.

pub mod definition;
pub mod engine;
pub mod errors;
pub mod executor;
pub mod jobs;
pub mod kvmap;
pub mod nodes;
pub mod script;
pub mod schema;
pub mod step;
pub mod steps;
pub mod tables;
pub mod validator;
pub mod values;
