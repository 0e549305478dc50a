//! Pipeline runner core: task identifiers and sets, the task model, dependency
//! validation and the run state that decides which task may start next.
#![allow(unused_imports)]

pub mod config;
pub mod container_command;
pub mod err;
pub mod pipeline;
pub mod run;
pub mod status;
pub mod text;
pub mod worker;

pub use config::{Config, RunConfig};
pub use container_command::ContainerCommand;
pub use err::{Error, Result};
pub use pipeline::{Pipeline, RawPipeline, RawTask, Task, TaskId, TaskIds};
pub use run::Run;
pub use status::Status;
pub use worker::{WorkInput, WorkOutput};
