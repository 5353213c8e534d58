//! A build orchestration engine.
//!
//! Named build units (modules) and named executable steps (tasks) are kept
//! in registries together with their dependency edges.  An [`Executor`] walks
//! the task graph from a root task, runs every task that is stale or that
//! sits above a task that ran, and runs no task twice.
//!
//! Around this core stand the rules by which a build file becomes modules
//! ([`config`]), the rules by which modules become tasks ([`conan`]), and a
//! parser for command-line options ([`opt`]).

pub mod conan;
pub mod config;
pub mod context;
pub mod deptree;
pub mod error;
pub mod executor;
pub mod graph;
pub mod module;
pub mod names;
pub mod opt;
pub mod task;
pub mod traversal;

pub use context::Context;
pub use error::BuildError;
pub use error::Error;
pub use executor::Executor;
pub use module::Module;
pub use task::Task;
