//! Registration core of a native extension: a tree of named namespaces,
//! functions bound to them with a fixed arity, and a sequencer that runs a
//! registration program once and stops at the first failure.
pub mod init;
pub mod laws;
pub mod native;
pub mod registry;

pub use init::{initialize, registration_program, run_program, InitError, Step};
pub use native::{hello, Native};
pub use registry::{Binding, CallError, NamespaceNode, RegError, Registry};
