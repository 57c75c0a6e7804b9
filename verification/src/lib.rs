//! alors: a project-local task runner. This crate holds its verified core:
//! the taskfile model, the taskfile grammar, the import merge, the up-front
//! checks, the run order of an invocation, the command-line resolver and shell
//! completion.
pub mod text;
pub mod model;
pub mod resolver;
pub mod complete;
pub mod loader;
pub mod parser;
pub mod cli;
pub mod validate;
pub mod plan;
