//! A small task runner's core: the taskfile grammar, the task model it fills,
//! and the plan an executor follows.

pub mod text;
pub mod dict;
pub mod error;
pub mod grammar;
pub mod model;
pub mod parser;
pub mod engine;
