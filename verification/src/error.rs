//! What can go wrong, one type per kind of failure.

use vstd::prelude::*;

verus! {

/// Why a line of the taskfile was refused.
#[derive(Clone, Copy, Debug, PartialEq, Eq, Structural)]
pub enum ParseErrorKind {
    /// The line is neither a task, a variable nor a section.
    InvalidLine,
    /// A variable line without `=`.
    InvalidVariable,
    /// A variable line with nothing after `=`.
    MissingValue,
    /// A section line without `=`.
    InvalidSection,
    /// A section line with no name after `=`.
    MissingSectionName,
    /// A task header without `:`.
    InvalidTask,
    /// A task header that no command follows.
    MissingCommand,
}

/// A refused line: why, and its number in the file, counted from one.
#[derive(Clone, Copy, Debug, PartialEq, Eq, Structural)]
pub struct ParseError {
    pub kind: ParseErrorKind,
    pub line: usize,
}

/// A command that invokes a task the file does not declare.
#[derive(Debug)]
pub struct ReferenceError {
    /// The task that holds the command.
    pub task: String,
    /// The name the command asks for.
    pub target: String,
}

/// Why a taskfile could not be loaded.
#[derive(Debug)]
pub enum JotError {
    Parse(ParseError),
    Reference(ReferenceError),
}

/// Why no execution could be planned.
#[derive(Clone, Copy, Debug, PartialEq, Eq, Structural)]
pub enum ExecError {
    /// The requested task is not declared.
    TaskNotFound,
    /// No task was requested and no default command is configured.
    NoDefault,
    /// Neither an override nor the configuration names a shell.
    NoShell,
}

} // verus!
