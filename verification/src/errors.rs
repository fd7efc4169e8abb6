use vstd::prelude::*;

use crate::graph::TaskKey;

verus! {

/// Returned by `TaskGraph::add_task` when the key is already taken by an
/// earlier task; that earlier task is left untouched.
#[derive(Clone, Copy, Debug, PartialEq, Eq)]
pub struct DuplicateKeyError {
    pub key: TaskKey,
}

/// Returned by `TaskGraph::add_dependency`.
#[derive(Clone, Copy, Debug, PartialEq, Eq)]
pub enum GraphError {
    /// One of the two named keys was never added to the graph.
    UnknownKey(TaskKey),
    /// The edge would close a dependency cycle; the graph is unchanged.
    Cycle,
}

/// Returned by `ResultStore::publish` when the key already holds a value:
/// entries are write-once.
#[derive(Clone, Copy, Debug, PartialEq, Eq)]
pub struct DuplicateWriteError {
    pub key: TaskKey,
}

/// Returned by `ResultStore::get` when no value has been published for the
/// key yet.
#[derive(Clone, Copy, Debug, PartialEq, Eq)]
pub struct NotReadyError {
    pub key: TaskKey,
}

/// Returned by `DepView::get`, the scoped read interface handed to a running
/// task.
#[derive(Clone, Copy, Debug, PartialEq, Eq)]
pub enum DepLookupError {
    /// The key is not among the task's declared dependencies.
    Undeclared(TaskKey),
    /// The key is declared but its producer has not published yet.
    NotReady(TaskKey),
}

/// A task's own computation failed; carries the task's key and the cause the
/// computation reported.
#[derive(Clone, Debug, PartialEq, Eq)]
pub struct TaskComputationError {
    pub key: TaskKey,
    pub cause: String,
}

/// Returned by `execute`: the first task failure observed, together with the
/// keys of tasks that were never started.
#[derive(Clone, Debug, PartialEq, Eq)]
pub struct ExecutionError {
    pub failure: TaskComputationError,
    pub never_started: Vec<TaskKey>,
}

} // verus!
