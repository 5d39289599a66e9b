//! A running cleaning process and the task it belongs to.

use vstd::prelude::*;

verus! {

#[verifier::external_type_specification]
#[verifier::external_body]
#[verifier::reject_recursive_types(T)]
pub struct ExJoinHandle<T>(tokio::task::JoinHandle<T>);

/// `JoinHandle`'s `Future` output holds this error type, so the handle cannot
/// be declared without it.
#[verifier::external_type_specification]
#[verifier::external_body]
pub struct ExJoinError(tokio::task::JoinError);

/// The handle of a spawned cleaning loop, tagged with its task's id.
pub struct TaskProcessModel {
    pub process: tokio::task::JoinHandle<()>,
    pub task_id: String,
}

impl TaskProcessModel {
    pub fn new(process: tokio::task::JoinHandle<()>, id: String) -> (res: TaskProcessModel)
        ensures
            res.process == process,
            res.task_id@ == id@,
    {
        TaskProcessModel { process, task_id: id }
    }
}

} // verus!
