//! What the controller and its workers tell each other.

use crate::err::Result;
use crate::pipeline::{Task, TaskId, TaskView};
use crate::text::{signed_decimal, signed_decimal_string};
use vstd::prelude::*;
use vstd::string::StringExecFns;

verus! {

/// What a worker is sent: a task to run, or the order to stop.
#[derive(Debug)]
pub enum WorkInput {
    Task(TaskId, Task),
    Stop,
}

/// What a worker reports of a task: that it succeeded, or why it failed.
#[derive(Debug)]
pub enum WorkOutput {
    Succeeded(TaskId),
    Failed(TaskId, String),
}

/// A [`WorkInput`] as plain values.
pub enum WorkInputView {
    Task(u8, TaskView),
    Stop,
}

/// A [`WorkOutput`] as plain values.
pub enum WorkOutputView {
    Succeeded(u8),
    Failed(u8, Seq<char>),
}

impl View for WorkInput {
    type V = WorkInputView;

    open spec fn view(&self) -> WorkInputView {
        match self {
            WorkInput::Task(id, task) => WorkInputView::Task(id@, task@),
            WorkInput::Stop => WorkInputView::Stop,
        }
    }
}

impl View for WorkOutput {
    type V = WorkOutputView;

    open spec fn view(&self) -> WorkOutputView {
        match self {
            WorkOutput::Succeeded(id) => WorkOutputView::Succeeded(id@),
            WorkOutput::Failed(id, reason) => WorkOutputView::Failed(id@, reason@),
        }
    }
}

/// What is reported of task `id`, whose process ended with `exit`: success
/// for the exit code 0; else why it failed, which is its exit code, that it
/// had none, or that it could not be run or waited for.
pub open spec fn report(
    exit: std::result::Result<Option<i32>, Seq<char>>,
    task: TaskView,
    id: u8,
) -> WorkOutputView {
    match exit {
        Ok(Some(code)) => if code == 0 {
            WorkOutputView::Succeeded(id)
        } else {
            WorkOutputView::Failed(
                id,
                task.text() + " exited with error code "@ + signed_decimal(code as int),
            )
        },
        Ok(None) => WorkOutputView::Failed(id, task.text() + " terminated unexpectedly"@),
        Err(message) => WorkOutputView::Failed(
            id,
            task.text() + " exited with an error "@ + message,
        ),
    }
}

/// How a process ended, as plain values: its exit code, where it has one,
/// or the message of the error that kept it from running.
pub open spec fn exit_view(exit_status: Result<Option<i32>>) -> std::result::Result<
    Option<i32>,
    Seq<char>,
> {
    match exit_status {
        Ok(code) => Ok(code),
        Err(e) => Err(e@.text()),
    }
}

/// What a worker reports once the process of a task has ended, and whether
/// the worker goes on to the next task, which it does after a success only.
pub fn handle_status(exit_status: Result<Option<i32>>, task: &Task, task_id: TaskId) -> (r: (
    WorkOutput,
    bool,
))
    ensures
        r.0@ == report(exit_view(exit_status), task@, task_id@),
        r.1 == (r.0 is Succeeded),
{
    let code = match exit_status {
        Ok(Some(c)) => c,
        Ok(None) => {
            let mut reason = task.to_string();
            reason.append(" terminated unexpectedly");
            return (fail(task_id, reason), false);
        },
        Err(e) => {
            let mut reason = task.to_string();
            reason.append(" exited with an error ");
            reason.append(e.to_string().as_str());
            return (fail(task_id, reason), false);
        },
    };
    if code == 0 {
        return (WorkOutput::Succeeded(task_id), true);
    }
    let mut msg = task.to_string();
    msg.append(" exited with error code ");
    msg.append(signed_decimal_string(code).as_str());
    (fail(task_id, msg), false)
}

/// The report that task `task_id` failed for this reason.
pub fn fail(task_id: TaskId, reason: String) -> (r: WorkOutput)
    ensures
        r@ == WorkOutputView::Failed(task_id@, reason@),
{
    WorkOutput::Failed(task_id, reason)
}

} // verus!
