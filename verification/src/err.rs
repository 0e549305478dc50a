//! The one error type of the runner.

use crate::pipeline::TaskId;
use crate::text::{decimal, decimal_string};
use crate::worker::{WorkInput, WorkInputView};
use serde_yaml::Error as YamlError;
use std::io::Error as IoError;
use vstd::prelude::*;
use vstd::string::StringExecFns;

verus! {

/// Everything that can go wrong while a pipeline is validated or run.
#[derive(Debug)]
pub enum Error {
    /// The dependency graph has a cycle; holds the names of the tasks that were
    /// being explored when it was found.
    DependencyCycle(Vec<String>),
    /// Two tasks share this name.
    DuplicateTask(String),
    /// The task with this id failed, for the reason given.
    FailedTask(TaskId, String),
    /// An I/O, parse or spawn failure, by its message.
    Io(String),
    /// More tasks and images than identifiers; holds the count that was reached.
    TooManyTasks(usize),
    /// A dependency names a task that is not defined.
    UndefinedTask(String),
    /// A channel between controller and workers broke down.
    Worker(String),
}

/// What the runner's functions return where they can fail.
pub type Result<T> = std::result::Result<T, Error>;

/// What an [`Error`] holds, with every string as a sequence of characters.
pub enum ErrorView {
    DependencyCycle(Seq<Seq<char>>),
    DuplicateTask(Seq<char>),
    FailedTask(u8, Seq<char>),
    Io(Seq<char>),
    TooManyTasks(usize),
    UndefinedTask(Seq<char>),
    Worker(Seq<char>),
}

/// Each name on a line of its own, as an item of a list.
pub open spec fn bullets(names: Seq<Seq<char>>) -> Seq<char>
    decreases names.len(),
{
    if names.len() == 0 {
        Seq::empty()
    } else {
        bullets(names.drop_last()) + "\n  - "@ + names.last()
    }
}

impl ErrorView {
    /// The message that the error is shown with.
    pub open spec fn text(self) -> Seq<char> {
        match self {
            ErrorView::DependencyCycle(names) => "Dependency cycle containing the following tasks:"@
                + bullets(names),
            ErrorView::DuplicateTask(name) => "Task "@ + name + " defined multiple times"@,
            ErrorView::FailedTask(id, reason) => "Task ["@ + decimal(id as nat) + "] failed:\n"@
                + reason,
            ErrorView::Io(message) => message,
            ErrorView::TooManyTasks(n) => "Too many ("@ + decimal(n as nat)
                + " > 255) tasks + images"@,
            ErrorView::UndefinedTask(name) => "Undefined task name '"@ + name + "'"@,
            ErrorView::Worker(message) => message,
        }
    }
}

/// What is wrong when `message` cannot be sent to the workers.
pub open spec fn unsent(message: WorkInputView) -> ErrorView {
    match message {
        WorkInputView::Task(id, task) => ErrorView::Worker(
            "Can't submit task ["@ + decimal(id as nat) + "] "@ + task.text(),
        ),
        WorkInputView::Stop => ErrorView::Worker("Cant' send stop message"@),
    }
}

impl Error {
    /// What is wrong when `message` cannot be sent to the workers.
    pub fn send_failed(message: &WorkInput) -> (r: Self)
        ensures
            r@ == unsent(message@),
    {
        match message {
            WorkInput::Task(task_id, task) => {
                let mut text = String::from_str("Can't submit task [");
                text.append(task_id.to_string().as_str());
                text.append("] ");
                text.append(task.to_string().as_str());
                Error::Worker(text)
            },
            WorkInput::Stop => Error::Worker(String::from_str("Cant' send stop message")),
        }
    }

    /// What is wrong when no worker is left to report.
    pub fn receive_failed() -> (r: Self)
        ensures
            r@ == ErrorView::Worker("Can't receive results from workers"@),
    {
        Error::Worker(String::from_str("Can't receive results from workers"))
    }

    /// What is wrong when the task `task_id` has failed for this reason.
    pub fn failed_task(task_id: TaskId, reason: String) -> (r: Self)
        ensures
            r@ == ErrorView::FailedTask(task_id@, reason@),
    {
        Error::FailedTask(task_id, reason)
    }

    /// The message that the error is shown with.
    pub fn to_string(&self) -> (s: String)
        ensures
            s@ == self@.text(),
    {
        match self {
            Error::DependencyCycle(names) => {
                let mut s = String::from_str("Dependency cycle containing the following tasks:");
                let mut k: usize = 0;
                assert(names.deep_view().take(0) =~= Seq::<Seq<char>>::empty());
                while k < names.len()
                    invariant
                        k <= names.len(),
                        s@ == "Dependency cycle containing the following tasks:"@ + bullets(
                            names.deep_view().take(k as int),
                        ),
                    decreases names.len() - k,
                {
                    let ghost now = names.deep_view().take(k + 1);
                    proof {
                        assert(now.drop_last() =~= names.deep_view().take(k as int));
                        assert(now.last() == names@[k as int]@);
                    }
                    s.append("\n  - ");
                    s.append(names[k].as_str());
                    assert(s@ =~= "Dependency cycle containing the following tasks:"@ + bullets(
                        now,
                    ));
                    k = k + 1;
                }
                assert(names.deep_view().take(names@.len() as int) =~= names.deep_view());
                s
            },
            Error::DuplicateTask(name) => {
                let mut s = String::from_str("Task ");
                s.append(name.as_str());
                s.append(" defined multiple times");
                s
            },
            Error::FailedTask(id, reason) => {
                let mut s = String::from_str("Task [");
                s.append(id.to_string().as_str());
                s.append("] failed:\n");
                s.append(reason.as_str());
                s
            },
            Error::Io(message) => message.clone(),
            Error::TooManyTasks(n) => {
                let mut s = String::from_str("Too many (");
                s.append(decimal_string(*n as u64).as_str());
                s.append(" > 255) tasks + images");
                s
            },
            Error::UndefinedTask(name) => {
                let mut s = String::from_str("Undefined task name '");
                s.append(name.as_str());
                s.append("'");
                s
            },
            Error::Worker(message) => message.clone(),
        }
    }
}

/// Makes `serde_yaml::Error`, the error of the YAML reader, known as a type.
/// Nothing is claimed of its values: they are carried along unopened.
#[verifier::external_type_specification]
#[verifier::external_body]
pub struct ExYamlError(YamlError);

/// Makes `std::io::Error`, the error of an input or output operation, known
/// as a type. Nothing is claimed of its values: they are carried along
/// unopened.
#[verifier::external_type_specification]
#[verifier::external_body]
pub struct ExIoError(IoError);

impl vstd::std_specs::convert::FromSpecImpl<YamlError> for Error {
    open spec fn obeys_from_spec() -> bool {
        false
    }

    open spec fn from_spec(value: YamlError) -> Self {
        arbitrary()
    }
}

impl From<YamlError> for Error {
    /// A pipeline file that cannot be read is an input error, with the
    /// message that the reader shows for it.
    fn from(value: YamlError) -> (r: Self)
        ensures
            r matches Error::Io(message)
                && vstd::string::to_string_from_display_ensures::<YamlError>(&value, message),
    {
        Error::Io(value.to_string())
    }
}

impl vstd::std_specs::convert::FromSpecImpl<IoError> for Error {
    open spec fn obeys_from_spec() -> bool {
        false
    }

    open spec fn from_spec(value: IoError) -> Self {
        arbitrary()
    }
}

impl From<IoError> for Error {
    /// An input or output error, with the message that it shows.
    fn from(value: IoError) -> (r: Self)
        ensures
            r matches Error::Io(message)
                && vstd::string::to_string_from_display_ensures::<IoError>(&value, message),
    {
        Error::Io(value.to_string())
    }
}

impl View for Error {
    type V = ErrorView;

    open spec fn view(&self) -> ErrorView {
        match self {
            Error::DependencyCycle(names) => ErrorView::DependencyCycle(names.deep_view()),
            Error::DuplicateTask(name) => ErrorView::DuplicateTask(name@),
            Error::FailedTask(id, reason) => ErrorView::FailedTask(id@, reason@),
            Error::Io(message) => ErrorView::Io(message@),
            Error::TooManyTasks(n) => ErrorView::TooManyTasks(*n),
            Error::UndefinedTask(name) => ErrorView::UndefinedTask(name@),
            Error::Worker(message) => ErrorView::Worker(message@),
        }
    }
}

} // verus!
