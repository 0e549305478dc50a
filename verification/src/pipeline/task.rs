//! One unit of work: pulling an image, or running commands in a container.

use super::TaskIds;
use crate::config::{RunConfig, RunConfigView};
use crate::container_command::{ContainerCommand, ContainerCommandView};
use crate::text::{pad_right, padded};
use vstd::prelude::*;
use vstd::string::StringExecFns;

verus! {

/// One unit of work of a pipeline.
#[derive(Clone, Debug, PartialEq)]
pub enum Task {
    /// Runs the shell script `commands` in a container made from `image`.
    /// `depends` holds the tasks that have to be done first, the pull of
    /// `image` among them.
    CommandLine { name: String, commands: String, image: String, depends: TaskIds },
    /// Pulls the image of this name; depends on nothing.
    PullImage(String),
}

/// A [`Task`] as plain values.
pub enum TaskView {
    CommandLine { name: Seq<char>, commands: Seq<char>, image: Seq<char>, depends: Set<u8> },
    PullImage(Seq<char>),
}

impl TaskView {
    /// The identifiers that have to be done before the task: none for a pull.
    pub open spec fn depends(self) -> Set<u8> {
        match self {
            TaskView::CommandLine { depends, .. } => depends,
            TaskView::PullImage(_) => Set::empty(),
        }
    }

    /// What kind of work the task is, in one word.
    pub open spec fn kind(self) -> Seq<char> {
        match self {
            TaskView::CommandLine { .. } => "container"@,
            TaskView::PullImage(_) => "pull"@,
        }
    }

    /// The task in one line: its kind, filled up to ten characters, a space
    /// and what it is called.
    pub open spec fn text(self) -> Seq<char> {
        padded(self.kind(), 10) + " "@ + self.name()
    }

    /// The number of bytes of the name that is put before each line of
    /// output; a pull has none.
    pub open spec fn name_width(self) -> Option<usize> {
        match self {
            TaskView::CommandLine { name, .. } => Some(
                vstd::utf8::encode_utf8(name).len() as usize,
            ),
            TaskView::PullImage(_) => None,
        }
    }

    /// What the task is called: its name, or the image that it pulls.
    pub open spec fn name(self) -> Seq<char> {
        match self {
            TaskView::CommandLine { name, .. } => name,
            TaskView::PullImage(image) => image,
        }
    }
}

/// What it takes to run a task: the arguments that the container engine is
/// started with, what is written to its standard input, the container that
/// the worker is attached to meanwhile, and what is put before each line of
/// output.
#[derive(Debug, PartialEq)]
pub struct Execution {
    pub args: Vec<String>,
    pub input: Option<String>,
    pub container: Option<String>,
    pub line_prefix: String,
}

/// An [`Execution`] as plain values.
pub struct ExecutionView {
    pub args: Seq<Seq<char>>,
    pub input: Option<Seq<char>>,
    pub container: Option<Seq<char>>,
    pub line_prefix: Seq<char>,
}

impl View for Execution {
    type V = ExecutionView;

    open spec fn view(&self) -> ExecutionView {
        ExecutionView {
            args: self.args.deep_view(),
            input: match self.input {
                Some(input) => Some(input@),
                None => None,
            },
            container: match self.container {
                Some(container) => Some(container@),
                None => None,
            },
            line_prefix: self.line_prefix@,
        }
    }
}

impl TaskView {
    /// The command that runs the task at `now`: a command line gets a
    /// container of its own, named after the run, the task and the time.
    pub open spec fn command(self, config: RunConfigView, now: u64) -> ContainerCommandView {
        match self {
            TaskView::CommandLine { name, commands, image, .. } => ContainerCommandView::Run {
                commands,
                image,
                container_name: config.container_name(name, now),
                repo_path: config.repo_path,
                cleanup: config.cleanup,
            },
            TaskView::PullImage(image) => ContainerCommandView::Pull(image),
        }
    }

    /// What it takes to run the task at `now`. While a command line runs,
    /// its worker is attached to the container, and its output has the name
    /// of the task before each line, filled up to the width of the run and
    /// followed by a bar. The output of a pull goes through as it is.
    pub open spec fn execution(self, config: RunConfigView, now: u64) -> ExecutionView {
        ExecutionView {
            args: self.command(config, now).args(),
            input: self.command(config, now).input(),
            container: match self {
                TaskView::CommandLine { name, .. } => Some(config.container_name(name, now)),
                TaskView::PullImage(_) => None,
            },
            line_prefix: match self {
                TaskView::CommandLine { name, .. } => padded(name, config.task_name_width as nat)
                    + "| "@,
                TaskView::PullImage(_) => Seq::empty(),
            },
        }
    }
}

impl Execution {
    /// A line of output as it is shown.
    pub fn line(&self, output: &str) -> (r: String)
        ensures
            r@ == self@.line_prefix + output@,
    {
        let mut shown = self.line_prefix.clone();
        shown.append(output);
        shown
    }
}

impl View for Task {
    type V = TaskView;

    open spec fn view(&self) -> TaskView {
        match self {
            Task::CommandLine { name, commands, image, depends } => TaskView::CommandLine {
                name: name@,
                commands: commands@,
                image: image@,
                depends: depends@,
            },
            Task::PullImage(image) => TaskView::PullImage(image@),
        }
    }
}

impl Task {
    /// A task that runs `commands` in a container made from `image`.
    pub fn command(name: String, commands: String, image: String, depends: TaskIds) -> (r: Self)
        ensures
            r@ == (TaskView::CommandLine {
                name: name@,
                commands: commands@,
                image: image@,
                depends: depends@,
            }),
    {
        Task::CommandLine { name, commands, image, depends }
    }

    /// The tasks that have to be done before this one.
    pub fn depends(&self) -> (r: TaskIds)
        ensures
            r@ == self@.depends(),
    {
        match self {
            Task::CommandLine { depends, .. } => *depends,
            Task::PullImage(_) => TaskIds::default(),
        }
    }

    /// What the task is called: its name, or the image that it pulls.
    pub fn name(&self) -> (r: &String)
        ensures
            r@ == self@.name(),
    {
        match self {
            Task::CommandLine { name, .. } => name,
            Task::PullImage(image) => image,
        }
    }

    /// What it takes to run the task at `now`, in seconds.
    pub fn execution(&self, config: &RunConfig, now: u64) -> (r: Execution)
        ensures
            r@ == self@.execution(config@, now),
    {
        match self {
            Task::CommandLine { name, commands, image, .. } => {
                let container_name = config.mk_container_name(name.as_str(), now);
                let cmd = ContainerCommand::Run {
                    commands: commands.as_str(),
                    image: image.as_str(),
                    container_name: container_name.as_str(),
                    config,
                };
                let args = cmd.args();
                let mut line_prefix = pad_right(name.as_str(), config.name_width());
                line_prefix.append("| ");
                Execution {
                    args,
                    input: Some(commands.clone()),
                    container: Some(container_name),
                    line_prefix,
                }
            },
            Task::PullImage(image) => {
                let args = ContainerCommand::Pull(image.as_str()).args();
                Execution { args, input: None, container: None, line_prefix: String::new() }
            },
        }
    }

    /// The task in one line: its kind, filled up to ten characters, a space
    /// and what it is called.
    pub fn to_string(&self) -> (s: String)
        ensures
            s@ == self@.text(),
    {
        let kind = match self {
            Task::CommandLine { .. } => "container",
            Task::PullImage(_) => "pull",
        };
        let mut s = pad_right(kind, 10);
        s.append(" ");
        s.append(self.name().as_str());
        s
    }

    /// The number of bytes of the name that is put before each line of
    /// output; a pull has none.
    pub fn name_width(&self) -> (r: Option<usize>)
        ensures
            r == self@.name_width(),
    {
        match self {
            Task::CommandLine { name, .. } => Some(name.as_str().len()),
            Task::PullImage(_) => None,
        }
    }
}

} // verus!
