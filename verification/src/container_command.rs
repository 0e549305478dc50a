//! The commands that the container engine is asked to run.

use crate::config::RunConfig;
use vstd::prelude::*;
use vstd::string::StringExecFns;

verus! {

/// Commands that are run using `podman`.
/// Other options could be supported in the future.
#[derive(Debug)]
pub enum ContainerCommand<'a> {
    /// Runs the script `commands` in a new container made from `image`.
    Run { commands: &'a str, image: &'a str, container_name: &'a str, config: &'a RunConfig },
    /// Pulls the image of this name.
    Pull(&'a str),
    /// Kills the container of this name.
    Kill(&'a str),
}

/// A [`ContainerCommand`] as plain values.
pub enum ContainerCommandView {
    Run {
        commands: Seq<char>,
        image: Seq<char>,
        container_name: Seq<char>,
        repo_path: Seq<char>,
        cleanup: bool,
    },
    Pull(Seq<char>),
    Kill(Seq<char>),
}

impl ContainerCommandView {
    /// The arguments that the engine is started with. A container gets the
    /// checkout as its working directory, at `/__repo`, and is removed after
    /// it has run where the run cleans up.
    pub open spec fn args(self) -> Seq<Seq<char>> {
        match self {
            ContainerCommandView::Run { image, container_name, repo_path, cleanup, .. } => {
                let first = if cleanup {
                    seq!["run"@, "--rm"@]
                } else {
                    seq!["run"@]
                };
                first + seq![
                    "--interactive"@,
                    "--userns"@,
                    "keep-id"@,
                    "--name"@,
                    container_name,
                    "--volume"@,
                    repo_path + ":"@ + "/__repo"@,
                    "--workdir"@,
                    "/__repo"@,
                    image,
                    "/bin/bash"@,
                ]
            },
            ContainerCommandView::Pull(name) => seq!["pull"@, name],
            ContainerCommandView::Kill(name) => seq!["kill"@, name],
        }
    }

    /// What is written to the standard input of the engine: the script of
    /// a container, and nothing else.
    pub open spec fn input(self) -> Option<Seq<char>> {
        match self {
            ContainerCommandView::Run { commands, .. } => Some(commands),
            _ => None,
        }
    }
}

impl<'a> View for ContainerCommand<'a> {
    type V = ContainerCommandView;

    open spec fn view(&self) -> ContainerCommandView {
        match self {
            ContainerCommand::Run {
                commands,
                image,
                container_name,
                config,
            } => ContainerCommandView::Run {
                commands: commands@,
                image: image@,
                container_name: container_name@,
                repo_path: config@.repo_path,
                cleanup: config@.cleanup,
            },
            ContainerCommand::Pull(name) => ContainerCommandView::Pull(name@),
            ContainerCommand::Kill(name) => ContainerCommandView::Kill(name@),
        }
    }
}

impl<'a> ContainerCommand<'a> {
    /// The program that runs every command.
    pub fn engine() -> (r: &'static str)
        ensures
            r@ == "podman"@,
    {
        "podman"
    }

    /// The arguments that the engine is started with.
    pub fn args(&self) -> (r: Vec<String>)
        ensures
            r.deep_view() == self@.args(),
    {
        let mut args: Vec<String> = Vec::new();
        match self {
            ContainerCommand::Run { image, container_name, config, .. } => {
                let workdir = "/__repo";
                let mut volume = String::from_str(config.repo_path());
                volume.append(":");
                volume.append(workdir);
                args.push(String::from_str("run"));
                if config.cleanup() {
                    args.push(String::from_str("--rm"));
                }
                args.push(String::from_str("--interactive"));
                args.push(String::from_str("--userns"));
                args.push(String::from_str("keep-id"));
                args.push(String::from_str("--name"));
                args.push(String::from_str(container_name));
                args.push(String::from_str("--volume"));
                args.push(volume);
                args.push(String::from_str("--workdir"));
                args.push(String::from_str(workdir));
                args.push(String::from_str(image));
                args.push(String::from_str("/bin/bash"));
            },
            ContainerCommand::Pull(name) => {
                args.push(String::from_str("pull"));
                args.push(String::from_str(name));
            },
            ContainerCommand::Kill(name) => {
                args.push(String::from_str("kill"));
                args.push(String::from_str(name));
            },
        }
        assert(args.deep_view() =~= self@.args());
        args
    }

    /// What is written to the standard input of the engine: the script of
    /// a container, and nothing else.
    pub fn input(&self) -> (r: Option<&'a str>)
        ensures
            match r {
                Some(script) => self@.input() == Some(script@),
                None => self@.input() is None,
            },
    {
        match self {
            ContainerCommand::Run { commands, .. } => Some(*commands),
            _ => None,
        }
    }
}

/// The command that kills the container of this name.
pub fn kill_container<'a>(name: &'a str) -> (r: ContainerCommand<'a>)
    ensures
        r@ == ContainerCommandView::Kill(name@),
{
    ContainerCommand::Kill(name)
}

} // verus!
