//! What a run is configured with.

use crate::pipeline::Pipeline;
use crate::text::{decimal, decimal_string};
use vstd::prelude::*;
use vstd::string::StringExecFns;

verus! {

/// The configuration of the runner, as read at startup.
#[derive(Debug)]
pub struct Config {
    repo_name: String,
    repo_branch: String,
    default_image: Option<String>,
    pipeline_filename: String,
    timestamp: u64,
    cleanup: bool,
}

/// A [`Config`] as plain values.
pub struct ConfigView {
    pub repo_name: Seq<char>,
    pub repo_branch: Seq<char>,
    pub default_image: Option<Seq<char>>,
    pub pipeline_filename: Seq<char>,
    pub timestamp: u64,
    pub cleanup: bool,
}

impl ConfigView {
    /// What every container name of the run starts with.
    pub open spec fn container_name_prefix(self) -> Seq<char> {
        "runr-"@ + self.repo_name + "-"@ + self.repo_branch + "-"@ + decimal(
            self.timestamp as nat,
        )
    }

    /// The directories, one inside the other, under which the checkout
    /// lives below the directory for temporary files.
    pub open spec fn checkout_dirs(self) -> Seq<Seq<char>> {
        seq![self.repo_name, self.repo_branch, decimal(self.timestamp as nat)]
    }
}

impl View for Config {
    type V = ConfigView;

    closed spec fn view(&self) -> ConfigView {
        ConfigView {
            repo_name: self.repo_name@,
            repo_branch: self.repo_branch@,
            default_image: match self.default_image {
                Some(image) => Some(image@),
                None => None,
            },
            pipeline_filename: self.pipeline_filename@,
            timestamp: self.timestamp,
            cleanup: self.cleanup,
        }
    }
}

impl Config {
    /// A configuration made of its values: the name of the repository, the
    /// branch to check out, the image of tasks that name none, the name of
    /// the pipeline file, the time of the start in seconds, and whether
    /// containers and directories are removed afterwards.
    pub fn new(
        repo_name: String,
        repo_branch: String,
        default_image: Option<String>,
        pipeline_filename: String,
        timestamp: u64,
        cleanup: bool,
    ) -> (r: Self)
        ensures
            r@ == (ConfigView {
                repo_name: repo_name@,
                repo_branch: repo_branch@,
                default_image: match default_image {
                    Some(image) => Some(image@),
                    None => None,
                },
                pipeline_filename: pipeline_filename@,
                timestamp,
                cleanup,
            }),
    {
        Config { repo_name, repo_branch, default_image, pipeline_filename, timestamp, cleanup }
    }

    /// A configuration made of what is set: where no name of the pipeline
    /// file is set it is `runr.yaml`, and containers and directories are
    /// removed afterwards unless it is set otherwise.
    pub fn from_values(
        repo_name: String,
        repo_branch: String,
        default_image: Option<String>,
        pipeline_filename: Option<String>,
        cleanup: Option<bool>,
        timestamp: u64,
    ) -> (r: Self)
        ensures
            r@ == (ConfigView {
                repo_name: repo_name@,
                repo_branch: repo_branch@,
                default_image: match default_image {
                    Some(image) => Some(image@),
                    None => None,
                },
                pipeline_filename: match pipeline_filename {
                    Some(name) => name@,
                    None => "runr.yaml"@,
                },
                timestamp,
                cleanup: match cleanup {
                    Some(cleanup) => cleanup,
                    None => true,
                },
            }),
    {
        let pipeline_filename = match pipeline_filename {
            Some(name) => name,
            None => String::from_str("runr.yaml"),
        };
        let cleanup = match cleanup {
            Some(cleanup) => cleanup,
            None => true,
        };
        Config { repo_name, repo_branch, default_image, pipeline_filename, timestamp, cleanup }
    }

    /// The branch that is checked out.
    pub fn branch(&self) -> (r: &String)
        ensures
            r@ == self@.repo_branch,
    {
        &self.repo_branch
    }

    /// The name of the pipeline file, which lies at the root of the
    /// checkout.
    pub fn pipeline_filename(&self) -> (r: &String)
        ensures
            r@ == self@.pipeline_filename,
    {
        &self.pipeline_filename
    }

    /// The directories, one inside the other, under which the checkout
    /// lives below the directory for temporary files: the repository, the
    /// branch and the time of the start.
    pub fn checkout_dirs(&self) -> (r: Vec<String>)
        ensures
            r.deep_view() == self@.checkout_dirs(),
    {
        let mut dirs: Vec<String> = Vec::new();
        dirs.push(self.repo_name.clone());
        dirs.push(self.repo_branch.clone());
        dirs.push(decimal_string(self.timestamp));
        assert(dirs.deep_view() =~= self@.checkout_dirs());
        dirs
    }

    /// The image of tasks that name none, where one is configured.
    pub fn default_image(&self) -> (r: &Option<String>)
        ensures
            match r {
                Some(image) => self@.default_image == Some(image@),
                None => self@.default_image is None,
            },
    {
        &self.default_image
    }

    /// The image that is handed to the validation of the pipeline, for tasks
    /// that name none in a pipeline that names none: the configured one, or
    /// the empty name where none is configured.
    pub fn fallback_image(&self) -> (r: &str)
        ensures
            r@ == match self@.default_image {
                Some(image) => image,
                None => Seq::empty(),
            },
    {
        match &self.default_image {
            Some(image) => image.as_str(),
            None => {
                proof {
                    reveal_strlit("");
                }
                ""
            },
        }
    }

    /// Whether containers and directories are removed after the run.
    pub fn removes_checkout(&self) -> (r: bool)
        ensures
            r == self@.cleanup,
    {
        self.cleanup
    }

    /// What a run of `pipeline` needs to know, with the checkout at
    /// `repo_path`.
    pub fn run_config(&self, pipeline: &Pipeline, repo_path: String) -> (r: RunConfig)
        ensures
            r@ == (RunConfigView {
                repo_path: repo_path@,
                container_name_prefix: self@.container_name_prefix(),
                cleanup: self@.cleanup,
                task_name_width: pipeline.spec_name_width(),
            }),
    {
        let mut container_name_prefix = String::from_str("runr-");
        container_name_prefix.append(self.repo_name.as_str());
        container_name_prefix.append("-");
        container_name_prefix.append(self.repo_branch.as_str());
        container_name_prefix.append("-");
        container_name_prefix.append(decimal_string(self.timestamp).as_str());
        RunConfig::new(repo_path, container_name_prefix, self.cleanup, pipeline.name_width())
    }
}

/// Part of the configuration that is relevant during runtime.
#[derive(Debug)]
pub struct RunConfig {
    repo_path: String,
    container_name_prefix: String,
    cleanup: bool,
    task_name_width: usize,
}

/// A [`RunConfig`] as plain values.
pub struct RunConfigView {
    pub repo_path: Seq<char>,
    pub container_name_prefix: Seq<char>,
    pub cleanup: bool,
    pub task_name_width: usize,
}

impl RunConfigView {
    /// The name of the container that runs a task, started at `now`.
    pub open spec fn container_name(self, task_name: Seq<char>, now: u64) -> Seq<char> {
        self.container_name_prefix + "-"@ + task_name + "-"@ + decimal(now as nat)
    }
}

impl View for RunConfig {
    type V = RunConfigView;

    closed spec fn view(&self) -> RunConfigView {
        RunConfigView {
            repo_path: self.repo_path@,
            container_name_prefix: self.container_name_prefix@,
            cleanup: self.cleanup,
            task_name_width: self.task_name_width,
        }
    }
}

impl RunConfig {
    /// What a run needs to know: where the checkout lies, what every
    /// container name starts with, whether containers are removed once they
    /// have run, and the width to which task names are filled up.
    pub fn new(
        repo_path: String,
        container_name_prefix: String,
        cleanup: bool,
        task_name_width: usize,
    ) -> (r: Self)
        ensures
            r@ == (RunConfigView {
                repo_path: repo_path@,
                container_name_prefix: container_name_prefix@,
                cleanup,
                task_name_width,
            }),
    {
        Self { repo_path, container_name_prefix, cleanup, task_name_width }
    }

    /// Whether containers are removed once they have run.
    pub fn cleanup(&self) -> (r: bool)
        ensures
            r == self@.cleanup,
    {
        self.cleanup
    }

    /// The name of the container that runs the task of this name, started
    /// at `now`, in seconds: the prefix of the run, the task and the time.
    pub fn mk_container_name(&self, task_name: &str, now: u64) -> (r: String)
        ensures
            r@ == self@.container_name(task_name@, now),
    {
        let mut name = self.container_name_prefix.clone();
        name.append("-");
        name.append(task_name);
        name.append("-");
        name.append(decimal_string(now).as_str());
        name
    }

    /// Where the checkout lies.
    pub fn repo_path(&self) -> (r: &str)
        ensures
            r@ == self@.repo_path,
    {
        self.repo_path.as_str()
    }

    /// The width to which task names are filled up before each line of
    /// output.
    pub fn name_width(&self) -> (r: usize)
        ensures
            r == self@.task_name_width,
    {
        self.task_name_width
    }
}

} // verus!
