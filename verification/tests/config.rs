use runr::container_command::kill_container;
use runr::{
    Config, ContainerCommand, Pipeline, RawPipeline, RawTask, RunConfig, Task, TaskId, TaskIds,
};

fn task(name: &str) -> RawTask {
    RawTask {
        name: name.to_string(),
        commands: "true".to_string(),
        image: None,
        depends: None,
    }
}

fn pipeline(names: &[&str]) -> Pipeline {
    let tasks = names.iter().map(|name| task(name)).collect();
    Pipeline::from_raw(RawPipeline::new(None, None, tasks), "img", 1).unwrap()
}

fn config(cleanup: bool) -> Config {
    Config::new(
        "repo".to_string(),
        "main".to_string(),
        Some("debian:bookworm".to_string()),
        "runr.yaml".to_string(),
        1700000000,
        cleanup,
    )
}

#[test]
fn name_width_is_two_more_than_the_longest_name_and_ten_at_most() {
    assert_eq!(pipeline(&[]).name_width(), 2);
    assert_eq!(pipeline(&["a"]).name_width(), 3);
    assert_eq!(pipeline(&["a", "abcd", "ab"]).name_width(), 6);
    assert_eq!(pipeline(&["abcdefg"]).name_width(), 9);
    assert_eq!(pipeline(&["abcdefgh"]).name_width(), 10);
    assert_eq!(pipeline(&["a", "a-very-long-name"]).name_width(), 10);
}

#[test]
fn name_width_counts_bytes() {
    assert_eq!(
        Task::command(
            "äö".to_string(),
            String::new(),
            String::new(),
            TaskIds::default()
        )
        .name_width(),
        Some(4)
    );
    assert_eq!(Task::PullImage("image".to_string()).name_width(), None);
}

#[test]
fn configuration_of_a_run() {
    let config = config(true);
    assert_eq!(config.pipeline_filename(), "runr.yaml");
    assert_eq!(config.default_image(), &Some("debian:bookworm".to_string()));
    assert!(config.removes_checkout());
    assert_eq!(config.checkout_dirs(), vec!["repo", "main", "1700000000"]);
    let run_config = config.run_config(&pipeline(&["build"]), "/tmp/repo/main/1700000000".to_string());
    assert_eq!(run_config.repo_path(), "/tmp/repo/main/1700000000");
    assert!(run_config.cleanup());
    assert_eq!(run_config.name_width(), 7);
    assert_eq!(
        run_config.mk_container_name("build", 1700000123),
        "runr-repo-main-1700000000-build-1700000123"
    );
}

#[test]
fn arguments_of_the_container_engine() {
    assert_eq!(ContainerCommand::engine(), "podman");
    let keep = RunConfig::new("/tmp/x".to_string(), "prefix".to_string(), false, 4);
    let run = ContainerCommand::Run {
        commands: "echo hi",
        image: "debian",
        container_name: "c1",
        config: &keep,
    };
    assert_eq!(
        run.args(),
        vec![
            "run",
            "--interactive",
            "--userns",
            "keep-id",
            "--name",
            "c1",
            "--volume",
            "/tmp/x:/__repo",
            "--workdir",
            "/__repo",
            "debian",
            "/bin/bash"
        ]
    );
    assert_eq!(run.input(), Some("echo hi"));
    let remove = RunConfig::new("/tmp/x".to_string(), "prefix".to_string(), true, 4);
    let run = ContainerCommand::Run {
        commands: "echo hi",
        image: "debian",
        container_name: "c1",
        config: &remove,
    };
    assert_eq!(
        run.args(),
        vec![
            "run",
            "--rm",
            "--interactive",
            "--userns",
            "keep-id",
            "--name",
            "c1",
            "--volume",
            "/tmp/x:/__repo",
            "--workdir",
            "/__repo",
            "debian",
            "/bin/bash"
        ]
    );
    assert_eq!(ContainerCommand::Pull("debian").args(), vec!["pull", "debian"]);
    assert_eq!(ContainerCommand::Pull("debian").input(), None);
    assert_eq!(kill_container("c1").args(), vec!["kill", "c1"]);
    assert_eq!(kill_container("c1").input(), None);
}

#[test]
fn what_it_takes_to_run_a_task() {
    let config = RunConfig::new("/tmp/x".to_string(), "runr-repo-main-17".to_string(), true, 6);
    let command = Task::command(
        "ab".to_string(),
        "echo hi\n".to_string(),
        "debian".to_string(),
        TaskIds::from(TaskId::first()),
    );
    let execution = command.execution(&config, 99);
    assert_eq!(
        execution.args,
        vec![
            "run",
            "--rm",
            "--interactive",
            "--userns",
            "keep-id",
            "--name",
            "runr-repo-main-17-ab-99",
            "--volume",
            "/tmp/x:/__repo",
            "--workdir",
            "/__repo",
            "debian",
            "/bin/bash"
        ]
    );
    assert_eq!(execution.input, Some("echo hi\n".to_string()));
    assert_eq!(execution.container, Some("runr-repo-main-17-ab-99".to_string()));
    assert_eq!(execution.line("hello"), "ab    | hello");

    let pull = Task::PullImage("debian".to_string()).execution(&config, 99);
    assert_eq!(pull.args, vec!["pull", "debian"]);
    assert_eq!(pull.input, None);
    assert_eq!(pull.container, None);
    assert_eq!(pull.line("hello"), "hello");
}

#[test]
fn the_image_that_is_handed_to_validation() {
    assert_eq!(config(true).fallback_image(), "debian:bookworm");
    let none = Config::new(
        "repo".to_string(),
        "main".to_string(),
        None,
        "runr.yaml".to_string(),
        1,
        false,
    );
    assert_eq!(none.fallback_image(), "");
    assert_eq!(none.default_image(), &None);
    assert!(!none.removes_checkout());
    assert_eq!(none.branch(), "main");
}

#[test]
fn the_host_is_asked_wherever_a_number_of_workers_is_written() {
    assert!(!RawPipeline::new(None, None, vec![]).asks_host());
    assert!(RawPipeline::new(None, Some(0), vec![]).asks_host());
    assert!(RawPipeline::new(None, Some(3), vec![]).asks_host());
    let parts = RawPipeline::new(Some("i".to_string()), Some(3), vec![task("a")]).into_parts();
    assert_eq!(parts, (Some("i".to_string()), Some(3), vec![task("a")]));
}

#[test]
fn what_is_not_set_has_its_default() {
    let unset = Config::from_values(
        "repo".to_string(),
        "main".to_string(),
        None,
        None,
        None,
        7,
    );
    assert_eq!(unset.pipeline_filename(), "runr.yaml");
    assert!(unset.removes_checkout());
    assert_eq!(unset.default_image(), &None);
    assert_eq!(unset.checkout_dirs(), vec!["repo", "main", "7"]);

    let set = Config::from_values(
        "repo".to_string(),
        "dev".to_string(),
        Some("img".to_string()),
        Some("ci.yaml".to_string()),
        Some(false),
        8,
    );
    assert_eq!(set.pipeline_filename(), "ci.yaml");
    assert!(!set.removes_checkout());
    assert_eq!(set.default_image(), &Some("img".to_string()));
    assert_eq!(set.branch(), "dev");
    assert!(Config::from_values(String::new(), String::new(), None, None, Some(true), 0)
        .removes_checkout());
}
