use runr::worker::handle_status;
use runr::{Pipeline, RawPipeline, RawTask, Run, Task, TaskId, TaskIds, WorkInput, WorkOutput};

fn id(value: usize) -> TaskId {
    TaskId::try_from(value).unwrap()
}

fn task(name: &str, depends: &[&str]) -> RawTask {
    RawTask {
        name: name.to_string(),
        commands: format!("echo {name}"),
        image: None,
        depends: Some(depends.iter().map(|d| d.to_string()).collect()),
    }
}

fn run_of(tasks: Vec<RawTask>) -> Run {
    Pipeline::from_raw(RawPipeline::new(None, None, tasks), "debian", 2)
        .unwrap()
        .run()
}

fn sent(inputs: Vec<WorkInput>) -> Vec<(TaskId, String)> {
    inputs
        .into_iter()
        .map(|input| match input {
            WorkInput::Task(id, task) => (id, task.to_string()),
            WorkInput::Stop => panic!("a stop among the tasks"),
        })
        .collect()
}

fn names(inputs: &[(TaskId, String)]) -> Vec<&str> {
    inputs.iter().map(|(_, name)| name.as_str()).collect()
}

#[test]
fn a_run_without_failures_succeeds() {
    // the pull is 0, step-1a 1, step-2 2, step-1b 3
    let mut run = run_of(vec![
        task("step-1a", &[]),
        task("step-2", &[]),
        task("step-1b", &["step-1a"]),
    ]);
    assert!(!run.is_completed());
    assert!(!run.is_succeeded());

    let first = sent(run.submit_runnable());
    assert_eq!(names(&first), vec!["pull       debian"]);
    assert!(sent(run.submit_runnable()).is_empty());
    assert_eq!(run.handle_output(WorkOutput::Succeeded(id(0))), None);

    let second = sent(run.submit_runnable());
    assert_eq!(
        second,
        vec![
            (id(1), "container  step-1a".to_string()),
            (id(2), "container  step-2".to_string())
        ]
    );
    assert_eq!(run.handle_output(WorkOutput::Succeeded(id(2))), None);
    assert!(sent(run.submit_runnable()).is_empty());
    assert_eq!(run.handle_output(WorkOutput::Succeeded(id(1))), None);

    let third = sent(run.submit_runnable());
    assert_eq!(third, vec![(id(3), "container  step-1b".to_string())]);
    assert!(!run.is_completed());
    assert_eq!(run.handle_output(WorkOutput::Succeeded(id(3))), None);

    assert!(run.is_completed());
    assert!(run.is_succeeded());
    assert_eq!(run.cleanup(vec![None, None]), Vec::<String>::new());
}

#[test]
fn a_failure_in_the_middle_gives_the_run_up() {
    let mut run = run_of(vec![
        task("step-1a", &[]),
        task("step-2", &[]),
        task("step-1b", &["step-1a"]),
    ]);
    run.submit_runnable();
    run.handle_output(WorkOutput::Succeeded(id(0)));
    assert_eq!(run.submit_runnable().len(), 2);

    let step_1a = Task::command(
        "step-1a".to_string(),
        "exit 42".to_string(),
        "debian".to_string(),
        TaskIds::from(id(0)),
    );
    let (report, go_on) = handle_status(Ok(Some(42)), &step_1a, id(1));
    assert!(!go_on);
    assert_eq!(
        run.handle_output(report),
        Some(
            "container  step-1a exited with error code 42\nKilling containers and exiting."
                .to_string()
        )
    );
    assert!(!run.is_completed());
    assert!(!run.is_succeeded());
    assert_eq!(run.status().in_progress(), TaskIds::from(id(2)));
    assert_eq!(run.status().new_ids(), TaskIds::from(id(3)));

    // the worker of step-2 is still attached to its container
    let kills = run.cleanup(vec![None, Some("runr-r-b-1-step-2-2".to_string())]);
    assert_eq!(kills, vec!["runr-r-b-1-step-2-2"]);
}

#[test]
fn a_failure_of_the_last_task_completes_the_run_without_success() {
    let mut run = run_of(vec![task("step-1a", &[]), task("step-1b", &["step-1a"])]);
    run.submit_runnable();
    run.handle_output(WorkOutput::Succeeded(id(0)));
    run.submit_runnable();
    run.handle_output(WorkOutput::Succeeded(id(1)));
    assert_eq!(
        sent(run.submit_runnable()),
        vec![(id(2), "container  step-1b".to_string())]
    );
    let notice = run.handle_output(WorkOutput::Failed(id(2), "exit 1".to_string()));
    assert_eq!(
        notice,
        Some("exit 1\nKilling containers and exiting.".to_string())
    );
    assert!(run.is_completed());
    assert!(!run.is_succeeded());
    assert_eq!(run.to_string(), "Unstarted tasks: []\nCompleted tasks: [0,1,2] (done)");
    assert_eq!(run.cleanup(vec![None]).len(), 0);
}

#[test]
fn every_attached_container_is_killed_once() {
    let run = run_of(vec![]);
    let cells = vec![
        Some("a".to_string()),
        None,
        Some("b".to_string()),
        None,
        None,
        Some("a".to_string()),
    ];
    assert_eq!(run.cleanup(cells), vec!["a", "b", "a"]);
    assert_eq!(run_of(vec![]).cleanup(vec![]).len(), 0);
}

#[test]
fn no_task_is_sent_twice() {
    let mut run = run_of(vec![
        task("a", &[]),
        task("b", &["a"]),
        task("c", &["a"]),
        task("d", &["b", "c"]),
    ]);
    let mut all = vec![];
    while !run.is_completed() {
        let now = sent(run.submit_runnable());
        assert!(sent(run.submit_runnable()).is_empty());
        for (task, _) in now {
            assert!(!all.contains(&task));
            all.push(task);
            run.handle_output(WorkOutput::Succeeded(task));
        }
    }
    assert_eq!(all, vec![id(0), id(1), id(2), id(3), id(4)]);
    assert!(run.is_succeeded());
}

#[test]
fn an_empty_run_is_done_at_once() {
    let mut run = run_of(vec![]);
    assert!(run.is_completed());
    assert!(run.is_succeeded());
    assert!(run.submit_runnable().is_empty());
}
