use runr::worker::{fail, handle_status};
use runr::{Error, Task, TaskId, TaskIds, WorkOutput};

fn id(value: usize) -> TaskId {
    TaskId::try_from(value).unwrap()
}

fn command(name: &str) -> Task {
    Task::command(
        name.to_string(),
        "exit 0".to_string(),
        "image".to_string(),
        TaskIds::from(id(0)),
    )
}

fn failed(output: WorkOutput) -> (TaskId, String) {
    match output {
        WorkOutput::Failed(id, reason) => (id, reason),
        other => panic!("unexpected {other:?}"),
    }
}

#[test]
fn tasks_in_one_line() {
    assert_eq!(command("step-1").to_string(), "container  step-1");
    assert_eq!(Task::PullImage("img".to_string()).to_string(), "pull       img");
}

#[test]
fn exit_code_zero_is_success() {
    let (output, go_on) = handle_status(Ok(Some(0)), &command("step-1"), id(4));
    assert!(matches!(output, WorkOutput::Succeeded(done) if done == id(4)));
    assert!(go_on);
}

#[test]
fn another_exit_code_is_a_failure() {
    let (output, go_on) = handle_status(Ok(Some(42)), &command("step-1a"), id(1));
    assert_eq!(
        failed(output),
        (id(1), "container  step-1a exited with error code 42".to_string())
    );
    assert!(!go_on);
    let (output, go_on) = handle_status(Ok(Some(-9)), &command("step-1a"), id(1));
    assert_eq!(
        failed(output),
        (id(1), "container  step-1a exited with error code -9".to_string())
    );
    assert!(!go_on);
}

#[test]
fn no_exit_code_is_a_failure() {
    let pull = Task::PullImage("debian".to_string());
    let (output, go_on) = handle_status(Ok(None), &pull, id(0));
    assert_eq!(
        failed(output),
        (id(0), "pull       debian terminated unexpectedly".to_string())
    );
    assert!(!go_on);
}

#[test]
fn an_error_is_a_failure() {
    let error = Error::Io("No such file or directory (os error 2)".to_string());
    let (output, go_on) = handle_status(Err(error), &command("s"), id(3));
    assert_eq!(
        failed(output),
        (
            id(3),
            "container  s exited with an error No such file or directory (os error 2)".to_string()
        )
    );
    assert!(!go_on);
}

#[test]
fn a_failure_holds_task_and_reason() {
    assert_eq!(
        failed(fail(id(5), "why".to_string())),
        (id(5), "why".to_string())
    );
}
