use runr::{Error, Task, TaskId, TaskIds, WorkInput};

fn id(value: usize) -> TaskId {
    TaskId::try_from(value).unwrap()
}

#[test]
fn errors_in_words() {
    assert_eq!(
        Error::DependencyCycle(vec!["a".to_string(), "b".to_string()]).to_string(),
        "Dependency cycle containing the following tasks:\n  - a\n  - b"
    );
    assert_eq!(
        Error::DependencyCycle(vec![]).to_string(),
        "Dependency cycle containing the following tasks:"
    );
    assert_eq!(
        Error::DuplicateTask("step-1".to_string()).to_string(),
        "Task step-1 defined multiple times"
    );
    assert_eq!(
        Error::FailedTask(id(12), "it broke".to_string()).to_string(),
        "Task [12] failed:\nit broke"
    );
    assert_eq!(Error::Io("gone".to_string()).to_string(), "gone");
    assert_eq!(
        Error::TooManyTasks(256).to_string(),
        "Too many (256 > 255) tasks + images"
    );
    assert_eq!(
        Error::UndefinedTask("step-2".to_string()).to_string(),
        "Undefined task name 'step-2'"
    );
    assert_eq!(Error::Worker("stuck".to_string()).to_string(), "stuck");
}

#[test]
fn errors_of_the_channels() {
    let task = Task::command(
        "build".to_string(),
        "make".to_string(),
        "img".to_string(),
        TaskIds::default(),
    );
    assert_eq!(
        Error::send_failed(&WorkInput::Task(id(3), task)).to_string(),
        "Can't submit task [3] container  build"
    );
    assert_eq!(
        Error::send_failed(&WorkInput::Stop).to_string(),
        "Cant' send stop message"
    );
    assert_eq!(
        Error::receive_failed().to_string(),
        "Can't receive results from workers"
    );
    match Error::failed_task(id(2), "no".to_string()) {
        Error::FailedTask(task, reason) => assert_eq!((task, reason.as_str()), (id(2), "no")),
        other => panic!("unexpected {other:?}"),
    }
}

#[test]
fn an_unreadable_pipeline_is_an_input_error() {
    let broken = serde_yaml::from_str::<serde_yaml::Value>("tasks: [").unwrap_err();
    let shown = broken.to_string();
    assert!(!shown.is_empty());
    match Error::from(broken) {
        Error::Io(message) => assert_eq!(message, shown),
        other => panic!("unexpected {other:?}"),
    }
}

#[test]
fn an_input_error_keeps_its_message() {
    let missing = std::io::Error::other("no such pipeline");
    match Error::from(missing) {
        Error::Io(message) => assert_eq!(message, "no such pipeline"),
        other => panic!("unexpected {other:?}"),
    }
}
