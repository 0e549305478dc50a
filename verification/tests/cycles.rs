use runr::pipeline::task_name::TaskNames;
use runr::pipeline::{check_cycles, position};
use runr::{Error, Pipeline, RawPipeline, RawTask, Task, TaskId, TaskIds};

fn id(value: usize) -> TaskId {
    TaskId::try_from(value).unwrap()
}

fn ids(values: &[usize]) -> TaskIds {
    let ids: Vec<TaskId> = values.iter().map(|i| id(*i)).collect();
    TaskIds::from_ids(&ids)
}

fn command(name: usize, depends: &[usize]) -> (TaskId, Task) {
    (
        id(name),
        Task::command(
            format!("task-{name}"),
            String::new(),
            String::new(),
            ids(depends),
        ),
    )
}

fn raw(name: &str, image: Option<&str>, depends: &[&str]) -> RawTask {
    RawTask {
        name: name.to_string(),
        commands: String::new(),
        image: image.map(str::to_string),
        depends: Some(depends.iter().map(|d| d.to_string()).collect()),
    }
}

#[test]
fn a_graph_without_cycles_has_none() {
    assert_eq!(check_cycles(&vec![]), None);
    let tasks = vec![
        command(0, &[1, 2]),
        command(1, &[3]),
        command(2, &[3]),
        command(3, &[]),
    ];
    assert_eq!(check_cycles(&tasks), None);
}

#[test]
fn the_way_into_a_cycle_is_returned_with_it() {
    // 0 -> 1 -> 2 -> 3 -> 2
    let tasks = vec![
        command(0, &[1]),
        command(1, &[2]),
        command(2, &[3]),
        command(3, &[2]),
    ];
    assert_eq!(check_cycles(&tasks), Some(ids(&[0, 1, 2, 3])));
    // walking from 2 first: only the cycle
    let tasks = vec![
        command(2, &[3]),
        command(3, &[2]),
        command(0, &[1]),
        command(1, &[2]),
    ];
    assert_eq!(check_cycles(&tasks), Some(ids(&[2, 3])));
}

#[test]
fn of_two_cycles_the_one_that_is_met_first_is_returned() {
    // 0 depends on 4 and 1; 1 <-> 2; 4 <-> 5: dependencies are followed in
    // ascending order, so 1 <-> 2 is met first
    let tasks = vec![
        command(0, &[4, 1]),
        command(1, &[2]),
        command(2, &[1]),
        command(4, &[5]),
        command(5, &[4]),
    ];
    assert_eq!(check_cycles(&tasks), Some(ids(&[0, 1, 2])));
}

#[test]
fn a_task_that_depends_on_itself_is_a_cycle() {
    assert_eq!(check_cycles(&vec![command(7, &[7])]), Some(ids(&[7])));
}

#[test]
fn a_dependency_on_255_is_not_followed() {
    let tasks = vec![command(255, &[255])];
    assert_eq!(check_cycles(&tasks), None);
    let tasks = vec![command(254, &[255]), command(255, &[254])];
    assert_eq!(check_cycles(&tasks), None);
}

#[test]
fn entries_are_found_by_their_identifier() {
    let tasks = vec![command(4, &[]), command(2, &[]), command(9, &[])];
    assert_eq!(position(&tasks, id(4)), Some(0));
    assert_eq!(position(&tasks, id(9)), Some(2));
    assert_eq!(position(&tasks, id(3)), None);
}

#[test]
fn names_get_identifiers_in_the_order_in_which_they_are_met() {
    let tasks = vec![
        raw("a", None, &[]),
        raw("b", Some("other"), &[]),
        raw("c", None, &[]),
        raw("d", Some("other"), &[]),
    ];
    let names = TaskNames::from_tasks(&tasks, Some("default")).unwrap();
    assert_eq!(names.get_image_id("default").unwrap(), id(0));
    assert_eq!(names.get_task_id("a").unwrap(), id(1));
    assert_eq!(names.get_image_id("other").unwrap(), id(2));
    assert_eq!(names.get_task_id("b").unwrap(), id(3));
    assert_eq!(names.get_task_id("c").unwrap(), id(4));
    assert_eq!(names.get_task_id("d").unwrap(), id(5));
    match names.get_task_id("default") {
        Err(Error::UndefinedTask(name)) => assert_eq!(name, "default"),
        other => panic!("unexpected {other:?}"),
    }
    match names.get_image_id("a") {
        Err(Error::UndefinedTask(name)) => assert_eq!(name, "pull 'a'"),
        other => panic!("unexpected {other:?}"),
    }
}

#[test]
fn a_task_without_any_image_brings_no_pull() {
    let tasks = vec![raw("a", None, &[]), raw("b", Some("img"), &[])];
    let names = TaskNames::from_tasks(&tasks, None).unwrap();
    assert_eq!(names.get_task_id("a").unwrap(), id(0));
    assert_eq!(names.get_image_id("img").unwrap(), id(1));
    assert_eq!(names.get_task_id("b").unwrap(), id(2));
}

#[test]
fn a_task_and_an_image_may_share_a_name() {
    let tasks = vec![raw("debian", Some("debian"), &["debian"])];
    let pipeline = Pipeline::from_raw(RawPipeline::new(None, None, tasks), "x", 1);
    match pipeline {
        Err(Error::DependencyCycle(names)) => assert_eq!(names, vec!["debian"]),
        other => panic!("unexpected {other:?}"),
    }
}

fn many(n: usize) -> Vec<RawTask> {
    (0..n).map(|i| raw(&format!("t{i}"), None, &[])).collect()
}

#[test]
fn there_are_identifiers_for_255_tasks_and_images() {
    let pipeline = Pipeline::from_raw(RawPipeline::new(None, None, many(254)), "img", 1).unwrap();
    assert_eq!(pipeline.tasks().len(), 255);
    assert_eq!(pipeline.tasks()[254].0, id(254));
    assert_eq!(
        pipeline.tasks()[254].1,
        Task::command("t253".to_string(), String::new(), "img".to_string(), ids(&[0]))
    );
}

#[test]
fn one_task_more_is_too_many() {
    match Pipeline::from_raw(RawPipeline::new(None, None, many(255)), "img", 1) {
        Err(Error::TooManyTasks(n)) => assert_eq!(n, 256),
        other => panic!("unexpected {other:?}"),
    }
    // too many comes before a name that is taken, where it is met first
    let mut tasks = many(255);
    tasks.push(raw("t0", None, &[]));
    match RawPipeline::new(None, None, tasks).tasks("img") {
        Err(Error::TooManyTasks(n)) => assert_eq!(n, 256),
        other => panic!("unexpected {other:?}"),
    }
    let mut tasks = many(200);
    tasks.push(raw("t0", None, &[]));
    tasks.extend(many(100));
    match RawPipeline::new(None, None, tasks).tasks("img") {
        Err(Error::DuplicateTask(name)) => assert_eq!(name, "t0"),
        other => panic!("unexpected {other:?}"),
    }
}

#[test]
fn a_name_that_is_taken_comes_before_a_name_that_is_missing() {
    let tasks = vec![
        raw("a", None, &["nowhere"]),
        raw("b", None, &[]),
        raw("a", None, &[]),
    ];
    match RawPipeline::new(None, None, tasks).tasks("img") {
        Err(Error::DuplicateTask(name)) => assert_eq!(name, "a"),
        other => panic!("unexpected {other:?}"),
    }
}

#[test]
fn a_name_that_is_missing_comes_before_a_cycle() {
    let tasks = vec![raw("a", None, &["a"]), raw("b", None, &["nowhere"])];
    match Pipeline::from_raw(RawPipeline::new(None, None, tasks), "img", 1) {
        Err(Error::UndefinedTask(name)) => assert_eq!(name, "nowhere"),
        other => panic!("unexpected {other:?}"),
    }
}

#[test]
fn the_number_of_workers() {
    let with = |n| RawPipeline::new(None, n, vec![]);
    assert_eq!(with(None).n_parallel(8), 1);
    assert_eq!(with(Some(0)).n_parallel(8), 8);
    assert_eq!(with(Some(3)).n_parallel(8), 3);
    assert_eq!(Pipeline::from_raw(with(Some(0)), "", 5).unwrap().n_parallel(), 5);
}

#[test]
fn the_default_image_of_the_pipeline_comes_before_the_one_handed_in() {
    let tasks = vec![raw("a", None, &[]), raw("b", Some("own"), &["a"])];
    let pipeline =
        Pipeline::from_raw(RawPipeline::new(Some("img77".to_string()), None, tasks), "IMAGE", 1)
            .unwrap();
    let expected = vec![
        (id(0), Task::PullImage("img77".to_string())),
        (
            id(1),
            Task::command("a".to_string(), String::new(), "img77".to_string(), ids(&[0])),
        ),
        (id(2), Task::PullImage("own".to_string())),
        (
            id(3),
            Task::command("b".to_string(), String::new(), "own".to_string(), ids(&[1, 2])),
        ),
    ];
    assert_eq!(pipeline.tasks(), &expected);
    assert_eq!(pipeline.tasks()[0].1.depends(), TaskIds::default());
    assert_eq!(pipeline.tasks()[3].1.depends(), ids(&[1, 2]));
}
