use runr::{Status, TaskId, TaskIds};

fn ids_of(values: &[usize]) -> TaskIds {
    let ids: Vec<TaskId> = values
        .iter()
        .map(|i| TaskId::try_from(*i).unwrap())
        .collect();
    TaskIds::from_ids(&ids)
}

#[test]
pub fn status_works() {
    let tasks = [
        ids_of(&[3]),
        ids_of(&[0, 2]),
        TaskIds::default(),
        TaskIds::default(),
    ];
    let tasks = tasks
        .into_iter()
        .enumerate()
        .map(|(i, ids)| (TaskId::try_from(i).unwrap(), ids))
        .collect();
    let mut status = Status::new(tasks);

    // Two tasks can be started (as they have no dependencies).
    assert_eq!(status.next_runnable(), Some(TaskId::try_from(2).unwrap()));
    assert_eq!(status.next_runnable(), Some(TaskId::try_from(3).unwrap()));
    assert_eq!(status.next_runnable(), None);
    assert!(!status.is_completed());

    status.complete(TaskId::try_from(2).unwrap());
    // still no new tasks cannot be started
    assert_eq!(status.next_runnable(), None);
    status.complete(TaskId::try_from(3).unwrap());

    // task 2 completed => 0 can be started and the run can be completed
    assert_eq!(status.next_runnable(), Some(TaskId::try_from(0).unwrap()));
    assert_eq!(status.next_runnable(), None);
    assert!(!status.is_completed());
    status.complete(TaskId::try_from(0).unwrap());

    // do final task
    assert!(status.next_runnable().is_some());
    status.complete(TaskId::try_from(1).unwrap());

    // done
    assert!(status.is_completed());
}

fn id(value: usize) -> TaskId {
    TaskId::try_from(value).unwrap()
}

fn diamond() -> Status {
    // 0 and 1 are free, 2 needs both, 3 needs 2
    Status::new(vec![
        (id(0), TaskIds::default()),
        (id(1), TaskIds::default()),
        (id(2), ids_of(&[0, 1])),
        (id(3), ids_of(&[2])),
    ])
}

fn assert_partition(status: &Status, all: TaskIds) {
    let new = status.new_ids();
    let running = status.in_progress();
    let done = status.completed();
    assert!((new & running).is_empty());
    assert!((new & done).is_empty());
    assert!((running & done).is_empty());
    assert_eq!(new | running | done, all);
}

#[test]
fn waiting_running_and_done_split_the_tasks_at_every_step() {
    let all = ids_of(&[0, 1, 2, 3]);
    let mut status = diamond();
    assert_partition(&status, all);
    while !status.is_completed() {
        let mut started = vec![];
        while let Some(next) = status.next_runnable() {
            assert_partition(&status, all);
            started.push(next);
        }
        assert!(!started.is_empty());
        for done in started {
            status.complete(done);
            assert_partition(&status, all);
        }
    }
    assert_eq!(status.completed(), all);
}

#[test]
fn a_task_starts_only_after_its_dependencies_are_done() {
    let mut status = diamond();
    assert_eq!(status.next_runnable(), Some(id(0)));
    assert_eq!(status.next_runnable(), Some(id(1)));
    assert_eq!(status.next_runnable(), None);
    status.complete(id(0));
    assert_eq!(status.next_runnable(), None);
    status.complete(id(1));
    assert!(status.completed().contains(id(0)) && status.completed().contains(id(1)));
    assert_eq!(status.next_runnable(), Some(id(2)));
    assert_eq!(status.next_runnable(), None);
    status.complete(id(2));
    assert_eq!(status.next_runnable(), Some(id(3)));
}

#[test]
fn no_task_starts_twice() {
    let mut status = diamond();
    let mut started = vec![];
    for _ in 0..10 {
        while let Some(next) = status.next_runnable() {
            assert!(!started.contains(&next));
            started.push(next);
        }
        for done in started.clone() {
            status.complete(done);
        }
    }
    assert_eq!(started, vec![id(0), id(1), id(2), id(3)]);
}

#[test]
fn what_is_done_stays_done() {
    let mut status = diamond();
    status.next_runnable();
    status.complete(id(0));
    let mut done = status.completed();
    for _ in 0..4 {
        if let Some(next) = status.next_runnable() {
            assert_eq!(status.completed() & done, done);
            status.complete(next);
        }
        assert_eq!(status.completed() & done, done);
        done = status.completed();
    }
    assert_eq!(done, ids_of(&[0, 1, 2, 3]));
}

#[test]
fn tasks_that_are_ready_together_start_in_the_order_in_which_they_wait() {
    let mut status = Status::new(vec![
        (id(0), TaskIds::default()),
        (id(1), TaskIds::default()),
        (id(2), TaskIds::default()),
        (id(3), TaskIds::default()),
    ]);
    assert_eq!(status.next_runnable(), Some(id(0)));
    assert_eq!(status.next_runnable(), Some(id(1)));
    assert_eq!(status.next_runnable(), Some(id(2)));
    assert_eq!(status.next_runnable(), Some(id(3)));
    assert_eq!(status.next_runnable(), None);
}

#[test]
fn of_three_free_tasks_the_second_starts_second() {
    let mut status = Status::new(vec![
        (id(0), TaskIds::default()),
        (id(1), TaskIds::default()),
        (id(2), TaskIds::default()),
    ]);
    assert_eq!(status.next_runnable(), Some(id(0)));
    assert_eq!(status.next_runnable(), Some(id(1)));
    assert_eq!(status.next_runnable(), Some(id(2)));
}

#[test]
fn a_task_that_waits_longer_keeps_its_place_before_those_behind_it() {
    // 1 and 4 need 0, 3 needs 1, 2 is free: 0 and 2 start, then 1 and 4
    let mut status = Status::new(vec![
        (id(0), TaskIds::default()),
        (id(1), ids_of(&[0])),
        (id(2), TaskIds::default()),
        (id(3), ids_of(&[1])),
        (id(4), ids_of(&[0])),
    ]);
    assert_eq!(status.next_runnable(), Some(id(0)));
    assert_eq!(status.next_runnable(), Some(id(2)));
    assert_eq!(status.next_runnable(), None);
    status.complete(id(0));
    assert_eq!(status.next_runnable(), Some(id(1)));
    assert_eq!(status.next_runnable(), Some(id(4)));
    assert_eq!(status.next_runnable(), None);
}

#[test]
fn an_empty_run_is_completed() {
    let mut status = Status::new(vec![]);
    assert!(status.is_completed());
    assert_eq!(status.next_runnable(), None);
}

#[test]
fn a_dependency_that_never_completes_keeps_a_task_waiting() {
    let mut status = Status::new(vec![(id(0), ids_of(&[9]))]);
    assert_eq!(status.next_runnable(), None);
    assert!(!status.is_completed());
    status.complete(id(9));
    assert_eq!(status.next_runnable(), Some(id(0)));
}

#[test]
fn status_in_words() {
    let mut status = diamond();
    assert_eq!(status.to_string(), "");
    status.next_runnable();
    status.next_runnable();
    assert_eq!(status.to_string(), "Ongoing tasks:   [0,1]\n");
    status.complete(id(1));
    assert_eq!(
        status.to_string(),
        "Ongoing tasks:   [0]\nCompleted tasks: [1]"
    );
    status.complete(id(0));
    status.next_runnable();
    status.complete(id(2));
    status.next_runnable();
    assert_eq!(
        status.to_string(),
        "Unstarted tasks: []\nOngoing tasks:   [3]\nCompleted tasks: [0,1,2]"
    );
    status.complete(id(3));
    assert_eq!(
        status.to_string(),
        "Unstarted tasks: []\nCompleted tasks: [0,1,2,3] (done)"
    );
    assert_eq!(Status::new(vec![]).to_string(), "Unstarted tasks: []\n (done)");
}
