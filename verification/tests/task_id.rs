use runr::{TaskId, TaskIds};

fn id(value: usize) -> TaskId {
    TaskId::try_from(value).unwrap()
}

#[test]
pub fn task_id_to_ids_is_bijective() {
    for pos in 0..255 {
        let id = TaskId::try_from(pos).unwrap();
        let ids = TaskIds::from(id);
        assert_eq!(vec![id], ids.ids())
    }
}

#[test]
pub fn task_ids_add_or_not_work() {
    let ids = [TaskId::try_from(13).unwrap(), TaskId::try_from(1).unwrap()];
    let task_ids1: TaskIds = TaskIds::from_ids(&ids);
    let new_id = TaskId::try_from(99).unwrap();
    let task_ids2: TaskIds = TaskIds::from_ids(&[ids[0], ids[1], new_id]);
    assert_eq!(task_ids1 | TaskIds::from(new_id), task_ids2);
    assert_eq!(task_ids1, task_ids2 & !TaskIds::from(new_id));
}

#[test]
pub fn iterating_over_ids_and_collecting_is_no_op() {
    let ids = [
        TaskId::try_from(81).unwrap(),
        TaskId::try_from(13).unwrap(),
        TaskId::try_from(240).unwrap(),
        TaskId::try_from(127).unwrap(),
    ];
    let task_ids: TaskIds = TaskIds::from_ids(&ids);
    assert_eq!(task_ids.ids().len(), ids.len());
    assert_eq!(TaskIds::from_ids(&task_ids.ids()), task_ids);
}

#[test]
fn ids_come_in_ascending_order() {
    let task_ids = TaskIds::from_ids(&[id(81), id(13), id(240), id(127), id(0), id(128)]);
    assert_eq!(
        task_ids.ids(),
        vec![id(0), id(13), id(81), id(127), id(128), id(240)]
    );
}

#[test]
fn identifier_255_is_a_member_but_never_listed() {
    let last = TaskIds::from(id(255));
    assert!(!last.is_empty());
    assert!(last.contains(id(255)));
    assert_eq!(last.ids(), Vec::<TaskId>::new());
    assert_ne!(TaskIds::from_ids(&last.ids()), last);
}

#[test]
fn identifier_254_is_the_last_one_listed() {
    assert_eq!(TaskIds::from(id(254)).ids(), vec![id(254)]);
}

#[test]
fn try_from_rejects_what_does_not_fit() {
    assert!(TaskId::try_from(255).is_ok());
    match TaskId::try_from(256) {
        Err(runr::Error::TooManyTasks(n)) => assert_eq!(n, 256),
        other => panic!("unexpected {other:?}"),
    }
    match TaskId::try_from(70000) {
        Err(runr::Error::TooManyTasks(n)) => assert_eq!(n, 70000),
        other => panic!("unexpected {other:?}"),
    }
}

#[test]
fn fetch_incr_hands_out_255_identifiers() {
    let mut next = TaskId::first();
    for expected in 0..255 {
        assert_eq!(next.fetch_incr().unwrap(), id(expected));
    }
    assert_eq!(next, id(255));
    match next.fetch_incr() {
        Err(runr::Error::TooManyTasks(n)) => assert_eq!(n, 256),
        other => panic!("unexpected {other:?}"),
    }
    assert_eq!(next, id(255));
}

#[test]
fn set_algebra_on_both_lanes() {
    let a = TaskIds::from_ids(&[id(3), id(130), id(200)]);
    let b = TaskIds::from_ids(&[id(130), id(7)]);
    assert_eq!(a | TaskIds::default(), a);
    assert!((a & !a).is_empty());
    assert_eq!((a | b) & !b, TaskIds::from_ids(&[id(3), id(200)]));
    assert_eq!(a & b, TaskIds::from(id(130)));
    assert_eq!((a | b).ids(), vec![id(3), id(7), id(130), id(200)]);
    assert!(TaskIds::default().is_empty());
    assert!((!TaskIds::default()).contains(id(255)));
    let mut c = a;
    c |= b;
    assert_eq!(c, a | b);
    c &= b;
    assert_eq!(c, b);
}

#[test]
fn identifiers_and_sets_in_words() {
    assert_eq!(id(0).to_string(), "0");
    assert_eq!(id(9).to_string(), "9");
    assert_eq!(id(10).to_string(), "10");
    assert_eq!(id(255).to_string(), "255");
    assert_eq!(TaskIds::default().to_string(), "[]");
    assert_eq!(TaskIds::from(id(7)).to_string(), "[7]");
    assert_eq!(
        TaskIds::from_ids(&[id(200), id(3), id(13)]).to_string(),
        "[3,13,200]"
    );
    assert_eq!(TaskIds::from(id(255)).to_string(), "[]");
}
