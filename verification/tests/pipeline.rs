use runr::{Error, Pipeline, RawPipeline, RawTask, Task, TaskId, TaskIds};

fn text(value: &serde_yaml::Value) -> String {
    match value {
        serde_yaml::Value::String(s) => s.clone(),
        other => panic!("not a string: {other:?}"),
    }
}

fn field<'a>(value: &'a serde_yaml::Value, name: &str) -> Option<&'a serde_yaml::Value> {
    match value.get(name) {
        None | Some(serde_yaml::Value::Null) => None,
        found => found,
    }
}

/// Reads a task the way the pipeline file is read: `name` and `commands` are
/// required, `image` and `depends` may be left out.
fn raw_task(value: &serde_yaml::Value) -> RawTask {
    RawTask {
        name: text(value.get("name").expect("name")),
        commands: text(value.get("commands").expect("commands")),
        image: field(value, "image").map(text),
        depends: field(value, "depends")
            .map(|names| names.as_sequence().expect("list").iter().map(text).collect()),
    }
}

fn raw_task_from(yaml: &str) -> RawTask {
    raw_task(&serde_yaml::from_str::<serde_yaml::Value>(yaml).unwrap())
}

fn raw_pipeline(yaml: &str) -> RawPipeline {
    let value: serde_yaml::Value = serde_yaml::from_str(yaml).unwrap();
    let tasks = match field(&value, "tasks") {
        Some(tasks) => tasks
            .as_sequence()
            .expect("list")
            .iter()
            .map(raw_task)
            .collect(),
        None => vec![],
    };
    RawPipeline::new(
        field(&value, "default_image").map(text),
        field(&value, "n_parallel").map(|n| n.as_u64().expect("number") as usize),
        tasks,
    )
}

fn ids(values: &[usize]) -> TaskIds {
    let ids: Vec<TaskId> = values
        .iter()
        .map(|i| TaskId::try_from(*i).unwrap())
        .collect();
    TaskIds::from_ids(&ids)
}

fn numbered(tasks: Vec<Task>) -> Vec<(TaskId, Task)> {
    tasks
        .into_iter()
        .enumerate()
        .map(|(i, t)| (TaskId::try_from(i).unwrap(), t))
        .collect()
}

#[test]
fn parse_simple() {
    let task_yaml = r#"
            name: "test"
            image: image
            commands: echo cmd && echo moi
            depends: ["step0", "step1"]
        "#;
    let task: RawTask = raw_task_from(task_yaml);
    let task_exp = RawTask {
        name: String::from("test"),
        commands: String::from("echo cmd && echo moi"),
        image: Some(String::from("image")),
        depends: Some(vec![String::from("step0"), String::from("step1")]),
    };
    assert_eq!(task, task_exp)
}

#[test]
fn parse_literal_style() {
    let task_yaml = r#"
            name: this is a name
            commands: |
              cmd
              exit 0
        "#;
    let task: RawTask = raw_task_from(task_yaml);
    let task_exp = RawTask {
        name: String::from("this is a name"),
        commands: String::from("cmd\nexit 0\n"),
        image: None,
        depends: None,
    };
    assert_eq!(task, task_exp)
}

#[test]
fn parse_empty() {
    let yaml = "tasks:";
    let raw_tasks: RawPipeline = raw_pipeline(yaml);
    let raw_tasks_exp = RawPipeline::new(None, None, vec![]);
    assert_eq!(raw_tasks, raw_tasks_exp)
}

#[test]
fn parse_two_raw_tasks() {
    let yaml = r#"
        default_image: "default-image"
        tasks:
        - commands: |
            echo
            exit 0
          name: "step-1"
          depends: []
        - image: "image0"
          commands: echo n
          name: n
          depends:
            - "step-0"
            - "step-1"
        n_parallel: 77
        "#;
    let raw_tasks: RawPipeline = raw_pipeline(yaml);

    let task1 = RawTask {
        name: String::from("step-1"),
        commands: String::from("echo\nexit 0\n"),
        image: None,
        depends: Some(vec![]),
    };
    let task2 = RawTask {
        name: String::from("n"),
        commands: String::from("echo n"),
        image: Some(String::from("image0")),
        depends: Some(vec![String::from("step-0"), String::from("step-1")]),
    };
    let tasks_exp = RawPipeline::new(
        Some(String::from("default-image")),
        Some(77),
        vec![task1, task2],
    );
    assert_eq!(raw_tasks, tasks_exp)
}

#[test]
fn invalid_deps() {
    let yaml = r#"
        tasks:
        - commands: cmd
          name: "step-1"
          depends: ["step-2"]
        "#;
    let raw_tasks: RawPipeline = raw_pipeline(yaml);
    assert!(raw_tasks.tasks("image").is_err());
}

#[test]
fn invalid_deps_name_the_missing_task() {
    let yaml = r#"
        tasks:
        - commands: cmd
          name: "step-1"
          depends: ["step-1", "step-2", "step-3"]
        "#;
    match raw_pipeline(yaml).tasks("image") {
        Err(Error::UndefinedTask(name)) => assert_eq!(name, "step-2"),
        other => panic!("unexpected {other:?}"),
    }
}

#[test]
fn duplicate_names() {
    let yaml = r#"
        tasks:
        - commands: cmd
          name: "step-1"
        - commands: cmd2
          name: "step-1"
        "#;
    let raw_tasks: RawPipeline = raw_pipeline(yaml);
    assert!(raw_tasks.tasks("imagez").is_err());
}

#[test]
fn duplicate_names_name_the_task() {
    let yaml = r#"
        tasks:
        - commands: cmd
          name: "step-1"
        - commands: cmd2
          name: "step-1"
          depends: ["nowhere"]
        "#;
    match raw_pipeline(yaml).tasks("imagez") {
        Err(Error::DuplicateTask(name)) => assert_eq!(name, "step-1"),
        other => panic!("unexpected {other:?}"),
    }
}

#[test]
fn parse_empty_pipeline() {
    let yaml = "tasks:";
    let raw_tasks: RawPipeline = raw_pipeline(yaml);
    let pipeline = Pipeline::from_raw(raw_tasks, "", 4).unwrap();
    assert_eq!(pipeline.tasks(), &Vec::new());
    assert_eq!(pipeline.n_parallel(), 1);
}

#[test]
fn parse_two_task_pipeline() {
    let yaml = r#"
        n_parallel: 9
        tasks:
        - commands: |
            echo
            exit 0
          name: "step-1"
          depends: []
        - image: "image0"
          commands: echo n
          name: n
          depends: ["step-1"]
        "#;
    let img0 = "DEFAULT";
    let raw_tasks: RawPipeline = raw_pipeline(yaml);
    let pipeline = Pipeline::from_raw(raw_tasks, img0, 4).unwrap();

    let task0 = Task::PullImage(String::from(img0));
    let task1 = Task::CommandLine {
        name: String::from("step-1"),
        commands: String::from("echo\nexit 0\n"),
        image: String::from(img0),
        depends: ids(&[0]),
    };
    let task2 = Task::PullImage(String::from("image0"));
    let task3 = Task::CommandLine {
        name: String::from("n"),
        commands: String::from("echo n"),
        image: String::from("image0"),
        depends: ids(&[1, 2]),
    };
    let tasks = numbered(vec![task0, task1, task2, task3]);
    assert_eq!(pipeline.tasks(), &tasks);
    assert_eq!(pipeline.n_parallel(), 9);
}

#[test]
fn two_task_pipeline_with_default_image() {
    let yaml = r#"
        default_image: img77
        n_parallel: 0
        tasks:
        - commands: |
            echo
            exit 0
          name: "step-1"
          depends: []
        - commands: echo n
          name: n
          depends: ["step-1"]
        "#;
    let img = "IMAGE";
    let raw_tasks: RawPipeline = raw_pipeline(yaml);
    let pipeline = Pipeline::from_raw(raw_tasks, img, 6).unwrap();

    let task0 = Task::PullImage(String::from("img77"));
    let task1 = Task::CommandLine {
        name: String::from("step-1"),
        commands: String::from("echo\nexit 0\n"),
        image: String::from("img77"),
        depends: ids(&[0]),
    };
    let task2 = Task::CommandLine {
        name: String::from("n"),
        commands: String::from("echo n"),
        image: String::from("img77"),
        depends: ids(&[0, 1]),
    };

    let tasks = numbered(vec![task0, task1, task2]);
    assert_eq!(pipeline.tasks(), &tasks);
    assert_eq!(pipeline.n_parallel(), 6);
}

#[test]
fn cycle1() {
    let yaml = r#"
        tasks:
        - commands: cmd
          name: "self"
          depends: ["self"]
        "#;
    let raw_tasks: RawPipeline = raw_pipeline(yaml);
    assert!(Pipeline::from_raw(raw_tasks, "img", 4).is_err());
}

#[test]
fn cycle1_names_the_task() {
    let yaml = r#"
        tasks:
        - commands: cmd
          name: "self"
          depends: ["self"]
        "#;
    match Pipeline::from_raw(raw_pipeline(yaml), "img", 4) {
        Err(Error::DependencyCycle(names)) => assert_eq!(names, vec!["self".to_string()]),
        other => panic!("unexpected {other:?}"),
    }
}

#[test]
fn longer_cycle() {
    let yaml = r#"
        tasks:
        - commands: cmd1
          name: "step-1"
          depends: ["step-2"]
        - commands: cmd2
          name: step-2
          depends: ["step-3"]
        - commands: cmd3
          name: step-3
          depends: ["step-4", "step-5"]
        - commands: cmd5
          name: step-5
        - commands: cmd4
          name: step-4
          depends: ["step-1"]
        "#;
    let raw_tasks: RawPipeline = raw_pipeline(yaml);
    assert!(Pipeline::from_raw(raw_tasks, "img", 4).is_err());
}

#[test]
fn longer_cycle_names_the_four_tasks() {
    let yaml = r#"
        tasks:
        - commands: cmd1
          name: "step-1"
          depends: ["step-2"]
        - commands: cmd2
          name: step-2
          depends: ["step-3"]
        - commands: cmd3
          name: step-3
          depends: ["step-4", "step-5"]
        - commands: cmd5
          name: step-5
        - commands: cmd4
          name: step-4
          depends: ["step-1"]
        "#;
    match Pipeline::from_raw(raw_pipeline(yaml), "img", 4) {
        Err(Error::DependencyCycle(names)) => {
            assert_eq!(names, vec!["step-1", "step-2", "step-3", "step-4"])
        }
        other => panic!("unexpected {other:?}"),
    }
}
