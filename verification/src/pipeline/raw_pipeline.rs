//! A pipeline as it is written in a pipeline file.

use super::raw_task::{raw_view, RawTask, RawTaskView};
use super::task_name::{names_after, naming_error, TaskNameView, TaskNames};
use super::{position, Task, TaskId, TaskIds, TaskView};
use crate::err::{ErrorView, Result};
use vstd::prelude::*;
use vstd::string::StringExecFns;

verus! {

/// Pipeline that is simply read from the input as is.
/// This is further checked for undefined dependencies, cycles etc. and
/// transformed into [`super::Pipeline`] that is run.
#[derive(Debug, PartialEq)]
pub struct RawPipeline {
    default_image: Option<String>,
    n_parallel: Option<usize>,
    tasks: Vec<RawTask>,
}

/// A [`RawPipeline`] as plain values.
pub struct RawPipelineView {
    pub default_image: Option<Seq<char>>,
    pub n_parallel: Option<usize>,
    pub tasks: Seq<RawTaskView>,
}

impl View for RawPipeline {
    type V = RawPipelineView;

    closed spec fn view(&self) -> RawPipelineView {
        RawPipelineView {
            default_image: match self.default_image {
                Some(image) => Some(image@),
                None => None,
            },
            n_parallel: self.n_parallel,
            tasks: raw_view(self.tasks@),
        }
    }
}

/// Identifiers and tasks as plain values.
pub open spec fn tasks_view(tasks: Seq<(TaskId, Task)>) -> Seq<(u8, TaskView)> {
    tasks.map_values(|entry: (TaskId, Task)| (entry.0@, entry.1@))
}

/// The identifiers of the tasks that `deps` names.
pub open spec fn dependency_ids(names: Seq<TaskNameView>, deps: Seq<Seq<char>>) -> Set<u8> {
    Set::new(
        |id: u8|
            exists|d: int|
                0 <= d < deps.len() && names.index_of(TaskNameView::Task(#[trigger] deps[d]))
                    == id as int,
    )
}

/// Tasks as validation leaves them: at most 255, each with its position as
/// identifier, depending only on tasks that are there, and every command
/// depending on the pull of its image.
pub open spec fn well_formed(tasks: Seq<(u8, TaskView)>) -> bool {
    &&& tasks.len() <= 255
    &&& forall|i: int| 0 <= i < tasks.len() ==> (#[trigger] tasks[i]).0 == i
    &&& forall|i: int, x: u8|
        0 <= i < tasks.len() && #[trigger] tasks[i].1.depends().contains(x) ==> x < tasks.len()
    &&& forall|i: int|
        0 <= i < tasks.len() ==> ((#[trigger] tasks[i]).1 matches TaskView::CommandLine {
            image,
            depends,
            ..
        } ==> exists|j: int|
            0 <= j < tasks.len() && depends.contains(j as u8) && (#[trigger] tasks[j]).1
                == TaskView::PullImage(image))
}

/// What task `t` becomes, given the names of all tasks and images and the
/// image of the tasks that name none: its dependencies are identifiers, the
/// pull of its image among them.
pub open spec fn command_view(
    raw: Seq<RawTaskView>,
    default_image: Seq<char>,
    names: Seq<TaskNameView>,
    t: int,
) -> TaskView {
    let image = image_view(raw, default_image, t);
    TaskView::CommandLine {
        name: raw[t].name,
        commands: raw[t].commands,
        image,
        depends: dependency_ids(names, raw[t].dependencies()).insert(
            names.index_of(TaskNameView::Image(image)) as u8,
        ),
    }
}

/// The image that task `t` runs in: its own, or else the default.
pub open spec fn image_view(raw: Seq<RawTaskView>, default_image: Seq<char>, t: int) -> Seq<char> {
    match raw[t].image {
        Some(image) => image,
        None => default_image,
    }
}

/// Whether every dependency of the first `t` tasks names a task.
spec fn defined_upto(raw: Seq<RawTaskView>, names: Seq<TaskNameView>, t: int) -> bool {
    forall|u: int, d: int|
        0 <= u < t && 0 <= d < raw[u].dependencies().len() ==> names.contains(
            TaskNameView::Task(#[trigger] raw[u].dependencies()[d]),
        )
}

/// Whether `result` holds what the first `t` tasks stand for.
#[verifier::opaque]
spec fn built_upto(
    raw: Seq<RawTaskView>,
    default_image: Seq<char>,
    names: Seq<TaskNameView>,
    t: int,
    result: Seq<(u8, TaskView)>,
) -> bool {
    &&& result.len() == names_after(raw, Some(default_image), t as nat).len()
    &&& result.len() <= names.len()
    &&& forall|i: int| 0 <= i < result.len() ==> (#[trigger] result[i]).0 == i
    &&& forall|i: int|
        0 <= i < result.len() ==> (#[trigger] names[i] matches TaskNameView::Image(image)
            ==> result[i].1 == TaskView::PullImage(image))
    &&& forall|u: int|
        0 <= u < t ==> 0 <= names.index_of(TaskNameView::Task(#[trigger] raw[u].name))
            < result.len() && result[names.index_of(TaskNameView::Task(raw[u].name))].1
            == command_view(
            raw,
            default_image,
            names,
            u,
        )
    &&& forall|i: int, x: u8|
        0 <= i < result.len() && #[trigger] result[i].1.depends().contains(x) ==> x < names.len()
    &&& forall|i: int|
        0 <= i < result.len() ==> ((#[trigger] result[i]).1 matches TaskView::CommandLine {
            image,
            depends,
            ..
        } ==> exists|j: int|
            0 <= j < result.len() && depends.contains(j as u8) && (#[trigger] result[j]).1
                == TaskView::PullImage(image))
}

impl RawPipelineView {
    /// The image of the tasks that name none: the pipeline's own default, or
    /// else the one that is handed in.
    pub open spec fn image(self, default_image: Seq<char>) -> Seq<char> {
        match self.default_image {
            Some(image) => image,
            None => default_image,
        }
    }

    /// The names of all tasks and images, in the order of their identifiers.
    pub open spec fn names(self, default_image: Seq<char>) -> Seq<TaskNameView> {
        names_after(self.tasks, Some(self.image(default_image)), self.tasks.len())
    }

    /// What is wrong with the names of the tasks, or with their number.
    pub open spec fn naming_error(self, default_image: Seq<char>) -> Option<ErrorView> {
        naming_error(self.tasks, Some(self.image(default_image)), self.tasks.len())
    }

    /// Whether dependency `d` of task `t` names no task.
    pub open spec fn undefined(self, default_image: Seq<char>, t: int, d: int) -> bool {
        &&& 0 <= t < self.tasks.len()
        &&& 0 <= d < self.tasks[t].dependencies().len()
        &&& !self.names(default_image).contains(
            TaskNameView::Task(self.tasks[t].dependencies()[d]),
        )
    }

    /// Whether dependency `d` of task `t` is the first that names no task.
    pub open spec fn first_undefined(self, default_image: Seq<char>, t: int, d: int) -> bool {
        &&& self.undefined(default_image, t, d)
        &&& forall|t0: int, d0: int|
            (t0 < t || (t0 == t && d0 < d)) ==> !#[trigger] self.undefined(default_image, t0, d0)
    }

    /// Whether some dependency names no task.
    pub open spec fn has_undefined(self, default_image: Seq<char>) -> bool {
        exists|t: int, d: int| self.undefined(default_image, t, d)
    }

    /// The first dependency that names no task.
    pub open spec fn first_undefined_name(self, default_image: Seq<char>) -> Seq<char> {
        let (t, d) = choose|t: int, d: int| self.first_undefined(default_image, t, d);
        self.tasks[t].dependencies()[d]
    }

    /// What the pipeline stands for, or why it stands for nothing: two tasks
    /// share a name, or there are more tasks and images than identifiers; or
    /// else a dependency names no task.
    pub open spec fn resolved(self, default_image: Seq<char>) -> std::result::Result<
        Seq<(u8, TaskView)>,
        ErrorView,
    > {
        match self.naming_error(default_image) {
            Some(e) => Err(e),
            None => if self.has_undefined(default_image) {
                Err(ErrorView::UndefinedTask(self.first_undefined_name(default_image)))
            } else {
                Ok(self.tasks(default_image))
            },
        }
    }

    /// Only one dependency is the first that names no task.
    pub proof fn lemma_first_undefined(self, default_image: Seq<char>, t: int, d: int)
        requires
            self.first_undefined(default_image, t, d),
        ensures
            self.has_undefined(default_image),
            self.first_undefined_name(default_image) == self.tasks[t].dependencies()[d],
    {
        let (t0, d0) = choose|t0: int, d0: int| self.first_undefined(default_image, t0, d0);
        assert(self.first_undefined(default_image, t0, d0));
        assert(self.undefined(default_image, t, d));
        assert(self.undefined(default_image, t0, d0));
        if t0 < t || (t0 == t && d0 < d) {
            assert(!self.undefined(default_image, t0, d0));
        }
        if t < t0 || (t == t0 && d < d0) {
            assert(!self.undefined(default_image, t, d));
        }
    }

    /// What task `t` becomes: its dependencies are identifiers, the pull of
    /// its image among them.
    pub open spec fn command(self, default_image: Seq<char>, t: int) -> TaskView {
        command_view(self.tasks, self.image(default_image), self.names(default_image), t)
    }

    /// The position of a task with this name.
    pub open spec fn task_named(self, name: Seq<char>) -> int {
        choose|t: int| 0 <= t < self.tasks.len() && (#[trigger] self.tasks[t]).name == name
    }

    /// The task with identifier `i`: the pull of an image, or what a task
    /// that is written down becomes.
    pub open spec fn entry(self, default_image: Seq<char>, i: int) -> TaskView {
        match self.names(default_image)[i] {
            TaskNameView::Image(image) => TaskView::PullImage(image),
            TaskNameView::Task(name) => self.command(default_image, self.task_named(name)),
        }
    }

    /// The tasks that the pipeline stands for, each with its position as
    /// identifier: for every task that is written down the pull of its
    /// image, where no earlier task runs in that image, and then the task
    /// itself.
    pub open spec fn tasks(self, default_image: Seq<char>) -> Seq<(u8, TaskView)> {
        Seq::new(
            self.names(default_image).len(),
            |i: int| (i as u8, self.entry(default_image, i)),
        )
    }

    /// The number of workers: one where none is written, and as many as the
    /// host can run at once where zero is written.
    pub open spec fn parallelism(self, host_parallelism: usize) -> usize {
        match self.n_parallel {
            None => 1,
            Some(n) => if n == 0 {
                host_parallelism
            } else {
                n
            },
        }
    }
}

/// In a sequence without repetitions, an element is found where it stands.
proof fn lemma_index_of(names: Seq<TaskNameView>, k: int)
    requires
        names.no_duplicates(),
        0 <= k < names.len(),
    ensures
        names.index_of(names[k]) == k,
{
    let i = names.index_of(names[k]);
    assert(0 <= i < names.len() && names[i] == names[k]);
}

/// The names that some tasks bring stay where they are when more tasks
/// follow.
proof fn lemma_names_grow(
    tasks: Seq<RawTaskView>,
    default: Option<Seq<char>>,
    t: nat,
    n: nat,
)
    requires
        t <= n,
    ensures
        names_after(tasks, default, t).len() <= names_after(tasks, default, n).len(),
        names_after(tasks, default, n).take(names_after(tasks, default, t).len() as int)
            == names_after(tasks, default, t),
    decreases n,
{
    let all = names_after(tasks, default, n);
    let some = names_after(tasks, default, t);
    if t < n {
        let before = names_after(tasks, default, (n - 1) as nat);
        lemma_names_grow(tasks, default, t, (n - 1) as nat);
        assert(before.take(some.len() as int) == some);
        assert(all.take(some.len() as int) =~= before.take(some.len() as int));
    } else {
        assert(all.take(some.len() as int) =~= some);
    }
}

/// Every name is that of an image or of a task that is written down.
proof fn lemma_names_cover(
    tasks: Seq<RawTaskView>,
    default: Option<Seq<char>>,
    t: nat,
    i: int,
)
    requires
        t <= tasks.len(),
        0 <= i < names_after(tasks, default, t).len(),
    ensures
        names_after(tasks, default, t)[i] matches TaskNameView::Task(name) ==> exists|u: int|
            0 <= u < t && (#[trigger] tasks[u]).name == name,
    decreases t,
{
    if t > 0 {
        let before = names_after(tasks, default, (t - 1) as nat);
        if i < before.len() {
            lemma_names_cover(tasks, default, (t - 1) as nat, i);
            lemma_names_grow(tasks, default, (t - 1) as nat, t);
            assert(names_after(tasks, default, t)[i] == before[i]);
        } else {
            if names_after(tasks, default, t)[i] is Task {
                assert(tasks[t - 1].name == names_after(tasks, default, t)[i]->Task_0);
            }
        }
    }
}

/// Before any task has been looked at, nothing is built.
proof fn lemma_built_start(
    raw: Seq<RawTaskView>,
    default_image: Seq<char>,
    names: Seq<TaskNameView>,
)
    ensures
        built_upto(raw, default_image, names, 0, Seq::empty()),
        defined_upto(raw, names, 0),
{
    reveal(built_upto);
}

/// What is built so far has positions as identifiers.
proof fn lemma_built_ids(
    raw: Seq<RawTaskView>,
    default_image: Seq<char>,
    names: Seq<TaskNameView>,
    t: int,
    result: Seq<(u8, TaskView)>,
)
    requires
        built_upto(raw, default_image, names, t, result),
    ensures
        result.len() <= names.len(),
        forall|i: int| 0 <= i < result.len() ==> (#[trigger] result[i]).0 == i,
{
    reveal(built_upto);
}

/// Where the names of task `t` stand among all names: its image at the next
/// free position, where it is new, and the task itself right after.
proof fn lemma_step_names(
    raw: Seq<RawTaskView>,
    default_image: Seq<char>,
    names: Seq<TaskNameView>,
    t: int,
)
    requires
        names == names_after(raw, Some(default_image), raw.len()),
        names.no_duplicates(),
        0 <= t < raw.len(),
    ensures
        ({
            let before = names_after(raw, Some(default_image), t as nat);
            let after = names_after(raw, Some(default_image), (t + 1) as nat);
            let image = TaskNameView::Image(image_view(raw, default_image, t));
            let task = TaskNameView::Task(raw[t].name);
            &&& after.len() <= names.len()
            &&& names.contains(image)
            &&& names.contains(task)
            &&& names.index_of(image) <= before.len()
            &&& names.index_of(task) == after.len() - 1
            &&& after.len() == before.len() + (if names.index_of(image) == before.len() {
                2int
            } else {
                1int
            })
        }),
{
    let default = Some(default_image);
    let before = names_after(raw, default, t as nat);
    let after = names_after(raw, default, (t + 1) as nat);
    let image = TaskNameView::Image(image_view(raw, default_image, t));
    let task = TaskNameView::Task(raw[t].name);
    lemma_names_grow(raw, default, t as nat, raw.len());
    lemma_names_grow(raw, default, (t + 1) as nat, raw.len());
    assert(names.take(after.len() as int) == after);
    assert(names.take(before.len() as int) == before);
    assert(raw[t].resolved_image(default) == Some(image_view(raw, default_image, t)));
    assert(names[after.len() - 1] == after[after.len() - 1]);
    lemma_index_of(names, after.len() - 1);
    if before.contains(image) {
        let k = choose|k: int| 0 <= k < before.len() && before[k] == image;
        assert(names[k] == before[k]);
        lemma_index_of(names, k);
        assert(after == before.push(task));
    } else {
        assert(after == before.push(image).push(task));
        assert(names[before.len() as int] == after[before.len() as int]);
        lemma_index_of(names, before.len() as int);
    }
}

/// What is built, with the pull of an image after it where `at` is the next
/// free position.
spec fn with_pull(result: Seq<(u8, TaskView)>, at: int, image: Seq<char>) -> Seq<
    (u8, TaskView),
> {
    if at == result.len() {
        result.push((at as u8, TaskView::PullImage(image)))
    } else {
        result
    }
}

/// Building goes on with task `t`: the pull of its image, where that is new,
/// and then the task itself.
proof fn lemma_built_step(
    raw: Seq<RawTaskView>,
    default_image: Seq<char>,
    names: Seq<TaskNameView>,
    t: int,
    result: Seq<(u8, TaskView)>,
)
    requires
        names == names_after(raw, Some(default_image), raw.len()),
        names.no_duplicates(),
        names.len() <= 255,
        0 <= t < raw.len(),
        built_upto(raw, default_image, names, t, result),
        defined_upto(raw, names, t + 1),
    ensures
        ({
            let image = image_view(raw, default_image, t);
            let at = names.index_of(TaskNameView::Image(image));
            let pulled = with_pull(result, at, image);
            &&& 0 <= at <= result.len()
            &&& names.index_of(TaskNameView::Task(raw[t].name)) == pulled.len()
            &&& built_upto(
                raw,
                default_image,
                names,
                t + 1,
                pulled.push((pulled.len() as u8, command_view(raw, default_image, names, t))),
            )
        }),
{
    reveal(built_upto);
    lemma_step_names(raw, default_image, names, t);
    let image = image_view(raw, default_image, t);
    let at = names.index_of(TaskNameView::Image(image));
    let pulled = with_pull(result, at, image);
    let command = command_view(raw, default_image, names, t);
    let next = pulled.push((pulled.len() as u8, command));
    let own = names.index_of(TaskNameView::Task(raw[t].name));
    assert(names[at] == TaskNameView::Image(image));
    assert(names[own] == TaskNameView::Task(raw[t].name));
    assert(pulled[at].1 == TaskView::PullImage(image));
    assert forall|i: int| 0 <= i < next.len() implies (#[trigger] names[i] matches TaskNameView::Image(
        other,
    ) ==> next[i].1 == TaskView::PullImage(other)) by {
        if i < result.len() {
            assert(next[i] == result[i]);
        }
    }
    assert forall|u: int| 0 <= u < t + 1 implies 0 <= names.index_of(
        TaskNameView::Task(#[trigger] raw[u].name),
    ) < next.len() && next[names.index_of(TaskNameView::Task(raw[u].name))].1 == command_view(
        raw,
        default_image,
        names,
        u,
    ) by {
        if u < t {
            let k = names.index_of(TaskNameView::Task(raw[u].name));
            assert(next[k] == result[k]);
        }
    }
    assert forall|i: int, x: u8|
        0 <= i < next.len() && #[trigger] next[i].1.depends().contains(x) implies x
        < names.len() by {
        if i < result.len() {
            assert(next[i] == result[i]);
        } else if i == pulled.len() {
            if x as int != at {
                let d = choose|d: int|
                    0 <= d < raw[t].dependencies().len() && names.index_of(
                        TaskNameView::Task(#[trigger] raw[t].dependencies()[d]),
                    ) == x as int;
                assert(names.contains(TaskNameView::Task(raw[t].dependencies()[d])));
            }
        }
    }
    assert forall|i: int| 0 <= i < next.len() implies ((#[trigger] next[i]).1 matches TaskView::CommandLine {
        image,
        depends,
        ..
    } ==> exists|j: int|
        0 <= j < next.len() && depends.contains(j as u8) && (#[trigger] next[j]).1
            == TaskView::PullImage(image)) by {
        if i < result.len() {
            assert(next[i] == result[i]);
            if next[i].1 is CommandLine {
                let j = choose|j: int|
                    0 <= j < result.len() && result[i].1->CommandLine_depends.contains(j as u8)
                        && (#[trigger] result[j]).1 == TaskView::PullImage(
                        result[i].1->CommandLine_image,
                    );
                assert(next[j] == result[j]);
            }
        } else if i == pulled.len() {
            assert(next[at].1 == TaskView::PullImage(image));
        }
    }
}

/// Once every task has been looked at, what is built is what the pipeline
/// stands for.
proof fn lemma_built_done(
    pipeline: RawPipelineView,
    default_image: Seq<char>,
    result: Seq<(u8, TaskView)>,
)
    requires
        pipeline.names(default_image).len() <= 255,
        pipeline.names(default_image).no_duplicates(),
        built_upto(
            pipeline.tasks,
            pipeline.image(default_image),
            pipeline.names(default_image),
            pipeline.tasks.len() as int,
            result,
        ),
        defined_upto(pipeline.tasks, pipeline.names(default_image), pipeline.tasks.len() as int),
    ensures
        result == pipeline.tasks(default_image),
        well_formed(result),
        forall|t: int, d: int| !#[trigger] pipeline.undefined(default_image, t, d),
{
    reveal(built_upto);
    let names = pipeline.names(default_image);
    assert forall|i: int| 0 <= i < result.len() implies result[i] == (
        i as u8,
        pipeline.entry(default_image, i),
    ) by {
        match names[i] {
            TaskNameView::Image(image) => {},
            TaskNameView::Task(name) => {
                lemma_names_cover(
                    pipeline.tasks,
                    Some(pipeline.image(default_image)),
                    pipeline.tasks.len(),
                    i,
                );
                let u = pipeline.task_named(name);
                assert(pipeline.tasks[u].name == name);
                lemma_index_of(names, i);
            },
        }
    }
    assert(result =~= pipeline.tasks(default_image));
}

impl RawPipeline {
    /// A pipeline as it is written down.
    pub fn new(default_image: Option<String>, n_parallel: Option<usize>, tasks: Vec<RawTask>) -> (r:
        Self)
        ensures
            r@ == (RawPipelineView {
                default_image: match default_image {
                    Some(image) => Some(image@),
                    None => None,
                },
                n_parallel,
                tasks: raw_view(tasks@),
            }),
    {
        RawPipeline { default_image, n_parallel, tasks }
    }

    /// What is written down: the image of the tasks that name none, the
    /// number of workers, and the tasks.
    pub fn into_parts(self) -> (r: (Option<String>, Option<usize>, Vec<RawTask>))
        ensures
            self@ == (RawPipelineView {
                default_image: match r.0 {
                    Some(image) => Some(image@),
                    None => None,
                },
                n_parallel: r.1,
                tasks: raw_view(r.2@),
            }),
    {
        (self.default_image, self.n_parallel, self.tasks)
    }

    /// Whether the host is asked how many tasks it can run at once, which
    /// it is wherever a number of workers is written.
    pub fn asks_host(&self) -> (r: bool)
        ensures
            r == self@.n_parallel is Some,
    {
        self.n_parallel.is_some()
    }

    /// The number of workers: one where none is written, and as many as the
    /// host can run at once where zero is written.
    pub fn n_parallel(&self, host_parallelism: usize) -> (n: usize)
        ensures
            n == self@.parallelism(host_parallelism),
    {
        match self.n_parallel {
            None => 1,
            Some(n) => if n == 0 {
                host_parallelism
            } else {
                n
            },
        }
    }

    /// Obtain [`Task`]s.
    ///
    /// The difference to [`RawTask`]s is that each task gets assigned a unique
    /// [`TaskId`] which are used for dependencies (instead of task names).
    /// In addition, missing images are replaced with default values, and the
    /// pull of each image becomes a task of its own.
    pub fn tasks(self, default_image: &str) -> (r: Result<Vec<(TaskId, Task)>>)
        ensures
            match self@.resolved(default_image@) {
                Ok(tasks) => r is Ok && tasks_view(r->Ok_0@) == tasks && well_formed(tasks),
                Err(e) => r is Err && r->Err_0@ == e,
            },
    {
        let fallback: &str = match &self.default_image {
            Some(image) => image.as_str(),
            None => default_image,
        };
        let ghost raw = self@.tasks;
        let ghost all = names_after(raw, Some(fallback@), raw.len());
        assert(fallback@ == self@.image(default_image@));
        let id_map = match TaskNames::from_tasks(self.tasks.as_slice(), Some(fallback)) {
            Ok(id_map) => id_map,
            Err(e) => {
                return Err(e);
            },
        };
        proof {
            lemma_built_start(raw, fallback@, all);
        }
        let mut tasks: Vec<(TaskId, Task)> = Vec::new();
        let mut t: usize = 0;
        assert(tasks_view(tasks@) =~= Seq::empty());
        while t < self.tasks.len()
            invariant
                t <= self.tasks.len(),
                raw == raw_view(self.tasks@),
                raw == self@.tasks,
                self@.naming_error(default_image@) is None,
                fallback@ == self@.image(default_image@),
                all == names_after(raw, Some(fallback@), raw.len()),
                id_map@ == all,
                all.no_duplicates(),
                all.len() <= 255,
                built_upto(raw, fallback@, all, t as int, tasks_view(tasks@)),
                defined_upto(raw, all, t as int),
            decreases self.tasks.len() - t,
        {
            let task = &self.tasks[t];
            proof {
                assert(raw[t as int] == task@);
            }
            let resolved = dependencies(&id_map, &task.depends);
            assert(task@.dependencies() == names_of(task.depends));
            let mut depends = match resolved {
                Ok(depends) => depends,
                Err(e) => {
                    proof {
                        let d = choose|d: int|
                            0 <= d < task@.dependencies().len() && !all.contains(
                                TaskNameView::Task(#[trigger] task@.dependencies()[d]),
                            ) && (forall|d0: int|
                                0 <= d0 < d ==> all.contains(
                                    TaskNameView::Task(#[trigger] task@.dependencies()[d0]),
                                )) && e@ == ErrorView::UndefinedTask(task@.dependencies()[d]);
                        assert(self@.undefined(default_image@, t as int, d));
                        assert(self@.first_undefined(default_image@, t as int, d));
                        assert(self@.tasks[t as int] == task@);
                        self@.lemma_first_undefined(default_image@, t as int, d);
                    }
                    return Err(e);
                },
            };
            let image_name: &str = match &task.image {
                Some(image) => image.as_str(),
                None => fallback,
            };
            proof {
                assert(image_name@ == image_view(raw, fallback@, t as int));
                assert(defined_upto(raw, all, t + 1));
                lemma_step_names(raw, fallback@, all, t as int);
                lemma_built_step(raw, fallback@, all, t as int, tasks_view(tasks@));
                lemma_built_ids(raw, fallback@, all, t as int, tasks_view(tasks@));
            }
            let image_id = match id_map.get_image_id(image_name) {
                Ok(image_id) => image_id,
                Err(e) => {
                    return Err(e);
                },
            };
            depends = depends | TaskIds::from(image_id);
            proof {
                lemma_index_of(all, image_id@ as int);
                assert(depends@ =~= dependency_ids(all, task@.dependencies()).insert(image_id@));
            }
            // only add image if its not already added
            let ghost pulled = tasks_view(tasks@);
            let ghost built = tasks_view(tasks@);
            let found = position(&tasks, image_id);
            if found.is_none() {
                proof {
                    if image_id@ < tasks@.len() {
                        assert(built[image_id@ as int].0 == image_id@);
                        assert(tasks@[image_id@ as int].0@ == image_id@);
                    }
                }
                tasks.push((image_id, Task::PullImage(String::from_str(image_name))));
                proof {
                    pulled = tasks_view(tasks@);
                    assert(pulled =~= built.push((image_id@, TaskView::PullImage(image_name@))));
                }
            } else {
                proof {
                    let k = found->Some_0 as int;
                    assert(built[k].0 == k);
                    assert(tasks@[k].0@ == image_id@);
                }
            }
            assert(pulled == with_pull(built, image_id@ as int, image_name@));
            let id = match id_map.get_task_id(task.name.as_str()) {
                Ok(id) => id,
                Err(e) => {
                    return Err(e);
                },
            };
            proof {
                lemma_index_of(all, id@ as int);
            }
            let command = Task::CommandLine {
                name: task.name.clone(),
                commands: task.commands.clone(),
                image: String::from_str(image_name),
                depends,
            };
            proof {
                assert(command@ == command_view(raw, fallback@, all, t as int));
            }
            tasks.push((id, command));
            proof {
                assert(tasks_view(tasks@) =~= pulled.push((id@, command@)));
            }
            t = t + 1;
        }
        proof {
            lemma_built_done(self@, default_image@, tasks_view(tasks@));
        }
        Ok(tasks)
    }
}

/// The names that are written as dependencies: none where none are written.
spec fn names_of(depends: Option<Vec<String>>) -> Seq<Seq<char>> {
    match depends {
        Some(names) => names.deep_view(),
        None => Seq::empty(),
    }
}

/// The identifiers of the tasks that are named, or the first name that
/// stands for no task.
fn dependencies(id_map: &TaskNames, depends: &Option<Vec<String>>) -> (r: Result<TaskIds>)
    requires
        id_map@.no_duplicates(),
    ensures
        ({
            let deps = names_of(*depends);
            match r {
                Ok(ids) => {
                    &&& ids@ == dependency_ids(id_map@, deps)
                    &&& forall|d: int|
                        0 <= d < deps.len() ==> id_map@.contains(
                            TaskNameView::Task(#[trigger] deps[d]),
                        )
                },
                Err(e) => exists|d: int|
                    0 <= d < deps.len() && !id_map@.contains(TaskNameView::Task(#[trigger] deps[d]))
                        && (forall|d0: int|
                        0 <= d0 < d ==> id_map@.contains(TaskNameView::Task(#[trigger] deps[d0])))
                        && e@ == ErrorView::UndefinedTask(deps[d]),
            }
        }),
{
    let ghost all = id_map@;
    let mut ids = TaskIds::default();
    if let Some(names) = depends {
        let ghost deps = names_of(*depends);
        let mut d: usize = 0;
        assert(dependency_ids(all, deps.take(0)) =~= Set::<u8>::empty());
        while d < names.len()
            invariant
                d <= names.len(),
                id_map@ == all,
                all.no_duplicates(),
                deps == names.deep_view(),
                deps == names_of(*depends),
                ids@ == dependency_ids(all, deps.take(d as int)),
                forall|d0: int|
                    0 <= d0 < d ==> all.contains(TaskNameView::Task(#[trigger] deps[d0])),
            decreases names.len() - d,
        {
            let dep = names[d].as_str();
            proof {
                assert(deps[d as int] == dep@);
            }
            let dep_id = match id_map.get_task_id(dep) {
                Ok(dep_id) => dep_id,
                Err(e) => {
                    proof {
                        let at = d as int;
                        assert(0 <= at < deps.len() && !all.contains(
                            TaskNameView::Task(#[trigger] deps[at]),
                        ) && (forall|d0: int|
                            0 <= d0 < at ==> all.contains(TaskNameView::Task(#[trigger] deps[d0])))
                            && e@ == ErrorView::UndefinedTask(deps[at]));
                    }
                    return Err(e);
                },
            };
            ids = ids | TaskIds::from(dep_id);
            proof {
                lemma_index_of(all, dep_id@ as int);
                let now = deps.take(d + 1);
                let earlier = deps.take(d as int);
                assert(all.contains(all[dep_id@ as int]));
                assert forall|x: u8| ids@.contains(x) <==> dependency_ids(all, now).contains(
                    x,
                ) by {
                    if dependency_ids(all, earlier).contains(x) {
                        let d0 = choose|d0: int|
                            0 <= d0 < earlier.len() && all.index_of(
                                TaskNameView::Task(#[trigger] earlier[d0]),
                            ) == x as int;
                        assert(now[d0] == earlier[d0]);
                    }
                    if x == dep_id@ {
                        assert(now[d as int] == dep@);
                    }
                    if dependency_ids(all, now).contains(x) {
                        let d0 = choose|d0: int|
                            0 <= d0 < now.len() && all.index_of(
                                TaskNameView::Task(#[trigger] now[d0]),
                            ) == x as int;
                        if d0 < d {
                            assert(earlier[d0] == now[d0]);
                        }
                    }
                }
                assert(ids@ =~= dependency_ids(all, now));
            }
            d = d + 1;
        }
        assert(deps.take(names@.len() as int) =~= deps);
    } else {
        assert(dependency_ids(all, Seq::empty()) =~= Set::<u8>::empty());
    }
    Ok(ids)
}

} // verus!
