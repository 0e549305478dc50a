//! Names of tasks and images, and the identifiers that they are given.

use super::raw_task::{raw_view, RawTask, RawTaskView};
use super::TaskId;
use crate::err::{Error, ErrorView, Result};
use vstd::prelude::*;
use vstd::string::StringExecFns;

verus! {

/// What an identifier is given to: a task by its name, or an image that has
/// to be pulled.
#[derive(Debug, PartialEq, Eq, Hash)]
pub enum TaskName<'a> {
    Task(&'a str),
    Image(&'a str),
}

/// A [`TaskName`] as plain values.
pub enum TaskNameView {
    Task(Seq<char>),
    Image(Seq<char>),
}

impl<'a> View for TaskName<'a> {
    type V = TaskNameView;

    open spec fn view(&self) -> TaskNameView {
        match self {
            TaskName::Task(name) => TaskNameView::Task(name@),
            TaskName::Image(name) => TaskNameView::Image(name@),
        }
    }
}

/// Whether two texts are the same.
fn same_text(a: &str, b: &str) -> (r: bool)
    ensures
        r == (a@ == b@),
{
    String::from_str(a) == String::from_str(b)
}

impl<'a> TaskName<'a> {
    /// Whether two names are the same: of the same kind and with the same text.
    pub fn same(&self, other: &TaskName) -> (r: bool)
        ensures
            r == (self@ == other@),
    {
        match (self, other) {
            (TaskName::Task(a), TaskName::Task(b)) => same_text(a, b),
            (TaskName::Image(a), TaskName::Image(b)) => same_text(a, b),
            _ => false,
        }
    }
}

/// The names after `task` has been looked at: its image is new where no
/// earlier task runs in it.
pub open spec fn with_image(
    names: Seq<TaskNameView>,
    task: RawTaskView,
    default: Option<Seq<char>>,
) -> Seq<TaskNameView> {
    match task.resolved_image(default) {
        Some(image) if !names.contains(TaskNameView::Image(image)) => names.push(
            TaskNameView::Image(image),
        ),
        _ => names,
    }
}

/// The names that the first `t` tasks bring, in the order of their
/// identifiers: for each task the image that it runs in, where that is new,
/// and then the task itself.
pub open spec fn names_after(
    tasks: Seq<RawTaskView>,
    default: Option<Seq<char>>,
    t: nat,
) -> Seq<TaskNameView>
    decreases t,
{
    if t == 0 {
        Seq::empty()
    } else {
        let task = tasks[t - 1];
        with_image(names_after(tasks, default, (t - 1) as nat), task, default).push(
            TaskNameView::Task(task.name),
        )
    }
}

/// What is wrong with `task`, coming after `names`: there is no identifier
/// left for its image or for itself, or its name is taken.
pub open spec fn step_error(
    names: Seq<TaskNameView>,
    task: RawTaskView,
    default: Option<Seq<char>>,
) -> Option<ErrorView> {
    let named = with_image(names, task, default);
    if named.len() > names.len() && names.len() >= 255 {
        Some(ErrorView::TooManyTasks(256))
    } else if named.contains(TaskNameView::Task(task.name)) {
        Some(ErrorView::DuplicateTask(task.name))
    } else if named.len() >= 255 {
        Some(ErrorView::TooManyTasks(256))
    } else {
        None
    }
}

/// The first thing that is wrong among the first `t` tasks.
pub open spec fn naming_error(
    tasks: Seq<RawTaskView>,
    default: Option<Seq<char>>,
    t: nat,
) -> Option<ErrorView>
    decreases t,
{
    if t == 0 {
        None
    } else {
        match naming_error(tasks, default, (t - 1) as nat) {
            Some(e) => Some(e),
            None => step_error(
                names_after(tasks, default, (t - 1) as nat),
                tasks[t - 1],
                default,
            ),
        }
    }
}

/// What is wrong with names is a name that is taken or a lack of
/// identifiers, and nothing else.
pub proof fn lemma_naming_error_kind(tasks: Seq<RawTaskView>, default: Option<Seq<char>>, t: nat)
    ensures
        naming_error(tasks, default, t) matches Some(e) ==> e is TooManyTasks || e is DuplicateTask,
    decreases t,
{
    if t > 0 {
        lemma_naming_error_kind(tasks, default, (t - 1) as nat);
    }
}

/// What is wrong among some tasks is still wrong when more tasks follow.
pub proof fn lemma_error_stays(
    tasks: Seq<RawTaskView>,
    default: Option<Seq<char>>,
    t: nat,
    n: nat,
)
    requires
        t <= n,
        naming_error(tasks, default, t) is Some,
    ensures
        naming_error(tasks, default, n) == naming_error(tasks, default, t),
    decreases n,
{
    if t < n {
        lemma_error_stays(tasks, default, t, (n - 1) as nat);
    }
}

/// The names of some entries, in order.
spec fn entries_view<'a>(entries: Seq<(TaskName<'a>, TaskId)>) -> Seq<TaskNameView> {
    entries.map_values(|entry: (TaskName<'a>, TaskId)| entry.0@)
}

/// Every name has its position as identifier, no name comes twice, and
/// there are at most 255 of them.
spec fn entries_wf<'a>(entries: Seq<(TaskName<'a>, TaskId)>) -> bool {
    &&& entries.len() <= 255
    &&& forall|k: int| 0 <= k < entries.len() ==> (#[trigger] entries[k]).1@ == k
    &&& entries_view(entries).no_duplicates()
}

/// The identifier of a name, where it has one.
fn find<'a>(entries: &Vec<(TaskName<'a>, TaskId)>, task_name: &TaskName) -> (r: Option<TaskId>)
    requires
        entries_wf(entries@),
    ensures
        match r {
            Some(id) => id@ < entries@.len() && entries_view(entries@)[id@ as int]
                == task_name@,
            None => !entries_view(entries@).contains(task_name@),
        },
{
    let mut k: usize = 0;
    while k < entries.len()
        invariant
            k <= entries.len(),
            entries_wf(entries@),
            forall|j: int| 0 <= j < k ==> entries_view(entries@)[j] != task_name@,
        decreases entries.len() - k,
    {
        if entries[k].0.same(task_name) {
            return Some(entries[k].1);
        }
        k = k + 1;
    }
    None
}

/// Adds a name that is not there yet, with the next identifier.
fn append<'a>(entries: &mut Vec<(TaskName<'a>, TaskId)>, name: TaskName<'a>, id: TaskId)
    requires
        entries_wf(old(entries)@),
        old(entries)@.len() < 255,
        id@ == old(entries)@.len(),
        !entries_view(old(entries)@).contains(name@),
    ensures
        entries_wf(final(entries)@),
        final(entries)@.len() == old(entries)@.len() + 1,
        entries_view(final(entries)@) == entries_view(old(entries)@).push(name@),
{
    let ghost before = entries_view(entries@);
    entries.push((name, id));
    proof {
        let after = entries_view(entries@);
        assert(after =~= before.push(name@));
        assert forall|i: int, j: int|
            0 <= i < after.len() && 0 <= j < after.len() && i != j implies after[i]
            != after[j] by {
            if i < before.len() {
                assert(before.contains(before[i]));
            }
            if j < before.len() {
                assert(before.contains(before[j]));
            }
        }
    }
}

/// Gives each task and each image a unique identifier: the names in the
/// order in which they were met, each with its position as identifier.
#[derive(Debug)]
pub struct TaskNames<'a>(Vec<(TaskName<'a>, TaskId)>);

impl<'a> View for TaskNames<'a> {
    type V = Seq<TaskNameView>;

    closed spec fn view(&self) -> Seq<TaskNameView> {
        entries_view(self.0@)
    }
}

impl<'a> TaskNames<'a> {
    /// Every name has its position as identifier, no name comes twice, and
    /// there are at most 255 of them.
    #[verifier::type_invariant]
    spec fn well_formed(self) -> bool {
        entries_wf(self.0@)
    }

    /// Names the tasks and the images that they run in: no name comes twice,
    /// and there are at most 255 of them. Fails at the first task whose name
    /// is taken, or for which no identifier is left.
    pub fn from_tasks(raw_tasks: &'a [RawTask], default_img: Option<&'a str>) -> (r: Result<Self>)
        ensures
            match naming_error(
                raw_view(raw_tasks@),
                option_text(default_img),
                raw_tasks@.len(),
            ) {
                Some(e) => r is Err && r->Err_0@ == e,
                None => r is Ok && r->Ok_0@ == names_after(
                    raw_view(raw_tasks@),
                    option_text(default_img),
                    raw_tasks@.len(),
                ) && r->Ok_0@.no_duplicates() && r->Ok_0@.len() <= 255,
            },
    {
        let ghost tasks = raw_view(raw_tasks@);
        let ghost default = option_text(default_img);
        let mut names: Vec<(TaskName<'a>, TaskId)> = Vec::new();
        let mut id = TaskId::first();
        let mut t: usize = 0;
        assert(entries_view(names@) =~= Seq::empty());
        while t < raw_tasks.len()
            invariant
                t <= raw_tasks.len(),
                tasks == raw_view(raw_tasks@),
                default == option_text(default_img),
                naming_error(tasks, default, t as nat) is None,
                entries_view(names@) == names_after(tasks, default, t as nat),
                entries_wf(names@),
                id@ == names@.len(),
            decreases raw_tasks.len() - t,
        {
            let raw_task = &raw_tasks[t];
            let ghost before = entries_view(names@);
            proof {
                assert(tasks[t as int] == raw_task@);
            }
            let image: Option<&'a str> = match &raw_task.image {
                Some(image) => Some(image.as_str()),
                None => default_img,
            };
            assert(option_text(image) == raw_task@.resolved_image(default));
            if let Some(image) = image {
                let image_name = TaskName::Image(image);
                if find(&names, &image_name).is_none() {
                    let image_id = match id.fetch_incr() {
                        Ok(image_id) => image_id,
                        Err(e) => {
                            proof {
                                assert(naming_error(tasks, default, (t + 1) as nat) == Some(e@));
                                lemma_error_stays(
                                    tasks,
                                    default,
                                    (t + 1) as nat,
                                    raw_tasks@.len(),
                                );
                            }
                            return Err(e);
                        },
                    };
                    append(&mut names, image_name, image_id);
                }
            }
            assert(entries_view(names@) == with_image(before, raw_task@, default));
            let task_name = TaskName::Task(raw_task.name.as_str());
            if let Some(taken) = find(&names, &task_name) {
                let e = Error::DuplicateTask(raw_task.name.clone());
                proof {
                    assert(entries_view(names@).contains(entries_view(names@)[taken@ as int]));
                    assert(naming_error(tasks, default, (t + 1) as nat) == Some(e@));
                    lemma_error_stays(tasks, default, (t + 1) as nat, raw_tasks@.len());
                }
                return Err(e);
            }
            let task_id = match id.fetch_incr() {
                Ok(task_id) => task_id,
                Err(e) => {
                    proof {
                        assert(naming_error(tasks, default, (t + 1) as nat) == Some(e@));
                        lemma_error_stays(tasks, default, (t + 1) as nat, raw_tasks@.len());
                    }
                    return Err(e);
                },
            };
            append(&mut names, task_name, task_id);
            t = t + 1;
        }
        Ok(TaskNames(names))
    }

    /// The identifier of a name, where it has one.
    fn get_id(&self, task_name: &TaskName) -> (r: Option<TaskId>)
        ensures
            match r {
                Some(id) => id@ < self@.len() && self@[id@ as int] == task_name@,
                None => !self@.contains(task_name@),
            },
    {
        proof {
            use_type_invariant(self);
        }
        find(&self.0, task_name)
    }

    /// The identifier of the pull of an image. Every image that a task runs
    /// in has one.
    pub fn get_image_id(&self, image_name: &'a str) -> (r: Result<TaskId>)
        ensures
            match r {
                Ok(id) => id@ < self@.len() && self@[id@ as int] == TaskNameView::Image(
                    image_name@,
                ),
                Err(e) => !self@.contains(TaskNameView::Image(image_name@)) && e@
                    == ErrorView::UndefinedTask("pull '"@ + image_name@ + "'"@),
            },
    {
        match self.get_id(&TaskName::Image(image_name)) {
            Some(id) => Ok(id),
            None => {
                let mut text = String::from_str("pull '");
                text.append(image_name);
                text.append("'");
                Err(Error::UndefinedTask(text))
            },
        }
    }

    /// The identifier of a task.
    pub fn get_task_id(&self, task_name: &'a str) -> (r: Result<TaskId>)
        ensures
            match r {
                Ok(id) => id@ < self@.len() && self@[id@ as int] == TaskNameView::Task(
                    task_name@,
                ),
                Err(e) => !self@.contains(TaskNameView::Task(task_name@)) && e@
                    == ErrorView::UndefinedTask(task_name@),
            },
    {
        match self.get_id(&TaskName::Task(task_name)) {
            Some(id) => Ok(id),
            None => Err(Error::UndefinedTask(String::from_str(task_name))),
        }
    }
}

/// A text that may be missing, as plain values.
pub open spec fn option_text(text: Option<&str>) -> Option<Seq<char>> {
    match text {
        Some(text) => Some(text@),
        None => None,
    }
}

} // verus!
