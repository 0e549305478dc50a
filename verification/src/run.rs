//! The controller of a run: which tasks are handed to the workers, what
//! their reports change, and which containers are killed at the end.

use crate::pipeline::graph::distinct;
use crate::pipeline::raw_pipeline::tasks_view;
use crate::pipeline::{graph_of, graph_view, position, Task, TaskId, TaskIds, TaskView};
use crate::status::{deps_view, Status, StatusView};
use crate::worker::{WorkInput, WorkInputView, WorkOutput, WorkOutputView};
use vstd::pervasive::unreached;
use vstd::prelude::*;
use vstd::string::StringExecFns;

verus! {

/// A run as plain values: the state of its tasks, the tasks that have not
/// been handed out yet, and whether a task has failed.
pub struct RunView {
    pub status: StatusView,
    pub tasks: Seq<(u8, TaskView)>,
    pub failed: bool,
}

/// The position of the first entry for `id`, or the number of entries where
/// there is none.
pub open spec fn index_of_id(tasks: Seq<(u8, TaskView)>, id: u8) -> int
    decreases tasks.len(),
{
    if tasks.len() == 0 {
        0
    } else if tasks[0].0 == id {
        0
    } else {
        1 + index_of_id(tasks.drop_first(), id)
    }
}

/// Whether some entry is for `id`.
pub open spec fn has_entry(tasks: Seq<(u8, TaskView)>, id: u8) -> bool {
    exists|j: int| 0 <= j < tasks.len() && (#[trigger] tasks[j]).0 == id
}

/// The names of the containers that workers are attached to, in the order
/// of the workers.
pub open spec fn attached(cells: Seq<Option<Seq<char>>>) -> Seq<Seq<char>>
    decreases cells.len(),
{
    if cells.len() == 0 {
        Seq::empty()
    } else {
        match cells.last() {
            Some(name) => attached(cells.drop_last()).push(name),
            None => attached(cells.drop_last()),
        }
    }
}

/// The number of workers that are attached to a container.
pub open spec fn attached_count(cells: Seq<Option<Seq<char>>>) -> nat
    decreases cells.len(),
{
    if cells.len() == 0 {
        0
    } else {
        attached_count(cells.drop_last()) + (if cells.last() is Some {
            1nat
        } else {
            0nat
        })
    }
}

/// There is one name to kill for every worker that is attached to a
/// container.
pub proof fn lemma_attached_count(cells: Seq<Option<Seq<char>>>)
    ensures
        attached(cells).len() == attached_count(cells),
    decreases cells.len(),
{
    if cells.len() > 0 {
        lemma_attached_count(cells.drop_last());
    }
}

/// What the cells of the workers hold, as plain values.
pub open spec fn cells_view(cells: Seq<Option<String>>) -> Seq<Option<Seq<char>>> {
    cells.map_values(
        |cell: Option<String>|
            match cell {
                Some(name) => Some(name@),
                None => None,
            },
    )
}

/// What is sent to the workers, as plain values.
pub open spec fn inputs_view(inputs: Seq<WorkInput>) -> Seq<WorkInputView> {
    inputs.map_values(|input: WorkInput| input@)
}

/// What is sent to the workers for the tasks that are handed out.
pub open spec fn as_inputs(tasks: Seq<(u8, TaskView)>) -> Seq<WorkInputView> {
    tasks.map_values(|entry: (u8, TaskView)| WorkInputView::Task(entry.0, entry.1))
}

/// The identifiers of some tasks, in order.
pub open spec fn ids_of(tasks: Seq<(u8, TaskView)>) -> Seq<u8> {
    tasks.map_values(|entry: (u8, TaskView)| entry.0)
}

/// What can happen to a run: the tasks that may start are handed out, or a
/// worker reports.
pub enum RunEvent {
    Submit,
    Report(WorkOutputView),
}

impl RunView {
    /// The run before anything has started: every task waits.
    pub open spec fn initial(tasks: Seq<(u8, TaskView)>) -> RunView {
        RunView { status: StatusView::initial(graph_view(tasks)), tasks, failed: false }
    }

    /// Every waiting task is there to be handed out, and no identifier waits
    /// twice or has two tasks.
    pub open spec fn consistent(self) -> bool {
        &&& self.status.distinct()
        &&& forall|i: int, j: int|
            0 <= i < self.tasks.len() && 0 <= j < self.tasks.len() && i != j
                ==> (#[trigger] self.tasks[i]).0 != (#[trigger] self.tasks[j]).0
        &&& forall|k: int|
            0 <= k < self.status.pending.len() ==> has_entry(
                self.tasks,
                (#[trigger] self.status.pending[k]).0,
            )
    }

    /// Whether nothing waits and nothing runs.
    pub open spec fn is_completed(self) -> bool {
        self.status.is_completed()
    }

    /// Whether the run has finished and no task has failed.
    pub open spec fn is_succeeded(self) -> bool {
        self.status.is_completed() && !self.failed
    }

    /// The run after as many tasks have been handed out as may start now,
    /// and those tasks, in order: each time the first waiting task that has
    /// all its dependencies done.
    pub open spec fn submit(self) -> (RunView, Seq<(u8, TaskView)>)
        decreases self.status.pending.len(),
    {
        let k = self.status.first_runnable();
        if 0 <= k < self.status.pending.len() {
            let id = self.status.pending[k].0;
            let at = index_of_id(self.tasks, id);
            let now = RunView {
                status: self.status.started(k),
                tasks: self.tasks.remove(at),
                failed: self.failed,
            };
            let (then, later) = now.submit();
            (then, seq![(id, self.tasks[at].1)] + later)
        } else {
            (self, Seq::empty())
        }
    }

    /// The run after a worker has reported: the task is done either way, and
    /// a failure is remembered.
    pub open spec fn handle(self, output: WorkOutputView) -> RunView {
        match output {
            WorkOutputView::Succeeded(id) => RunView {
                status: self.status.complete(id),
                tasks: self.tasks,
                failed: self.failed,
            },
            WorkOutputView::Failed(id, _) => RunView {
                status: self.status.complete(id),
                tasks: self.tasks,
                failed: true,
            },
        }
    }

    /// What is shown when a worker reports a failure, after which the run
    /// is given up; nothing after a success.
    pub open spec fn notice(output: WorkOutputView) -> Option<Seq<char>> {
        match output {
            WorkOutputView::Succeeded(_) => None,
            WorkOutputView::Failed(_, reason) => Some(
                reason + "\nKilling containers and exiting."@,
            ),
        }
    }
}

impl RunView {
    /// The run after one event.
    pub open spec fn step(self, event: RunEvent) -> RunView {
        match event {
            RunEvent::Submit => self.submit().0,
            RunEvent::Report(output) => self.handle(output),
        }
    }

    /// The run after a series of events.
    pub open spec fn after(self, events: Seq<RunEvent>) -> RunView
        decreases events.len(),
    {
        if events.len() == 0 {
            self
        } else {
            self.after(events.drop_last()).step(events.last())
        }
    }

    /// The identifiers of all tasks that a series of events has handed out,
    /// in order.
    pub open spec fn sent(self, events: Seq<RunEvent>) -> Seq<u8>
        decreases events.len(),
    {
        if events.len() == 0 {
            Seq::empty()
        } else {
            let earlier = self.sent(events.drop_last());
            match events.last() {
                RunEvent::Submit => earlier + ids_of(self.after(events.drop_last()).submit().1),
                RunEvent::Report(_) => earlier,
            }
        }
    }

    /// Workers report only tasks that run.
    pub open spec fn orderly(self, events: Seq<RunEvent>) -> bool
        decreases events.len(),
    {
        if events.len() == 0 {
            true
        } else {
            &&& self.orderly(events.drop_last())
            &&& match events.last() {
                RunEvent::Submit => true,
                RunEvent::Report(WorkOutputView::Succeeded(id)) => self.after(
                    events.drop_last(),
                ).status.in_progress.contains(id),
                RunEvent::Report(WorkOutputView::Failed(id, _)) => self.after(
                    events.drop_last(),
                ).status.in_progress.contains(id),
            }
        }
    }

    /// What handing out changes: the tasks that are handed out had been
    /// waiting with all their dependencies done, none of them twice, and
    /// they wait no longer; no task starts to wait; what is done stays as it
    /// is; and the split into waiting, running and done is kept.
    pub proof fn lemma_submit(self, all: Set<u8>)
        requires
            self.status.distinct(),
        ensures
            self.submit().0.status.distinct(),
            self.submit().0.status.completed == self.status.completed,
            self.submit().0.failed == self.failed,
            ids_of(self.submit().1).no_duplicates(),
            forall|id: u8| #[trigger]
                ids_of(self.submit().1).contains(id) ==> self.status.pending_ids().contains(id)
                    && !self.submit().0.status.pending_ids().contains(id)
                    && self.submit().0.status.in_progress.contains(id),
            forall|id: u8| #[trigger]
                self.submit().0.status.pending_ids().contains(id)
                    ==> self.status.pending_ids().contains(id),
            forall|i: int|
                0 <= i < self.submit().1.len() ==> exists|k: int|
                    0 <= k < self.status.pending.len() && (#[trigger] self.status.pending[k]).0
                        == (#[trigger] self.submit().1[i]).0 && self.status.pending[k].1.subset_of(
                        self.status.completed,
                    ),
            self.status.partitions(all) ==> self.submit().0.status.partitions(all),
        decreases self.status.pending.len(),
    {
        self.status.lemma_first_runnable_from(0);
        let k = self.status.first_runnable();
        if 0 <= k < self.status.pending.len() {
            let id = self.status.pending[k].0;
            let at = index_of_id(self.tasks, id);
            let now = RunView {
                status: self.status.started(k),
                tasks: self.tasks.remove(at),
                failed: self.failed,
            };
            let handed = self.submit().1;
            let later = now.submit().1;
            let then = now.submit().0;
            self.status.lemma_started_ids(k);
            crate::status::lemma_remove(self.status.pending_ids(), k);
            assert(self.status.pending_ids()[k] == id);
            assert(self.status.pending_ids().contains(id));
            assert(now.status.pending_ids().to_set() == self.status.pending_ids().to_set().remove(
                id,
            ));
            now.lemma_submit(all);
            if self.status.partitions(all) {
                self.status.lemma_next_partitions(all);
                assert(now.status == self.status.next().0);
            }
            assert(handed == seq![(id, self.tasks[at].1)] + later);
            assert(ids_of(handed) =~= seq![id] + ids_of(later));
            assert forall|x: u8| #[trigger] now.status.pending_ids().contains(x) implies x != id
                && self.status.pending_ids().contains(x) by {
                assert(now.status.pending_ids().to_set().contains(x));
            }
            assert forall|x: u8| #[trigger] ids_of(handed).contains(x) implies self.status.pending_ids().contains(
                x,
            ) && !then.status.pending_ids().contains(x) && then.status.in_progress.contains(
                x,
            ) by {
                let i = choose|i: int| 0 <= i < ids_of(handed).len() && ids_of(handed)[i] == x;
                if i > 0 {
                    assert(ids_of(later)[i - 1] == x);
                    assert(ids_of(later).contains(x));
                    assert(now.status.pending_ids().contains(x));
                } else {
                    assert(x == id);
                    if then.status.pending_ids().contains(id) {
                        assert(now.status.pending_ids().contains(id));
                    }
                    now.lemma_running_stays(id);
                }
            }
            assert forall|i: int, j: int|
                0 <= i < ids_of(handed).len() && 0 <= j < ids_of(handed).len() && i
                    != j implies ids_of(handed)[i] != ids_of(handed)[j] by {
                if i > 0 {
                    assert(ids_of(later)[i - 1] == ids_of(handed)[i]);
                    assert(ids_of(later).contains(ids_of(handed)[i]));
                }
                if j > 0 {
                    assert(ids_of(later)[j - 1] == ids_of(handed)[j]);
                    assert(ids_of(later).contains(ids_of(handed)[j]));
                }
            }
            assert forall|i: int| 0 <= i < handed.len() implies exists|n: int|
                0 <= n < self.status.pending.len() && (#[trigger] self.status.pending[n]).0 == (
                #[trigger] handed[i]).0 && self.status.pending[n].1.subset_of(
                    self.status.completed,
                ) by {
                if i == 0 {
                    assert(self.status.pending[k].0 == handed[0].0);
                } else {
                    assert(handed[i] == later[i - 1]);
                    let n = choose|n: int|
                        0 <= n < now.status.pending.len() && (#[trigger] now.status.pending[n]).0
                            == (#[trigger] later[i - 1]).0 && now.status.pending[n].1.subset_of(
                            now.status.completed,
                        );
                    let n0 = if n < k { n } else { n + 1 };
                    assert(now.status.pending[n] == self.status.pending[n0]);
                }
            }
        }
    }

    /// The tasks that are handed out together are those among the waiting
    /// ones that have all their dependencies done, in the order in which
    /// they wait, which is the order in which they were written down.
    pub proof fn lemma_submit_in_order(self)
        ensures
            ids_of(self.submit().1) == crate::status::ready(
                self.status.pending,
                self.status.completed,
            ),
        decreases self.status.pending.len(),
    {
        self.status.lemma_first_runnable_from(0);
        let k = self.status.first_runnable();
        assert forall|j: int| 0 <= j < k implies !(#[trigger] self.status.pending[j]).1.subset_of(
            self.status.completed,
        ) by {
            assert(!self.status.runnable(j));
        }
        crate::status::lemma_ready_first(self.status.pending, self.status.completed, k);
        if 0 <= k < self.status.pending.len() {
            let id = self.status.pending[k].0;
            let at = index_of_id(self.tasks, id);
            let now = RunView {
                status: self.status.started(k),
                tasks: self.tasks.remove(at),
                failed: self.failed,
            };
            now.lemma_submit_in_order();
            assert(ids_of(self.submit().1) =~= seq![id] + ids_of(now.submit().1));
        } else {
            assert(ids_of(self.submit().1) =~= Seq::<u8>::empty());
        }
    }

    /// Handing out tasks never takes a task away from those that run.
    pub proof fn lemma_running_stays(self, id: u8)
        requires
            self.status.in_progress.contains(id),
        ensures
            self.submit().0.status.in_progress.contains(id),
        decreases self.status.pending.len(),
    {
        let k = self.status.first_runnable();
        if 0 <= k < self.status.pending.len() {
            let at = index_of_id(self.tasks, self.status.pending[k].0);
            let now = RunView {
                status: self.status.started(k),
                tasks: self.tasks.remove(at),
                failed: self.failed,
            };
            now.lemma_running_stays(id);
        }
    }

    /// A report changes neither the waiting tasks nor what has been done.
    pub proof fn lemma_handle(self, output: WorkOutputView)
        ensures
            self.handle(output).status.pending == self.status.pending,
            self.status.completed.subset_of(self.handle(output).status.completed),
            self.consistent() ==> self.handle(output).consistent(),
    {
        assert(self.handle(output).status.pending_ids() == self.status.pending_ids());
    }

    /// At every point of a run in which workers report only tasks that run,
    /// the waiting, running and done tasks are pairwise disjoint and together
    /// are all the tasks.
    pub proof fn lemma_partition(self, all: Set<u8>, events: Seq<RunEvent>)
        requires
            self.status.partitions(all),
            self.orderly(events),
        ensures
            self.after(events).status.partitions(all),
        decreases events.len(),
    {
        if events.len() > 0 {
            let before = self.after(events.drop_last());
            self.lemma_partition(all, events.drop_last());
            match events.last() {
                RunEvent::Submit => before.lemma_submit(all),
                RunEvent::Report(WorkOutputView::Succeeded(id)) => {
                    before.status.lemma_complete_partitions(all, id)
                },
                RunEvent::Report(WorkOutputView::Failed(id, _)) => {
                    before.status.lemma_complete_partitions(all, id)
                },
            }
        }
    }

    /// A run of tasks with pairwise different identifiers starts with all
    /// of them waiting, and none running or done.
    pub proof fn lemma_initial(tasks: Seq<(u8, TaskView)>)
        requires
            distinct(graph_view(tasks)),
        ensures
            RunView::initial(tasks).consistent(),
            RunView::initial(tasks).status.partitions(ids_of(tasks).to_set()),
    {
        let run = RunView::initial(tasks);
        let g = graph_view(tasks);
        assert(run.status.pending_ids() =~= ids_of(tasks));
        assert forall|i: int, j: int|
            0 <= i < ids_of(tasks).len() && 0 <= j < ids_of(tasks).len() && i
                != j implies ids_of(tasks)[i] != ids_of(tasks)[j] by {
            assert(g[i].0 != g[j].0);
        }
        assert forall|i: int, j: int|
            0 <= i < run.tasks.len() && 0 <= j < run.tasks.len() && i != j implies (
        #[trigger] run.tasks[i]).0 != (#[trigger] run.tasks[j]).0 by {
            assert(g[i].0 != g[j].0);
        }
        assert forall|k: int| 0 <= k < run.status.pending.len() implies has_entry(
            run.tasks,
            (#[trigger] run.status.pending[k]).0,
        ) by {
            assert(run.tasks[k].0 == g[k].0);
        }
        StatusView::lemma_initial_partitions(g);
    }

    /// No task is handed out more than once, whatever happens in a run.
    pub proof fn lemma_sent_once(self, events: Seq<RunEvent>)
        requires
            self.status.distinct(),
        ensures
            self.sent(events).no_duplicates(),
            self.after(events).status.distinct(),
            forall|id: u8| #[trigger]
                self.sent(events).contains(id) ==> !self.after(
                    events,
                ).status.pending_ids().contains(id),
        decreases events.len(),
    {
        if events.len() > 0 {
            let before = self.after(events.drop_last());
            let earlier = self.sent(events.drop_last());
            let now = self.after(events);
            let all = self.sent(events);
            self.lemma_sent_once(events.drop_last());
            match events.last() {
                RunEvent::Submit => {
                    before.lemma_submit(Set::empty());
                    let new = ids_of(before.submit().1);
                    assert(all == earlier + new);
                    assert forall|x: u8| #[trigger] all.contains(x) implies earlier.contains(x)
                        || new.contains(x) by {
                        let i = choose|i: int| 0 <= i < all.len() && all[i] == x;
                        if i < earlier.len() {
                            assert(earlier[i] == x);
                        } else {
                            assert(new[i - earlier.len()] == x);
                        }
                    }
                    assert forall|i: int, j: int|
                        0 <= i < all.len() && 0 <= j < all.len() && i != j implies all[i]
                        != all[j] by {
                        if i < earlier.len() {
                            assert(earlier.contains(earlier[i]));
                        } else {
                            assert(new.contains(new[i - earlier.len()]));
                        }
                        if j < earlier.len() {
                            assert(earlier.contains(earlier[j]));
                        } else {
                            assert(new.contains(new[j - earlier.len()]));
                        }
                    }
                },
                RunEvent::Report(output) => {
                    before.lemma_handle(output);
                    assert(now.status.pending_ids() == before.status.pending_ids());
                },
            }
        }
    }

    /// A task that is done stays done, whatever happens later in the run.
    pub proof fn lemma_completed_stays(self, events: Seq<RunEvent>, id: u8)
        requires
            self.status.completed.contains(id),
        ensures
            self.after(events).status.completed.contains(id),
        decreases events.len(),
    {
        if events.len() > 0 {
            let before = self.after(events.drop_last());
            self.lemma_completed_stays(events.drop_last(), id);
            match events.last() {
                RunEvent::Submit => before.lemma_completed_kept(),
                RunEvent::Report(output) => before.lemma_handle(output),
            }
        }
    }

    /// Handing out tasks leaves what is done as it is.
    pub proof fn lemma_completed_kept(self)
        ensures
            self.submit().0.status.completed == self.status.completed,
        decreases self.status.pending.len(),
    {
        let k = self.status.first_runnable();
        if 0 <= k < self.status.pending.len() {
            let at = index_of_id(self.tasks, self.status.pending[k].0);
            let now = RunView {
                status: self.status.started(k),
                tasks: self.tasks.remove(at),
                failed: self.failed,
            };
            now.lemma_completed_kept();
        }
    }
}

/// Where an identifier has an entry, its first entry is found.
pub proof fn lemma_index_of_id(tasks: Seq<(u8, TaskView)>, id: u8)
    ensures
        0 <= index_of_id(tasks, id) <= tasks.len(),
        index_of_id(tasks, id) < tasks.len() ==> tasks[index_of_id(tasks, id)].0 == id,
        forall|j: int| 0 <= j < index_of_id(tasks, id) ==> (#[trigger] tasks[j]).0 != id,
    decreases tasks.len(),
{
    if tasks.len() > 0 && tasks[0].0 != id {
        let rest = tasks.drop_first();
        lemma_index_of_id(rest, id);
        assert forall|j: int| 0 <= j < index_of_id(tasks, id) implies (#[trigger] tasks[j]).0
            != id by {
            if j > 0 {
                assert(rest[j - 1] == tasks[j]);
            }
        }
    }
}

/// Handing out the first task that may start leaves a run in which every
/// waiting task is still there to be handed out.
pub proof fn lemma_submit_step(run: RunView)
    requires
        run.consistent(),
        0 <= run.status.first_runnable() < run.status.pending.len(),
    ensures
        ({
            let k = run.status.first_runnable();
            let at = index_of_id(run.tasks, run.status.pending[k].0);
            let now = RunView {
                status: run.status.started(k),
                tasks: run.tasks.remove(at),
                failed: run.failed,
            };
            &&& 0 <= at < run.tasks.len()
            &&& run.tasks[at].0 == run.status.pending[k].0
            &&& now.consistent()
            &&& now.status.pending.len() == run.status.pending.len() - 1
            &&& run.submit() == (
                now.submit().0,
                seq![(run.status.pending[k].0, run.tasks[at].1)] + now.submit().1,
            )
        }),
{
    let k = run.status.first_runnable();
    let id = run.status.pending[k].0;
    let at = index_of_id(run.tasks, id);
    let now = RunView {
        status: run.status.started(k),
        tasks: run.tasks.remove(at),
        failed: run.failed,
    };
    lemma_index_of_id(run.tasks, id);
    assert(has_entry(run.tasks, id));
    let some = choose|j: int| 0 <= j < run.tasks.len() && (#[trigger] run.tasks[j]).0 == id;
    assert(at < run.tasks.len()) by {
        if at >= run.tasks.len() {
            assert(run.tasks[some].0 != id);
        }
    }
    run.status.lemma_started_ids(k);
    crate::status::lemma_remove(run.status.pending_ids(), k);
    assert forall|i: int, j: int|
        0 <= i < now.tasks.len() && 0 <= j < now.tasks.len() && i != j implies (
    #[trigger] now.tasks[i]).0 != (#[trigger] now.tasks[j]).0 by {
        let i0 = if i < at { i } else { i + 1 };
        let j0 = if j < at { j } else { j + 1 };
        assert(now.tasks[i] == run.tasks[i0]);
        assert(now.tasks[j] == run.tasks[j0]);
    }
    assert forall|n: int| 0 <= n < now.status.pending.len() implies has_entry(
        now.tasks,
        (#[trigger] now.status.pending[n]).0,
    ) by {
        let n0 = if n < k { n } else { n + 1 };
        assert(now.status.pending[n] == run.status.pending[n0]);
        let other = run.status.pending[n0].0;
        assert(run.status.pending_ids()[n0] == other);
        assert(run.status.pending_ids()[k] == id);
        assert(other != id);
        assert(has_entry(run.tasks, other));
        let j = choose|j: int| 0 <= j < run.tasks.len() && (#[trigger] run.tasks[j]).0 == other;
        let j1 = if j < at { j } else { j - 1 };
        assert(now.tasks[j1] == run.tasks[j]);
    }
}

/// The state of a run: its tasks, which of them wait, run and are done, and
/// whether one has failed.
#[derive(Debug)]
pub struct Run {
    status: Status,
    tasks: Vec<(TaskId, Task)>,
    failed: bool,
}

impl View for Run {
    type V = RunView;

    closed spec fn view(&self) -> RunView {
        RunView { status: self.status@, tasks: tasks_view(self.tasks@), failed: self.failed }
    }
}

impl Run {
    /// In every run, each waiting task is there to be handed out, and no
    /// identifier waits twice or has two tasks.
    #[verifier::type_invariant]
    spec fn sound(self) -> bool {
        self@.consistent()
    }

    /// Initialize a run of the given tasks, no two of which may have the
    /// same identifier: every task waits until its dependencies are done.
    pub fn new(tasks: Vec<(TaskId, Task)>) -> (r: Self)
        requires
            distinct(graph_of(tasks@)),
        ensures
            r@ == RunView::initial(tasks_view(tasks@)),
            r@.consistent(),
    {
        let mut deps: Vec<(TaskId, TaskIds)> = Vec::new();
        let mut k: usize = 0;
        while k < tasks.len()
            invariant
                k <= tasks.len(),
                deps_view(deps@) == graph_of(tasks@).take(k as int),
            decreases tasks.len() - k,
        {
            let ghost before = deps_view(deps@);
            deps.push((tasks[k].0, tasks[k].1.depends()));
            proof {
                let g = graph_of(tasks@);
                assert(tasks_view(tasks@)[k as int] == (tasks@[k as int].0@, tasks@[k as int].1@));
                assert(g[k as int] == (tasks@[k as int].0@, tasks@[k as int].1@.depends()));
                assert(deps_view(deps@) =~= before.push(g[k as int]));
                assert(g.take(k + 1) =~= g.take(k as int).push(g[k as int]));
            }
            k = k + 1;
        }
        proof {
            assert(graph_of(tasks@).take(tasks@.len() as int) =~= graph_of(tasks@));
        }
        let status = Status::new(deps);
        proof {
            RunView::lemma_initial(tasks_view(tasks@));
        }
        Self { status, tasks, failed: false }
    }

    /// Which tasks wait, run and are done.
    pub fn status(&self) -> (r: &Status)
        ensures
            r@ == self@.status,
    {
        &self.status
    }

    /// The state of the tasks in words.
    pub fn to_string(&self) -> (s: String)
        ensures
            s@ == self@.status.text(),
    {
        self.status.to_string()
    }

    /// Whether nothing waits and nothing runs.
    pub fn is_completed(&self) -> (r: bool)
        ensures
            r == self@.is_completed(),
    {
        self.status.is_completed()
    }

    /// Whether the run has finished and no task has failed.
    pub fn is_succeeded(&self) -> (r: bool)
        ensures
            r == self@.is_succeeded(),
    {
        self.status.is_completed() && !self.failed
    }

    /// Submit all runnable tasks: hands out every task that may start now,
    /// each time the first waiting task that has all its dependencies done,
    /// and returns what is to be sent to the workers for them, in order.
    /// These are the waiting tasks whose dependencies are all done, in the
    /// order in which they wait.
    pub fn submit_runnable(&mut self) -> (r: Vec<WorkInput>)
        ensures
            final(self)@ == old(self)@.submit().0,
            inputs_view(r@) == as_inputs(old(self)@.submit().1),
            ids_of(old(self)@.submit().1) == crate::status::ready(
                old(self)@.status.pending,
                old(self)@.status.completed,
            ),
    {
        proof {
            use_type_invariant(&*self);
            old(self)@.lemma_submit_in_order();
        }
        // The state is taken out while tasks leave it, and put back at the end.
        let failed = self.failed;
        let mut status = Status::new(Vec::new());
        let mut tasks: Vec<(TaskId, Task)> = Vec::new();
        proof {
            assert(status@.pending_ids() =~= Seq::<u8>::empty());
            assert(tasks_view(tasks@) =~= Seq::empty());
            assert((RunView {
                status: status@,
                tasks: self@.tasks,
                failed: self.failed,
            }).consistent());
        }
        std::mem::swap(&mut self.status, &mut status);
        std::mem::swap(&mut self.tasks, &mut tasks);
        let mut sent: Vec<WorkInput> = Vec::new();
        let ghost start = old(self)@;
        let ghost mut handed: Seq<(u8, TaskView)> = Seq::empty();
        assert(inputs_view(sent@) =~= as_inputs(handed));
        loop
            invariant
                (RunView { status: status@, tasks: tasks_view(tasks@), failed }).consistent(),
                start.submit().0 == (RunView {
                    status: status@,
                    tasks: tasks_view(tasks@),
                    failed,
                }).submit().0,
                start.submit().1 == handed + (RunView {
                    status: status@,
                    tasks: tasks_view(tasks@),
                    failed,
                }).submit().1,
                inputs_view(sent@) == as_inputs(handed),
            ensures
                (RunView { status: status@, tasks: tasks_view(tasks@), failed }).consistent(),
                start.submit().0 == (RunView { status: status@, tasks: tasks_view(tasks@), failed }),
                start.submit().1 == handed,
                inputs_view(sent@) == as_inputs(handed),
            decreases status@.pending.len(),
        {
            let ghost before = RunView { status: status@, tasks: tasks_view(tasks@), failed };
            proof {
                before.status.lemma_first_runnable_from(0);
            }
            let task_id = match status.next_runnable() {
                Some(task_id) => task_id,
                None => {
                    proof {
                        assert(handed + Seq::empty() =~= handed);
                    }
                    break ;
                },
            };
            proof {
                lemma_submit_step(before);
                lemma_index_of_id(before.tasks, task_id@);
            }
            let at = match position(&tasks, task_id) {
                Some(at) => at,
                None => {
                    proof {
                        let at = index_of_id(before.tasks, task_id@);
                        assert(tasks_view(tasks@)[at].0 == tasks@[at].0@);
                    }
                    unreached()
                },
            };
            proof {
                let first = index_of_id(before.tasks, task_id@);
                assert(tasks_view(tasks@)[first].0 == tasks@[first].0@);
                assert(tasks_view(tasks@)[at as int].0 == tasks@[at as int].0@);
                assert(at == first);
            }
            let ghost earlier = inputs_view(sent@);
            let task = tasks.remove(at).1;
            let input = WorkInput::Task(task_id, task);
            sent.push(input);
            proof {
                let now = RunView { status: status@, tasks: tasks_view(tasks@), failed };
                assert(tasks_view(tasks@) =~= before.tasks.remove(at as int));
                assert(inputs_view(sent@) =~= earlier.push(input@));
                let entry = (task_id@, before.tasks[at as int].1);
                assert(input@ == WorkInputView::Task(entry.0, entry.1));
                assert(handed + (seq![entry] + now.submit().1) =~= handed.push(entry)
                    + now.submit().1);
                handed = handed.push(entry);
                assert(inputs_view(sent@) =~= as_inputs(handed));
            }
        }
        let ghost then = RunView { status: status@, tasks: tasks_view(tasks@), failed };
        std::mem::swap(&mut self.tasks, &mut tasks);
        proof {
            assert(tasks_view(self.tasks@) == then.tasks);
            assert(self.failed == failed);
        }
        std::mem::swap(&mut self.status, &mut status);
        sent
    }

    /// Takes in what a worker reports. After a failure the run is given up:
    /// the text to show is returned, and nothing more is to be submitted.
    pub fn handle_output(&mut self, output: WorkOutput) -> (notice: Option<String>)
        ensures
            final(self)@ == old(self)@.handle(output@),
            match notice {
                Some(text) => RunView::notice(output@) == Some(text@),
                None => RunView::notice(output@) is None,
            },
    {
        proof {
            use_type_invariant(&*self);
            old(self)@.lemma_handle(output@);
        }
        // The state is taken out while it changes, and put back afterwards.
        let mut status = Status::new(Vec::new());
        proof {
            assert(status@.pending_ids() =~= Seq::<u8>::empty());
        }
        std::mem::swap(&mut self.status, &mut status);
        match output {
            WorkOutput::Succeeded(id) => {
                status.complete(id);
                std::mem::swap(&mut self.status, &mut status);
                None
            },
            WorkOutput::Failed(id, s) => {
                let mut text = s;
                text.append("\nKilling containers and exiting.");
                status.complete(id);
                std::mem::swap(&mut self.status, &mut status);
                self.failed = true;
                Some(text)
            },
        }
    }

    /// The names of the containers that are killed when the run is cleaned
    /// up: those that workers are still attached to, one for each such
    /// worker, in the order of the workers.
    pub fn cleanup(self, cells: Vec<Option<String>>) -> (kills: Vec<String>)
        ensures
            kills.deep_view() == attached(cells_view(cells@)),
            kills.len() == attached_count(cells_view(cells@)),
    {
        let mut kills: Vec<String> = Vec::new();
        let mut k: usize = 0;
        assert(cells_view(cells@).take(0) =~= Seq::empty());
        while k < cells.len()
            invariant
                k <= cells.len(),
                kills.deep_view() == attached(cells_view(cells@).take(k as int)),
            decreases cells.len() - k,
        {
            proof {
                let now = cells_view(cells@).take(k + 1);
                assert(now.drop_last() =~= cells_view(cells@).take(k as int));
                assert(now.last() == cells_view(cells@)[k as int]);
            }
            if let Some(name) = &cells[k] {
                kills.push(name.clone());
                assert(kills.deep_view() =~= attached(cells_view(cells@).take(k as int)).push(
                    name@,
                ));
            }
            k = k + 1;
        }
        assert(cells_view(cells@).take(cells@.len() as int) =~= cells_view(cells@));
        proof {
            lemma_attached_count(cells_view(cells@));
            assert(kills.deep_view().len() == kills@.len());
        }
        kills
    }
}

} // verus!
