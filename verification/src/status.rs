//! Which tasks are waiting, running and done, and which may start next.

use crate::pipeline::task_id::{set_text, values_of};
use crate::pipeline::{TaskId, TaskIds};
use std::ops::Not;
use vstd::prelude::*;
use vstd::string::StringExecFns;

verus! {

/// The state of a run as plain values: the tasks that wait, each with the
/// identifiers it depends on and in the order in which they are tried, the
/// tasks that run, and the tasks that are done.
pub struct StatusView {
    pub pending: Seq<(u8, Set<u8>)>,
    pub in_progress: Set<u8>,
    pub completed: Set<u8>,
}

/// What can happen to a run's state: a task is asked for, or one is reported
/// done.
pub enum Event {
    Next,
    Complete(u8),
}

/// Identifiers and dependency sets as plain values.
pub open spec fn deps_view(deps: Seq<(TaskId, TaskIds)>) -> Seq<(u8, Set<u8>)> {
    deps.map_values(|entry: (TaskId, TaskIds)| (entry.0@, entry.1@))
}

impl StatusView {
    /// The state before anything has started.
    pub open spec fn initial(pending: Seq<(u8, Set<u8>)>) -> StatusView {
        StatusView { pending, in_progress: Set::empty(), completed: Set::empty() }
    }

    /// The identifiers of the waiting tasks, in order.
    pub open spec fn pending_ids(self) -> Seq<u8> {
        self.pending.map_values(|entry: (u8, Set<u8>)| entry.0)
    }

    /// Whether the waiting task at `k` has all its dependencies done.
    pub open spec fn runnable(self, k: int) -> bool {
        self.pending[k].1.subset_of(self.completed)
    }

    /// The first position from `start` on whose task may run, or the number of
    /// waiting tasks where there is none.
    pub open spec fn first_runnable_from(self, start: int) -> int
        decreases self.pending.len() - start,
    {
        if start < 0 || start >= self.pending.len() {
            self.pending.len() as int
        } else if self.runnable(start) {
            start
        } else {
            self.first_runnable_from(start + 1)
        }
    }

    /// The position of the first waiting task that may run, or the number of
    /// waiting tasks where none may.
    pub open spec fn first_runnable(self) -> int {
        self.first_runnable_from(0)
    }

    /// The state after the waiting task at `k` has started: it leaves the
    /// waiting tasks, which stay in their order, and runs.
    pub open spec fn started(self, k: int) -> StatusView {
        StatusView {
            pending: self.pending.remove(k),
            in_progress: self.in_progress.insert(self.pending[k].0),
            completed: self.completed,
        }
    }

    /// Asking for a task: the first waiting task that may run starts and is
    /// named; where none may run, nothing changes and none is named.
    pub open spec fn next(self) -> (StatusView, Option<u8>) {
        let k = self.first_runnable();
        if k < self.pending.len() {
            (self.started(k), Some(self.pending[k].0))
        } else {
            (self, None)
        }
    }

    /// The state after `id` has been reported done.
    pub open spec fn complete(self, id: u8) -> StatusView {
        StatusView {
            pending: self.pending,
            in_progress: self.in_progress.remove(id),
            completed: self.completed.insert(id),
        }
    }

    /// Whether nothing waits and nothing runs.
    pub open spec fn is_completed(self) -> bool {
        self.pending.len() == 0 && self.in_progress == Set::<u8>::empty()
    }

    /// The state in words: the tasks that run, where there are any, and
    /// the tasks that are done, where there are any, with a note where the
    /// run is over. Before them stands a line for the tasks that wait, once
    /// none is left.
    pub open spec fn text(self) -> Seq<char> {
        (if self.pending.len() == 0 {
            "Unstarted tasks: "@ + set_text(self.pending_ids().to_set()) + "\n"@
        } else {
            Seq::empty()
        }) + (if self.in_progress != Set::<u8>::empty() {
            "Ongoing tasks:   "@ + set_text(self.in_progress) + "\n"@
        } else {
            Seq::empty()
        }) + (if self.completed != Set::<u8>::empty() {
            "Completed tasks: "@ + set_text(self.completed)
        } else {
            Seq::empty()
        }) + (if self.is_completed() {
            " (done)"@
        } else {
            Seq::empty()
        })
    }

    /// No identifier waits twice.
    pub open spec fn distinct(self) -> bool {
        self.pending_ids().no_duplicates()
    }

    /// Waiting, running and done tasks are pairwise disjoint and together are
    /// exactly `all`.
    pub open spec fn partitions(self, all: Set<u8>) -> bool {
        &&& self.distinct()
        &&& self.pending_ids().to_set().disjoint(self.in_progress)
        &&& self.pending_ids().to_set().disjoint(self.completed)
        &&& self.in_progress.disjoint(self.completed)
        &&& self.pending_ids().to_set().union(self.in_progress).union(self.completed) == all
    }

    /// The state after one event.
    pub open spec fn step(self, event: Event) -> StatusView {
        match event {
            Event::Next => self.next().0,
            Event::Complete(id) => self.complete(id),
        }
    }

    /// The state after a series of events.
    pub open spec fn after(self, events: Seq<Event>) -> StatusView
        decreases events.len(),
    {
        if events.len() == 0 {
            self
        } else {
            self.after(events.drop_last()).step(events.last())
        }
    }

    /// The identifiers that a series of events has started, in order.
    pub open spec fn submitted(self, events: Seq<Event>) -> Seq<u8>
        decreases events.len(),
    {
        if events.len() == 0 {
            Seq::empty()
        } else {
            let earlier = self.submitted(events.drop_last());
            match (events.last(), self.after(events.drop_last()).next().1) {
                (Event::Next, Some(id)) => earlier.push(id),
                _ => earlier,
            }
        }
    }

    /// Only running tasks are reported done.
    pub open spec fn orderly(self, events: Seq<Event>) -> bool
        decreases events.len(),
    {
        if events.len() == 0 {
            true
        } else {
            &&& self.orderly(events.drop_last())
            &&& match events.last() {
                Event::Next => true,
                Event::Complete(id) => self.after(events.drop_last()).in_progress.contains(id),
            }
        }
    }
}

/// The identifiers of the waiting tasks that have all their dependencies in
/// `completed`, in the order in which they wait.
pub open spec fn ready(pending: Seq<(u8, Set<u8>)>, completed: Set<u8>) -> Seq<u8>
    decreases pending.len(),
{
    if pending.len() == 0 {
        Seq::empty()
    } else {
        let rest = ready(pending.drop_first(), completed);
        if pending[0].1.subset_of(completed) {
            seq![pending[0].0] + rest
        } else {
            rest
        }
    }
}

/// The first waiting task that may run is the first of those that are
/// ready, and the others are ready after it as they were before.
pub proof fn lemma_ready_first(pending: Seq<(u8, Set<u8>)>, completed: Set<u8>, k: int)
    requires
        0 <= k <= pending.len(),
        forall|j: int| 0 <= j < k ==> !(#[trigger] pending[j]).1.subset_of(completed),
        k < pending.len() ==> pending[k].1.subset_of(completed),
    ensures
        ready(pending, completed) == if k < pending.len() {
            seq![pending[k].0] + ready(pending.remove(k), completed)
        } else {
            Seq::empty()
        },
    decreases k,
{
    if pending.len() == 0 {
    } else if k == 0 {
        assert(pending.remove(0) =~= pending.drop_first());
    } else {
        let rest = pending.drop_first();
        assert(!pending[0].1.subset_of(completed));
        assert forall|j: int| 0 <= j < k - 1 implies !(#[trigger] rest[j]).1.subset_of(
            completed,
        ) by {
            assert(rest[j] == pending[j + 1]);
        }
        lemma_ready_first(rest, completed, k - 1);
        if k < pending.len() {
            let without = pending.remove(k);
            assert(without[0] == pending[0]);
            assert(without.drop_first() =~= rest.remove(k - 1));
        }
    }
}

/// Removing position `k` from a sequence without repetitions takes away
/// that element and no other.
pub proof fn lemma_remove(ids: Seq<u8>, k: int)
    requires
        ids.no_duplicates(),
        0 <= k < ids.len(),
    ensures
        ids.remove(k).no_duplicates(),
        ids.remove(k).to_set() == ids.to_set().remove(ids[k]),
{
    let rest = ids.remove(k);
    assert forall|i: int| 0 <= i < rest.len() implies rest[i] == ids[if i < k {
        i
    } else {
        i + 1
    }] by {}
    assert forall|x: u8| rest.to_set().contains(x) <==> ids.to_set().remove(ids[k]).contains(
        x,
    ) by {
        if rest.contains(x) {
            let i = choose|i: int| 0 <= i < rest.len() && rest[i] == x;
            let j = if i < k { i } else { i + 1 };
            assert(ids[j] == x);
        }
        if ids.contains(x) && x != ids[k] {
            let j = choose|j: int| 0 <= j < ids.len() && ids[j] == x;
            if j < k {
                assert(rest[j] == x);
            } else {
                assert(rest[j - 1] == x);
            }
        }
    }
    assert(rest.to_set() =~= ids.to_set().remove(ids[k]));
}

impl StatusView {
    /// The first runnable position is runnable, where there is one, and no
    /// position before it is.
    pub proof fn lemma_first_runnable_from(self, start: int)
        requires
            0 <= start,
        ensures
            start <= self.first_runnable_from(start) || self.first_runnable_from(start)
                == self.pending.len(),
            self.first_runnable_from(start) <= self.pending.len(),
            self.first_runnable_from(start) < self.pending.len() ==> self.runnable(
                self.first_runnable_from(start),
            ),
            forall|j: int| start <= j < self.first_runnable_from(start) ==> !self.runnable(j),
        decreases self.pending.len() - start,
    {
        if start < self.pending.len() && !self.runnable(start) {
            self.lemma_first_runnable_from(start + 1);
        }
    }

    /// A task that is started had been waiting, has every dependency done at
    /// that moment, and runs from then on.
    pub proof fn lemma_next_respects_dependencies(self, id: u8)
        requires
            self.next().1 == Some(id),
        ensures
            0 <= self.first_runnable() < self.pending.len(),
            self.pending[self.first_runnable()].0 == id,
            self.pending[self.first_runnable()].1.subset_of(self.next().0.completed),
            self.next().0.in_progress.contains(id),
    {
        self.lemma_first_runnable_from(0);
    }

    /// Nothing is started while no waiting task has all its dependencies done.
    pub proof fn lemma_next_none(self)
        requires
            self.next().1 is None,
        ensures
            forall|j: int| 0 <= j < self.pending.len() ==> !self.runnable(j),
            self.next().0 == self,
    {
        self.lemma_first_runnable_from(0);
    }

    /// The waiting identifiers after the task at `k` has started.
    pub proof fn lemma_started_ids(self, k: int)
        requires
            0 <= k < self.pending.len(),
        ensures
            self.started(k).pending_ids() == self.pending_ids().remove(k),
            self.pending_ids()[k] == self.pending[k].0,
    {
        assert(self.started(k).pending_ids() =~= self.pending_ids().remove(k));
    }

    /// A fresh state, made of identifiers that are pairwise different, splits
    /// them into waiting, running and done.
    pub proof fn lemma_initial_partitions(pending: Seq<(u8, Set<u8>)>)
        requires
            StatusView::initial(pending).distinct(),
        ensures
            StatusView::initial(pending).partitions(
                StatusView::initial(pending).pending_ids().to_set(),
            ),
    {
        let s = StatusView::initial(pending);
        assert(s.pending_ids().to_set().union(s.in_progress).union(s.completed)
            =~= s.pending_ids().to_set());
    }

    /// Asking for a task keeps the split into waiting, running and done.
    pub proof fn lemma_next_partitions(self, all: Set<u8>)
        requires
            self.partitions(all),
        ensures
            self.next().0.partitions(all),
    {
        self.lemma_first_runnable_from(0);
        let k = self.first_runnable();
        if k < self.pending.len() {
            let after = self.started(k);
            let id = self.pending[k].0;
            self.lemma_started_ids(k);
            lemma_remove(self.pending_ids(), k);
            assert(self.pending_ids().to_set().contains(id)) by {
                assert(self.pending_ids()[k] == id);
            }
            assert(after.pending_ids().to_set().union(after.in_progress).union(after.completed)
                =~= all);
        }
    }

    /// Reporting a running task done keeps the split into waiting, running
    /// and done.
    pub proof fn lemma_complete_partitions(self, all: Set<u8>, id: u8)
        requires
            self.partitions(all),
            self.in_progress.contains(id),
        ensures
            self.complete(id).partitions(all),
    {
        let after = self.complete(id);
        assert(after.pending_ids() == self.pending_ids());
        assert(after.pending_ids().to_set().union(after.in_progress).union(after.completed)
            =~= all);
    }

    /// At every point of a run in which only running tasks are reported done,
    /// the waiting, running and done tasks are pairwise disjoint and together
    /// are all the tasks.
    pub proof fn lemma_partition(self, all: Set<u8>, events: Seq<Event>)
        requires
            self.partitions(all),
            self.orderly(events),
        ensures
            self.after(events).partitions(all),
        decreases events.len(),
    {
        if events.len() > 0 {
            let before = self.after(events.drop_last());
            self.lemma_partition(all, events.drop_last());
            match events.last() {
                Event::Next => before.lemma_next_partitions(all),
                Event::Complete(id) => before.lemma_complete_partitions(all, id),
            }
        }
    }

    /// A task that has been started waits no longer, and the waiting
    /// identifiers stay pairwise different.
    proof fn lemma_submitted_left(self, events: Seq<Event>)
        requires
            self.distinct(),
        ensures
            self.after(events).distinct(),
            self.submitted(events).no_duplicates(),
            forall|id: u8|
                self.submitted(events).contains(id) ==> !self.after(events).pending_ids().contains(
                    id,
                ),
            forall|id: u8| #[trigger]
                self.after(events).pending_ids().contains(id) ==> self.pending_ids().contains(id),
            forall|id: u8| #[trigger]
                self.submitted(events).contains(id) ==> self.pending_ids().contains(id),
        decreases events.len(),
    {
        if events.len() > 0 {
            let before = self.after(events.drop_last());
            let earlier = self.submitted(events.drop_last());
            let now = self.after(events);
            let all = self.submitted(events);
            self.lemma_submitted_left(events.drop_last());
            match events.last() {
                Event::Next => {
                    before.lemma_first_runnable_from(0);
                    let k = before.first_runnable();
                    if k < before.pending.len() {
                        let id = before.pending[k].0;
                        before.lemma_started_ids(k);
                        lemma_remove(before.pending_ids(), k);
                        assert(before.pending_ids().contains(id)) by {
                            assert(before.pending_ids()[k] == id);
                        }
                        assert(all == earlier.push(id));
                        assert forall|x: u8| now.pending_ids().contains(x) implies before.pending_ids().contains(
                            x,
                        ) && x != id by {
                            assert(now.pending_ids().to_set().contains(x));
                        }
                        assert forall|x: u8| all.contains(x) implies earlier.contains(x) || x
                            == id by {
                            let i = choose|i: int| 0 <= i < all.len() && all[i] == x;
                            if i < earlier.len() {
                                assert(earlier[i] == x);
                            }
                        }
                        assert forall|i: int, j: int|
                            0 <= i < all.len() && 0 <= j < all.len() && i != j implies all[i]
                            != all[j] by {
                            if i < earlier.len() {
                                assert(earlier.contains(earlier[i]));
                            }
                            if j < earlier.len() {
                                assert(earlier.contains(earlier[j]));
                            }
                        }
                    }
                },
                Event::Complete(id) => {
                    assert(now.pending_ids() == before.pending_ids());
                },
            }
        }
    }

    /// No task is started more than once, whatever happens in a run, and every
    /// task that is started had been waiting at the beginning.
    pub proof fn lemma_submitted_once(self, events: Seq<Event>)
        requires
            self.distinct(),
        ensures
            self.submitted(events).no_duplicates(),
            forall|id: u8| #[trigger]
                self.submitted(events).contains(id) ==> self.pending_ids().contains(id),
    {
        self.lemma_submitted_left(events);
    }

    /// A task that is done stays done, whatever happens later in the run.
    pub proof fn lemma_completed_stays(self, events: Seq<Event>, id: u8)
        requires
            self.completed.contains(id),
        ensures
            self.after(events).completed.contains(id),
        decreases events.len(),
    {
        if events.len() > 0 {
            self.lemma_completed_stays(events.drop_last(), id);
        }
    }
}

/// Tracks which tasks are new, in progress and completed.
#[derive(Debug)]
pub struct Status {
    new: Vec<(TaskId, TaskIds)>,
    in_progress: TaskIds,
    completed: TaskIds,
}

impl View for Status {
    type V = StatusView;

    closed spec fn view(&self) -> StatusView {
        StatusView {
            pending: deps_view(self.new@),
            in_progress: self.in_progress@,
            completed: self.completed@,
        }
    }
}

impl Status {
    /// Set the given `task_id` to be completed.
    pub fn complete(&mut self, task_id: TaskId)
        ensures
            final(self)@ == old(self)@.complete(task_id@),
    {
        let ids = TaskIds::from(task_id);
        self.in_progress = self.in_progress & ids.not();
        self.completed = self.completed | ids;
        proof {
            assert(self.in_progress@ =~= old(self).in_progress@.remove(task_id@));
            assert(self.completed@ =~= old(self).completed@.insert(task_id@));
        }
    }

    /// Check if the entire run is completed.
    pub fn is_completed(&self) -> (r: bool)
        ensures
            r == self@.is_completed(),
    {
        self.new.len() == 0 && self.in_progress.is_empty()
    }

    /// Initialize a new run given the task ids and their dependencies.
    /// None of the tasks is in progress or completed.
    pub fn new(deps: Vec<(TaskId, TaskIds)>) -> (r: Self)
        ensures
            r@ == StatusView::initial(deps_view(deps@)),
    {
        Self { new: deps, in_progress: TaskIds::default(), completed: TaskIds::default() }
    }

    /// The tasks that run.
    pub fn in_progress(&self) -> (r: TaskIds)
        ensures
            r@ == self@.in_progress,
    {
        self.in_progress
    }

    /// The tasks that are done.
    pub fn completed(&self) -> (r: TaskIds)
        ensures
            r@ == self@.completed,
    {
        self.completed
    }

    /// The tasks that wait.
    pub fn new_ids(&self) -> (r: TaskIds)
        ensures
            r@ == self@.pending_ids().to_set(),
    {
        let mut ids: Vec<TaskId> = Vec::new();
        let mut k: usize = 0;
        assert(self@.pending_ids().take(0) =~= Seq::<u8>::empty());
        while k < self.new.len()
            invariant
                k <= self.new.len(),
                values_of(ids@) == self@.pending_ids().take(k as int),
            decreases self.new.len() - k,
        {
            let ghost before = values_of(ids@);
            ids.push(self.new[k].0);
            proof {
                let all = self@.pending_ids();
                assert(all[k as int] == self.new@[k as int].0@);
                assert(values_of(ids@) =~= before.push(all[k as int]));
                assert(all.take(k + 1) =~= all.take(k as int).push(all[k as int]));
            }
            k = k + 1;
        }
        assert(self@.pending_ids().take(self.new@.len() as int) =~= self@.pending_ids());
        TaskIds::from_ids(ids.as_slice())
    }

    /// The state in words.
    pub fn to_string(&self) -> (s: String)
        ensures
            s@ == self@.text(),
    {
        let mut s = String::new();
        if self.new.len() == 0 {
            let new_ids = self.new_ids();
            s.append("Unstarted tasks: ");
            s.append(new_ids.to_string().as_str());
            s.append("\n");
        }
        if !self.in_progress.is_empty() {
            s.append("Ongoing tasks:   ");
            s.append(self.in_progress.to_string().as_str());
            s.append("\n");
        }
        if !self.completed.is_empty() {
            s.append("Completed tasks: ");
            s.append(self.completed.to_string().as_str());
        }
        if self.is_completed() {
            s.append(" (done)");
        }
        assert(s@ =~= self@.text());
        s
    }

    /// The position of the first waiting task whose dependencies are all
    /// completed.
    fn first_runnable(&self) -> (k: usize)
        ensures
            k == self@.first_runnable(),
    {
        let incomplete = self.completed.not();
        let mut k: usize = 0;
        while k < self.new.len()
            invariant
                k <= self.new.len(),
                incomplete@ == self.completed@.complement(),
                self@.first_runnable() == self@.first_runnable_from(k as int),
            decreases self.new.len() - k,
        {
            let waiting = self.new[k].1 & incomplete;
            proof {
                let deps = self@.pending[k as int].1;
                assert(deps == self.new@[k as int].1@);
                if deps.subset_of(self.completed@) {
                    assert(waiting@ =~= Set::<u8>::empty());
                } else {
                    let missing = choose|i: u8| deps.contains(i) && !self.completed@.contains(i);
                    assert(waiting@.contains(missing));
                }
            }
            if waiting.is_empty() {
                return k;
            }
            k = k + 1;
        }
        k
    }

    /// Query for a next runnable task, that is the first waiting task that has
    /// all of its dependencies completed. It leaves the waiting tasks, which
    /// keep their order, and is in progress from then on.
    pub fn next_runnable(&mut self) -> (r: Option<TaskId>)
        ensures
            final(self)@ == old(self)@.next().0,
            match r {
                Some(id) => old(self)@.next().1 == Some(id@),
                None => old(self)@.next().1 is None,
            },
            r matches Some(id) ==> {
                let k = old(self)@.first_runnable();
                &&& 0 <= k < old(self)@.pending.len()
                &&& old(self)@.pending[k].0 == id@
                &&& old(self)@.pending[k].1.subset_of(final(self)@.completed)
            },
    {
        proof {
            old(self)@.lemma_first_runnable_from(0);
        }
        let k = self.first_runnable();
        if k >= self.new.len() {
            return None;
        }
        let id = self.new.remove(k).0;
        self.in_progress = self.in_progress | TaskIds::from(id);
        proof {
            let before = old(self)@;
            assert(self.new@ == old(self).new@.remove(k as int));
            assert(deps_view(self.new@) =~= before.pending.remove(k as int));
            assert(self.in_progress@ =~= before.in_progress.insert(before.pending[k as int].0));
        }
        Some(id)
    }
}

} // verus!
