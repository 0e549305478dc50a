//! The validated pipeline and what it is made of.

pub mod graph;
pub mod raw_pipeline;
pub mod raw_task;
pub mod task;
pub mod task_id;
pub mod task_name;

pub use raw_pipeline::{RawPipeline, RawPipelineView};
pub use raw_task::{RawTask, RawTaskView};
pub use task::{Execution, ExecutionView, Task, TaskView};
pub use task_id::{TaskId, TaskIds};
pub use task_name::{TaskName, TaskNameView, TaskNames};

use crate::err::{Error, ErrorView, Result};
use crate::run::{Run, RunView};
use graph::{
    closed, distinct, edge, explore, explore_all, followed, has_cycle, has_node, holds_cycle,
    search,
};
use raw_pipeline::{tasks_view, well_formed};
use std::ops::Not;
use task_id::{members_below, values_of};
use vstd::pervasive::unreached;
use vstd::prelude::*;

verus! {

/// The dependency graph of a set of tasks: each identifier with the
/// identifiers that its task depends on.
pub open spec fn graph_view(tasks: Seq<(u8, TaskView)>) -> Seq<(u8, Set<u8>)> {
    tasks.map_values(|entry: (u8, TaskView)| (entry.0, entry.1.depends()))
}

/// The dependency graph of a set of tasks.
pub open spec fn graph_of(tasks: Seq<(TaskId, Task)>) -> Seq<(u8, Set<u8>)> {
    graph_view(tasks_view(tasks))
}

/// A set of identifiers that may be missing, as plain values.
pub open spec fn found_view(found: Option<TaskIds>) -> Option<Set<u8>> {
    match found {
        Some(ids) => Some(ids@),
        None => None,
    }
}

/// What the tasks with the listed identifiers of `found` are called.
pub open spec fn cycle_names(tasks: Seq<(u8, TaskView)>, found: Set<u8>) -> Seq<Seq<char>> {
    members_below(found, 255).map_values(|id: u8| tasks[id as int].1.name())
}

/// The length in bytes of the longest name among the commands of the first
/// `n` tasks.
pub open spec fn longest_name(tasks: Seq<(u8, TaskView)>, n: nat) -> usize
    decreases n,
{
    if n == 0 {
        0
    } else {
        let rest = longest_name(tasks, (n - 1) as nat);
        match tasks[n - 1].1.name_width() {
            Some(width) if width > rest => width,
            _ => rest,
        }
    }
}

/// Tasks that are well formed make a graph in which no identifier has two
/// entries and every dependency leads to an entry.
pub proof fn lemma_well_formed_graph(tasks: Seq<(u8, TaskView)>)
    requires
        well_formed(tasks),
    ensures
        distinct(graph_view(tasks)),
        closed(graph_view(tasks)),
{
    let g = graph_view(tasks);
    assert forall|k: int, to: u8|
        0 <= k < g.len() && #[trigger] g[k].1.contains(to) && to != 255 implies has_node(
        g,
        to,
    ) by {
        assert(tasks[k].1.depends().contains(to));
        assert(g[to as int].0 == to);
    }
    assert forall|i: int, j: int|
        0 <= i < g.len() && 0 <= j < g.len() && i != j implies (#[trigger] g[i]).0
        != (#[trigger] g[j]).0 by {
        assert(tasks[i].0 == i && tasks[j].0 == j);
    }
}

/// Among well-formed tasks a walk follows every dependency: none is on 255.
pub proof fn lemma_every_dependency_followed(tasks: Seq<(u8, TaskView)>, k: int, to: u8)
    requires
        well_formed(tasks),
        0 <= k < tasks.len(),
        tasks[k].1.depends().contains(to),
    ensures
        edge(graph_view(tasks), tasks[k].0, to),
{
    let g = graph_view(tasks);
    assert(g[k].1.contains(to));
    graph::lemma_edge(g, k, to);
}

/// A validated pipeline: the tasks by their identifiers, and the number of
/// workers that run them.
#[derive(Debug, PartialEq)]
pub struct Pipeline {
    n_parallel: usize,
    tasks: Vec<(TaskId, Task)>,
}

/// A [`Pipeline`] as plain values.
pub struct PipelineView {
    pub n_parallel: usize,
    pub tasks: Seq<(u8, TaskView)>,
}

impl View for Pipeline {
    type V = PipelineView;

    closed spec fn view(&self) -> PipelineView {
        PipelineView { n_parallel: self.n_parallel, tasks: tasks_view(self.tasks@) }
    }
}

impl RawPipelineView {
    /// What validation makes of the pipeline: what it stands for, with the
    /// number of its workers; or why it is rejected, which is what keeps it
    /// from standing for anything, or else the cycle that the search among
    /// its dependencies finds.
    pub open spec fn validated(
        self,
        default_image: Seq<char>,
        host_parallelism: usize,
    ) -> std::result::Result<PipelineView, ErrorView> {
        match self.resolved(default_image) {
            Err(e) => Err(e),
            Ok(tasks) => match search(graph_view(tasks), 0, Set::empty()) {
                Some(found) => Err(ErrorView::DependencyCycle(cycle_names(tasks, found))),
                None => Ok(
                    PipelineView { n_parallel: self.parallelism(host_parallelism), tasks },
                ),
            },
        }
    }
}

impl PipelineView {
    /// What validation leaves: at least one worker, well-formed tasks, and no
    /// cycle among their dependencies.
    pub open spec fn valid(self) -> bool {
        &&& self.n_parallel > 0
        &&& well_formed(self.tasks)
        &&& !has_cycle(graph_view(self.tasks))
    }
}

impl Pipeline {
    /// Every pipeline is a validated one.
    #[verifier::type_invariant]
    spec fn validated(self) -> bool {
        self@.valid()
    }

    /// Validates a pipeline as it is written down. It is rejected where two
    /// tasks share a name or there are more tasks and images than
    /// identifiers; else where a dependency names no task; else where, and
    /// only where, the dependencies have a cycle. `host_parallelism` is the
    /// number of tasks that the host can run at once, at least one, which is
    /// the number of workers where zero is written.
    pub fn from_raw(raw_pipeline: RawPipeline, default_image: &str, host_parallelism: usize) -> (r:
        Result<Self>)
        requires
            host_parallelism > 0,
        ensures
            match raw_pipeline@.validated(default_image@, host_parallelism) {
                Ok(pipeline) => r is Ok && r->Ok_0@ == pipeline && pipeline.valid(),
                Err(e) => r is Err && r->Err_0@ == e,
            },
            (r matches Err(e) && e is DependencyCycle) <==> (raw_pipeline@.resolved(
                default_image@,
            ) matches Ok(tasks) && has_cycle(graph_view(tasks))),
    {
        let n_parallel = raw_pipeline.n_parallel(host_parallelism);
        proof {
            task_name::lemma_naming_error_kind(
                raw_pipeline@.tasks,
                Some(raw_pipeline@.image(default_image@)),
                raw_pipeline@.tasks.len(),
            );
        }
        let tasks = match raw_pipeline.tasks(default_image) {
            Ok(tasks) => tasks,
            Err(e) => {
                return Err(e);
            },
        };
        proof {
            lemma_well_formed_graph(tasks_view(tasks@));
        }
        if let Some(task_ids) = check_cycles(&tasks) {
            let names = names_of(&tasks, task_ids);
            return Err(Error::DependencyCycle(names));
        }
        Ok(Self { tasks, n_parallel })
    }

    /// The state of a run of this pipeline before anything has started.
    pub fn run(self) -> (r: Run)
        ensures
            r@ == RunView::initial(self@.tasks),
            r@.consistent(),
    {
        proof {
            use_type_invariant(&self);
            lemma_well_formed_graph(self@.tasks);
        }
        Run::new(self.tasks)
    }

    /// The tasks by their identifiers, in the order of the identifiers.
    pub fn tasks(&self) -> (r: &Vec<(TaskId, Task)>)
        ensures
            tasks_view(r@) == self@.tasks,
    {
        &self.tasks
    }

    /// The number of workers that run the tasks.
    pub fn n_parallel(&self) -> (r: usize)
        ensures
            r == self@.n_parallel,
    {
        self.n_parallel
    }

    /// The width to which task names are filled up before each line of
    /// output: two more than the longest name has bytes, and ten at most.
    pub open spec fn spec_name_width(&self) -> usize {
        if longest_name(self@.tasks, self@.tasks.len()) >= 8 {
            10
        } else {
            (longest_name(self@.tasks, self@.tasks.len()) + 2) as usize
        }
    }

    /// The width to which task names are filled up before each line of
    /// output: two more than the longest name has bytes, and ten at most.
    pub fn name_width(&self) -> (r: usize)
        ensures
            r == self.spec_name_width(),
    {
        let mut longest: usize = 0;
        let mut k: usize = 0;
        while k < self.tasks.len()
            invariant
                k <= self.tasks.len(),
                longest == longest_name(self@.tasks, k as nat),
            decreases self.tasks.len() - k,
        {
            proof {
                assert(self@.tasks[k as int].1 == self.tasks@[k as int].1@);
            }
            if let Some(width) = self.tasks[k].1.name_width() {
                if width > longest {
                    longest = width;
                }
            }
            k = k + 1;
        }
        if longest >= 8 {
            10
        } else {
            longest + 2
        }
    }
}

/// What the tasks with the listed identifiers of `found` are called.
fn names_of(tasks: &Vec<(TaskId, Task)>, found: TaskIds) -> (names: Vec<String>)
    requires
        well_formed(tasks_view(tasks@)),
        holds_cycle(graph_of(tasks@), found@),
    ensures
        names.deep_view() == cycle_names(tasks_view(tasks@), found@),
{
    let ids = found.ids();
    let mut names: Vec<String> = Vec::new();
    let mut k: usize = 0;
    proof {
        task_id::lemma_members_below(found@, 255);
        graph::lemma_cycle_nodes(graph_of(tasks@), found@);
    }
    while k < ids.len()
        invariant
            k <= ids.len(),
            well_formed(tasks_view(tasks@)),
            values_of(ids@) == found.listed(),
            forall|x: u8| found@.contains(x) ==> has_node(graph_of(tasks@), x),
            forall|i: u8| #[trigger]
                found.listed().contains(i) <==> (i < 255 && found@.contains(i)),
            names.deep_view() == cycle_names(tasks_view(tasks@), found@).take(k as int),
        decreases ids.len() - k,
    {
        let id = ids[k];
        proof {
            assert(values_of(ids@)[k as int] == id@);
            assert(found.listed().contains(id@));
            assert(has_node(graph_of(tasks@), id@));
            let at = choose|at: int|
                0 <= at < graph_of(tasks@).len() && (#[trigger] graph_of(tasks@)[at]).0 == id@;
            assert(tasks_view(tasks@)[at].0 == at);
            assert(tasks_view(tasks@)[id@ as int].0 == id@);
        }
        let at = entry_of(tasks, id);
        proof {
            assert(tasks_view(tasks@)[at as int].0 == at);
        }
        names.push(tasks[at].1.name().clone());
        proof {
            let all = cycle_names(tasks_view(tasks@), found@);
            assert(names.deep_view() =~= all.take(k as int).push(all[k as int]));
            assert(all.take(k + 1) =~= all.take(k as int).push(all[k as int]));
        }
        k = k + 1;
    }
    proof {
        let all = cycle_names(tasks_view(tasks@), found@);
        assert(all.take(all.len() as int) =~= all);
    }
    names
}

/// The position of the entry for `id`, where there is one.
pub fn position(tasks: &Vec<(TaskId, Task)>, id: TaskId) -> (r: Option<usize>)
    ensures
        match r {
            Some(k) => k < tasks.len() && tasks[k as int].0@ == id@ && forall|j: int|
                0 <= j < k ==> (#[trigger] tasks[j]).0@ != id@,
            None => forall|j: int| 0 <= j < tasks.len() ==> (#[trigger] tasks[j]).0@ != id@,
        },
{
    broadcast use TaskId::lemma_view_injective;

    let mut k: usize = 0;
    while k < tasks.len()
        invariant
            k <= tasks.len(),
            forall|j: int| 0 <= j < k ==> (#[trigger] tasks[j]).0@ != id@,
        decreases tasks.len() - k,
    {
        if tasks[k].0 == id {
            return Some(k);
        }
        proof {
            TaskId::lemma_view_injective(tasks[k as int].0, id);
        }
        k = k + 1;
    }
    None
}

/// The position of the entry for `id`, which is there.
fn entry_of(tasks: &Vec<(TaskId, Task)>, id: TaskId) -> (at: usize)
    requires
        has_node(graph_of(tasks@), id@),
    ensures
        at < tasks.len(),
        tasks[at as int].0@ == id@,
        forall|j: int| 0 <= j < at ==> (#[trigger] tasks[j]).0@ != id@,
{
    match position(tasks, id) {
        Some(at) => at,
        None => {
            proof {
                let g = graph_of(tasks@);
                let k = choose|k: int| 0 <= k < g.len() && (#[trigger] g[k]).0 == id@;
                assert(tasks[k].0@ == id@);
            }
            unreached()
        },
    }
}

/// Looks for a cycle in the dependencies by walking them depth first from
/// every task, in the order of the entries. A cycle is there exactly when
/// some set is returned; the set holds the tasks that were being explored
/// when the walk ran into one of them again. No identifier may have two
/// entries, and every dependency has to lead to an entry.
pub fn check_cycles(tasks: &Vec<(TaskId, Task)>) -> (r: Option<TaskIds>)
    requires
        distinct(graph_of(tasks@)),
        closed(graph_of(tasks@)),
    ensures
        found_view(r) == search(graph_of(tasks@), 0, Set::empty()),
        r is Some <==> has_cycle(graph_of(tasks@)),
        r matches Some(found) ==> holds_cycle(graph_of(tasks@), found@),
{
    let ghost g = graph_of(tasks@);
    let mut visited = TaskIds::default();
    let mut k: usize = 0;
    while k < tasks.len()
        invariant
            k <= tasks.len(),
            g == graph_of(tasks@),
            distinct(g),
            closed(g),
            search(g, 0, Set::empty()) == search(g, k as nat, visited@),
        decreases tasks.len() - k,
    {
        let mut checking = TaskIds::default();
        proof {
            assert(g[k as int].0 == tasks[k as int].0@);
        }
        let found = visit(tasks[k].0, &mut visited, &mut checking, tasks);
        if found.is_some() {
            proof {
                graph::lemma_search_finds_cycles(g);
            }
            return found;
        }
        k = k + 1;
    }
    proof {
        graph::lemma_search_finds_cycles(g);
    }
    None
}

/// One step of the walk: explores `task_id` and all that it depends on.
/// `checked` holds the tasks that are known to be clear of cycles, `checking`
/// the tasks on the way from the start of the walk to here.
fn visit(
    task_id: TaskId,
    checked: &mut TaskIds,
    checking: &mut TaskIds,
    tasks: &Vec<(TaskId, Task)>,
) -> (r: Option<TaskIds>)
    requires
        distinct(graph_of(tasks@)),
        closed(graph_of(tasks@)),
        has_node(graph_of(tasks@), task_id@),
    ensures
        found_view(r) == explore(graph_of(tasks@), task_id@, old(checked)@, old(checking)@).0,
        r is None ==> final(checking)@ == old(checking)@ && final(checked)@ == explore(
            graph_of(tasks@),
            task_id@,
            old(checked)@,
            old(checking)@,
        ).1,
    decreases 256 - members_below(old(checking)@, 256).len(),
{
    let ghost g = graph_of(tasks@);
    let task_ids = TaskIds::from(task_id);
    if checked.contains(task_id) {
        return None;  // already checked so we can skip this
    }
    if checking.contains(task_id) {
        return Some(*checking);  // cycle
    }
    *checking = *checking | task_ids;
    proof {
        assert(checking@ =~= old(checking)@.insert(task_id@));
        task_id::lemma_members_below_insert(old(checking)@, task_id@, 256);
        task_id::lemma_members_below_len(checking@, 256);
    }
    let at = entry_of(tasks, task_id);
    let deps = tasks[at].1.depends();
    let dep_ids = deps.ids();
    let ghost total = explore_all(g, deps.listed(), 0, old(checked)@, checking@);
    proof {
        assert(g[at as int] == (task_id@, deps@));
        task_id::lemma_members_below(deps@, 255);
        graph::lemma_entry_index(g, at as int);
        assert(followed(g, task_id@) == deps.listed());
    }
    let mut j: usize = 0;
    while j < dep_ids.len()
        invariant
            j <= dep_ids.len(),
            g == graph_of(tasks@),
            distinct(g),
            closed(g),
            at < g.len(),
            g[at as int] == (task_id@, deps@),
            values_of(dep_ids@) == deps.listed(),
            forall|i: u8| #[trigger]
                deps.listed().contains(i) <==> (i < 255 && deps@.contains(i)),
            checking@ == old(checking)@.insert(task_id@),
            members_below(checking@, 256).len() == members_below(old(checking)@, 256).len() + 1,
            members_below(checking@, 256).len() <= 256,
            total == explore_all(g, deps.listed(), j as nat, checked@, checking@),
            explore(g, task_id@, old(checked)@, old(checking)@) == if total.0 is Some {
                total
            } else {
                (None::<Set<u8>>, total.1.insert(task_id@))
            },
        decreases dep_ids.len() - j,
    {
        let dep = dep_ids[j];
        proof {
            assert(values_of(dep_ids@).len() == dep_ids@.len());
            assert(values_of(dep_ids@)[j as int] == dep@);
            assert(deps.listed().contains(dep@));
            assert(g[at as int].1.contains(dep@));
        }
        if let Some(found) = visit(dep, checked, checking, tasks) {
            return Some(found);
        }
        j = j + 1;
    }
    proof {
        assert(values_of(dep_ids@).len() == dep_ids@.len());
    }
    let ghost done = checked@;
    *checking = *checking & task_ids.not();
    *checked = *checked | task_ids;
    proof {
        assert(checking@ =~= old(checking)@);
        assert(checked@ =~= done.insert(task_id@));
    }
    None
}

} // verus!
