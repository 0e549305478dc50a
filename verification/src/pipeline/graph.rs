//! Dependency graphs as plain values, and what a cycle in one is.
//!
//! A graph is a sequence of entries, each an identifier with the set of
//! identifiers that it depends on.

use super::task_id::{
    lemma_members_below, lemma_members_below_insert, lemma_members_below_len, members_below,
};
use vstd::prelude::*;

verus! {

/// Whether some entry of `g` is for `id`.
pub open spec fn has_node(g: Seq<(u8, Set<u8>)>, id: u8) -> bool {
    exists|k: int| 0 <= k < g.len() && (#[trigger] g[k]).0 == id
}

/// Whether `from` depends on `to` in a way that a walk follows: a dependency
/// on 255 is never followed, as iteration over a set of identifiers leaves
/// 255 out.
#[verifier::opaque]
pub open spec fn edge(g: Seq<(u8, Set<u8>)>, from: u8, to: u8) -> bool {
    to != 255 && exists|k: int|
        0 <= k < g.len() && (#[trigger] g[k]).0 == from && g[k].1.contains(to)
}

/// No identifier has two entries.
pub open spec fn distinct(g: Seq<(u8, Set<u8>)>) -> bool {
    forall|i: int, j: int|
        0 <= i < g.len() && 0 <= j < g.len() && i != j ==> (#[trigger] g[i]).0 != (#[trigger] g[j]).0
}

/// Every dependency that a walk follows leads to an entry.
pub open spec fn closed(g: Seq<(u8, Set<u8>)>) -> bool {
    forall|k: int, to: u8|
        0 <= k < g.len() && #[trigger] g[k].1.contains(to) && to != 255 ==> has_node(g, to)
}

/// Each identifier of `p` depends on the one after it.
#[verifier::opaque]
pub open spec fn is_path(g: Seq<(u8, Set<u8>)>, p: Seq<u8>) -> bool {
    forall|i: int| 0 <= i < p.len() - 1 ==> edge(g, #[trigger] p[i], p[i + 1])
}

/// `p` is a path whose last identifier depends on its first.
pub open spec fn is_cycle(g: Seq<(u8, Set<u8>)>, p: Seq<u8>) -> bool {
    p.len() > 0 && is_path(g, p) && edge(g, p.last(), p[0])
}

/// The graph has a directed cycle.
pub open spec fn has_cycle(g: Seq<(u8, Set<u8>)>) -> bool {
    exists|p: Seq<u8>| is_cycle(g, p)
}

/// `p` is a path whose last identifier depends on the one at `k`: from `k`
/// on it is a cycle, and what comes before leads into it.
pub open spec fn is_lasso(g: Seq<(u8, Set<u8>)>, p: Seq<u8>, k: int) -> bool {
    is_path(g, p) && 0 <= k < p.len() && edge(g, p.last(), p[k])
}

/// `ids` are the identifiers of a path that runs into a cycle of its own.
pub open spec fn holds_cycle(g: Seq<(u8, Set<u8>)>, ids: Set<u8>) -> bool {
    exists|p: Seq<u8>, k: int| is_lasso(g, p, k) && ids == p.to_set()
}

/// No cycle passes through an identifier of `done`.
#[verifier::opaque]
pub open spec fn acyclic_on(g: Seq<(u8, Set<u8>)>, done: Set<u8>) -> bool {
    forall|p: Seq<u8>, i: int| is_cycle(g, p) && 0 <= i < p.len() ==> !done.contains(#[trigger] p[i])
}

/// The position of the entry for `id`.
pub open spec fn entry_index(g: Seq<(u8, Set<u8>)>, id: u8) -> int {
    choose|k: int| 0 <= k < g.len() && (#[trigger] g[k]).0 == id
}

/// The dependencies of `id` that a walk follows, in the order in which it
/// follows them: ascending, and without 255.
pub open spec fn followed(g: Seq<(u8, Set<u8>)>, id: u8) -> Seq<u8> {
    members_below(g[entry_index(g, id)].1, 255)
}

/// What a walk from `id` finds, depth first. `checked` holds what is known
/// to be clear of cycles, `checking` what lies on the way to `id`. The walk
/// stops at the first identifier that it comes to for the second time on one
/// way, and returns that way; else it returns nothing, and all that it has
/// seen is clear of cycles, which is returned as well.
pub open spec fn explore(
    g: Seq<(u8, Set<u8>)>,
    id: u8,
    checked: Set<u8>,
    checking: Set<u8>,
) -> (Option<Set<u8>>, Set<u8>)
    decreases 256 - members_below(checking, 256).len(), 0nat,
{
    if checked.contains(id) {
        (None, checked)
    } else if checking.contains(id) {
        (Some(checking), checked)
    } else {
        proof {
            lemma_members_below_insert(checking, id, 256);
            lemma_members_below_len(checking.insert(id), 256);
        }
        let (found, done) = explore_all(g, followed(g, id), 0, checked, checking.insert(id));
        if found is Some {
            (found, done)
        } else {
            (None, done.insert(id))
        }
    }
}

/// What a walk finds that goes from each of `ids` in turn, beginning with
/// the one at `from`.
pub open spec fn explore_all(
    g: Seq<(u8, Set<u8>)>,
    ids: Seq<u8>,
    from: nat,
    checked: Set<u8>,
    checking: Set<u8>,
) -> (Option<Set<u8>>, Set<u8>)
    decreases 256 - members_below(checking, 256).len(), 1 + ids.len() - from,
{
    if from >= ids.len() {
        (None, checked)
    } else {
        let (found, done) = explore(g, ids[from as int], checked, checking);
        if found is Some {
            (found, done)
        } else {
            explore_all(g, ids, from + 1, done, checking)
        }
    }
}

/// What the search for a cycle finds that walks from every entry in turn,
/// beginning with the one at `from`: the way on which the first walk that
/// runs into itself does so, or nothing.
pub open spec fn search(g: Seq<(u8, Set<u8>)>, from: nat, checked: Set<u8>) -> Option<Set<u8>>
    decreases g.len() - from,
{
    if from >= g.len() {
        None
    } else {
        let (found, done) = explore(g, g[from as int].0, checked, Set::empty());
        if found is Some {
            found
        } else {
            search(g, from + 1, done)
        }
    }
}

/// Where no identifier has two entries, an entry is found where it stands.
pub proof fn lemma_entry_index(g: Seq<(u8, Set<u8>)>, k: int)
    requires
        distinct(g),
        0 <= k < g.len(),
    ensures
        entry_index(g, g[k].0) == k,
{
    let found = entry_index(g, g[k].0);
    assert(0 <= found < g.len() && g[found].0 == g[k].0);
}

/// The entry at `k` depends on each member of its set but 255.
pub proof fn lemma_edge(g: Seq<(u8, Set<u8>)>, k: int, to: u8)
    requires
        0 <= k < g.len(),
        g[k].1.contains(to),
        to != 255,
    ensures
        edge(g, g[k].0, to),
{
    reveal(edge);
}

/// A path that runs into itself holds a cycle.
pub proof fn lemma_lasso_cycle(g: Seq<(u8, Set<u8>)>, p: Seq<u8>, k: int)
    requires
        is_lasso(g, p, k),
    ensures
        is_cycle(g, p.subrange(k, p.len() as int)),
        has_cycle(g),
{
    reveal(is_path);
    let c = p.subrange(k, p.len() as int);
    assert forall|i: int| 0 <= i < c.len() - 1 implies edge(g, #[trigger] c[i], c[i + 1]) by {
        assert(edge(g, p[k + i], p[k + i + 1]));
    }
    assert(c.last() == p.last());
    assert(c[0] == p[k]);
}

/// A set of identifiers that holds a cycle shows that the graph has one.
pub proof fn lemma_holds_cycle(g: Seq<(u8, Set<u8>)>, ids: Set<u8>)
    requires
        holds_cycle(g, ids),
    ensures
        has_cycle(g),
{
    let (p, k) = choose|p: Seq<u8>, k: int| is_lasso(g, p, k) && ids == p.to_set();
    lemma_lasso_cycle(g, p, k);
}

/// Every identifier of a path that runs into itself has an entry.
pub proof fn lemma_cycle_nodes(g: Seq<(u8, Set<u8>)>, ids: Set<u8>)
    requires
        holds_cycle(g, ids),
    ensures
        forall|x: u8| ids.contains(x) ==> has_node(g, x),
{
    reveal(is_path);
    reveal(edge);
    let (p, k) = choose|p: Seq<u8>, k: int| is_lasso(g, p, k) && ids == p.to_set();
    assert forall|x: u8| ids.contains(x) implies has_node(g, x) by {
        let i = choose|i: int| 0 <= i < p.len() && p[i] == x;
        if i < p.len() - 1 {
            assert(edge(g, p[i], p[i + 1]));
        } else {
            assert(edge(g, p.last(), p[k]));
        }
    }
}

/// Nothing is a path, and no cycle passes through nothing.
pub proof fn lemma_start(g: Seq<(u8, Set<u8>)>)
    ensures
        is_path(g, Seq::empty()),
        acyclic_on(g, Set::empty()),
        Seq::<u8>::empty().to_set() == Set::<u8>::empty(),
{
    reveal(is_path);
    reveal(acyclic_on);
    assert(Seq::<u8>::empty().to_set() =~= Set::<u8>::empty());
}

/// A walk that goes one step further is still on a path.
pub proof fn lemma_push(g: Seq<(u8, Set<u8>)>, stack: Seq<u8>, id: u8)
    requires
        is_path(g, stack),
        stack.len() > 0 ==> edge(g, stack.last(), id),
    ensures
        is_path(g, stack.push(id)),
        stack.push(id).to_set() == stack.to_set().insert(id),
{
    reveal(is_path);
    let deeper = stack.push(id);
    assert forall|i: int| 0 <= i < deeper.len() - 1 implies edge(
        g,
        #[trigger] deeper[i],
        deeper[i + 1],
    ) by {
        if i < stack.len() - 1 {
            assert(edge(g, stack[i], stack[i + 1]));
        }
    }
    assert forall|x: u8| deeper.to_set().contains(x) <==> stack.to_set().insert(id).contains(
        x,
    ) by {
        if deeper.contains(x) {
            let i = choose|i: int| 0 <= i < deeper.len() && deeper[i] == x;
            if i < stack.len() {
                assert(stack[i] == x);
            }
        }
        if stack.contains(x) {
            let i = choose|i: int| 0 <= i < stack.len() && stack[i] == x;
            assert(deeper[i] == x);
        }
        assert(deeper[stack.len() as int] == id);
    }
    assert(deeper.to_set() =~= stack.to_set().insert(id));
}

/// A walk that comes to an identifier that it is already on has found a
/// cycle.
pub proof fn lemma_detect(g: Seq<(u8, Set<u8>)>, stack: Seq<u8>, id: u8)
    requires
        is_path(g, stack),
        stack.len() > 0 ==> edge(g, stack.last(), id),
        stack.to_set().contains(id),
    ensures
        holds_cycle(g, stack.to_set()),
{
    let at = choose|i: int| 0 <= i < stack.len() && stack[i] == id;
    assert(is_lasso(g, stack, at));
}

/// An entry all of whose dependencies are clear of cycles is clear of cycles
/// itself.
pub proof fn lemma_finish(g: Seq<(u8, Set<u8>)>, done: Set<u8>, k: int)
    requires
        distinct(g),
        0 <= k < g.len(),
        acyclic_on(g, done),
        forall|v: u8| #[trigger] g[k].1.contains(v) && v != 255 ==> done.contains(v),
    ensures
        acyclic_on(g, done.insert(g[k].0)),
{
    reveal(acyclic_on);
    reveal(is_path);
    reveal(edge);
    let u = g[k].0;
    assert forall|p: Seq<u8>, i: int| is_cycle(g, p) && 0 <= i < p.len() implies !done.insert(
        u,
    ).contains(#[trigger] p[i]) by {
        if p[i] == u {
            let j = if i + 1 < p.len() { i + 1 } else { 0 };
            assert(edge(g, p[i], p[j]));
            let at = choose|at: int|
                0 <= at < g.len() && (#[trigger] g[at]).0 == u && g[at].1.contains(p[j]);
            assert(at == k);
            assert(done.contains(p[j]));
        }
    }
}

/// Where every entry is clear of cycles, the graph has none.
pub proof fn lemma_no_cycle(g: Seq<(u8, Set<u8>)>, done: Set<u8>)
    requires
        closed(g),
        acyclic_on(g, done),
        forall|k: int| 0 <= k < g.len() ==> done.contains((#[trigger] g[k]).0),
    ensures
        !has_cycle(g),
{
    reveal(acyclic_on);
    reveal(edge);
    if has_cycle(g) {
        let p = choose|p: Seq<u8>| is_cycle(g, p);
        assert(edge(g, p.last(), p[0]));
        let at = choose|at: int|
            0 <= at < g.len() && (#[trigger] g[at]).0 == p.last() && g[at].1.contains(p[0]);
        assert(has_node(g, p[0]));
        let k = choose|k: int| 0 <= k < g.len() && (#[trigger] g[k]).0 == p[0];
        assert(done.contains(g[k].0));
        assert(done.contains(p[0]));
    }
}

/// What a walk from `id` finds is right: a way that it returns runs into a
/// cycle of its own, and where it returns nothing, all that it has seen is
/// clear of cycles, `id` included.
proof fn lemma_explore(
    g: Seq<(u8, Set<u8>)>,
    id: u8,
    checked: Set<u8>,
    checking: Set<u8>,
    stack: Seq<u8>,
)
    requires
        distinct(g),
        closed(g),
        has_node(g, id),
        checking == stack.to_set(),
        is_path(g, stack),
        stack.len() > 0 ==> edge(g, stack.last(), id),
        acyclic_on(g, checked),
    ensures
        match explore(g, id, checked, checking).0 {
            Some(found) => holds_cycle(g, found),
            None => {
                &&& acyclic_on(g, explore(g, id, checked, checking).1)
                &&& explore(g, id, checked, checking).1.contains(id)
                &&& checked.subset_of(explore(g, id, checked, checking).1)
            },
        },
    decreases 256 - members_below(checking, 256).len(), 0nat,
{
    if checked.contains(id) {
    } else if checking.contains(id) {
        lemma_detect(g, stack, id);
    } else {
        let at = entry_index(g, id);
        let ids = followed(g, id);
        let deeper = stack.push(id);
        lemma_members_below_insert(checking, id, 256);
        lemma_members_below_len(checking.insert(id), 256);
        lemma_members_below(g[at].1, 255);
        lemma_push(g, stack, id);
        assert forall|i: int| 0 <= i < ids.len() implies edge(g, id, #[trigger] ids[i]) by {
            assert(ids.contains(ids[i]));
            lemma_edge(g, at, ids[i]);
        }
        lemma_explore_all(g, id, ids, 0, checked, checking.insert(id), deeper);
        let (found, done) = explore_all(g, ids, 0, checked, checking.insert(id));
        if found is None {
            assert forall|v: u8| #[trigger] g[at].1.contains(v) && v != 255 implies done.contains(
                v,
            ) by {
                assert(ids.contains(v));
                let i = choose|i: int| 0 <= i < ids.len() && ids[i] == v;
                assert(done.contains(ids[i]));
            }
            lemma_finish(g, done, at);
        }
    }
}

/// What a walk finds that goes from each dependency of `owner` in turn is
/// right as well.
proof fn lemma_explore_all(
    g: Seq<(u8, Set<u8>)>,
    owner: u8,
    ids: Seq<u8>,
    from: nat,
    checked: Set<u8>,
    checking: Set<u8>,
    stack: Seq<u8>,
)
    requires
        distinct(g),
        closed(g),
        checking == stack.to_set(),
        is_path(g, stack),
        stack.len() > 0,
        stack.last() == owner,
        forall|i: int| 0 <= i < ids.len() ==> edge(g, owner, #[trigger] ids[i]),
        acyclic_on(g, checked),
    ensures
        match explore_all(g, ids, from, checked, checking).0 {
            Some(found) => holds_cycle(g, found),
            None => {
                &&& acyclic_on(g, explore_all(g, ids, from, checked, checking).1)
                &&& checked.subset_of(explore_all(g, ids, from, checked, checking).1)
                &&& forall|i: int|
                    from <= i < ids.len() ==> explore_all(
                        g,
                        ids,
                        from,
                        checked,
                        checking,
                    ).1.contains(#[trigger] ids[i])
            },
        },
    decreases 256 - members_below(checking, 256).len(), 1 + ids.len() - from,
{
    if from < ids.len() {
        let next = ids[from as int];
        assert(edge(g, owner, next));
        lemma_edge_target(g, owner, next);
        lemma_explore(g, next, checked, checking, stack);
        let (found, done) = explore(g, next, checked, checking);
        if found is None {
            lemma_explore_all(g, owner, ids, from + 1, done, checking, stack);
        }
    }
}

/// Where every dependency leads to an entry, what is depended on has one.
proof fn lemma_edge_target(g: Seq<(u8, Set<u8>)>, from: u8, to: u8)
    requires
        closed(g),
        edge(g, from, to),
    ensures
        has_node(g, to),
{
    reveal(edge);
    let k = choose|k: int| 0 <= k < g.len() && (#[trigger] g[k]).0 == from && g[k].1.contains(to);
    assert(g[k].1.contains(to));
}

/// The search from the entry at `from` on is right, given that the entries
/// before it are clear of cycles.
proof fn lemma_search(g: Seq<(u8, Set<u8>)>, from: nat, checked: Set<u8>)
    requires
        distinct(g),
        closed(g),
        acyclic_on(g, checked),
        forall|j: int| 0 <= j < from && j < g.len() ==> checked.contains((#[trigger] g[j]).0),
    ensures
        match search(g, from, checked) {
            Some(found) => holds_cycle(g, found),
            None => !has_cycle(g),
        },
    decreases g.len() - from,
{
    if from >= g.len() {
        lemma_no_cycle(g, checked);
    } else {
        lemma_start(g);
        assert(has_node(g, g[from as int].0));
        lemma_explore(g, g[from as int].0, checked, Set::empty(), Seq::empty());
        let (found, done) = explore(g, g[from as int].0, checked, Set::empty());
        if found is None {
            lemma_search(g, from + 1, done);
        }
    }
}

/// The search finds a cycle exactly where the graph has one, and what it
/// returns then is a way that runs into a cycle of its own.
pub proof fn lemma_search_finds_cycles(g: Seq<(u8, Set<u8>)>)
    requires
        distinct(g),
        closed(g),
    ensures
        search(g, 0, Set::empty()) is Some <==> has_cycle(g),
        search(g, 0, Set::empty()) matches Some(found) ==> holds_cycle(g, found),
{
    lemma_start(g);
    lemma_search(g, 0, Set::empty());
    if search(g, 0, Set::empty()) is Some {
        lemma_holds_cycle(g, search(g, 0, Set::empty())->Some_0);
    }
}

} // verus!
