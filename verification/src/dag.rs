//! The dependency DAG over a set of task specs.

use crate::graph::{
    acyclic, lemma_closed_set, lemma_cycle_exists, lemma_edge_reaches,
    lemma_occurrences_contains, lemma_occurrences_push, lemma_occurrences_take,
    lemma_outstanding_insert, lemma_outstanding_none, lemma_outstanding_zero,
    lemma_rank_acyclic, lemma_reaches_then_edge, occurrences, outstanding, reaches, Edges,
};
use crate::ids::{IdMap, IdSet, TaskId};
use crate::order::{
    lemma_pick_all, lemma_pick_next, lemma_sorted_no_duplicates, lists_in_order, pick, sorted_ids,
    Id,
};
use crate::task::{TaskSpec, TaskSpecView, TaskState, TaskStateView};
use crate::text::join;
use vstd::prelude::*;

verus! {

#[derive(Debug, PartialEq)]
pub enum DagError {
    DuplicateId(TaskId),
    UnknownDependency { task: TaskId, dep: TaskId },
    Cycle(TaskId),
}

impl DagError {
    /// The message of the error.
    pub open spec fn text(self) -> Seq<char> {
        match self {
            DagError::DuplicateId(id) => "duplicate task id: "@ + id@,
            DagError::UnknownDependency { task, dep } => "task "@ + task@ + " depends on unknown task "@ + dep@,
            DagError::Cycle(id) => "dependency cycle involving task "@ + id@,
        }
    }

    pub fn message(&self) -> (r: String)
        ensures
            r@ == self.text(),
    {
        match self {
            DagError::DuplicateId(id) => join("duplicate task id: ", id.as_str()),
            DagError::UnknownDependency { task, dep } => join("task ", task.as_str()).concat(
                " depends on unknown task ",
            ).concat(dep.as_str()),
            DagError::Cycle(id) => join("dependency cycle involving task ", id.as_str()),
        }
    }
}

/// Validated dependency DAG over a set of task specs.
#[derive(Debug)]
pub struct TaskDag {
    pub tasks: IdMap<TaskSpec>,
    /// task -> tasks that depend on it
    pub dependents: IdMap<Vec<TaskId>>,
}

impl Clone for TaskDag {
    fn clone(&self) -> (r: Self)
        ensures
            r.tasks@ == self.tasks@,
            r.dependents@ == self.dependents@,
    {
        TaskDag { tasks: self.tasks.clone(), dependents: self.dependents.clone() }
    }
}

/// An earlier spec has the id of the spec at `i`.
pub open spec fn repeats(specs: Seq<TaskSpecView>, i: int) -> bool {
    exists|j: int| 0 <= j < i && (#[trigger] specs[j]).id == specs[i].id
}

/// The spec at `i` is the first that repeats an id.
pub open spec fn is_first_repeat(specs: Seq<TaskSpecView>, i: int) -> bool {
    &&& 0 <= i < specs.len()
    &&& repeats(specs, i)
    &&& forall|j: int| 0 <= j < i ==> !#[trigger] repeats(specs, j)
}

/// No two specs have the same id.
pub open spec fn unique_ids(specs: Seq<TaskSpecView>) -> bool {
    forall|i: int| 0 <= i < specs.len() ==> !#[trigger] repeats(specs, i)
}

/// The specs by their ids.
pub open spec fn tasks_by_id(specs: Seq<TaskSpecView>) -> Map<Id, TaskSpecView>
    decreases specs.len(),
{
    if specs.len() == 0 {
        Map::empty()
    } else {
        tasks_by_id(specs.drop_last()).insert(specs.last().id, specs.last())
    }
}

/// The task named `task` depends on `dep`, which no task is named.
pub open spec fn unknown_dependency(tasks: Map<Id, TaskSpecView>, task: Id, dep: Id) -> bool {
    tasks.contains_key(task) && tasks[task].depends_on.contains(dep) && !tasks.contains_key(dep)
}

/// `dep` is the first of the dependencies of `task` that no task is named.
pub open spec fn first_unknown_dependency(tasks: Map<Id, TaskSpecView>, task: Id, dep: Id) -> bool {
    &&& tasks.contains_key(task)
    &&& !tasks.contains_key(dep)
    &&& exists|k: int|
        0 <= k < tasks[task].depends_on.len() && #[trigger] tasks[task].depends_on[k] == dep && forall|q: int|
            0 <= q < k ==> tasks.contains_key(#[trigger] tasks[task].depends_on[q])
}

/// Every dependency is the id of a task.
pub open spec fn dependencies_known(tasks: Map<Id, TaskSpecView>) -> bool {
    forall|task: Id, dep: Id| !#[trigger] unknown_dependency(tasks, task, dep)
}

/// An edge leads from each task to each task that depends on it directly.
pub open spec fn task_edges(tasks: Map<Id, TaskSpecView>) -> Edges {
    Set::new(|e: (Id, Id)| tasks.contains_key(e.1) && tasks[e.1].depends_on.contains(e.0))
}

/// No task depends on itself, directly or through others.
pub open spec fn acyclic_tasks(tasks: Map<Id, TaskSpecView>) -> bool {
    acyclic(task_edges(tasks))
}

/// An edge leads from each id to each id that is listed for it.
pub open spec fn link_edges(links: Map<Id, Seq<Id>>) -> Edges {
    Set::new(|e: (Id, Id)| links.contains_key(e.0) && links[e.0].contains(e.1))
}

/// How often `task` names `dep` among its dependencies.
pub open spec fn dependency_count(tasks: Map<Id, TaskSpecView>, dep: Id, task: Id) -> nat {
    if tasks.contains_key(task) {
        occurrences(tasks[task].depends_on, dep)
    } else {
        0
    }
}

/// How often `to` is listed for `from`.
pub open spec fn link_count(links: Map<Id, Seq<Id>>, from: Id, to: Id) -> nat {
    if links.contains_key(from) {
        occurrences(links[from], to)
    } else {
        0
    }
}

/// `links` lists for each id the tasks that depend on it, each as often as it
/// names the id, and nothing for an id on which no task depends.
pub open spec fn links_match(tasks: Map<Id, TaskSpecView>, links: Map<Id, Seq<Id>>) -> bool {
    &&& forall|dep: Id, task: Id| #[trigger] link_count(links, dep, task) == dependency_count(tasks, dep, task)
    &&& forall|dep: Id| #[trigger] links.contains_key(dep) ==> links[dep].len() > 0
}

/// Each task is filed under its own id.
pub open spec fn filed_by_id(tasks: Map<Id, TaskSpecView>) -> bool {
    forall|id: Id| #[trigger] tasks.contains_key(id) ==> tasks[id].id == id
}

/// The task is waiting and all it depends on has completed.
pub open spec fn is_ready(tasks: Map<Id, TaskSpecView>, states: Map<Id, TaskStateView>, id: Id) -> bool {
    &&& tasks.contains_key(id)
    &&& states.contains_key(id)
    &&& states[id] is Pending
    &&& forall|i: int| 0 <= i < tasks[id].depends_on.len() ==> completed(states, #[trigger] tasks[id].depends_on[i])
}

pub open spec fn completed(states: Map<Id, TaskStateView>, id: Id) -> bool {
    states.contains_key(id) && states[id] is Completed
}

/// The tasks that may start.
pub open spec fn ready_set(tasks: Map<Id, TaskSpecView>, states: Map<Id, TaskStateView>) -> Set<Id> {
    Set::new(|id: Id| is_ready(tasks, states, id))
}

/// What `id` reaches along the links.
pub open spec fn blast_radius(links: Map<Id, Seq<Id>>, id: Id) -> Set<Id> {
    Set::new(|x: Id| reaches(link_edges(links), id, x))
}

/// All lists one after the other.
spec fn flattened(lists: Seq<Vec<TaskId>>) -> Seq<Id>
    decreases lists.len(),
{
    if lists.len() == 0 {
        Seq::empty()
    } else {
        flattened(lists.drop_last()) + lists.last().deep_view()
    }
}

proof fn lemma_flattened(lists: Seq<Vec<TaskId>>, i: int, x: Id)
    requires
        0 <= i < lists.len(),
        lists[i].deep_view().contains(x),
    ensures
        flattened(lists).contains(x),
    decreases lists.len(),
{
    let front = flattened(lists.drop_last());
    let back = lists.last().deep_view();
    if i == lists.len() - 1 {
        let k = choose|k: int| 0 <= k < back.len() && back[k] == x;
        assert((front + back)[front.len() + k] == x);
    } else {
        lemma_flattened(lists.drop_last(), i, x);
        let k = choose|k: int| 0 <= k < front.len() && front[k] == x;
        assert((front + back)[k] == x);
    }
}

proof fn lemma_push_to_set(ids: Seq<Id>, x: Id)
    ensures
        ids.push(x).to_set() == ids.to_set().insert(x),
{
    assert forall|y: Id| ids.push(x).to_set().contains(y) <==> ids.to_set().insert(x).contains(y) by {
        if ids.contains(y) {
            let i = choose|i: int| 0 <= i < ids.len() && ids[i] == y;
            assert(ids.push(x)[i] == y);
        }
        if y == x {
            assert(ids.push(x)[ids.len() as int] == y);
        }
    }
    assert(ids.push(x).to_set() =~= ids.to_set().insert(x));
}

/// Links that match the tasks give the same edges.
pub proof fn lemma_links_match_edges(tasks: Map<Id, TaskSpecView>, links: Map<Id, Seq<Id>>)
    requires
        links_match(tasks, links),
    ensures
        link_edges(links) == task_edges(tasks),
{
    assert forall|e: (Id, Id)| link_edges(links).contains(e) <==> task_edges(tasks).contains(e) by {
        assert(link_count(links, e.0, e.1) == dependency_count(tasks, e.0, e.1));
        if links.contains_key(e.0) {
            lemma_occurrences_contains(links[e.0], e.1);
        }
        if tasks.contains_key(e.1) {
            lemma_occurrences_contains(tasks[e.1].depends_on, e.0);
        }
    }
    assert(link_edges(links) =~= task_edges(tasks));
}

proof fn lemma_tasks_by_id(specs: Seq<TaskSpecView>)
    ensures
        filed_by_id(tasks_by_id(specs)),
        forall|id: Id| #[trigger] tasks_by_id(specs).contains_key(id)
            <==> exists|i: int| 0 <= i < specs.len() && (#[trigger] specs[i]).id == id,
    decreases specs.len(),
{
    if specs.len() > 0 {
        let front = specs.drop_last();
        lemma_tasks_by_id(front);
        assert forall|id: Id| #[trigger] tasks_by_id(specs).contains_key(id)
            <==> exists|i: int| 0 <= i < specs.len() && (#[trigger] specs[i]).id == id by {
            if tasks_by_id(front).contains_key(id) {
                let i = choose|i: int| 0 <= i < front.len() && (#[trigger] front[i]).id == id;
                assert(specs[i].id == id);
            }
            if exists|i: int| 0 <= i < specs.len() && (#[trigger] specs[i]).id == id {
                let i = choose|i: int| 0 <= i < specs.len() && (#[trigger] specs[i]).id == id;
                if i < front.len() {
                    assert(front[i].id == id);
                }
            }
            if specs.last().id == id {
                assert(specs[specs.len() - 1].id == id);
            }
        }
    }
}

impl TaskDag {
    /// What [`TaskDag::build`] establishes.
    pub open spec fn valid(self) -> bool {
        &&& filed_by_id(self.tasks@)
        &&& dependencies_known(self.tasks@)
        &&& links_match(self.tasks@, self.dependents@)
        &&& acyclic_tasks(self.tasks@)
    }

    /// All transitive dependents of `id` (the blast radius of its failure).
    pub fn transitive_dependents(&self, id: &str) -> (r: IdSet)
        ensures
            r@ == blast_radius(self.dependents@, id@),
    {
        let ghost links = self.dependents@;
        let ghost edges = link_edges(links);
        let ghost universe = flattened(self.dependents.values()).to_set();
        let _n = self.dependents.len();
        let mut result = IdSet::new();
        let mut stack: Vec<TaskId> = Vec::new();
        stack.push(id.to_string());
        proof {
            assert(result@.subset_of(universe));
            assert(stack@[0]@ == id@);
        }
        while stack.len() > 0
            invariant
                links == self.dependents@,
                edges == link_edges(links),
                universe == flattened(self.dependents.values()).to_set(),
                lists_in_order(self.dependents.ids(), links.dom()),
                self.dependents.ids().len() == self.dependents.values().len(),
                forall|i: int| 0 <= i < self.dependents.ids().len()
                    ==> #[trigger] links[self.dependents.ids()[i]] == self.dependents.values()[i].deep_view(),
                result@.finite(),
                result@.subset_of(universe),
                forall|x: Id| #[trigger] result@.contains(x) ==> reaches(edges, id@, x),
                forall|i: int| 0 <= i < stack@.len() ==> (#[trigger] stack@[i])@ == id@ || result@.contains(stack@[i]@),
                forall|x: Id, y: Id|
                    (x == id@ || result@.contains(x)) && #[trigger] edges.contains((x, y))
                        ==> result@.contains(y) || exists|i: int|
                        0 <= i < stack@.len() && (#[trigger] stack@[i])@ == x,
            decreases 2 * (universe.len() - result@.len()) + stack@.len(),
        {
            let ghost stack_before = stack@;
            let ghost measure_before = 2 * (universe.len() - result@.len()) + stack@.len();
            let current = stack.pop().unwrap();
            let ghost rest = stack@;
            proof {
                assert(stack_before == rest.push(current));
                assert(current@ == id@ || result@.contains(current@)) by {
                    assert(stack_before[stack_before.len() - 1] == current);
                }
                assert forall|i: int| 0 <= i < stack@.len() implies
                    (#[trigger] stack@[i])@ == id@ || result@.contains(stack@[i]@) by {
                    assert(stack_before[i] == stack@[i]);
                }
                assert forall|x: Id, y: Id|
                    (x == id@ || result@.contains(x)) && x != current@ && #[trigger] edges.contains((x, y)) implies
                        result@.contains(y) || exists|i: int|
                        0 <= i < stack@.len() && (#[trigger] stack@[i])@ == x by {
                    if !result@.contains(y) {
                        let i = choose|i: int| 0 <= i < stack_before.len() && (#[trigger] stack_before[i])@ == x;
                        assert(stack@[i]@ == x);
                    }
                }
            }
            if let Some(deps) = self.dependents.get(current.as_str()) {
                let mut k: usize = 0;
                while k < deps.len()
                    invariant
                        links == self.dependents@,
                        edges == link_edges(links),
                        universe == flattened(self.dependents.values()).to_set(),
                        lists_in_order(self.dependents.ids(), links.dom()),
                        self.dependents.ids().len() == self.dependents.values().len(),
                        forall|i: int| 0 <= i < self.dependents.ids().len()
                            ==> #[trigger] links[self.dependents.ids()[i]] == self.dependents.values()[i].deep_view(),
                        result@.finite(),
                        result@.subset_of(universe),
                        forall|x: Id| #[trigger] result@.contains(x) ==> reaches(edges, id@, x),
                        current@ == id@ || result@.contains(current@),
                        links.contains_key(current@),
                        deps.deep_view() == links[current@],
                        k <= deps@.len(),
                        forall|j: int| 0 <= j < k ==> result@.contains((#[trigger] deps@[j])@),
                        forall|i: int| 0 <= i < stack@.len()
                            ==> (#[trigger] stack@[i])@ == id@ || result@.contains(stack@[i]@),
                        forall|x: Id, y: Id|
                            (x == id@ || result@.contains(x)) && x != current@ && #[trigger] edges.contains((x, y))
                                ==> result@.contains(y) || exists|i: int|
                                0 <= i < stack@.len() && (#[trigger] stack@[i])@ == x,
                        2 * (universe.len() - result@.len()) + stack@.len() < measure_before,
                    decreases deps@.len() - k,
                {
                    let d = deps[k].clone();
                    let ghost result_before = result@;
                    let ghost inner_before = stack@;
                    proof {
                        assert(deps.deep_view()[k as int] == d@);
                        assert(edges.contains((current@, d@)));
                        if current@ == id@ {
                            lemma_edge_reaches(edges, id@, d@);
                        } else {
                            lemma_reaches_then_edge(edges, id@, current@, d@);
                        }
                        assert(universe.contains(d@)) by {
                            assert(self.dependents.ids().contains(current@));
                            let at = choose|at: int| 0 <= at < self.dependents.ids().len()
                                && self.dependents.ids()[at] == current@;
                            assert(links[self.dependents.ids()[at]] == self.dependents.values()[at].deep_view());
                            lemma_flattened(self.dependents.values(), at, d@);
                        }
                    }
                    if result.insert(d.clone()) {
                        stack.push(d);
                        proof {
                            vstd::set_lib::lemma_len_subset(result@, universe);
                            assert(stack@[stack@.len() - 1]@ == d@);
                        }
                    } else {
                        assert(result@ =~= result_before);
                    }
                    proof {
                        assert forall|i: int| 0 <= i < stack@.len() implies
                            (#[trigger] stack@[i])@ == id@ || result@.contains(stack@[i]@) by {
                            if i < inner_before.len() {
                                assert(stack@[i] == inner_before[i]);
                            }
                        }
                        assert forall|x: Id, y: Id|
                            (x == id@ || result@.contains(x)) && x != current@
                                && #[trigger] edges.contains((x, y)) implies result@.contains(y) || exists|i: int|
                                0 <= i < stack@.len() && (#[trigger] stack@[i])@ == x by {
                            if !result@.contains(y) {
                                if x == id@ || result_before.contains(x) {
                                    let i = choose|i: int| 0 <= i < inner_before.len()
                                        && (#[trigger] inner_before[i])@ == x;
                                    assert(stack@[i]@ == x);
                                }
                            }
                        }
                    }
                    k += 1;
                }
                assert forall|y: Id| #[trigger] edges.contains((current@, y)) implies result@.contains(y) by {
                    let j = choose|j: int| 0 <= j < deps.deep_view().len() && deps.deep_view()[j] == y;
                    assert(deps@[j]@ == y);
                }
            }
            proof {
                vstd::set_lib::lemma_len_subset(result@, universe);
            }
        }
        proof {
            assert forall|x: Id| #[trigger] result@.contains(x) <==> blast_radius(links, id@).contains(x) by {
                if reaches(edges, id@, x) {
                    lemma_closed_set(edges, id@, result@, x);
                }
            }
            assert(result@ =~= blast_radius(links, id@));
        }
        result
    }

    /// Tasks whose dependencies are all completed, given current states.
    /// Deterministic: sorted by id.
    pub fn ready(&self, states: &IdMap<TaskState>) -> (r: Vec<TaskId>)
        requires
            filed_by_id(self.tasks@),
        ensures
            r.deep_view() == sorted_ids(ready_set(self.tasks@, states@)),
            lists_in_order(r.deep_view(), ready_set(self.tasks@, states@)),
    {
        let n = self.tasks.len();
        let ghost ids = self.tasks.ids();
        let ghost ready = ready_set(self.tasks@, states@);
        let mut r: Vec<TaskId> = Vec::new();
        let mut i: usize = 0;
        assert(r.deep_view() =~= Seq::<Id>::empty());
        while i < n
            invariant
                i <= n == ids.len(),
                ids == self.tasks.ids(),
                ready == ready_set(self.tasks@, states@),
                filed_by_id(self.tasks@),
                r.deep_view() == pick(ids.take(i as int), ready),
            decreases n - i,
        {
            let spec = self.tasks.value_at(i);
            let ghost before = r.deep_view();
            let pending = match states.get(spec.id.as_str()) {
                Some(TaskState::Pending) => true,
                _ => false,
            };
            let starts = pending && all_completed(&spec.depends_on, states);
            proof {
                let x = ids[i as int];
                lemma_pick_next(ids, ready, i as int);
                assert(self.tasks@[x] == spec.deep_view());
                assert(spec.id@ == x);
                if starts {
                    assert forall|k: int| 0 <= k < self.tasks@[x].depends_on.len() implies
                        completed(states@, #[trigger] self.tasks@[x].depends_on[k]) by {
                        assert(completed(states@, spec.depends_on.deep_view()[k]));
                    }
                }
                if is_ready(self.tasks@, states@, x) {
                    assert forall|k: int| 0 <= k < spec.depends_on.deep_view().len() implies
                        completed(states@, #[trigger] spec.depends_on.deep_view()[k]) by {
                        assert(completed(states@, self.tasks@[x].depends_on[k]));
                    }
                }
                assert(starts == ready.contains(x));
            }
            if starts {
                r.push(spec.id.clone());
                assert(r.deep_view() =~= before.push(ids[i as int]));
            }
            i += 1;
        }
        proof {
            assert(ids.take(ids.len() as int) =~= ids);
            assert forall|x: Id| #[trigger] ready.contains(x) implies ids.contains(x) by {
                assert(self.tasks@.dom().contains(x));
            }
            lemma_pick_all(ids, ready);
        }
        r
    }
}

/// Whether every one of `deps` has completed.
fn all_completed(deps: &Vec<TaskId>, states: &IdMap<TaskState>) -> (r: bool)
    ensures
        r == forall|i: int| 0 <= i < deps.deep_view().len() ==> completed(states@, #[trigger] deps.deep_view()[i]),
{
    let mut i: usize = 0;
    while i < deps.len()
        invariant
            i <= deps@.len(),
            forall|j: int| 0 <= j < i ==> completed(states@, #[trigger] deps.deep_view()[j]),
        decreases deps@.len() - i,
    {
        let done = match states.get(deps[i].as_str()) {
            Some(TaskState::Completed { .. }) => true,
            _ => false,
        };
        if !done {
            assert(!completed(states@, deps.deep_view()[i as int]));
            return false;
        }
        i += 1;
    }
    true
}

/// The specs filed under their ids, unless an id repeats.
fn file_specs(specs: &Vec<TaskSpec>) -> (r: Result<IdMap<TaskSpec>, DagError>)
    ensures
        match r {
            Ok(tasks) => unique_ids(specs.deep_view()) && tasks@ == tasks_by_id(specs.deep_view()),
            Err(DagError::DuplicateId(id)) => exists|i: int|
                is_first_repeat(specs.deep_view(), i) && (#[trigger] specs.deep_view()[i]).id == id@,
            Err(_) => false,
        },
{
    let ghost all = specs.deep_view();
    let mut tasks: IdMap<TaskSpec> = IdMap::new();
    let mut i: usize = 0;
    assert(all.take(0) =~= Seq::<TaskSpecView>::empty());
    while i < specs.len()
        invariant
            i <= specs@.len(),
            all == specs.deep_view(),
            tasks@ == tasks_by_id(all.take(i as int)),
            forall|j: int| 0 <= j < i ==> !#[trigger] repeats(all, j),
        decreases specs@.len() - i,
    {
        let spec = &specs[i];
        proof {
            lemma_tasks_by_id(all.take(i as int));
            assert(all[i as int] == spec.deep_view());
        }
        if tasks.contains_key(spec.id.as_str()) {
            proof {
                let j = choose|j: int| 0 <= j < all.take(i as int).len()
                    && (#[trigger] all.take(i as int)[j]).id == spec.id@;
                assert(all[j].id == all[i as int].id);
                assert(repeats(all, i as int));
                assert(is_first_repeat(all, i as int));
            }
            return Err(DagError::DuplicateId(spec.id.clone()));
        }
        proof {
            if repeats(all, i as int) {
                let j = choose|j: int| 0 <= j < i && (#[trigger] all[j]).id == all[i as int].id;
                assert(all.take(i as int)[j].id == spec.id@);
            }
            assert(all.take(i + 1).drop_last() =~= all.take(i as int));
        }
        tasks.insert(spec.id.clone(), spec.clone());
        i += 1;
    }
    assert(all.take(all.len() as int) =~= all);
    Ok(tasks)
}

/// How often `to` is to be listed for `from` once the dependencies of the
/// first `i` tasks and the first `k` of the next have been linked.
spec fn linked_count(tasks: Map<Id, TaskSpecView>, ids: Seq<Id>, i: int, k: int, from: Id, to: Id) -> nat {
    if !ids.contains(to) || ids.index_of(to) > i {
        0
    } else if ids.index_of(to) < i {
        occurrences(tasks[to].depends_on, from)
    } else {
        occurrences(tasks[to].depends_on.take(k), from)
    }
}

/// For each id the tasks that depend on it, unless a dependency is unknown.
fn link_tasks(tasks: &IdMap<TaskSpec>) -> (r: Result<IdMap<Vec<TaskId>>, DagError>)
    requires
        filed_by_id(tasks@),
    ensures
        match r {
            Ok(links) => dependencies_known(tasks@) && links_match(tasks@, links@),
            Err(DagError::UnknownDependency { task, dep }) => {
                &&& unknown_dependency(tasks@, task@, dep@)
                &&& first_unknown_dependency(tasks@, task@, dep@)
            },
            Err(_) => false,
        },
{
    let n = tasks.len();
    let ghost all = tasks@;
    let ghost ids = tasks.ids();
    let mut links: IdMap<Vec<TaskId>> = IdMap::new();
    let mut i: usize = 0;
    proof {
        lemma_sorted_no_duplicates(ids);
        assert forall|from: Id, to: Id| #[trigger] link_count(links@, from, to)
            == linked_count(all, ids, 0, 0, from, to) by {
            if ids.contains(to) {
                assert(all[to].depends_on.take(0) =~= Seq::<Id>::empty());
            }
        }
    }
    while i < n
        invariant
            i <= n == ids.len(),
            ids == tasks.ids(),
            all == tasks@,
            ids.no_duplicates(),
            lists_in_order(ids, all.dom()),
            filed_by_id(all),
            forall|from: Id, to: Id| #[trigger] link_count(links@, from, to)
                == linked_count(all, ids, i as int, 0, from, to),
            forall|dep: Id| #[trigger] links@.contains_key(dep) ==> links@[dep].len() > 0,
            forall|task: Id, dep: Id| #[trigger] unknown_dependency(all, task, dep) ==> ids.index_of(task) >= i,
        decreases n - i,
    {
        let spec = tasks.value_at(i);
        let ghost me = ids[i as int];
        let ghost deps = all[me].depends_on;
        assert(deps == spec.depends_on.deep_view());
        assert(ids.contains(me));
        let mut k: usize = 0;
        while k < spec.depends_on.len()
            invariant
                i < n == ids.len(),
                ids == tasks.ids(),
                all == tasks@,
                ids.no_duplicates(),
                lists_in_order(ids, all.dom()),
                filed_by_id(all),
                me == ids[i as int],
                ids.contains(me),
                all.contains_key(me),
                spec.deep_view() == all[me],
                deps == all[me].depends_on,
                deps == spec.depends_on.deep_view(),
                k <= spec.depends_on@.len(),
                forall|from: Id, to: Id| #[trigger] link_count(links@, from, to)
                    == linked_count(all, ids, i as int, k as int, from, to),
                forall|dep: Id| #[trigger] links@.contains_key(dep) ==> links@[dep].len() > 0,
                forall|j: int| 0 <= j < k ==> all.contains_key(#[trigger] deps[j]),
            decreases spec.depends_on@.len() - k,
        {
            let dep = &spec.depends_on[k];
            assert(deps[k as int] == dep@);
            if !tasks.contains_key(dep.as_str()) {
                assert(deps.contains(dep@));
                assert(unknown_dependency(all, me, dep@));
                assert(all[me].depends_on[k as int] == dep@);
                return Err(DagError::UnknownDependency { task: spec.id.clone(), dep: dep.clone() });
            }
            let ghost before = links@;
            let mut list: Vec<TaskId> = match links.remove(dep.as_str()) {
                Some(list) => list,
                None => Vec::new(),
            };
            let ghost list_before = list.deep_view();
            list.push(spec.id.clone());
            assert(list.deep_view() =~= list_before.push(me));
            links.insert(dep.clone(), list);
            proof {
                assert forall|from: Id, to: Id| #[trigger] link_count(links@, from, to)
                    == linked_count(all, ids, i as int, k + 1, from, to) by {
                    assert(link_count(before, from, to) == linked_count(all, ids, i as int, k as int, from, to));
                    if from == dep@ {
                        if !before.contains_key(dep@) {
                            assert(list_before =~= Seq::<Id>::empty());
                        }
                        lemma_occurrences_push(list_before, me, to);
                    }
                    if ids.contains(to) && ids.index_of(to) == i {
                        assert(to == me);
                        lemma_occurrences_take(deps, k as int, from);
                    } else {
                        assert(to != me);
                    }
                }
            }
            k += 1;
        }
        proof {
            assert(deps.take(deps.len() as int) =~= deps);
            assert forall|from: Id, to: Id| #[trigger] link_count(links@, from, to)
                == linked_count(all, ids, i + 1, 0, from, to) by {
                if ids.contains(to) {
                    let at = ids.index_of(to);
                    if at == i {
                        assert(to == me);
                    }
                    if at == i + 1 {
                        assert(all[to].depends_on.take(0) =~= Seq::<Id>::empty());
                    }
                }
            }
            assert forall|task: Id, dep: Id| #[trigger] unknown_dependency(all, task, dep) implies
                ids.index_of(task) >= i + 1 by {
                assert(ids.contains(task));
                if ids.index_of(task) == i {
                    assert(task == me);
                    let j = choose|j: int| 0 <= j < deps.len() && deps[j] == dep;
                    assert(all.contains_key(deps[j]));
                }
            }
        }
        i += 1;
    }
    proof {
        assert forall|dep: Id, task: Id| #[trigger] link_count(links@, dep, task)
            == dependency_count(all, dep, task) by {
            assert(ids.contains(task) <==> all.contains_key(task));
        }
        assert forall|task: Id, dep: Id| !#[trigger] unknown_dependency(all, task, dep) by {
            if unknown_dependency(all, task, dep) {
                assert(ids.contains(task));
            }
        }
    }
    Ok(links)
}

impl TaskDag {
    /// Kahn's algorithm: a task on a dependency cycle, if there is one.
    fn find_cycle(&self) -> (r: Option<TaskId>)
        requires
            filed_by_id(self.tasks@),
            dependencies_known(self.tasks@),
            links_match(self.tasks@, self.dependents@),
        ensures
            match r {
                Some(id) => reaches(task_edges(self.tasks@), id@, id@),
                None => acyclic(task_edges(self.tasks@)),
            },
    {
        let n = self.tasks.len();
        let ghost all = self.tasks@;
        let ghost ids = self.tasks.ids();
        let ghost links = self.dependents@;
        let ghost edges = task_edges(all);
        let mut in_degree: Vec<usize> = Vec::new();
        let mut queue: Vec<usize> = Vec::new();
        let mut i: usize = 0;
        proof {
            lemma_links_match_edges(all, links);
            lemma_sorted_no_duplicates(ids);
        }
        while i < n
            invariant
                i <= n == ids.len(),
                ids == self.tasks.ids(),
                all == self.tasks@,
                lists_in_order(ids, all.dom()),
                in_degree@.len() == i,
                forall|j: int| 0 <= j < i ==> #[trigger] in_degree@[j] == all[ids[j]].depends_on.len(),
                queue@.no_duplicates(),
                forall|q: int| 0 <= q < queue@.len()
                    ==> (#[trigger] queue@[q]) < i && in_degree@[queue@[q] as int] == 0,
                forall|j: int| 0 <= j < i && #[trigger] in_degree@[j] == 0 ==> queue@.contains(j as usize),
            decreases n - i,
        {
            let spec = self.tasks.value_at(i);
            let degree = spec.depends_on.len();
            assert(spec.depends_on.deep_view().len() == degree);
            let ghost queue_before = queue@;
            in_degree.push(degree);
            if degree == 0 {
                queue.push(i);
                assert(queue@[queue_before.len() as int] == i);
            }
            proof {
                assert forall|j: int| 0 <= j < i + 1 && #[trigger] in_degree@[j] == 0 implies
                    queue@.contains(j as usize) by {
                    if j < i {
                        let q = choose|q: int| 0 <= q < queue_before.len() && queue_before[q] == j as usize;
                        assert(queue@[q] == j as usize);
                    }
                }
            }
            i += 1;
        }
        let mut visited: usize = 0;
        let ghost mut done: Seq<Id> = Seq::empty();
        proof {
            assert(done.to_set() =~= Set::<Id>::empty());
            assert forall|j: int| 0 <= j < n implies
                #[trigger] in_degree@[j] == outstanding(all[ids[j]].depends_on, done.to_set()) by {
                lemma_outstanding_none(all[ids[j]].depends_on);
            }
        }
        while queue.len() > 0
            invariant
                n == ids.len(),
                ids == self.tasks.ids(),
                all == self.tasks@,
                links == self.dependents@,
                ids.no_duplicates(),
                lists_in_order(ids, all.dom()),
                all.dom().finite(),
                all.dom().len() == n,
                dependencies_known(all),
                links_match(all, links),
                in_degree@.len() == n,
                visited == done.len(),
                visited <= n,
                done.no_duplicates(),
                forall|j: int| 0 <= j < done.len() ==> all.contains_key(#[trigger] done[j]),
                forall|j: int, x: Id| 0 <= j < done.len() && #[trigger] all[done[j]].depends_on.contains(x)
                    ==> done.take(j).contains(x),
                forall|j: int| 0 <= j < n
                    ==> #[trigger] in_degree@[j] == outstanding(all[ids[j]].depends_on, done.to_set()),
                queue@.no_duplicates(),
                forall|q: int| 0 <= q < queue@.len()
                    ==> (#[trigger] queue@[q]) < n && in_degree@[queue@[q] as int] == 0
                        && !done.contains(ids[queue@[q] as int]),
                forall|j: int| 0 <= j < n && #[trigger] in_degree@[j] == 0
                    ==> queue@.contains(j as usize) || done.contains(ids[j]),
                forall|j: int| 0 <= j < n && done.contains(#[trigger] ids[j]) ==> in_degree@[j] == 0,
            decreases n - done.len(),
        {
            let ghost queue_at_entry = queue@;
            let u = queue.pop().unwrap();
            let ghost me = ids[u as int];
            let ghost finished = done.to_set();
            let ghost next = done.push(me);
            proof {
                assert(queue_at_entry[queue_at_entry.len() - 1] == u);
                assert(queue_at_entry == queue@.push(u));
                assert forall|q: int| 0 <= q < queue@.len() implies #[trigger] queue@[q] != u by {
                    assert(queue_at_entry[q] == queue@[q]);
                }
                assert(ids.contains(me));
                assert(all.contains_key(me));
                assert(!finished.contains(me));
                assert(next.no_duplicates());
                next.unique_seq_to_set();
                lemma_push_to_set(done, me);
                assert(next.to_set().subset_of(all.dom())) by {
                    assert forall|x: Id| next.to_set().contains(x) implies all.dom().contains(x) by {
                        let j = choose|j: int| 0 <= j < next.len() && next[j] == x;
                        if j < done.len() {
                            assert(all.contains_key(done[j]));
                        }
                    }
                }
                vstd::set_lib::lemma_len_subset(next.to_set(), all.dom());
                lemma_outstanding_zero(all[me].depends_on, finished);
                assert forall|j: int, x: Id| 0 <= j < next.len()
                    && #[trigger] all[next[j]].depends_on.contains(x) implies next.take(j).contains(x) by {
                    assert(next.take(j) =~= done.take(j));
                    if j < done.len() {
                        assert(all[done[j]].depends_on.contains(x));
                    } else {
                        assert(done.take(j) =~= done);
                        let k = choose|k: int| 0 <= k < all[me].depends_on.len() && all[me].depends_on[k] == x;
                        assert(finished.contains(all[me].depends_on[k]));
                    }
                }
                assert forall|q: int| 0 <= q < queue@.len() implies
                    (#[trigger] queue@[q]) < n && in_degree@[queue@[q] as int] == 0
                        && !done.contains(ids[queue@[q] as int]) && queue@[q] != u by {
                    assert(queue_at_entry[q] == queue@[q]);
                }
                assert forall|j: int| 0 <= j < n && #[trigger] in_degree@[j] == 0 implies
                    queue@.contains(j as usize) || done.contains(ids[j]) || j == u by {
                    if !done.contains(ids[j]) && j != u {
                        let q = choose|q: int| 0 <= q < queue_at_entry.len() && queue_at_entry[q] == j as usize;
                        assert(queue@[q] == j as usize);
                    }
                }
            }
            visited += 1;
            if let Some(list) = self.dependents.get(self.tasks.id_at(u).as_str()) {
                let mut k: usize = 0;
                let ghost targets = list.deep_view();
                assert(targets == links[me]);
                assert(targets.take(0) =~= Seq::<Id>::empty());
                while k < list.len()
                    invariant
                        n == ids.len(),
                        u < n,
                        me == ids[u as int],
                        ids == self.tasks.ids(),
                        all == self.tasks@,
                        links == self.dependents@,
                        links.contains_key(me),
                        targets == links[me],
                        targets == list.deep_view(),
                        finished == done.to_set(),
                        !finished.contains(me),
                        ids.no_duplicates(),
                        lists_in_order(ids, all.dom()),
                        links_match(all, links),
                        in_degree@.len() == n,
                        k <= list@.len(),
                        in_degree@[u as int] == 0,
                        forall|j: int| 0 <= j < n
                            ==> #[trigger] in_degree@[j] + occurrences(targets.take(k as int), ids[j])
                                == outstanding(all[ids[j]].depends_on, finished),
                        queue@.no_duplicates(),
                        forall|q: int| 0 <= q < queue@.len()
                            ==> (#[trigger] queue@[q]) < n && in_degree@[queue@[q] as int] == 0
                                && !done.contains(ids[queue@[q] as int]) && queue@[q] != u,
                        forall|j: int| 0 <= j < n && #[trigger] in_degree@[j] == 0
                            ==> queue@.contains(j as usize) || done.contains(ids[j]) || j == u,
                        forall|j: int| 0 <= j < n && done.contains(#[trigger] ids[j]) ==> in_degree@[j] == 0,
                    decreases list@.len() - k,
                {
                    let ghost t = targets[k as int];
                    assert(t == list@[k as int]@);
                    proof {
                        lemma_occurrences_take(targets, k as int, t);
                        assert(link_count(links, me, t) == dependency_count(all, me, t));
                        assert(all.contains_key(t));
                    }
                    let d = self.tasks.index_of(list[k].as_str()).unwrap();
                    let ghost degrees_before = in_degree@;
                    let ghost queue_before = queue@;
                    proof {
                        assert(ids[d as int] == t);
                        lemma_outstanding_insert(all[t].depends_on, finished, me);
                        assert(degrees_before[d as int] + occurrences(targets.take(k as int), ids[d as int])
                            == outstanding(all[ids[d as int]].depends_on, finished));
                        assert(degrees_before[d as int] >= 1);
                    }
                    let degree: usize = in_degree[d] - 1;
                    in_degree.set(d, degree);
                    if degree == 0 {
                        proof {
                            assert forall|q: int| 0 <= q < queue@.len() implies #[trigger] queue@[q] != d by {
                                assert(degrees_before[queue@[q] as int] == 0);
                            }
                            assert(!done.contains(ids[d as int]));
                            assert(d != u);
                        }
                        queue.push(d);
                        assert(queue@[queue_before.len() as int] == d);
                    }
                    proof {
                        assert forall|j: int| 0 <= j < n implies
                            #[trigger] in_degree@[j] + occurrences(targets.take(k + 1), ids[j])
                                == outstanding(all[ids[j]].depends_on, finished) by {
                            lemma_occurrences_take(targets, k as int, ids[j]);
                            assert(degrees_before[j] + occurrences(targets.take(k as int), ids[j])
                                == outstanding(all[ids[j]].depends_on, finished));
                            if j != d {
                                assert(ids[j] != ids[d as int]);
                            }
                        }
                        assert forall|q: int| 0 <= q < queue@.len() implies
                            (#[trigger] queue@[q]) < n && in_degree@[queue@[q] as int] == 0
                                && !done.contains(ids[queue@[q] as int]) && queue@[q] != u by {
                            if q < queue_before.len() {
                                assert(queue@[q] == queue_before[q]);
                                assert(degrees_before[queue_before[q] as int] == 0);
                            }
                        }
                        assert forall|j: int| 0 <= j < n && #[trigger] in_degree@[j] == 0 implies
                            queue@.contains(j as usize) || done.contains(ids[j]) || j == u by {
                            if j != d {
                                assert(degrees_before[j] == 0);
                                if !done.contains(ids[j]) && j != u {
                                    let q = choose|q: int| 0 <= q < queue_before.len() && queue_before[q] == j as usize;
                                    assert(queue@[q] == j as usize);
                                }
                            }
                        }
                        assert forall|j: int| 0 <= j < n && done.contains(#[trigger] ids[j]) implies
                            in_degree@[j] == 0 by {
                            assert(degrees_before[j] == 0);
                        }
                    }
                    k += 1;
                }
                assert(targets.take(targets.len() as int) =~= targets);
            }
            proof {
                assert forall|j: int| 0 <= j < n implies
                    #[trigger] in_degree@[j] == outstanding(all[ids[j]].depends_on, next.to_set()) by {
                    lemma_outstanding_insert(all[ids[j]].depends_on, finished, me);
                    assert(link_count(links, me, ids[j]) == dependency_count(all, me, ids[j]));
                    assert(ids.contains(ids[j]));
                }
                assert forall|q: int| 0 <= q < queue@.len() implies
                    (#[trigger] queue@[q]) < n && in_degree@[queue@[q] as int] == 0
                        && !next.contains(ids[queue@[q] as int]) by {
                    let x = ids[queue@[q] as int];
                    if next.contains(x) {
                        let j = choose|j: int| 0 <= j < next.len() && next[j] == x;
                        if j < done.len() {
                            assert(done[j] == x);
                        }
                    }
                }
                assert forall|j: int| 0 <= j < n && next.contains(#[trigger] ids[j]) implies in_degree@[j] == 0 by {
                    let m = choose|m: int| 0 <= m < next.len() && next[m] == ids[j];
                    if m < done.len() {
                        assert(done[m] == ids[j]);
                    } else {
                        assert(j == u);
                    }
                }
                assert forall|j: int| 0 <= j < n && #[trigger] in_degree@[j] == 0 implies
                    queue@.contains(j as usize) || next.contains(ids[j]) by {
                    if done.contains(ids[j]) {
                        let m = choose|m: int| 0 <= m < done.len() && done[m] == ids[j];
                        assert(next[m] == ids[j]);
                    } else if j == u {
                        assert(next[done.len() as int] == ids[j]);
                    }
                }
                done = next;
            }
        }
        if visited == n {
            proof {
                assert forall|y: Id| all.contains_key(y) implies done.contains(y) by {
                    if !done.contains(y) {
                        let more = done.push(y);
                        assert(more.no_duplicates());
                        more.unique_seq_to_set();
                        assert(more.to_set().subset_of(all.dom())) by {
                            assert forall|x: Id| more.to_set().contains(x) implies all.dom().contains(x) by {
                                let j = choose|j: int| 0 <= j < more.len() && more[j] == x;
                                if j < done.len() {
                                    assert(all.contains_key(done[j]));
                                }
                            }
                        }
                        vstd::set_lib::lemma_len_subset(more.to_set(), all.dom());
                    }
                }
                let rank = |x: Id| done.index_of(x);
                assert forall|x: Id, y: Id| #[trigger] edges.contains((x, y)) implies rank(x) < rank(y) by {
                    let j = done.index_of(y);
                    assert(done[j] == y);
                    assert(all[done[j]].depends_on.contains(x));
                    let m = choose|m: int| 0 <= m < done.take(j).len() && done.take(j)[m] == x;
                    assert(done[m] == x);
                    assert(done.index_of(x) == m);
                }
                lemma_rank_acyclic(edges, rank);
            }
            return None;
        }
        let mut i: usize = 0;
        while i < n
            invariant
                i <= n == ids.len(),
                ids == self.tasks.ids(),
                all == self.tasks@,
                links == self.dependents@,
                edges == task_edges(all),
                edges == link_edges(links),
                in_degree@.len() == n,
                forall|j: int| 0 <= j < i ==> (#[trigger] in_degree@[j]) == 0 || !reaches(edges, ids[j], ids[j]),
            decreases n - i,
        {
            if in_degree[i] > 0 {
                let id = self.tasks.id_at(i);
                if self.transitive_dependents(id.as_str()).contains(id.as_str()) {
                    return Some(id.clone());
                }
            }
            i += 1;
        }
        proof {
            let left = all.dom().difference(done.to_set());
            assert(exists|y: Id| left.contains(y)) by {
                if forall|y: Id| !left.contains(y) {
                    assert forall|x: Id| all.dom().contains(x) implies done.to_set().contains(x) by {
                        assert(!left.contains(x));
                    }
                    vstd::set_lib::lemma_len_subset(all.dom(), done.to_set());
                    done.unique_seq_to_set();
                }
            }
            let y = choose|y: Id| left.contains(y);
            assert forall|b: Id| #[trigger] left.contains(b) implies
                exists|a: Id| left.contains(a) && edges.contains((a, b)) by {
                assert(ids.contains(b));
                let j = choose|j: int| 0 <= j < ids.len() && ids[j] == b;
                assert(in_degree@[j] != 0);
                lemma_outstanding_zero(all[b].depends_on, done.to_set());
                let k = choose|k: int| 0 <= k < all[b].depends_on.len()
                    && !done.to_set().contains(#[trigger] all[b].depends_on[k]);
                let a = all[b].depends_on[k];
                assert(all[b].depends_on.contains(a));
                assert(!unknown_dependency(all, b, a));
                assert(left.contains(a) && edges.contains((a, b)));
            }
            let c = lemma_cycle_exists(edges, left, y);
            assert(ids.contains(c));
            let j = choose|j: int| 0 <= j < ids.len() && ids[j] == c;
            assert(in_degree@[j] != 0);
        }
        None
    }

    /// Validate uniqueness, dependency existence, and acyclicity.
    pub fn build(specs: Vec<TaskSpec>) -> (r: Result<Self, DagError>)
        ensures
            match r {
                Ok(dag) => {
                    &&& unique_ids(specs.deep_view())
                    &&& dependencies_known(tasks_by_id(specs.deep_view()))
                    &&& acyclic_tasks(tasks_by_id(specs.deep_view()))
                    &&& dag.tasks@ == tasks_by_id(specs.deep_view())
                    &&& links_match(dag.tasks@, dag.dependents@)
                    &&& dag.valid()
                },
                Err(DagError::DuplicateId(id)) => exists|i: int|
                    is_first_repeat(specs.deep_view(), i) && (#[trigger] specs.deep_view()[i]).id == id@,
                Err(DagError::UnknownDependency { task, dep }) => {
                    &&& unique_ids(specs.deep_view())
                    &&& unknown_dependency(tasks_by_id(specs.deep_view()), task@, dep@)
                    &&& first_unknown_dependency(tasks_by_id(specs.deep_view()), task@, dep@)
                },
                Err(DagError::Cycle(id)) => {
                    &&& unique_ids(specs.deep_view())
                    &&& dependencies_known(tasks_by_id(specs.deep_view()))
                    &&& reaches(task_edges(tasks_by_id(specs.deep_view())), id@, id@)
                },
            },
    {
        let tasks = match file_specs(&specs) {
            Ok(tasks) => tasks,
            Err(e) => {
                return Err(e);
            },
        };
        proof {
            lemma_tasks_by_id(specs.deep_view());
        }
        let dependents = match link_tasks(&tasks) {
            Ok(links) => links,
            Err(e) => {
                return Err(e);
            },
        };
        let dag = TaskDag { tasks, dependents };
        match dag.find_cycle() {
            Some(id) => Err(DagError::Cycle(id)),
            None => Ok(dag),
        }
    }
}

} // verus!
