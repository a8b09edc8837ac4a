//! Pipelines: tasks grouped by id, and the check of their dependency graph.
use crate::error::GaiaError;
use crate::ids::IdMap;
use crate::state::{PipelineState, TaskStateView};
use crate::task::{opt_view, StatusView, Task, TaskView};
use vstd::prelude::*;

verus! {

/// Every dependency of every task names a task of `m`.
pub open spec fn deps_resolved(m: Map<Seq<char>, TaskView>) -> bool {
    forall|a: Seq<char>, b: Seq<char>|
        #![trigger m[a].dependencies.contains(b)]
        m.contains_key(a) && m[a].dependencies.contains(b) ==> m.contains_key(b)
}

/// Some task of `m` depends on `b`, and no task of `m` has id `b`.
pub open spec fn missing_dependency(m: Map<Seq<char>, TaskView>, b: Seq<char>) -> bool {
    &&& !m.contains_key(b)
    &&& exists|a: Seq<char>| #[trigger] m.contains_key(a) && m[a].dependencies.contains(b)
}

/// `rank` orders the tasks of `m` so that every task ranks above each of the
/// tasks of `m` it depends on.
pub open spec fn is_ranking(m: Map<Seq<char>, TaskView>, rank: spec_fn(Seq<char>) -> int) -> bool {
    forall|a: Seq<char>, b: Seq<char>|
        #![trigger m[a].dependencies.contains(b), rank(a), rank(b)]
        m.contains_key(a) && m.contains_key(b) && m[a].dependencies.contains(b) ==> rank(b) < rank(a)
}

/// The dependency graph of `m` has no cycle: its tasks can be ranked so that
/// each depends only on tasks of lower rank.
pub open spec fn acyclic(m: Map<Seq<char>, TaskView>) -> bool {
    exists|rank: spec_fn(Seq<char>) -> int| is_ranking(m, rank)
}

/// `w` is a closed walk in the dependency graph of `m`: each of its tasks
/// depends on the next, and the last depends on the first.
pub open spec fn is_closed_walk(m: Map<Seq<char>, TaskView>, w: Seq<Seq<char>>) -> bool {
    &&& w.len() > 0
    &&& forall|k: int| 0 <= k < w.len() ==> #[trigger] m.contains_key(w[k])
    &&& forall|k: int| 0 <= k < w.len() - 1 ==> #[trigger] m[w[k]].dependencies.contains(w[k + 1])
    &&& m[w[w.len() - 1]].dependencies.contains(w[0])
}

/// A pipeline: a named group of tasks, each under its id.
#[derive(Debug)]
pub struct Pipeline {
    /// Unique identifier of the pipeline.
    pub id: String,
    /// Human-readable name of the pipeline.
    pub name: String,
    /// What the pipeline does.
    pub description: Option<String>,
    /// Cron expression of when the pipeline should run.
    pub schedule: Option<String>,
    /// The tasks of the pipeline, each under its id.
    pub tasks: IdMap<Task>,
    /// Execution state of the pipeline.
    pub state: PipelineState,
}

impl PartialEq for Pipeline {
    fn eq(&self, other: &Self) -> (r: bool) {
        self.id == other.id
    }
}

impl vstd::std_specs::cmp::PartialEqSpecImpl for Pipeline {
    open spec fn obeys_eq_spec() -> bool {
        true
    }

    /// Two pipelines are equal when their ids are.
    open spec fn eq_spec(&self, other: &Pipeline) -> bool {
        self.id@ == other.id@
    }
}

/// Ghost bookkeeping of the depth-first search of [`Pipeline::validate`].
pub struct DfsMarks {
    /// The tasks on the search stack, from the first entered to the last.
    pub path: Seq<int>,
    /// For each finished task, a rank above those of its dependencies.
    pub rank: Seq<int>,
    /// A bound above every rank given so far.
    pub top: int,
}

/// The number of `false` entries.
pub open spec fn count_unvisited(s: Seq<bool>) -> nat
    decreases s.len(),
{
    if s.len() == 0 {
        0
    } else {
        count_unvisited(s.drop_last()) + if s.last() {
            0nat
        } else {
            1nat
        }
    }
}

pub proof fn lemma_count_unvisited_mono(a: Seq<bool>, b: Seq<bool>)
    requires
        a.len() == b.len(),
        forall|j: int| 0 <= j < a.len() && a[j] ==> b[j],
    ensures
        count_unvisited(b) <= count_unvisited(a),
        (exists|j: int| 0 <= j < a.len() && !a[j] && b[j]) ==> count_unvisited(b) < count_unvisited(a),
    decreases a.len(),
{
    if a.len() > 0 {
        let a2 = a.drop_last();
        let b2 = b.drop_last();
        lemma_count_unvisited_mono(a2, b2);
        if exists|j: int| 0 <= j < a.len() && !a[j] && b[j] {
            let j = choose|j: int| 0 <= j < a.len() && !a[j] && b[j];
            if j < a.len() - 1 {
                assert(!a2[j] && b2[j]);
            }
        }
    }
}

impl Pipeline {
    /// The tasks, in the order of their ids.
    pub open spec fn task_seq(&self) -> Seq<Task> {
        self.tasks.val_seq()
    }

    /// The task map is well formed, each task is filed under its own id, and
    /// no task holds a dependency twice.
    pub open spec fn wf(&self) -> bool {
        &&& self.state.wf()
        &&& self.tasks.wf()
        &&& forall|i: int|
            #![trigger self.task_seq()[i]]
            0 <= i < self.task_seq().len() ==> {
                &&& self.task_seq()[i].wf()
                &&& self.task_seq()[i].id@ == self.tasks.key_seq()[i]
            }
    }

    /// Task `i` depends on task `j`.
    pub open spec fn edge(&self, i: int, j: int) -> bool {
        &&& 0 <= i < self.task_seq().len()
        &&& 0 <= j < self.task_seq().len()
        &&& self.task_seq()[i]@.dependencies.contains(self.task_seq()[j].id@)
    }

    /// Task `v` has been entered and left by the search.
    pub open spec fn finished(visited: Seq<bool>, on_stack: Seq<bool>, v: int) -> bool {
        visited[v] && !on_stack[v]
    }

    /// What holds of the search's state between steps.
    pub open spec fn dfs_inv(&self, visited: Seq<bool>, on_stack: Seq<bool>, marks: DfsMarks) -> bool {
        let n = self.task_seq().len();
        &&& visited.len() == n
        &&& on_stack.len() == n
        &&& marks.rank.len() == n
        &&& marks.top >= 0
        &&& forall|v: int| 0 <= v < n && #[trigger] on_stack[v] ==> visited[v]
        &&& forall|v: int| 0 <= v < n ==> (#[trigger] on_stack[v] <==> marks.path.contains(v))
        &&& forall|k: int| 0 <= k < marks.path.len() ==> 0 <= #[trigger] marks.path[k] < n
        &&& marks.path.no_duplicates()
        &&& forall|k: int| 0 <= k < marks.path.len() - 1 ==> self.edge(#[trigger] marks.path[k], marks.path[k + 1])
        &&& forall|v: int|
            0 <= v < n && #[trigger] Self::finished(visited, on_stack, v) ==> {
                &&& 0 <= marks.rank[v] < marks.top
                &&& forall|d: Seq<char>|
                    #[trigger] self.task_seq()[v]@.dependencies.contains(d) ==> exists|j: int|
                        0 <= j < n && #[trigger] self.task_seq()[j].id@ == d && Self::finished(
                            visited,
                            on_stack,
                            j,
                        ) && marks.rank[j] < marks.rank[v]
            }
    }

    /// Each position of `w` is followed by one that it depends on.
    pub open spec fn is_walk(&self, w: Seq<int>) -> bool {
        forall|q: int| 0 <= q < w.len() - 1 ==> self.edge(#[trigger] w[q], w[q + 1])
    }

    /// Task `v` is reached from task `u` through dependencies (each task
    /// reaches itself).
    pub open spec fn reaches(&self, u: int, v: int) -> bool {
        exists|w: Seq<int>| #[trigger] self.is_walk(w) && w.len() > 0 && w[0] == u && w.last() == v
    }

    /// A cycle of dependencies is reached from task `u`: a walk from `u`
    /// comes back to a task that it passed before.
    pub open spec fn reaches_cycle(&self, u: int) -> bool {
        exists|w: Seq<int>, k: int|
            #![trigger self.is_walk(w), w[k]]
            self.is_walk(w) && w.len() >= 2 && w[0] == u && 0 <= k < w.len() - 1 && w[k] == w.last()
    }

    /// Every task reaches itself.
    proof fn lemma_reaches_self(&self, u: int)
        ensures
            self.reaches(u, u),
    {
        let w = seq![u];
        assert(self.is_walk(w));
    }

    /// What a dependency of `u` reaches, `u` reaches.
    proof fn lemma_reaches_step(&self, u: int, j: int, v: int)
        requires
            self.edge(u, j),
            self.reaches(j, v),
        ensures
            self.reaches(u, v),
    {
        let w = choose|w: Seq<int>| #[trigger] self.is_walk(w) && w.len() > 0 && w[0] == j && w.last() == v;
        let w2 = seq![u] + w;
        assert forall|q: int| 0 <= q < w2.len() - 1 implies self.edge(#[trigger] w2[q], w2[q + 1]) by {
            if q > 0 {
                assert(w2[q] == w[q - 1]);
                assert(w2[q + 1] == w[q]);
            }
        }
        assert(self.is_walk(w2));
        assert(w2.last() == w.last());
    }

    /// A cycle reached from a dependency of `u` is reached from `u`.
    proof fn lemma_cycle_step(&self, u: int, j: int)
        requires
            self.edge(u, j),
            self.reaches_cycle(j),
        ensures
            self.reaches_cycle(u),
    {
        let (w, k) = choose|w: Seq<int>, k: int|
            #![trigger self.is_walk(w), w[k]]
            self.is_walk(w) && w.len() >= 2 && w[0] == j && 0 <= k < w.len() - 1 && w[k] == w.last();
        let w2 = seq![u] + w;
        assert forall|q: int| 0 <= q < w2.len() - 1 implies self.edge(#[trigger] w2[q], w2[q + 1]) by {
            if q > 0 {
                assert(w2[q] == w[q - 1]);
                assert(w2[q + 1] == w[q]);
            }
        }
        assert(self.is_walk(w2));
        assert(w2[k + 1] == w[k]);
        assert(w2.last() == w.last());
    }

    /// Every task reached from a finished task is finished.
    proof fn lemma_walk_stays_finished(&self, visited: Seq<bool>, on_stack: Seq<bool>, marks: DfsMarks, w: Seq<int>)
        requires
            self.wf(),
            self.dfs_inv(visited, on_stack, marks),
            w.len() > 0,
            0 <= w[0] < self.task_seq().len(),
            Self::finished(visited, on_stack, w[0]),
            self.is_walk(w),
        ensures
            0 <= w.last() < self.task_seq().len(),
            Self::finished(visited, on_stack, w.last()),
        decreases w.len(),
    {
        if w.len() > 1 {
            let d = w.drop_last();
            assert forall|q: int| 0 <= q < d.len() - 1 implies self.edge(#[trigger] d[q], d[q + 1]) by {
                assert(d[q] == w[q]);
                assert(d[q + 1] == w[q + 1]);
            }
            self.lemma_walk_stays_finished(visited, on_stack, marks, d);
            let a = w[w.len() - 2];
            let b = w.last();
            assert(self.edge(a, b));
            let id = self.task_seq()[b].id@;
            assert(self.task_seq()[a]@.dependencies.contains(id));
            let j = choose|j: int|
                0 <= j < self.task_seq().len() && #[trigger] self.task_seq()[j].id@ == id && Self::finished(
                    visited,
                    on_stack,
                    j,
                ) && marks.rank[j] < marks.rank[a];
            self.tasks.lemma_view();
            assert(self.tasks.key_seq()[j] == self.tasks.key_seq()[b]);
        }
    }

    /// A cycle reached from a task leaves the task map without a ranking.
    proof fn lemma_cycle_not_acyclic(&self, u: int)
        requires
            self.wf(),
            self.reaches_cycle(u),
        ensures
            !acyclic(self.tasks@),
    {
        let (w, k) = choose|w: Seq<int>, k: int|
            #![trigger self.is_walk(w), w[k]]
            self.is_walk(w) && w.len() >= 2 && w[0] == u && 0 <= k < w.len() - 1 && w[k] == w.last();
        self.tasks.lemma_view();
        let ks = self.tasks.key_seq();
        let m = self.tasks@;
        let c = w.subrange(k, w.len() - 1);
        let ids = c.map_values(|i: int| ks[i]);
        assert forall|q: int| 0 <= q < c.len() implies 0 <= #[trigger] c[q] < ks.len() by {
            assert(c[q] == w[k + q]);
            assert(self.edge(w[k + q], w[k + q + 1]));
        }
        assert forall|i: int, j: int| #[trigger] self.edge(i, j) implies m[ks[i]].dependencies.contains(ks[j]) by {
            assert(m[ks[i]] == self.task_seq()[i]@);
            assert(self.task_seq()[j].id@ == ks[j]);
        }
        assert forall|q: int| 0 <= q < ids.len() implies #[trigger] m.contains_key(ids[q]) by {
            assert(ks.contains(ks[c[q]]));
        }
        assert forall|q: int| 0 <= q < ids.len() - 1 implies #[trigger] m[ids[q]].dependencies.contains(ids[q + 1]) by {
            assert(c[q] == w[k + q]);
            assert(c[q + 1] == w[k + q + 1]);
            assert(self.edge(w[k + q], w[k + q + 1]));
        }
        assert(self.edge(w[w.len() - 2], w[w.len() - 1]));
        assert(c[c.len() - 1] == w[w.len() - 2]);
        assert(m[ids[ids.len() - 1]].dependencies.contains(ids[0]));
        assert(is_closed_walk(m, ids));
        law_closed_walk_not_acyclic(m, ids);
    }
}

/// The tasks of `other` whose ids are among the first `i` of `ids`.
pub open spec fn added_prefix(
    other: Map<Seq<char>, TaskView>,
    ids: Seq<Seq<char>>,
    i: int,
) -> Map<Seq<char>, TaskView> {
    Map::new(|k: Seq<char>| ids.take(i).contains(k), |k: Seq<char>| other[k])
}

/// A copy of `t`, status included.
fn copy_task(t: &Task) -> (r: Task)
    ensures
        r@ == t@,
        t.wf() ==> r.wf(),
{
    let mut r = t.clone();
    r.status = t.status.clone();
    r
}

impl Pipeline {
    /// A pipeline with the given id and name, no description, no schedule and no task.
    pub fn new(id: &str, name: &str) -> (p: Self)
        ensures
            p.wf(),
            p.id@ == id@,
            p.name@ == name@,
            p.description is None,
            p.schedule is None,
            p.tasks@ == Map::<Seq<char>, TaskView>::empty(),
            p.state.task_states@ == Map::<Seq<char>, TaskStateView>::empty(),
            p.state.start_time is None,
            p.state.end_time is None,
            !p.state.is_complete,
            !p.state.is_successful,
    {
        let p = Pipeline {
            id: id.to_owned(),
            name: name.to_owned(),
            description: None,
            schedule: None,
            tasks: IdMap::new(),
            state: PipelineState::new(),
        };
        proof {
            p.tasks.lemma_view();
        }
        p
    }

    /// Adds `task` under its id, replacing any task with the same id.
    pub fn add_task(&mut self, task: Task) -> (r: Result<(), GaiaError>)
        requires
            old(self).wf(),
            task.wf(),
        ensures
            final(self).wf(),
            r is Ok,
            final(self).tasks@ == old(self).tasks@.insert(task.id@, task@),
            final(self).id == old(self).id,
            final(self).name == old(self).name,
            final(self).description == old(self).description,
            final(self).schedule == old(self).schedule,
            final(self).state == old(self).state,
    {
        let ghost t = task;
        let key = task.id.clone();
        self.tasks.insert(key, task);
        proof {
            old(self).tasks.lemma_view();
            self.tasks.lemma_view();
            if old(self).tasks@.contains_key(t.id@) {
                let i = choose|i: int|
                    0 <= i < old(self).tasks.key_seq().len() && old(self).tasks.key_seq()[i] == t.id@
                        && #[trigger] self.tasks.val_seq() == old(self).tasks.val_seq().update(i, t);
                assert forall|q: int| #![trigger self.task_seq()[q]] 0 <= q < self.task_seq().len() implies {
                    &&& self.task_seq()[q].wf()
                    &&& self.task_seq()[q].id@ == self.tasks.key_seq()[q]
                } by {
                    if q != i {
                        assert(self.task_seq()[q] == old(self).task_seq()[q]);
                    }
                }
            } else {
                assert forall|q: int| #![trigger self.task_seq()[q]] 0 <= q < self.task_seq().len() implies {
                    &&& self.task_seq()[q].wf()
                    &&& self.task_seq()[q].id@ == self.tasks.key_seq()[q]
                } by {
                    if q < old(self).task_seq().len() {
                        assert(self.task_seq()[q] == old(self).task_seq()[q]);
                    }
                }
            }
        }
        Ok(())
    }

    /// The task with id `task_id`, if there is one.
    pub fn get_task(&self, task_id: &str) -> (r: Option<&Task>)
        requires
            self.wf(),
        ensures
            r is Some <==> self.tasks@.contains_key(task_id@),
            r matches Some(t) ==> t@ == self.tasks@[task_id@],
    {
        self.tasks.get(task_id)
    }

    /// Adds each task of `other` as it is; a task of `other` replaces a task
    /// of this pipeline with the same id.
    pub fn extend(&mut self, other: Self) -> (r: Result<(), GaiaError>)
        requires
            old(self).wf(),
            other.wf(),
        ensures
            final(self).wf(),
            r is Ok,
            final(self).tasks@ == old(self).tasks@.union_prefer_right(other.tasks@),
            final(self).id == old(self).id,
            final(self).name == old(self).name,
            final(self).description == old(self).description,
            final(self).schedule == old(self).schedule,
            final(self).state == old(self).state,
    {
        proof {
            other.tasks.lemma_view();
        }
        let ghost ids = other.tasks.key_seq();
        let n = other.tasks.len();
        let mut i: usize = 0;
        proof {
            assert(added_prefix(other.tasks@, ids, 0) =~= Map::<Seq<char>, TaskView>::empty());
            assert(old(self).tasks@.union_prefer_right(added_prefix(other.tasks@, ids, 0)) =~= old(self).tasks@);
        }
        while i < n
            invariant
                other.wf(),
                ids == other.tasks.key_seq(),
                n == ids.len(),
                n == other.task_seq().len(),
                i <= n,
                self.wf(),
                self.tasks@ == old(self).tasks@.union_prefer_right(added_prefix(other.tasks@, ids, i as int)),
                self.id == old(self).id,
                self.name == old(self).name,
                self.description == old(self).description,
                self.schedule == old(self).schedule,
                self.state == old(self).state,
            decreases n - i,
        {
            proof {
                other.tasks.lemma_view();
            }
            let t = copy_task(other.tasks.value_at(i));
            let ghost before = self.tasks@;
            let _ = self.add_task(t);
            proof {
                let k = ids[i as int];
                assert(other.task_seq()[i as int].id@ == k);
                assert(t@ == other.tasks@[k]);
                assert(ids.take(i + 1) =~= ids.take(i as int).push(k));
                assert forall|x: Seq<char>| #[trigger] ids.take(i + 1).contains(x) <==> (ids.take(
                    i as int,
                ).contains(x) || x == k) by {
                    if ids.take(i + 1).contains(x) {
                        let q = ids.take(i + 1).index_of(x);
                        if q < i {
                            assert(ids.take(i as int)[q] == x);
                        }
                    }
                    if ids.take(i as int).contains(x) {
                        let q = ids.take(i as int).index_of(x);
                        assert(ids.take(i + 1)[q] == x);
                    }
                    if x == k {
                        assert(ids.take(i + 1)[i as int] == x);
                    }
                }
                assert(added_prefix(other.tasks@, ids, i + 1) =~= added_prefix(other.tasks@, ids, i as int).insert(k, t@));
                assert(self.tasks@ =~= old(self).tasks@.union_prefer_right(
                    added_prefix(other.tasks@, ids, i + 1),
                ));
            }
            i = i + 1;
        }
        proof {
            assert(ids.take(n as int) =~= ids);
            assert(added_prefix(other.tasks@, ids, n as int) =~= other.tasks@);
        }
        Ok(())
    }

    /// Sets the description.
    pub fn with_description(self, description: &str) -> (p: Self)
        ensures
            self.wf() ==> p.wf(),
            opt_view(p.description) == Some(description@),
            p.id == self.id,
            p.name == self.name,
            p.schedule == self.schedule,
            p.tasks == self.tasks,
            p.state == self.state,
    {
        let mut p = self;
        p.description = Some(description.to_owned());
        p
    }

    /// Sets the cron schedule.
    pub fn with_schedule(self, schedule: &str) -> (p: Self)
        ensures
            self.wf() ==> p.wf(),
            opt_view(p.schedule) == Some(schedule@),
            p.id == self.id,
            p.name == self.name,
            p.description == self.description,
            p.tasks == self.tasks,
            p.state == self.state,
    {
        let mut p = self;
        p.schedule = Some(schedule.to_owned());
        p
    }
}

impl Pipeline {
    /// Depth-first search from task `u`: finds whether a cycle is reachable
    /// from it, or a dependency that names no task.
    fn has_cycle(
        &self,
        u: usize,
        visited: &mut Vec<bool>,
        on_stack: &mut Vec<bool>,
        marks: &mut Ghost<DfsMarks>,
    ) -> (r: Result<bool, GaiaError>)
        requires
            self.wf(),
            u < self.task_seq().len(),
            self.dfs_inv(old(visited)@, old(on_stack)@, old(marks)@),
            old(marks)@.path.len() > 0 ==> self.edge(old(marks)@.path.last(), u as int),
        ensures
            r matches Ok(true) ==> self.reaches_cycle(u as int),
            r matches Err(e) ==> e is TaskNotFound,
            r matches Err(GaiaError::TaskNotFound(d)) ==> missing_dependency(self.tasks@, d@),
            r matches Ok(false) ==> {
                &&& self.dfs_inv(final(visited)@, final(on_stack)@, final(marks)@)
                &&& final(on_stack)@ == old(on_stack)@
                &&& final(marks)@.path == old(marks)@.path
                &&& Self::finished(final(visited)@, final(on_stack)@, u as int)
                &&& forall|v: int|
                    0 <= v < old(visited)@.len() && #[trigger] old(visited)@[v] ==> final(visited)@[v]
                &&& forall|v: int|
                    0 <= v < old(visited)@.len() && #[trigger] self.reaches(u as int, v) ==> final(visited)@[v]
                &&& forall|v: int|
                    0 <= v < old(visited)@.len() && #[trigger] final(visited)@[v] && !old(visited)@[v]
                        ==> self.reaches(u as int, v)
            },
        decreases count_unvisited(old(visited)@),
    {
        let ghost n = self.task_seq().len();
        if on_stack[u] {
            proof {
                let path = marks@.path;
                assert(path.contains(u as int));
                let p = path.index_of(u as int);
                let w = path.subrange(p, path.len() as int);
                assert(w[0] == u as int);
                assert(w[w.len() - 1] == path.last());
                assert forall|k: int| 0 <= k < w.len() - 1 implies self.edge(#[trigger] w[k], w[k + 1]) by {
                    assert(w[k] == path[p + k]);
                    assert(w[k + 1] == path[p + k + 1]);
                }
                let w2 = w.push(u as int);
                assert forall|q: int| 0 <= q < w2.len() - 1 implies self.edge(#[trigger] w2[q], w2[q + 1]) by {
                    if q < w.len() - 1 {
                        assert(w2[q] == w[q]);
                        assert(w2[q + 1] == w[q + 1]);
                    } else {
                        assert(w2[q] == path.last());
                    }
                }
                assert(self.is_walk(w2));
                assert(w2[0] == w2.last());
            }
            return Ok(true);
        }
        if visited[u] {
            proof {
                assert forall|v: int| 0 <= v < n && #[trigger] self.reaches(u as int, v) implies visited@[v] by {
                    let w = choose|w: Seq<int>|
                        #[trigger] self.is_walk(w) && w.len() > 0 && w[0] == u as int && w.last() == v;
                    self.lemma_walk_stays_finished(visited@, on_stack@, marks@, w);
                }
            }
            return Ok(false);
        }
        let ghost old_visited = visited@;
        let ghost old_on_stack = on_stack@;
        let ghost old_path = marks@.path;
        visited.set(u, true);
        on_stack.set(u, true);
        proof {
            lemma_count_unvisited_mono(old_visited, visited@);
            assert(!old_visited[u as int] && visited@[u as int]);
            marks@ = DfsMarks { path: old_path.push(u as int), rank: marks@.rank, top: marks@.top };
            assert forall|v: int| 0 <= v < n implies (#[trigger] on_stack@[v] <==> marks@.path.contains(v)) by {
                if v == u as int {
                    assert(marks@.path[old_path.len() as int] == v);
                } else {
                    if old_path.contains(v) {
                        let q = old_path.index_of(v);
                        assert(marks@.path[q] == v);
                    }
                    if marks@.path.contains(v) {
                        let q = marks@.path.index_of(v);
                        assert(old_path[q] == v);
                    }
                }
            }
            assert forall|v: int| 0 <= v < n && #[trigger] Self::finished(visited@, on_stack@, v) implies
                Self::finished(old_visited, old_on_stack, v) by {}
            assert(self.dfs_inv(visited@, on_stack@, marks@));
            self.lemma_reaches_self(u as int);
        }
        proof {
            self.tasks.lemma_view();
        }
        let task = self.tasks.value_at(u);
        let deps = &task.dependencies;
        proof {
            assert(task.wf());
            deps.lemma_view();
        }
        let nd = deps.len();
        let mut k: usize = 0;
        while k < nd
            invariant
                self.wf(),
                u < n,
                n == self.task_seq().len(),
                *task == self.task_seq()[u as int],
                deps.wf(),
                *deps == task.dependencies,
                nd == deps.elems().len(),
                k <= nd,
                self.dfs_inv(visited@, on_stack@, marks@),
                on_stack@ == old_on_stack.update(u as int, true),
                marks@.path == old_path.push(u as int),
                old_visited == old(visited)@,
                old_on_stack == old(on_stack)@,
                old_path == old(marks)@.path,
                !old_on_stack[u as int],
                visited@[u as int],
                forall|v: int| 0 <= v < n && #[trigger] old_visited[v] ==> visited@[v],
                count_unvisited(visited@) < count_unvisited(old_visited),
                forall|v: int| 0 <= v < n && #[trigger] visited@[v] && !old_visited[v] ==> self.reaches(u as int, v),
                forall|q: int|
                    #![trigger deps.elems()[q]]
                    0 <= q < k ==> exists|j: int|
                        0 <= j < n && #[trigger] self.task_seq()[j].id@ == deps.elems()[q]
                            && Self::finished(visited@, on_stack@, j),
            decreases nd - k,
        {
            let d = deps.get(k);
            proof {
                deps.lemma_view();
                assert(deps.elems().contains(d@));
            }
            match self.tasks.position(d.as_str()) {
                None => {
                    proof {
                        self.tasks.lemma_view();
                        let a = self.tasks.key_seq()[u as int];
                        assert(self.tasks@[a] == self.task_seq()[u as int]@);
                        assert(self.tasks@.contains_key(a) && self.tasks@[a].dependencies.contains(d@));
                    }
                    return Err(GaiaError::TaskNotFound(d.clone()));
                },
                Some(j) => {
                    proof {
                        self.tasks.lemma_view();
                        assert(self.task_seq()[j as int].id@ == d@);
                        assert(self.edge(u as int, j as int));
                        assert(marks@.path.last() == u as int);
                    }
                    let ghost before_visited = visited@;
                    let ghost before_marks = marks@;
                    let res = self.has_cycle(j, visited, on_stack, marks);
                    match res {
                        Ok(false) => {
                            proof {
                                assert forall|v: int|
                                    0 <= v < n && #[trigger] visited@[v] && !old_visited[v] implies self.reaches(
                                    u as int,
                                    v,
                                ) by {
                                    if !before_visited[v] {
                                        self.lemma_reaches_step(u as int, j as int, v);
                                    }
                                }
                                lemma_count_unvisited_mono(before_visited, visited@);
                                assert forall|q: int|
                                    #![trigger deps.elems()[q]]
                                    0 <= q < k + 1 implies exists|jj: int|
                                        0 <= jj < n && #[trigger] self.task_seq()[jj].id@ == deps.elems()[q]
                                            && Self::finished(visited@, on_stack@, jj) by {
                                    if q < k {
                                        let jj = choose|jj: int|
                                            0 <= jj < n && #[trigger] self.task_seq()[jj].id@
                                                == deps.elems()[q] && Self::finished(
                                                before_visited,
                                                on_stack@,
                                                jj,
                                            );
                                        assert(Self::finished(visited@, on_stack@, jj));
                                    } else {
                                        assert(self.task_seq()[j as int].id@ == deps.elems()[q]);
                                    }
                                }
                            }
                        },
                        Ok(true) => {
                            proof {
                                self.lemma_cycle_step(u as int, j as int);
                            }
                            return Ok(true);
                        },
                        Err(e) => {
                            return Err(e);
                        },
                    }
                },
            }
            k = k + 1;
        }
        let ghost mid_visited = visited@;
        let ghost mid_on_stack = on_stack@;
        let ghost mid_marks = marks@;
        on_stack.set(u, false);
        proof {
            let top = mid_marks.top;
            marks@ = DfsMarks { path: old_path, rank: mid_marks.rank.update(u as int, top), top: top + 1 };
            assert(on_stack@ =~= old_on_stack);
            assert forall|v: int| 0 <= v < n implies (#[trigger] on_stack@[v] <==> marks@.path.contains(v)) by {
                if v == u as int {
                    assert(!old_path.contains(v));
                } else {
                    assert(mid_on_stack[v] <==> mid_marks.path.contains(v));
                    if old_path.contains(v) {
                        let q = old_path.index_of(v);
                        assert(mid_marks.path[q] == v);
                    }
                    if mid_marks.path.contains(v) {
                        let q = mid_marks.path.index_of(v);
                        assert(q < old_path.len());
                        assert(old_path[q] == v);
                    }
                }
            }
            assert forall|q: int| 0 <= q < marks@.path.len() - 1 implies self.edge(
                #[trigger] marks@.path[q],
                marks@.path[q + 1],
            ) by {
                assert(mid_marks.path[q] == marks@.path[q]);
                assert(mid_marks.path[q + 1] == marks@.path[q + 1]);
            }
            assert forall|v: int| 0 <= v < n && #[trigger] Self::finished(visited@, on_stack@, v) implies {
                &&& 0 <= marks@.rank[v] < marks@.top
                &&& forall|dd: Seq<char>|
                    #[trigger] self.task_seq()[v]@.dependencies.contains(dd) ==> exists|j: int|
                        0 <= j < n && #[trigger] self.task_seq()[j].id@ == dd && Self::finished(
                            visited@,
                            on_stack@,
                            j,
                        ) && marks@.rank[j] < marks@.rank[v]
            } by {
                if v == u as int {
                    assert(marks@.rank[v] == mid_marks.top);
                    assert forall|dd: Seq<char>|
                        #[trigger] self.task_seq()[v]@.dependencies.contains(dd) implies exists|j: int|
                            0 <= j < n && #[trigger] self.task_seq()[j].id@ == dd && Self::finished(
                                visited@,
                                on_stack@,
                                j,
                            ) && marks@.rank[j] < marks@.rank[v] by {
                        deps.lemma_view();
                        assert(deps.elems().contains(dd));
                        let q = deps.elems().index_of(dd);
                        let j = choose|j: int|
                            0 <= j < n && #[trigger] self.task_seq()[j].id@ == deps.elems()[q]
                                && Self::finished(mid_visited, mid_on_stack, j);
                        assert(j != u as int);
                        assert(Self::finished(visited@, on_stack@, j));
                        assert(marks@.rank[j] == mid_marks.rank[j]);
                        assert(0 <= mid_marks.rank[j] < mid_marks.top);
                        assert(marks@.rank[j] < marks@.rank[v]);
                    }
                } else {
                    assert(Self::finished(mid_visited, mid_on_stack, v));
                    assert(marks@.rank[v] == mid_marks.rank[v]);
                    assert(0 <= mid_marks.rank[v] < mid_marks.top);
                    assert forall|dd: Seq<char>|
                        #[trigger] self.task_seq()[v]@.dependencies.contains(dd) implies exists|j: int|
                            0 <= j < n && #[trigger] self.task_seq()[j].id@ == dd && Self::finished(
                                visited@,
                                on_stack@,
                                j,
                            ) && marks@.rank[j] < marks@.rank[v] by {
                        let j = choose|j: int|
                            0 <= j < n && #[trigger] self.task_seq()[j].id@ == dd && Self::finished(
                                mid_visited,
                                mid_on_stack,
                                j,
                            ) && mid_marks.rank[j] < mid_marks.rank[v];
                        assert(j != u as int);
                        assert(Self::finished(visited@, on_stack@, j));
                    }
                }
            }
            assert(self.dfs_inv(visited@, on_stack@, marks@));
            assert forall|v: int| 0 <= v < n && #[trigger] self.reaches(u as int, v) implies visited@[v] by {
                let w = choose|w: Seq<int>|
                    #[trigger] self.is_walk(w) && w.len() > 0 && w[0] == u as int && w.last() == v;
                self.lemma_walk_stays_finished(visited@, on_stack@, marks@, w);
            }
        }
        Ok(false)
    }
}

impl Pipeline {
    /// When every task is finished, every dependency is resolved and the
    /// task map is acyclic.
    proof fn lemma_all_finished(&self, visited: Seq<bool>, on_stack: Seq<bool>, marks: DfsMarks)
        requires
            self.wf(),
            self.dfs_inv(visited, on_stack, marks),
            forall|v: int| 0 <= v < self.task_seq().len() ==> #[trigger] Self::finished(visited, on_stack, v),
        ensures
            deps_resolved(self.tasks@),
            acyclic(self.tasks@),
    {
        self.tasks.lemma_view();
        let m = self.tasks@;
        let ks = self.tasks.key_seq();
        let n = self.task_seq().len();
        assert forall|a: Seq<char>, b: Seq<char>|
            #![trigger m[a].dependencies.contains(b)]
            m.contains_key(a) && m[a].dependencies.contains(b) implies m.contains_key(b) by {
            let i = ks.index_of(a);
            assert(m[ks[i]] == self.task_seq()[i]@);
            assert(Self::finished(visited, on_stack, i));
            assert(self.task_seq()[i]@.dependencies.contains(b));
            let j = choose|j: int|
                0 <= j < n && #[trigger] self.task_seq()[j].id@ == b && Self::finished(visited, on_stack, j)
                    && marks.rank[j] < marks.rank[i];
            assert(ks[j] == b);
        }
        let f = |k: Seq<char>| marks.rank[ks.index_of(k)];
        assert forall|a: Seq<char>, b: Seq<char>|
            #![trigger m[a].dependencies.contains(b), f(a), f(b)]
            m.contains_key(a) && m.contains_key(b) && m[a].dependencies.contains(b) implies f(b) < f(a) by {
            let i = ks.index_of(a);
            let jb = ks.index_of(b);
            assert(m[ks[i]] == self.task_seq()[i]@);
            assert(Self::finished(visited, on_stack, i));
            assert(self.task_seq()[i]@.dependencies.contains(b));
            let j = choose|j: int|
                0 <= j < n && #[trigger] self.task_seq()[j].id@ == b && Self::finished(visited, on_stack, j)
                    && marks.rank[j] < marks.rank[i];
            assert(ks[j] == b);
            assert(ks[jb] == b);
            assert(j == jb);
        }
        assert(is_ranking(m, f));
    }

    /// Checks the dependency graph: every dependency must name a task of the
    /// pipeline, and no task may depend on itself through a chain of
    /// dependencies. The tasks are searched depth first.
    ///
    /// Succeeds exactly when both hold. When only one fails, its error is
    /// reported: `TaskNotFound` with a dependency that names no task, or
    /// `CircularDependency`. When both fail, either may be reported.
    pub fn validate(&self) -> (r: Result<(), GaiaError>)
        requires
            self.wf(),
        ensures
            r is Ok <==> deps_resolved(self.tasks@) && acyclic(self.tasks@),
            r matches Err(e) ==> {
                ||| e is CircularDependency && !acyclic(self.tasks@)
                ||| e matches GaiaError::TaskNotFound(d) && missing_dependency(self.tasks@, d@)
            },
    {
        proof {
            self.tasks.lemma_view();
        }
        let n = self.tasks.len();
        let mut visited: Vec<bool> = vec![false; n];
        let mut on_stack: Vec<bool> = vec![false; n];
        let mut marks: Ghost<DfsMarks> = Ghost(
            DfsMarks { path: Seq::empty(), rank: Seq::new(n as nat, |i: int| 0int), top: 0 },
        );
        let mut i: usize = 0;
        while i < n
            invariant
                self.wf(),
                n == self.task_seq().len(),
                i <= n,
                self.dfs_inv(visited@, on_stack@, marks@),
                marks@.path == Seq::<int>::empty(),
                forall|v: int| 0 <= v < n ==> !#[trigger] on_stack@[v],
                forall|v: int| 0 <= v < i ==> #[trigger] visited@[v],
            decreases n - i,
        {
            if !visited[i] {
                let ghost before = visited@;
                match self.has_cycle(i, &mut visited, &mut on_stack, &mut marks) {
                    Ok(true) => {
                        proof {
                            self.lemma_cycle_not_acyclic(i as int);
                        }
                        return Err(GaiaError::CircularDependency);
                    },
                    Err(e) => {
                        return Err(e);
                    },
                    Ok(false) => {
                        proof {
                            assert forall|v: int| 0 <= v < i + 1 implies #[trigger] visited@[v] by {
                                if v < i {
                                    assert(before[v]);
                                }
                            }
                        }
                    },
                }
            }
            i = i + 1;
        }
        proof {
            assert forall|v: int| 0 <= v < n implies #[trigger] Self::finished(visited@, on_stack@, v) by {
                assert(visited@[v]);
                assert(!on_stack@[v]);
            }
            self.lemma_all_finished(visited@, on_stack@, marks@);
        }
        Ok(())
    }
}

} // verus!

verus! {

/// Reading a task back after adding it gives the task added, and leaves the
/// other ids as they were.
pub proof fn law_get_after_add(tasks: Map<Seq<char>, TaskView>, task: TaskView, other: Seq<char>)
    ensures
        tasks.insert(task.id, task).contains_key(task.id),
        tasks.insert(task.id, task)[task.id] == task,
        other != task.id ==> (tasks.insert(task.id, task).contains_key(other) <==> tasks.contains_key(other)),
        other != task.id && tasks.contains_key(other) ==> tasks.insert(task.id, task)[other] == tasks[other],
{
}

/// A closed walk of dependencies (a task that depends, through a chain of
/// dependencies, on itself) leaves no valid order of execution.
pub proof fn law_closed_walk_not_acyclic(m: Map<Seq<char>, TaskView>, w: Seq<Seq<char>>)
    requires
        is_closed_walk(m, w),
    ensures
        !acyclic(m),
{
    if acyclic(m) {
        let rank = choose|rank: spec_fn(Seq<char>) -> int| is_ranking(m, rank);
        assert forall|k: int| 0 <= k < w.len() implies rank(#[trigger] w[k]) <= rank(w[0]) - k by {
            lemma_closed_walk_descends(m, w, rank, k);
        }
        let last = w[w.len() - 1];
        assert(m.contains_key(last));
        assert(m[last].dependencies.contains(w[0]));
        assert(rank(w[0]) < rank(last));
    }
}

proof fn lemma_closed_walk_descends(
    m: Map<Seq<char>, TaskView>,
    w: Seq<Seq<char>>,
    rank: spec_fn(Seq<char>) -> int,
    k: int,
)
    requires
        is_closed_walk(m, w),
        is_ranking(m, rank),
        0 <= k < w.len(),
    ensures
        rank(w[k]) <= rank(w[0]) - k,
    decreases k,
{
    if k > 0 {
        lemma_closed_walk_descends(m, w, rank, k - 1);
        let j = k - 1;
        assert(m.contains_key(w[j]));
        assert(m.contains_key(w[k]));
        assert(m[w[j]].dependencies.contains(w[j + 1]));
        assert(w[j + 1] == w[k]);
    }
}

/// A task that depends on itself makes the dependency graph cyclic.
pub proof fn law_self_dependency_not_acyclic(m: Map<Seq<char>, TaskView>, a: Seq<char>)
    requires
        m.contains_key(a),
        m[a].dependencies.contains(a),
    ensures
        !acyclic(m),
{
    let w = seq![a];
    assert(is_closed_walk(m, w));
    law_closed_walk_not_acyclic(m, w);
}

/// A pipeline without tasks passes validation.
pub proof fn law_empty_is_valid()
    ensures
        deps_resolved(Map::<Seq<char>, TaskView>::empty()),
        acyclic(Map::<Seq<char>, TaskView>::empty()),
{
    let rank = |k: Seq<char>| 0int;
    assert(is_ranking(Map::<Seq<char>, TaskView>::empty(), rank));
}

/// After extending with `other`, each task of `other` is found under its id
/// as it was in `other`; the other tasks stay as they were.
pub proof fn law_extend_then_get(
    mine: Map<Seq<char>, TaskView>,
    other: Map<Seq<char>, TaskView>,
    k: Seq<char>,
)
    ensures
        other.contains_key(k) ==> mine.union_prefer_right(other)[k] == other[k],
        !other.contains_key(k) && mine.contains_key(k) ==> mine.union_prefer_right(other)[k] == mine[k],
        mine.union_prefer_right(other).contains_key(k) <==> (mine.contains_key(k) || other.contains_key(k)),
{
}

} // verus!
