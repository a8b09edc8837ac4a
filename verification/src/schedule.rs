//! A run of a pipeline, step by step: the run decides which tasks start,
//! at most a configured number at once and as many as can, and how each
//! reported outcome of a task's run settles it; the caller runs the tasks'
//! execution functions and reports what they gave.
use crate::error::{is_display_text, GaiaError};
use crate::executor::{deps_completed, failure_error, failure_text, is_failure, is_ready, Executor, ExecutorContext, TaskOutcome};
use crate::ids::IdMap;
use crate::pipeline::{acyclic, deps_resolved, is_ranking, missing_dependency, Pipeline};
use crate::state::{prior_state, retried_task_state, updated_task_state, TaskStateView};
use crate::task::{OutputView, StatusView, Task, TaskOutput, TaskStatus, TaskView};
use vstd::prelude::*;

verus! {

/// A step of a pipeline's run.
#[derive(Debug)]
pub enum RunEvent {
    /// The task with this id started.
    Started(String),
    /// The task with this id finished with a value.
    Finished(String),
    /// The task with this id failed or timed out, with no retry left.
    Failed(String),
}

/// The mathematical value of a [`RunEvent`].
pub enum EventView {
    Started(Seq<char>),
    Finished(Seq<char>),
    Failed(Seq<char>),
}

impl View for RunEvent {
    type V = EventView;

    open spec fn view(&self) -> EventView {
        match self {
            RunEvent::Started(id) => EventView::Started(id@),
            RunEvent::Finished(id) => EventView::Finished(id@),
            RunEvent::Failed(id) => EventView::Failed(id@),
        }
    }
}

/// The views of a sequence of events.
pub open spec fn event_views(log: Seq<RunEvent>) -> Seq<EventView> {
    log.map_values(|e: RunEvent| e@)
}

/// Task `id` started somewhere in `log`.
pub open spec fn has_started(log: Seq<EventView>, id: Seq<char>) -> bool {
    exists|i: int| 0 <= i < log.len() && #[trigger] log[i] == EventView::Started(id)
}

/// Task `id` finished with a value somewhere in `log`.
pub open spec fn has_finished(log: Seq<EventView>, id: Seq<char>) -> bool {
    exists|i: int| 0 <= i < log.len() && #[trigger] log[i] == EventView::Finished(id)
}

/// Task `id` failed somewhere in `log`.
pub open spec fn has_failed(log: Seq<EventView>, id: Seq<char>) -> bool {
    exists|i: int| 0 <= i < log.len() && #[trigger] log[i] == EventView::Failed(id)
}

/// Task `id` ended in `log`: it finished or failed.
pub open spec fn has_ended(log: Seq<EventView>, id: Seq<char>) -> bool {
    has_finished(log, id) || has_failed(log, id)
}

/// The id an event is about.
pub open spec fn event_id(e: EventView) -> Seq<char> {
    match e {
        EventView::Started(id) => id,
        EventView::Finished(id) => id,
        EventView::Failed(id) => id,
    }
}

/// The number of tasks running after `log`: started ones less ended ones.
pub open spec fn in_flight(log: Seq<EventView>) -> int
    decreases log.len(),
{
    if log.len() == 0 {
        0
    } else {
        in_flight(log.drop_last()) + match log.last() {
            EventView::Started(_) => 1int,
            _ => -1int,
        }
    }
}

/// `log` is a schedule of the tasks of `m` that respects their dependencies
/// and runs at most `max` tasks at once:
/// - every event is about a task of `m`;
/// - a task starts only after each of its dependencies finished with a value;
/// - a task ends only after it started;
/// - no event happens twice;
/// - after each prefix of the log, at most `max` tasks are running.
pub open spec fn respects_dependencies(m: Map<Seq<char>, TaskView>, log: Seq<EventView>, max: int) -> bool {
    &&& forall|i: int| 0 <= i < log.len() ==> m.contains_key(event_id(#[trigger] log[i]))
    &&& forall|i: int, d: Seq<char>|
        #![trigger log[i], m[event_id(log[i])].dependencies.contains(d)]
        0 <= i < log.len() && log[i] is Started && m[event_id(log[i])].dependencies.contains(d)
            ==> exists|j: int| 0 <= j < i && #[trigger] log[j] == EventView::Finished(d)
    &&& forall|i: int|
        #![trigger log[i]]
        0 <= i < log.len() && !(log[i] is Started) ==> exists|j: int|
            0 <= j < i && #[trigger] log[j] == EventView::Started(event_id(log[i]))
    &&& forall|i: int, j: int|
        #![trigger log[i], log[j]]
        0 <= i < log.len() && 0 <= j < log.len() && i != j ==> log[i] != log[j]
    &&& forall|k: int| 0 <= k <= log.len() ==> #[trigger] in_flight(log.take(k)) <= max
}

/// Task `k` of `m` could start after `log`: it has not started, and each
/// of its dependencies has finished with a value.
pub open spec fn startable(m: Map<Seq<char>, TaskView>, log: Seq<EventView>, k: Seq<char>) -> bool {
    &&& m.contains_key(k)
    &&& !has_started(log, k)
    &&& forall|d: Seq<char>| #[trigger] m[k].dependencies.contains(d) ==> has_finished(log, d)
}

/// `log` starts tasks whenever it can: each time a task ends, either `max`
/// tasks were running, or no task could have started.
pub open spec fn starts_when_possible(m: Map<Seq<char>, TaskView>, log: Seq<EventView>, max: int) -> bool {
    forall|i: int|
        0 <= i < log.len() && !(#[trigger] log[i] is Started) ==> in_flight(log.take(i)) == max || forall|
            k: Seq<char>,
        | !#[trigger] startable(m, log.take(i), k)
}

/// No task starts after a task failed.
pub open spec fn no_start_after_failure(log: Seq<EventView>) -> bool {
    forall|i: int, j: int|
        #![trigger log[i], log[j]]
        0 <= i < j < log.len() && log[i] is Failed ==> !(log[j] is Started)
}

/// Every task of `m` started and finished with a value in `log`.
pub open spec fn runs_every_task(m: Map<Seq<char>, TaskView>, log: Seq<EventView>) -> bool {
    forall|id: Seq<char>| #[trigger] m.contains_key(id) ==> has_started(log, id) && has_finished(log, id)
}

/// The task states `ts` of a run of the tasks `m` with log `log`, from the
/// task states `before`, when the tasks that ended have the statuses
/// `statuses`: each task that started has a start time; each task that ended
/// has its final status, and an end time when it finished with a value; the
/// states of other ids are unchanged.
pub open spec fn states_match(
    m: Map<Seq<char>, TaskView>,
    log: Seq<EventView>,
    statuses: Map<Seq<char>, StatusView>,
    before: Map<Seq<char>, TaskStateView>,
    ts: Map<Seq<char>, TaskStateView>,
) -> bool {
    &&& forall|k: Seq<char>|
        m.contains_key(k) && #[trigger] has_started(log, k) ==> ts.contains_key(k) && ts[k].start_time is Some
    &&& forall|k: Seq<char>|
        #[trigger] statuses.contains_key(k) ==> ts.contains_key(k) && ts[k].status == statuses[k]
    &&& forall|k: Seq<char>|
        m.contains_key(k) && #[trigger] has_finished(log, k) ==> ts.contains_key(k) && ts[k].end_time is Some
    &&& forall|k: Seq<char>|
        !m.contains_key(k) ==> (#[trigger] ts.contains_key(k) <==> before.contains_key(k)) && (ts.contains_key(k)
            ==> ts[k] == before[k])
}

/// What a run of a pipeline produced: the pipeline with its updated state,
/// and the steps of the run in order.
#[derive(Debug)]
pub struct RunReport {
    pub pipeline: Pipeline,
    pub events: Vec<RunEvent>,
}

/// Task `a` of `p` goes before task `b` when both can start: it has fewer
/// dependencies, or as many and was added to the pipeline first.
pub open spec fn starts_before(p: Pipeline, a: Seq<char>, b: Seq<char>) -> bool {
    let da = p.tasks@[a].dependencies.len();
    let db = p.tasks@[b].dependencies.len();
    da < db || (da == db && p.tasks.key_seq().index_of(a) < p.tasks.key_seq().index_of(b))
}

/// The task at position `i` of `p` goes before the one at position `j`; see
/// [`starts_before`].
pub open spec fn pos_before(p: Pipeline, i: int, j: int) -> bool {
    let di = p.task_seq()[i]@.dependencies.len();
    let dj = p.task_seq()[j]@.dependencies.len();
    di < dj || (di == dj && i < j)
}

/// The status a finished run leaves task `k` with: its final status when it
/// ended, `Skipped` when it never started.
pub open spec fn final_status(statuses: Map<Seq<char>, StatusView>, k: Seq<char>) -> StatusView {
    if statuses.contains_key(k) {
        statuses[k]
    } else {
        StatusView::Skipped
    }
}

/// What a reported outcome did to a run.
#[derive(Debug)]
pub enum Step {
    /// The run failed with retries left: the task is to be run again.
    Retry,
    /// The task finished with this value.
    Completed(TaskOutput),
    /// The task failed with no retry left.
    Failed,
}

proof fn lemma_push_event(log: Seq<EventView>, e: EventView)
    ensures
        forall|a: Seq<char>|
            #[trigger] has_started(log.push(e), a) <==> (has_started(log, a) || e == EventView::Started(a)),
        forall|a: Seq<char>|
            #[trigger] has_finished(log.push(e), a) <==> (has_finished(log, a) || e == EventView::Finished(a)),
        forall|a: Seq<char>|
            #[trigger] has_failed(log.push(e), a) <==> (has_failed(log, a) || e == EventView::Failed(a)),
        in_flight(log.push(e)) == in_flight(log) + match e {
            EventView::Started(_) => 1int,
            _ => -1int,
        },
        forall|k: int| 0 <= k <= log.len() ==> #[trigger] log.push(e).take(k) == log.take(k),
        log.push(e).take(log.len() as int + 1) == log.push(e),
{
    let l2 = log.push(e);
    assert(l2.drop_last() =~= log);
    assert forall|a: Seq<char>| #[trigger] has_started(l2, a) <==> (has_started(log, a) || e == EventView::Started(a)) by {
        if has_started(l2, a) {
            let i = choose|i: int| 0 <= i < l2.len() && #[trigger] l2[i] == EventView::Started(a);
            if i < log.len() {
                assert(log[i] == EventView::Started(a));
            }
        }
        if has_started(log, a) {
            let i = choose|i: int| 0 <= i < log.len() && #[trigger] log[i] == EventView::Started(a);
            assert(l2[i] == EventView::Started(a));
        }
        if e == EventView::Started(a) {
            assert(l2[log.len() as int] == EventView::Started(a));
        }
    }
    assert forall|a: Seq<char>| #[trigger] has_finished(l2, a) <==> (has_finished(log, a) || e == EventView::Finished(a)) by {
        if has_finished(l2, a) {
            let i = choose|i: int| 0 <= i < l2.len() && #[trigger] l2[i] == EventView::Finished(a);
            if i < log.len() {
                assert(log[i] == EventView::Finished(a));
            }
        }
        if has_finished(log, a) {
            let i = choose|i: int| 0 <= i < log.len() && #[trigger] log[i] == EventView::Finished(a);
            assert(l2[i] == EventView::Finished(a));
        }
        if e == EventView::Finished(a) {
            assert(l2[log.len() as int] == EventView::Finished(a));
        }
    }
    assert forall|a: Seq<char>| #[trigger] has_failed(l2, a) <==> (has_failed(log, a) || e == EventView::Failed(a)) by {
        if has_failed(l2, a) {
            let i = choose|i: int| 0 <= i < l2.len() && #[trigger] l2[i] == EventView::Failed(a);
            if i < log.len() {
                assert(log[i] == EventView::Failed(a));
            }
        }
        if has_failed(log, a) {
            let i = choose|i: int| 0 <= i < log.len() && #[trigger] log[i] == EventView::Failed(a);
            assert(l2[i] == EventView::Failed(a));
        }
        if e == EventView::Failed(a) {
            assert(l2[log.len() as int] == EventView::Failed(a));
        }
    }
    assert forall|k: int| 0 <= k <= log.len() implies #[trigger] l2.take(k) == log.take(k) by {
        assert(l2.take(k) =~= log.take(k));
    }
    assert(l2.take(log.len() as int + 1) =~= l2);
}

proof fn lemma_push_keeps_busy(m: Map<Seq<char>, TaskView>, log: Seq<EventView>, max: int, e: EventView)
    requires
        starts_when_possible(m, log, max),
        !(e is Started) ==> in_flight(log) == max || forall|k: Seq<char>| !#[trigger] startable(m, log, k),
    ensures
        starts_when_possible(m, log.push(e), max),
{
    lemma_push_event(log, e);
    let l2 = log.push(e);
    assert forall|i: int| 0 <= i < l2.len() && !(#[trigger] l2[i] is Started) implies in_flight(l2.take(i)) == max
        || forall|k: Seq<char>| !#[trigger] startable(m, l2.take(i), k) by {
        if i < log.len() {
            assert(l2[i] == log[i]);
            assert(l2.take(i) == log.take(i));
        } else {
            assert(l2.take(i) == log.take(i));
            assert(log.take(i) =~= log);
        }
    }
}

/// Among the positions below `upto` that are not started, one of least rank.
proof fn lemma_least_rank(started: Seq<bool>, rank: spec_fn(int) -> int, upto: int) -> (i: int)
    requires
        0 <= upto <= started.len(),
        exists|j: int| 0 <= j < upto && !started[j],
    ensures
        0 <= i < upto,
        !started[i],
        forall|j: int| 0 <= j < upto && !started[j] ==> rank(i) <= #[trigger] rank(j),
    decreases upto,
{
    if exists|j: int| 0 <= j < upto - 1 && !started[j] {
        let i0 = lemma_least_rank(started, rank, upto - 1);
        if !started[upto - 1] && rank(upto - 1) < rank(i0) {
            upto - 1
        } else {
            i0
        }
    } else {
        upto - 1
    }
}

/// What holds of a run between its steps, over the tasks `m` filed under the
/// ids `ks`, the started flags, the queue of running positions, the statuses
/// of finished tasks and the log.
/// What holds of a run between its steps, over the tasks `m` filed under the
/// ids `ks`, the started flags, the running positions, the statuses of the
/// tasks that ended and the log.
pub open spec fn run_inv(
    m: Map<Seq<char>, TaskView>,
    ks: Seq<Seq<char>>,
    started: Seq<bool>,
    running: Seq<usize>,
    statuses: Map<Seq<char>, StatusView>,
    log: Seq<EventView>,
    max: int,
) -> bool {
    let n = ks.len();
    &&& started.len() == n
    &&& forall|q: int| 0 <= q < running.len() ==> #[trigger] running[q] < n
    &&& running.no_duplicates()
    &&& forall|i: int| 0 <= i < n ==> (#[trigger] started[i] <==> has_started(log, ks[i]))
    &&& forall|i: int|
        0 <= i < n ==> (has_ended(log, #[trigger] ks[i]) <==> (started[i] && !running.contains(i as usize)))
    &&& forall|i: int| 0 <= i < n ==> !(has_finished(log, #[trigger] ks[i]) && has_failed(log, ks[i]))
    &&& forall|q: int| 0 <= q < running.len() ==> #[trigger] started[running[q] as int]
    &&& forall|k: Seq<char>| #[trigger] statuses.contains_key(k) <==> (m.contains_key(k) && has_ended(log, k))
    &&& forall|k: Seq<char>|
        #[trigger] statuses.contains_key(k) ==> (statuses[k] is Completed <==> has_finished(log, k))
    &&& respects_dependencies(m, log, max)
    &&& in_flight(log) == running.len()
}

/// Position `a` comes before position `b`: fewer dependencies, or as many
/// and an earlier position.
pub open spec fn comes_before(counts: Seq<usize>, a: usize, b: usize) -> bool {
    counts[a as int] < counts[b as int] || (counts[a as int] == counts[b as int] && a < b)
}

/// The positions `0..counts.len()`, ordered by their counts, ties kept in
/// position order (a stable insertion sort).
pub fn order_by_count(counts: &Vec<usize>) -> (r: Vec<usize>)
    ensures
        r@.len() == counts@.len(),
        r@.no_duplicates(),
        forall|q: int| 0 <= q < r@.len() ==> #[trigger] r@[q] < counts@.len(),
        forall|i: usize| i < counts@.len() ==> r@.contains(i),
        forall|a: int, b: int|
            0 <= a < b < r@.len() ==> comes_before(counts@, #[trigger] r@[a], #[trigger] r@[b]),
{
    let n = counts.len();
    let mut r: Vec<usize> = Vec::new();
    let mut p: usize = 0;
    while p < n
        invariant
            n == counts@.len(),
            p <= n,
            r@.len() == p,
            r@.no_duplicates(),
            forall|q: int| 0 <= q < r@.len() ==> #[trigger] r@[q] < p,
            forall|i: usize| i < p ==> r@.contains(i),
            forall|a: int, b: int|
                0 <= a < b < r@.len() ==> comes_before(counts@, #[trigger] r@[a], #[trigger] r@[b]),
        decreases n - p,
    {
        let c = counts[p];
        let mut j: usize = 0;
        while j < r.len() && counts[r[j]] <= c
            invariant
                n == counts@.len(),
                p < n,
                c == counts@[p as int],
                j <= r@.len(),
                forall|q: int| 0 <= q < r@.len() ==> #[trigger] r@[q] < p,
                forall|q: int| 0 <= q < j ==> counts@[#[trigger] r@[q] as int] <= c,
            decreases r@.len() - j,
        {
            j = j + 1;
        }
        let ghost old_r = r@;
        r.insert(j, p);
        proof {
            old_r.insert_ensures(j as int, p);
            assert(r@ == old_r.insert(j as int, p));
            assert forall|a: int, b: int| 0 <= a < b < r@.len() implies comes_before(
                counts@,
                #[trigger] r@[a],
                #[trigger] r@[b],
            ) by {
                if a < j && b < j {
                    assert(r@[a] == old_r[a] && r@[b] == old_r[b]);
                } else if a < j && b == j {
                    assert(r@[a] == old_r[a]);
                    assert(counts@[old_r[a] as int] <= c);
                } else if a < j && b > j {
                    assert(r@[a] == old_r[a] && r@[b] == old_r[b - 1]);
                } else if a == j {
                    assert(r@[b] == old_r[b - 1]);
                    assert(counts@[old_r[j as int] as int] > c) by {
                        if j as int >= old_r.len() {
                        }
                    }
                    if b - 1 > j {
                        assert(comes_before(counts@, old_r[j as int], old_r[b - 1]));
                    }
                } else {
                    assert(r@[a] == old_r[a - 1] && r@[b] == old_r[b - 1]);
                }
            }
            assert forall|a: int, b: int| 0 <= a < r@.len() && 0 <= b < r@.len() && a != b implies r@[a]
                != r@[b] by {
                if a != j as int && b != j as int {
                    let a0 = if a < j { a } else { a - 1 };
                    let b0 = if b < j { b } else { b - 1 };
                    assert(r@[a] == old_r[a0] && r@[b] == old_r[b0]);
                } else if a == j as int {
                    let b0 = if b < j { b } else { b - 1 };
                    assert(r@[b] == old_r[b0]);
                } else {
                    let a0 = if a < j { a } else { a - 1 };
                    assert(r@[a] == old_r[a0]);
                }
            }
            assert forall|q: int| 0 <= q < r@.len() implies #[trigger] r@[q] < p + 1 by {
                if q < j {
                    assert(r@[q] == old_r[q]);
                } else if q > j {
                    assert(r@[q] == old_r[q - 1]);
                }
            }
            assert forall|i: usize| i < p + 1 implies r@.contains(i) by {
                if i < p {
                    assert(old_r.contains(i));
                    let q = old_r.index_of(i);
                    if q < j {
                        assert(r@[q] == i);
                    } else {
                        assert(r@[q + 1] == i);
                    }
                } else {
                    assert(r@[j as int] == i);
                }
            }
        }
        p = p + 1;
    }
    r
}

proof fn lemma_start_step(
    m: Map<Seq<char>, TaskView>,
    ks: Seq<Seq<char>>,
    started: Seq<bool>,
    running: Seq<usize>,
    statuses: Map<Seq<char>, StatusView>,
    log: Seq<EventView>,
    max: int,
    j: usize,
)
    requires
        run_inv(m, ks, started, running, statuses, log, max),
        j < ks.len(),
        !started[j as int],
        m.contains_key(ks[j as int]),
        deps_completed(m[ks[j as int]], statuses),
        running.len() < max,
        ks.no_duplicates(),
        ks.len() <= usize::MAX,
    ensures
        run_inv(
            m,
            ks,
            started.update(j as int, true),
            running.push(j),
            statuses,
            log.push(EventView::Started(ks[j as int])),
            max,
        ),
{
    let n = ks.len();
    let e = EventView::Started(ks[j as int]);
    let log1 = log.push(e);
    let started1 = started.update(j as int, true);
    let running1 = running.push(j);
    lemma_push_event(log, e);
    assert(!has_started(log, ks[j as int]));
    assert(!running.contains(j)) by {
        if running.contains(j) {
            let q = running.index_of(j);
            assert(started[running[q] as int]);
        }
    }
    assert(running1.no_duplicates()) by {
        assert forall|a: int, b: int| 0 <= a < running1.len() && 0 <= b < running1.len() && a != b implies running1[a]
            != running1[b] by {
            if a == running.len() as int {
                assert(running[b] != j);
            } else if b == running.len() as int {
                assert(running[a] != j);
            }
        }
    }
    assert forall|i: int| 0 <= i < n implies (#[trigger] started1[i] <==> has_started(log1, ks[i])) by {
        if i != j as int {
            assert(ks[i] != ks[j as int]);
        }
    }
    assert forall|i: int| 0 <= i < n implies (has_ended(log1, #[trigger] ks[i]) <==> (started1[i]
        && !running1.contains(i as usize))) by {
        if i == j as int {
            assert(running1[running.len() as int] == j);
            if has_ended(log, ks[i]) {
                assert(started[i]);
            }
        } else {
            if running.contains(i as usize) {
                let q = running.index_of(i as usize);
                assert(running1[q] == i as usize);
            }
            if running1.contains(i as usize) {
                let q = running1.index_of(i as usize);
                if q == running.len() as int {
                    assert(running1[q] == j);
                }
                assert(q < running.len());
                assert(running[q] == i as usize);
            }
        }
    }
    assert forall|i: int| 0 <= i < n implies !(has_finished(log1, #[trigger] ks[i]) && has_failed(log1, ks[i])) by {}
    assert forall|q: int| 0 <= q < running1.len() implies #[trigger] started1[running1[q] as int] by {
        if q < running.len() {
            assert(started[running[q] as int]);
        }
    }
    assert forall|i: int| 0 <= i < log1.len() implies m.contains_key(event_id(#[trigger] log1[i])) by {
        if i < log.len() {
            assert(log1[i] == log[i]);
        }
    }
    assert forall|i: int, d: Seq<char>|
        #![trigger log1[i], m[event_id(log1[i])].dependencies.contains(d)]
        0 <= i < log1.len() && log1[i] is Started && m[event_id(log1[i])].dependencies.contains(d) implies exists|jj: int|
            0 <= jj < i && #[trigger] log1[jj] == EventView::Finished(d) by {
        if i < log.len() {
            assert(log1[i] == log[i]);
            let jj = choose|jj: int| 0 <= jj < i && #[trigger] log[jj] == EventView::Finished(d);
            assert(log1[jj] == log[jj]);
        } else {
            assert(m[ks[j as int]].dependencies.contains(d));
            assert(statuses.contains_key(d));
            assert(has_finished(log, d));
            let jj = choose|jj: int| 0 <= jj < log.len() && #[trigger] log[jj] == EventView::Finished(d);
            assert(log1[jj] == log[jj]);
        }
    }
    assert forall|i: int|
        #![trigger log1[i]]
        0 <= i < log1.len() && !(log1[i] is Started) implies exists|jj: int|
            0 <= jj < i && #[trigger] log1[jj] == EventView::Started(event_id(log1[i])) by {
        assert(i < log.len());
        assert(log1[i] == log[i]);
        let jj = choose|jj: int| 0 <= jj < i && #[trigger] log[jj] == EventView::Started(event_id(log[i]));
        assert(log1[jj] == log[jj]);
    }
    assert forall|a: int, b: int|
        #![trigger log1[a], log1[b]]
        0 <= a < log1.len() && 0 <= b < log1.len() && a != b implies log1[a] != log1[b] by {
        if a == log.len() as int {
            assert(log1[b] == log[b]);
        } else if b == log.len() as int {
            assert(log1[a] == log[a]);
        } else {
            assert(log1[a] == log[a]);
            assert(log1[b] == log[b]);
        }
    }
    assert forall|k: int| 0 <= k <= log1.len() implies #[trigger] in_flight(log1.take(k)) <= max by {
        if k <= log.len() {
            assert(log1.take(k) == log.take(k));
        } else {
            assert(log1.take(k) == log1);
        }
    }
}

/// The event that ends task `id`: `Finished` with a value, else `Failed`.
pub open spec fn end_event(id: Seq<char>, success: bool) -> EventView {
    if success {
        EventView::Finished(id)
    } else {
        EventView::Failed(id)
    }
}

proof fn lemma_end_step(
    m: Map<Seq<char>, TaskView>,
    ks: Seq<Seq<char>>,
    started: Seq<bool>,
    running: Seq<usize>,
    statuses: Map<Seq<char>, StatusView>,
    log: Seq<EventView>,
    max: int,
    q: int,
    s: StatusView,
    success: bool,
)
    requires
        run_inv(m, ks, started, running, statuses, log, max),
        0 <= q < running.len(),
        (s is Completed) == success,
        ks.no_duplicates(),
        ks.len() <= usize::MAX,
        forall|i: int| 0 <= i < ks.len() ==> m.contains_key(#[trigger] ks[i]),
    ensures
        run_inv(
            m,
            ks,
            started,
            running.remove(q),
            statuses.insert(ks[running[q] as int], s),
            log.push(end_event(ks[running[q] as int], success)),
            max,
        ),
        !has_ended(log, ks[running[q] as int]),
        has_started(log, ks[running[q] as int]),
        m.contains_key(ks[running[q] as int]),
{
    let n = ks.len();
    let j = running[q];
    let id = ks[j as int];
    let e = end_event(id, success);
    let log1 = log.push(e);
    let running1 = running.remove(q);
    let statuses1 = statuses.insert(id, s);
    lemma_push_event(log, e);
    assert(started[j as int]);
    assert(running.contains(j));
    assert(!has_ended(log, id));
    assert(has_started(log, id));
    assert(forall|x: int| 0 <= x < q ==> running1[x] == running[x]);
    assert(forall|x: int| q <= x < running1.len() ==> running1[x] == running[x + 1]);
    assert(!running1.contains(j)) by {
        if running1.contains(j) {
            let x = running1.index_of(j);
            if x < q {
                assert(running[x] == j);
            } else {
                assert(running[x + 1] == j);
            }
        }
    }
    assert(running1.no_duplicates()) by {
        assert forall|a: int, b: int| 0 <= a < running1.len() && 0 <= b < running1.len() && a != b implies running1[a]
            != running1[b] by {
            let a0 = if a < q { a } else { a + 1 };
            let b0 = if b < q { b } else { b + 1 };
            assert(running1[a] == running[a0]);
            assert(running1[b] == running[b0]);
        }
    }
    assert forall|i: int| 0 <= i < n implies (#[trigger] started[i] <==> has_started(log1, ks[i])) by {}
    assert forall|i: int| 0 <= i < n implies (has_ended(log1, #[trigger] ks[i]) <==> (started[i]
        && !running1.contains(i as usize))) by {
        if i != j as int {
            assert(ks[i] != id);
            if running.contains(i as usize) {
                let x = running.index_of(i as usize);
                assert(x != q);
                if x < q {
                    assert(running1[x] == i as usize);
                } else {
                    assert(running1[x - 1] == i as usize);
                }
            }
            if running1.contains(i as usize) {
                let x = running1.index_of(i as usize);
                if x < q {
                    assert(running[x] == i as usize);
                } else {
                    assert(running[x + 1] == i as usize);
                }
            }
        }
    }
    assert forall|i: int| 0 <= i < n implies !(has_finished(log1, #[trigger] ks[i]) && has_failed(log1, ks[i])) by {
        if i != j as int {
            assert(ks[i] != id);
        }
    }
    assert forall|x: int| 0 <= x < running1.len() implies #[trigger] started[running1[x] as int] by {
        if x < q {
            assert(started[running[x] as int]);
        } else {
            assert(started[running[x + 1] as int]);
        }
    }
    assert forall|x: int| 0 <= x < running1.len() implies #[trigger] running1[x] < n by {
        if x < q {
            assert(running[x] < n);
        } else {
            assert(running[x + 1] < n);
        }
    }
    assert forall|k: Seq<char>| #[trigger] statuses1.contains_key(k) <==> (m.contains_key(k) && has_ended(log1, k)) by {}
    assert forall|k: Seq<char>| #[trigger] statuses1.contains_key(k) implies (statuses1[k] is Completed
        <==> has_finished(log1, k)) by {}
    assert forall|i: int| 0 <= i < log1.len() implies m.contains_key(event_id(#[trigger] log1[i])) by {
        if i < log.len() {
            assert(log1[i] == log[i]);
        }
    }
    assert forall|i: int, d: Seq<char>|
        #![trigger log1[i], m[event_id(log1[i])].dependencies.contains(d)]
        0 <= i < log1.len() && log1[i] is Started && m[event_id(log1[i])].dependencies.contains(d) implies exists|jj: int|
            0 <= jj < i && #[trigger] log1[jj] == EventView::Finished(d) by {
        assert(i < log.len());
        assert(log1[i] == log[i]);
        let jj = choose|jj: int| 0 <= jj < i && #[trigger] log[jj] == EventView::Finished(d);
        assert(log1[jj] == log[jj]);
    }
    assert forall|i: int|
        #![trigger log1[i]]
        0 <= i < log1.len() && !(log1[i] is Started) implies exists|jj: int|
            0 <= jj < i && #[trigger] log1[jj] == EventView::Started(event_id(log1[i])) by {
        if i < log.len() {
            assert(log1[i] == log[i]);
            let jj = choose|jj: int| 0 <= jj < i && #[trigger] log[jj] == EventView::Started(event_id(log[i]));
            assert(log1[jj] == log[jj]);
        } else {
            assert(event_id(log1[i]) == id);
            let jj = choose|jj: int| 0 <= jj < log.len() && #[trigger] log[jj] == EventView::Started(id);
            assert(log1[jj] == log[jj]);
        }
    }
    assert forall|a: int, b: int|
        #![trigger log1[a], log1[b]]
        0 <= a < log1.len() && 0 <= b < log1.len() && a != b implies log1[a] != log1[b] by {
        if a == log.len() as int {
            assert(log1[b] == log[b]);
        } else if b == log.len() as int {
            assert(log1[a] == log[a]);
        } else {
            assert(log1[a] == log[a]);
            assert(log1[b] == log[b]);
        }
    }
    assert forall|k: int| 0 <= k <= log1.len() implies #[trigger] in_flight(log1.take(k)) <= max by {
        if k <= log.len() {
            assert(log1.take(k) == log.take(k));
        } else {
            assert(log1.take(k) == log1);
            assert(log.take(log.len() as int) =~= log);
        }
    }
}

/// `a` and `b` define the same pipeline: same id, name, description,
/// schedule and tasks.
pub open spec fn same_definition(a: Pipeline, b: Pipeline) -> bool {
    &&& a.id == b.id
    &&& a.name == b.name
    &&& a.description == b.description
    &&& a.schedule == b.schedule
    &&& a.tasks == b.tasks
}

/// Task `id` started in `log` and has not ended.
pub open spec fn is_running_in(log: Seq<EventView>, id: Seq<char>) -> bool {
    has_started(log, id) && !has_ended(log, id)
}

/// The positions of the tasks of `p` that have not started and whose
/// dependencies have all completed in `statuses`, in the order of `order`.
fn ready_positions(
    p: &Pipeline,
    order: &Vec<usize>,
    started: &Vec<bool>,
    statuses: &IdMap<TaskStatus>,
) -> (ready: Vec<usize>)
    requires
        p.wf(),
        statuses.wf(),
        started@.len() == p.task_seq().len(),
        order@.len() == p.task_seq().len(),
        order@.no_duplicates(),
        forall|x: int| 0 <= x < order@.len() ==> #[trigger] order@[x] < order@.len(),
        forall|i: usize| i < order@.len() ==> order@.contains(i),
        forall|a: int, b: int|
            #![trigger order@[a], order@[b]]
            0 <= a < b < order@.len() ==> pos_before(*p, order@[a] as int, order@[b] as int),
    ensures
        forall|a: int, b: int|
            #![trigger ready@[a], ready@[b]]
            0 <= a < b < ready@.len() ==> pos_before(*p, ready@[a] as int, ready@[b] as int),
        forall|x: int| 0 <= x < ready.len() ==> #[trigger] ready[x] < p.task_seq().len(),
        ready@.no_duplicates(),
        forall|x: int|
            0 <= x < ready.len() ==> !started@[#[trigger] ready[x] as int] && deps_completed(
                p.task_seq()[ready[x] as int]@,
                statuses@,
            ),
        forall|x: int|
            0 <= x < p.task_seq().len() && !started@[x] && deps_completed(#[trigger] p.task_seq()[x]@, statuses@)
                ==> ready@.contains(x as usize),
{
    let n = order.len();
    let mut ready: Vec<usize> = Vec::new();
    let mut q: usize = 0;
    while q < n
        invariant
            p.wf(),
            n == p.task_seq().len(),
            statuses.wf(),
            started@.len() == n,
            order@.len() == n,
            order@.no_duplicates(),
            forall|x: int| 0 <= x < n ==> #[trigger] order@[x] < n,
            forall|a: int, b: int|
                #![trigger order@[a], order@[b]]
                0 <= a < b < n ==> pos_before(*p, order@[a] as int, order@[b] as int),
            forall|a: int, b: int|
                #![trigger ready@[a], ready@[b]]
                0 <= a < b < ready@.len() ==> pos_before(*p, ready@[a] as int, ready@[b] as int),
            q <= n,
            forall|x: int| 0 <= x < ready.len() ==> #[trigger] ready[x] < n,
            ready@.no_duplicates(),
            forall|x: int| 0 <= x < ready.len() ==> order@.take(q as int).contains(#[trigger] ready[x]),
            forall|x: int|
                0 <= x < ready.len() ==> !started@[#[trigger] ready[x] as int]
                    && deps_completed(p.task_seq()[ready[x] as int]@, statuses@),
            forall|y: int|
                0 <= y < q && !started@[order@[y] as int] && deps_completed(
                    p.task_seq()[order@[y] as int]@,
                    statuses@,
                ) ==> ready@.contains(#[trigger] order@[y]),
        decreases n - q,
    {
        proof {
            p.tasks.lemma_view();
        }
        let i = order[q];
        let ghost ready_before = ready@;
        if !started[i] && is_ready(p.tasks.value_at(i), statuses) {
            proof {
                if ready_before.contains(i) {
                    let x = ready_before.index_of(i);
                    assert(order@.take(q as int).contains(ready_before[x]));
                    let y = order@.take(q as int).index_of(i);
                    assert(order@[y] == order@[q as int]);
                }
                assert forall|x: int| 0 <= x < ready_before.len() implies pos_before(*p, ready_before[x] as int, i as int) by {
                    assert(order@.take(q as int).contains(ready_before[x]));
                    let y = order@.take(q as int).index_of(ready_before[x]);
                    assert(order@[y] == ready_before[x]);
                }
            }
            ready.push(i);
            proof {
                assert forall|a: int, b: int|
                    #![trigger ready@[a], ready@[b]]
                    0 <= a < b < ready@.len() implies pos_before(*p, ready@[a] as int, ready@[b] as int) by {
                    if b == ready_before.len() {
                        assert(ready@[a] == ready_before[a]);
                    } else {
                        assert(ready@[a] == ready_before[a] && ready@[b] == ready_before[b]);
                    }
                }
            }
        }
        proof {
            assert forall|x: int| 0 <= x < ready.len() implies order@.take(q + 1).contains(#[trigger] ready[x]) by {
                if x < ready_before.len() {
                    assert(order@.take(q as int).contains(ready_before[x]));
                    let y = order@.take(q as int).index_of(ready_before[x]);
                    assert(order@.take(q + 1)[y] == ready[x]);
                } else {
                    assert(order@.take(q + 1)[q as int] == ready[x]);
                }
            }
            assert forall|y: int|
                0 <= y < q + 1 && !started@[order@[y] as int] && deps_completed(
                    p.task_seq()[order@[y] as int]@,
                    statuses@,
                ) implies ready@.contains(#[trigger] order@[y]) by {
                if y < q {
                    let x = ready_before.index_of(order@[y]);
                    assert(ready@[x] == order@[y]);
                } else {
                    assert(ready@[ready@.len() - 1] == order@[y]);
                }
            }
        }
        q = q + 1;
    }
    proof {
        assert forall|x: int|
            0 <= x < n && !started@[x] && deps_completed(#[trigger] p.task_seq()[x]@, statuses@) implies ready@.contains(
            x as usize,
        ) by {
            assert(order@.contains(x as usize));
            let y = order@.index_of(x as usize);
            assert(order@[y] == x as usize);
        }
    }
    ready
}

/// A run of a pipeline in progress.
pub struct PipelineRun {
    pipeline: Pipeline,
    order: Vec<usize>,
    started: Vec<bool>,
    running: Vec<usize>,
    retries: Vec<u32>,
    statuses: IdMap<TaskStatus>,
    events: Vec<RunEvent>,
    max: usize,
    continue_on_failure: bool,
    failure: Option<GaiaError>,
    before: Ghost<Map<Seq<char>, TaskStateView>>,
    rank: Ghost<spec_fn(Seq<char>) -> int>,
}

impl PipelineRun {
    /// The pipeline being run, with its state so far.
    pub closed spec fn spec_pipeline(&self) -> Pipeline {
        self.pipeline
    }

    /// The steps of the run so far.
    pub closed spec fn log(&self) -> Seq<EventView> {
        event_views(self.events@)
    }

    /// The largest number of tasks running at once.
    pub closed spec fn max(&self) -> int {
        self.max as int
    }

    /// Whether the run goes on after a task fails.
    pub closed spec fn continues_on_failure(&self) -> bool {
        self.continue_on_failure
    }

    /// The error of the first task that failed, if one did.
    pub closed spec fn first_failure(&self) -> Option<GaiaError> {
        self.failure
    }

    /// The task states when the run started.
    pub closed spec fn states_before(&self) -> Map<Seq<char>, TaskStateView> {
        self.before@
    }

    /// The statuses of the tasks that ended.
    pub closed spec fn statuses_view(&self) -> Map<Seq<char>, StatusView> {
        self.statuses@
    }

    /// How many failed runs of task `id` were retried.
    pub closed spec fn retries_of(&self, id: Seq<char>) -> u32 {
        self.retries@[self.pipeline.tasks.key_seq().index_of(id)]
    }

    /// A task failed and the run does not go on after a failure.
    pub open spec fn stopped(&self) -> bool {
        !self.continues_on_failure() && self.first_failure() is Some
    }

    /// Every slot is taken, or no task could start.
    pub open spec fn busy(&self) -> bool {
        in_flight(self.log()) == self.max() || forall|k: Seq<char>|
            !#[trigger] startable(self.spec_pipeline().tasks@, self.log(), k)
    }

    /// No task runs and none could start.
    pub open spec fn done(&self) -> bool {
        in_flight(self.log()) == 0 && forall|k: Seq<char>|
            !#[trigger] startable(self.spec_pipeline().tasks@, self.log(), k)
    }

    /// What holds of a run between its steps.
    pub closed spec fn wf(&self) -> bool {
        let m = self.pipeline.tasks@;
        let ks = self.pipeline.tasks.key_seq();
        let n = ks.len();
        let log = self.log();
        &&& self.pipeline.wf()
        &&& deps_resolved(m)
        &&& is_ranking(m, self.rank@)
        &&& self.statuses.wf()
        &&& self.running@.len() <= self.max
        &&& run_inv(m, ks, self.started@, self.running@, self.statuses@, log, self.max as int)
        &&& starts_when_possible(m, log, self.max as int)
        &&& self.retries@.len() == n
        &&& (self.failure is Some <==> exists|k: Seq<char>| #[trigger] has_failed(log, k))
        &&& (self.failure matches Some(e) ==> (e is TaskExecutionFailed || e is TaskTimeout))
        &&& (!self.continue_on_failure ==> no_start_after_failure(log))
        &&& self.order@.len() == n
        &&& self.order@.no_duplicates()
        &&& forall|x: int| 0 <= x < n ==> #[trigger] self.order@[x] < n
        &&& forall|i: usize| i < n ==> self.order@.contains(i)
        &&& forall|a: int, b: int|
            #![trigger self.order@[a], self.order@[b]]
            0 <= a < b < n ==> pos_before(self.pipeline, self.order@[a] as int, self.order@[b] as int)
        &&& self.pipeline.state.start_time is Some
        &&& states_match(m, log, self.statuses@, self.before@, self.pipeline.state.task_states@)
    }

    /// In a run that stops on failure, no task starts after a task failed.
    pub proof fn lemma_no_start_after_failure(&self)
        requires
            self.wf(),
        ensures
            !self.continues_on_failure() ==> no_start_after_failure(self.log()),
            respects_dependencies(self.spec_pipeline().tasks@, self.log(), self.max()),
            starts_when_possible(self.spec_pipeline().tasks@, self.log(), self.max()),
    {
    }

    /// The pipeline being run, with its state so far.
    pub fn pipeline(&self) -> (p: &Pipeline)
        ensures
            *p == self.spec_pipeline(),
    {
        &self.pipeline
    }

    /// The steps of the run so far.
    pub fn events(&self) -> (r: &Vec<RunEvent>)
        ensures
            event_views(r@) == self.log(),
    {
        &self.events
    }

    /// Whether a task failed and the run does not go on after a failure.
    pub fn is_stopped(&self) -> (r: bool)
        ensures
            r == self.stopped(),
    {
        !self.continue_on_failure && self.failure.is_some()
    }

    /// How many tasks are running.
    pub fn running_count(&self) -> (r: usize)
        requires
            self.wf(),
        ensures
            r == in_flight(self.log()),
    {
        self.running.len()
    }

    /// The current status of task `k`: its final status once it ended,
    /// `Running` while it runs, `Pending` before it starts.
    pub open spec fn current_status(&self, k: Seq<char>) -> StatusView {
        if self.statuses_view().contains_key(k) {
            self.statuses_view()[k]
        } else if has_started(self.log(), k) {
            StatusView::Running
        } else {
            StatusView::Pending
        }
    }

    /// The current status of every task of the pipeline.
    pub open spec fn current_statuses(&self) -> Map<Seq<char>, StatusView> {
        Map::new(
            |k: Seq<char>| self.spec_pipeline().tasks@.contains_key(k),
            |k: Seq<char>| self.current_status(k),
        )
    }

    /// What a task started now sees of the pipeline: every task with its
    /// current status, a task that ended with what it produced.
    pub fn context(&self) -> (c: ExecutorContext)
        requires
            self.wf(),
        ensures
            c.wf(),
            c@ == self.current_statuses(),
    {
        let ghost ks = self.pipeline.tasks.key_seq();
        let ghost cur = self.current_statuses();
        proof {
            self.pipeline.tasks.lemma_view();
        }
        let n = self.pipeline.tasks.len();
        assert(forall|q: int| 0 <= q < n ==> (#[trigger] self.started@[q] <==> has_started(self.log(), ks[q])));
        let mut seen: IdMap<TaskStatus> = IdMap::new();
        let mut i: usize = 0;
        proof {
            assert(seen@ =~= Map::new(|k: Seq<char>| ks.take(0).contains(k), |k: Seq<char>| cur[k]));
        }
        while i < n
            invariant
                self.pipeline.tasks.wf(),
                self.statuses.wf(),
                self.started@.len() == n,
                forall|q: int| 0 <= q < n ==> (#[trigger] self.started@[q] <==> has_started(self.log(), ks[q])),
                ks == self.pipeline.tasks.key_seq(),
                cur == self.current_statuses(),
                n == ks.len(),
                i <= n,
                seen.wf(),
                seen@ == Map::new(|k: Seq<char>| ks.take(i as int).contains(k), |k: Seq<char>| cur[k]),
            decreases n - i,
        {
            proof {
                self.pipeline.tasks.lemma_view();
            }
            let id = self.pipeline.tasks.key_at(i);
            let status = match self.statuses.get(id.as_str()) {
                Some(st) => st.clone(),
                None => if self.started[i] {
                    TaskStatus::Running
                } else {
                    TaskStatus::Pending
                },
            };
            proof {
                assert(self.pipeline.tasks@.contains_key(ks[i as int]));
                assert(status@ == cur[id@]);
            }
            seen.insert(id.clone(), status);
            proof {
                broadcast use vstd::seq_lib::group_seq_properties;
                assert(ks.take(i + 1) =~= ks.take(i as int).push(id@));
                assert(seen@ =~= Map::new(
                    |k: Seq<char>| ks.take(i + 1).contains(k),
                    |k: Seq<char>| cur[k],
                ));
            }
            i = i + 1;
        }
        proof {
            assert(ks.take(n as int) =~= ks);
            assert(seen@ =~= cur);
        }
        ExecutorContext::new(&seen)
    }

    /// Starts the tasks that can start, fewest dependencies first, while
    /// slots are free, recording each as `Running` at clock reading `now`;
    /// returns their ids in the order they started. After a failure that
    /// stops the run, starts nothing.
    #[verifier::rlimit(60)]
    #[verifier::spinoff_prover]
    pub fn start_ready(&mut self, now: u64) -> (r: Vec<String>)
        requires
            old(self).wf(),
        ensures
            final(self).wf(),
            same_definition(final(self).spec_pipeline(), old(self).spec_pipeline()),
            final(self).max() == old(self).max(),
            final(self).continues_on_failure() == old(self).continues_on_failure(),
            final(self).first_failure() == old(self).first_failure(),
            final(self).states_before() == old(self).states_before(),
            final(self).statuses_view() == old(self).statuses_view(),
            forall|k: Seq<char>| #[trigger] final(self).retries_of(k) == old(self).retries_of(k),
            final(self).log().len() == old(self).log().len() + r@.len(),
            final(self).log().take(old(self).log().len() as int) == old(self).log(),
            forall|q: int|
                0 <= q < r@.len() ==> #[trigger] final(self).log()[old(self).log().len() + q]
                    == EventView::Started(r@[q]@),
            forall|q: int|
                0 <= q < r@.len() ==> #[trigger] final(self).spec_pipeline().state.task_states@[r@[q]@].status
                    == StatusView::Running,
            old(self).stopped() ==> r@.len() == 0,
            forall|q: int, x: Seq<char>|
                #![trigger r@[q], startable(old(self).spec_pipeline().tasks@, old(self).log(), x)]
                0 <= q < r@.len() && startable(old(self).spec_pipeline().tasks@, old(self).log(), x)
                    && !has_started(final(self).log(), x) ==> starts_before(old(self).spec_pipeline(), r@[q]@, x),
            !old(self).stopped() ==> final(self).busy(),
            !final(self).stopped() && final(self).max() > 0 && in_flight(final(self).log()) == 0
                ==> final(self).done(),
    {
        let ghost m = self.pipeline.tasks@;
        let ghost ks = self.pipeline.tasks.key_seq();
        let ghost log_start = self.log();
        let mut r: Vec<String> = Vec::new();
        proof {
            self.pipeline.tasks.lemma_view();
        }
        if !self.continue_on_failure && self.failure.is_some() {
            assert(self.log().take(log_start.len() as int) =~= log_start);
            return r;
        }
        let n = self.pipeline.tasks.len();
        let ready = ready_positions(&self.pipeline, &self.order, &self.started, &self.statuses);
        let cap = self.max - self.running.len();
        let mut k: usize = 0;
        let ghost running0 = self.running@;
        while k < ready.len() && k < cap
            invariant
                self.wf(),
                !(!self.continue_on_failure && self.failure is Some),
                self.pipeline.tasks@ == m,
                self.pipeline.tasks.key_seq() == ks,
                n == ks.len(),
                same_definition(self.pipeline, old(self).pipeline),
                self.max == old(self).max,
                self.continue_on_failure == old(self).continue_on_failure,
                self.failure == old(self).failure,
                self.before == old(self).before,
                self.retries == old(self).retries,
                self.statuses@ == old(self).statuses@,
                self.statuses == old(self).statuses,
                k <= ready.len(),
                cap == self.max - running0.len(),
                k <= cap,
                self.running@.len() == running0.len() + k,
                self.log().len() == log_start.len() + r@.len(),
                self.log().take(log_start.len() as int) == log_start,
                r@.len() == k,
                forall|q: int|
                    0 <= q < r@.len() ==> #[trigger] self.log()[log_start.len() + q] == EventView::Started(r@[q]@),
                forall|q: int| 0 <= q < r@.len() ==> #[trigger] r@[q]@ == ks[ready@[q] as int],
                forall|q: int|
                    0 <= q < r@.len() ==> #[trigger] self.pipeline.state.task_states@[r@[q]@].status
                        == StatusView::Running,
                forall|q: int| 0 <= q < r@.len() ==> is_running_in(self.log(), #[trigger] r@[q]@),
                forall|q: int| 0 <= q < ready.len() ==> #[trigger] ready[q] < n,
                ready@.no_duplicates(),
                forall|q: int| k <= q < ready.len() ==> !self.started@[#[trigger] ready[q] as int],
                forall|q: int| 0 <= q < k ==> self.started@[#[trigger] ready[q] as int],
                forall|q: int|
                    0 <= q < ready.len() ==> deps_completed(
                        self.pipeline.task_seq()[#[trigger] ready[q] as int]@,
                        self.statuses@,
                    ),
                forall|x: int|
                    0 <= x < n && !self.started@[x] && deps_completed(
                        #[trigger] self.pipeline.task_seq()[x]@,
                        self.statuses@,
                    ) ==> ready@.contains(x as usize),
            decreases ready.len() - k,
        {
            let j = ready[k];
            proof {
                self.pipeline.tasks.lemma_view();
            }
            let id = self.pipeline.tasks.key_at(j).clone();
            let ghost log0 = self.log();
            let ghost e = EventView::Started(id@);
            let ghost started_before = self.started@;
            let ghost running_before = self.running@;
            let ghost ts0 = self.pipeline.state.task_states@;
            let ghost r0 = r@;
            proof {
                assert(id@ == ks[j as int]);
                lemma_push_event(log0, e);
                assert(m[ks[j as int]] == self.pipeline.task_seq()[j as int]@);
                lemma_start_step(m, ks, started_before, running_before, self.statuses@, log0, self.max as int, j);
                lemma_push_keeps_busy(m, log0, self.max as int, e);
            }
            self.started.set(j, true);
            self.running.push(j);
            self.events.push(RunEvent::Started(id.clone()));
            self.pipeline.state.update_task_at(id.as_str(), TaskStatus::Running, now);
            r.push(id);
            proof {
                let log1 = self.log();
                assert(log1 =~= log0.push(e));
                assert(self.started@ == started_before.update(j as int, true));
                assert(self.running@ == running_before.push(j));
                assert(log1.take(log_start.len() as int) =~= log0.take(log_start.len() as int));
                assert(r@ == r0.push(id));
                assert forall|q: int| 0 <= q < r@.len() implies #[trigger] r@[q]@ == ks[ready@[q] as int] by {
                    if q < r0.len() {
                        assert(r@[q] == r0[q]);
                    }
                }
                assert forall|q: int| 0 <= q < r@.len() implies #[trigger] log1[log_start.len() + q]
                    == EventView::Started(r@[q]@) by {
                    if q < r0.len() {
                        assert(log1[log_start.len() + q] == log0[log_start.len() + q]);
                    }
                }
                assert forall|q: int| 0 <= q < r@.len() implies is_running_in(log1, #[trigger] r@[q]@) by {
                    if q < r0.len() {
                        assert(is_running_in(log0, r0[q]@));
                    } else {
                        assert(log1[log0.len() as int] == e);
                    }
                }
                let ts1 = self.pipeline.state.task_states@;
                assert forall|q: int| 0 <= q < r@.len() implies #[trigger] ts1[r@[q]@].status == StatusView::Running by {
                    if q < r0.len() && r0[q]@ != id@ {
                        assert(ts1[r0[q]@] == ts0[r0[q]@]);
                    }
                }
                // the log's new event starts no task after a failure: none happened
                if !self.continue_on_failure {
                    assert(!exists|kk: Seq<char>| #[trigger] has_failed(log0, kk));
                    assert forall|a: int, b: int|
                        #![trigger log1[a], log1[b]]
                        0 <= a < b < log1.len() && log1[a] is Failed implies !(log1[b] is Started) by {
                        assert(log1[a] == log0[a]);
                        assert(has_failed(log0, event_id(log0[a])));
                    }
                }
                assert forall|kk: Seq<char>| #[trigger] has_failed(log1, kk) <==> has_failed(log0, kk) by {}
                // states
                let st = self.pipeline.state.task_states@;
                assert(states_match(m, log1, self.statuses@, self.before@, st)) by {
                    assert forall|kk: Seq<char>| m.contains_key(kk) && #[trigger] has_started(log1, kk) implies st.contains_key(kk)
                        && st[kk].start_time is Some by {
                        if kk != id@ {
                            assert(has_started(log0, kk));
                        }
                    }
                    assert forall|kk: Seq<char>| #[trigger] self.statuses@.contains_key(kk) implies st.contains_key(kk)
                        && st[kk].status == self.statuses@[kk] by {
                        assert(kk != id@) by {
                            assert(!has_ended(log0, ks[j as int]));
                        }
                    }
                    assert forall|kk: Seq<char>| m.contains_key(kk) && #[trigger] has_finished(log1, kk) implies st.contains_key(kk)
                        && st[kk].end_time is Some by {
                        assert(has_finished(log0, kk));
                        if kk == id@ {
                            assert(has_ended(log0, ks[j as int]));
                        }
                    }
                }
                assert forall|q: int| k + 1 <= q < ready.len() implies !self.started@[#[trigger] ready[q] as int] by {
                    assert(ready[q] != j);
                }
            }
            k = k + 1;
        }
        proof {
            let log = self.log();
            let pp = old(self).pipeline;
            assert forall|q: int, x: Seq<char>|
                #![trigger r@[q], startable(m, log_start, x)]
                0 <= q < r@.len() && startable(m, log_start, x) && !has_started(log, x) implies starts_before(pp, r@[q]@, x) by {
                self.pipeline.tasks.lemma_view();
                let xi = ks.index_of(x);
                assert(ks[xi] == x);
                assert(!self.started@[xi]);
                assert(self.pipeline.task_seq()[xi]@ == m[x]);
                assert forall|d: Seq<char>| #[trigger] self.pipeline.task_seq()[xi]@.dependencies.contains(d)
                    implies self.statuses@.contains_key(d) && self.statuses@[d] is Completed by {
                    assert(m[x].dependencies.contains(d));
                    assert(has_finished(log_start, d));
                    let w = choose|w: int| 0 <= w < log_start.len() && #[trigger] log_start[w] == EventView::Finished(d);
                    assert(log.take(log_start.len() as int)[w] == log[w]);
                    assert(has_finished(log, d));
                    assert(m.contains_key(d));
                }
                assert(ready@.contains(xi as usize));
                let pq = ready@.index_of(xi as usize);
                assert(ready@[pq] == xi as usize);
                assert(pq >= k) by {
                    if pq < k {
                        assert(self.started@[ready[pq] as int]);
                    }
                }
                assert(pos_before(pp, ready@[q] as int, ready@[pq] as int));
                let iq = ready@[q] as int;
                assert(ks[iq] == r@[q]@);
                assert(ks.index_of(ks[iq]) == iq);
                assert(pp.task_seq()[iq]@ == m[ks[iq]]);
            }
            if self.running@.len() < self.max {
                assert(k == ready.len());
                assert forall|key: Seq<char>| !#[trigger] startable(m, log, key) by {
                    if startable(m, log, key) {
                        self.pipeline.tasks.lemma_view();
                        let x = ks.index_of(key);
                        assert(ks[x] == key);
                        assert(!self.started@[x]);
                        assert(self.pipeline.task_seq()[x]@ == m[key]);
                        assert forall|d: Seq<char>| #[trigger] self.pipeline.task_seq()[x]@.dependencies.contains(d)
                            implies self.statuses@.contains_key(d) && self.statuses@[d] is Completed by {
                            assert(m[key].dependencies.contains(d));
                            assert(has_finished(log, d));
                            assert(m.contains_key(d));
                        }
                        assert(ready@.contains(x as usize));
                        let q = ready@.index_of(x as usize);
                        assert(self.started@[ready[q] as int]);
                    }
                }
            }
        }
        r
    }

    /// Reports how a run of the running task `task_id` ended, at clock
    /// reading `now`. A failure with retries left keeps the task running, to
    /// be run again, and counts the retry. Otherwise the task ends: with its
    /// value, recorded as its status, or failed with the error of its run,
    /// which becomes the run's failure if it is the first.
    #[verifier::rlimit(80)]
    #[verifier::spinoff_prover]
    pub fn report(&mut self, task_id: &str, outcome: TaskOutcome, now: u64) -> (r: Step)
        requires
            old(self).wf(),
            !old(self).stopped(),
            old(self).busy(),
            old(self).spec_pipeline().tasks@.contains_key(task_id@),
            is_running_in(old(self).log(), task_id@),
        ensures
            final(self).wf(),
            same_definition(final(self).spec_pipeline(), old(self).spec_pipeline()),
            final(self).max() == old(self).max(),
            final(self).continues_on_failure() == old(self).continues_on_failure(),
            final(self).states_before() == old(self).states_before(),
            forall|k: Seq<char>|
                old(self).spec_pipeline().tasks@.contains_key(k) && k != task_id@
                    ==> #[trigger] final(self).retries_of(k) == old(self).retries_of(k),
            !(r is Retry) ==> final(self).retries_of(task_id@) == old(self).retries_of(task_id@),
            (r is Retry) == (is_failure(outcome) && old(self).retries_of(task_id@)
                < old(self).spec_pipeline().tasks@[task_id@].retry_count),
            r is Retry ==> {
                &&& final(self).log() == old(self).log()
                &&& final(self).statuses_view() == old(self).statuses_view()
                &&& final(self).first_failure() == old(self).first_failure()
                &&& final(self).retries_of(task_id@) == old(self).retries_of(task_id@) + 1
                &&& final(self).spec_pipeline().state.task_states@ == old(
                    self,
                ).spec_pipeline().state.task_states@.insert(
                    task_id@,
                    retried_task_state(prior_state(old(self).spec_pipeline().state.task_states@, task_id@)),
                )
            },
            r matches Step::Completed(o) ==> {
                &&& match outcome {
                    TaskOutcome::NoHandler => o@ == OutputView::Unit,
                    TaskOutcome::Returned(Ok(v)) => o@ == v@,
                    _ => false,
                }
                &&& final(self).log() == old(self).log().push(EventView::Finished(task_id@))
                &&& final(self).statuses_view() == old(self).statuses_view().insert(
                    task_id@,
                    StatusView::Completed(o@),
                )
                &&& final(self).first_failure() == old(self).first_failure()
                &&& final(self).spec_pipeline().state.task_states@ == old(
                    self,
                ).spec_pipeline().state.task_states@.insert(
                    task_id@,
                    updated_task_state(
                        prior_state(old(self).spec_pipeline().state.task_states@, task_id@),
                        StatusView::Completed(o@),
                        now,
                    ),
                )
            },
            r is Failed ==> {
                let s = if outcome is TimedOut {
                    StatusView::TimedOut
                } else {
                    StatusView::Failed
                };
                &&& is_failure(outcome)
                &&& final(self).log() == old(self).log().push(EventView::Failed(task_id@))
                &&& final(self).statuses_view() == old(self).statuses_view().insert(task_id@, s)
                &&& final(self).spec_pipeline().state.task_states@ == old(
                    self,
                ).spec_pipeline().state.task_states@.insert(
                    task_id@,
                    updated_task_state(
                        prior_state(old(self).spec_pipeline().state.task_states@, task_id@),
                        s,
                        now,
                    ),
                )
                &&& old(self).first_failure() is Some ==> final(self).first_failure() == old(
                    self,
                ).first_failure()
                &&& old(self).first_failure() is None ==> (final(self).first_failure() matches Some(e) && match outcome {
                    TaskOutcome::TimedOut => e is TaskTimeout,
                    TaskOutcome::Returned(Err(x)) => e matches GaiaError::TaskExecutionFailed(msg)
                        && exists|t: Seq<char>|
                        is_display_text(x, t) && msg@ == #[trigger] failure_text(task_id@, t),
                    _ => false,
                })
            },
    {
        let ghost m = self.pipeline.tasks@;
        let ghost ks = self.pipeline.tasks.key_seq();
        let ghost log0 = self.log();
        proof {
            self.pipeline.tasks.lemma_view();
        }
        let _n = self.pipeline.tasks.len();
        let j = match self.pipeline.tasks.position(task_id) {
            Some(j) => j,
            None => {
                return Step::Retry;
            },
        };
        proof {
            assert(ks.index_of(task_id@) == j as int);
            assert(ks[j as int] == task_id@);
            assert(self.started@[j as int]);
            assert(!has_ended(log0, ks[j as int]));
            assert(self.running@.contains(j));
        }
        let mut q: usize = 0;
        while q < self.running.len() && self.running[q] != j
            invariant
                q <= self.running@.len(),
                self.running@.contains(j),
                forall|x: int| 0 <= x < q ==> self.running@[x] != j,
            decreases self.running@.len() - q,
        {
            q = q + 1;
        }
        proof {
            if q == self.running@.len() {
                let x = self.running@.index_of(j);
                assert(self.running@[x] == j);
            }
        }
        let task = self.pipeline.tasks.value_at(j);
        let failed = match &outcome {
            TaskOutcome::Returned(Err(_)) | TaskOutcome::TimedOut => true,
            _ => false,
        };
        if failed && self.retries[j] < task.retry_count {
            let c = self.retries[j] + 1;
            self.retries.set(j, c);
            let ghost ts0 = self.pipeline.state.task_states@;
            self.pipeline.state.record_retry(task_id);
            proof {
                assert forall|k: Seq<char>| m.contains_key(k) && k != task_id@ implies #[trigger] self.retries_of(k)
                    == old(self).retries_of(k) by {
                    let x = ks.index_of(k);
                    assert(ks.contains(k));
                    assert(ks[x] == k);
                }
                let st = self.pipeline.state.task_states@;
                assert(states_match(m, log0, self.statuses@, self.before@, st)) by {
                    assert forall|kk: Seq<char>| #[trigger] self.statuses@.contains_key(kk) implies st.contains_key(kk)
                        && st[kk].status == self.statuses@[kk] by {
                        if kk == task_id@ {
                            assert(has_ended(log0, kk));
                        }
                    }
                }
            }
            return Step::Retry;
        }
        let ghost started0 = self.started@;
        let ghost running0 = self.running@;
        let ghost statuses0 = self.statuses@;
        let ghost ts0 = self.pipeline.state.task_states@;
        let ghost failure0 = self.failure;
        match outcome {
            TaskOutcome::NoHandler | TaskOutcome::Returned(Ok(_)) => {
                let o = match outcome {
                    TaskOutcome::Returned(Ok(v)) => v,
                    _ => TaskOutput::Unit,
                };
                let ghost s = StatusView::Completed(o@);
                proof {
                    lemma_end_step(m, ks, started0, running0, statuses0, log0, self.max as int, q as int, s, true);
                    lemma_push_keeps_busy(m, log0, self.max as int, EventView::Finished(task_id@));
                    lemma_push_event(log0, EventView::Finished(task_id@));
                }
                self.statuses.insert(task_id.to_owned(), TaskStatus::Completed(o.clone()));
                self.events.push(RunEvent::Finished(task_id.to_owned()));
                self.running.remove(q);
                self.pipeline.state.update_task_at(task_id, TaskStatus::Completed(o.clone()), now);
                proof {
                    let log1 = self.log();
                    assert(log1 =~= log0.push(EventView::Finished(task_id@)));
                    assert(end_event(task_id@, true) == EventView::Finished(task_id@));
                    assert forall|kk: Seq<char>| #[trigger] has_failed(log1, kk) <==> has_failed(log0, kk) by {}
                    if !self.continue_on_failure {
                        assert forall|a: int, b: int|
                            #![trigger log1[a], log1[b]]
                            0 <= a < b < log1.len() && log1[a] is Failed implies !(log1[b] is Started) by {
                            assert(log1[a] == log0[a]);
                            if b < log0.len() {
                                assert(log1[b] == log0[b]);
                            }
                        }
                    }
                    let st = self.pipeline.state.task_states@;
                    assert(states_match(m, log1, self.statuses@, self.before@, st)) by {
                        assert forall|kk: Seq<char>| m.contains_key(kk) && #[trigger] has_started(log1, kk) implies st.contains_key(kk)
                            && st[kk].start_time is Some by {
                            assert(has_started(log0, kk));
                        }
                        assert forall|kk: Seq<char>| m.contains_key(kk) && #[trigger] has_finished(log1, kk) implies st.contains_key(kk)
                            && st[kk].end_time is Some by {
                            if kk != task_id@ {
                                assert(has_finished(log0, kk));
                            }
                        }
                    }
                }
                Step::Completed(o)
            },
            TaskOutcome::Returned(Err(e)) => {
                let err = failure_error(task_id, &e);
                self.finish_failed(task_id, j, q, TaskStatus::Failed, err, now, Ghost(m), Ghost(ks));
                Step::Failed
            },
            TaskOutcome::TimedOut => {
                self.finish_failed(task_id, j, q, TaskStatus::TimedOut, GaiaError::TaskTimeout, now, Ghost(m), Ghost(ks));
                Step::Failed
            },
        }
    }

    /// Ends the running task `task_id`, at position `j` and at place `q` of
    /// the running queue, with the failed status `status` and error `err`.
    #[verifier::rlimit(60)]
    #[verifier::spinoff_prover]
    fn finish_failed(
        &mut self,
        task_id: &str,
        j: usize,
        q: usize,
        status: TaskStatus,
        err: GaiaError,
        now: u64,
        Ghost(m): Ghost<Map<Seq<char>, TaskView>>,
        Ghost(ks): Ghost<Seq<Seq<char>>>,
    )
        requires
            old(self).wf(),
            !(!old(self).continue_on_failure && old(self).failure is Some),
            old(self).busy(),
            m == old(self).pipeline.tasks@,
            ks == old(self).pipeline.tasks.key_seq(),
            j < ks.len(),
            ks[j as int] == task_id@,
            q < old(self).running@.len(),
            old(self).running@[q as int] == j,
            status@ is Failed || status@ is TimedOut,
            err is TaskExecutionFailed || err is TaskTimeout,
        ensures
            final(self).wf(),
            final(self).pipeline == (Pipeline { state: final(self).pipeline.state, ..old(self).pipeline }),
            final(self).max == old(self).max,
            final(self).continue_on_failure == old(self).continue_on_failure,
            final(self).before == old(self).before,
            final(self).retries == old(self).retries,
            final(self).log() == old(self).log().push(EventView::Failed(task_id@)),
            final(self).statuses@ == old(self).statuses@.insert(task_id@, status@),
            final(self).pipeline.state.task_states@ == old(self).pipeline.state.task_states@.insert(
                task_id@,
                updated_task_state(prior_state(old(self).pipeline.state.task_states@, task_id@), status@, now),
            ),
            old(self).failure is Some ==> final(self).failure == old(self).failure,
            old(self).failure is None ==> final(self).failure == Some(err),
    {
        let ghost log0 = self.log();
        let ghost s = status@;
        let _n = self.pipeline.tasks.len();
        proof {
            self.pipeline.tasks.lemma_view();
            lemma_end_step(m, ks, self.started@, self.running@, self.statuses@, log0, self.max as int, q as int, s, false);
            lemma_push_keeps_busy(m, log0, self.max as int, EventView::Failed(task_id@));
            lemma_push_event(log0, EventView::Failed(task_id@));
        }
        let copy = match &status {
            TaskStatus::TimedOut => TaskStatus::TimedOut,
            _ => TaskStatus::Failed,
        };
        self.statuses.insert(task_id.to_owned(), status);
        self.events.push(RunEvent::Failed(task_id.to_owned()));
        self.running.remove(q);
        self.pipeline.state.update_task_at(task_id, copy, now);
        if self.failure.is_none() {
            self.failure = Some(err);
        }
        proof {
            let log1 = self.log();
            assert(log1 =~= log0.push(EventView::Failed(task_id@)));
            assert(end_event(task_id@, false) == EventView::Failed(task_id@));
            assert(has_failed(log1, task_id@)) by {
                assert(log1[log0.len() as int] == EventView::Failed(task_id@));
            }
            if !self.continue_on_failure {
                assert(!exists|kk: Seq<char>| #[trigger] has_failed(log0, kk));
                assert forall|a: int, b: int|
                    #![trigger log1[a], log1[b]]
                    0 <= a < b < log1.len() && log1[a] is Failed implies !(log1[b] is Started) by {
                    if a < log0.len() {
                        assert(log1[a] == log0[a]);
                        assert(has_failed(log0, event_id(log0[a])));
                    }
                }
            }
            let st = self.pipeline.state.task_states@;
            assert(states_match(m, log1, self.statuses@, self.before@, st)) by {
                assert forall|kk: Seq<char>| m.contains_key(kk) && #[trigger] has_started(log1, kk) implies st.contains_key(kk)
                    && st[kk].start_time is Some by {
                    assert(has_started(log0, kk));
                }
                assert forall|kk: Seq<char>| m.contains_key(kk) && #[trigger] has_finished(log1, kk) implies st.contains_key(kk)
                    && st[kk].end_time is Some by {
                    assert(has_finished(log0, kk));
                    if kk == task_id@ {
                        assert(has_ended(log0, ks[j as int]));
                    }
                }
            }
        }
    }

    /// Ends the run at clock reading `now`. A run stopped by a failure gives
    /// that failure's error. Otherwise the pipeline is marked complete, and
    /// successful when no task failed, and the report gives the pipeline with
    /// its state and the steps of the run.
    #[verifier::rlimit(80)]
    #[verifier::spinoff_prover]
    pub fn finish(self, now: u64) -> (r: Result<RunReport, GaiaError>)
        requires
            self.wf(),
            self.stopped() || self.done(),
        ensures
            r is Err <==> self.stopped(),
            r matches Err(e) ==> self.first_failure() == Some(e),
            r matches Ok(rep) ==> {
                let m = self.spec_pipeline().tasks@;
                let log = event_views(rep.events@);
                &&& rep.pipeline.wf()
                &&& same_definition(rep.pipeline, self.spec_pipeline())
                &&& log == self.log()
                &&& respects_dependencies(m, log, self.max())
                &&& starts_when_possible(m, log, self.max())
                &&& self.first_failure() is None ==> runs_every_task(m, log)
                &&& states_match(
                    m,
                    log,
                    self.statuses_view(),
                    self.states_before(),
                    rep.pipeline.state.task_states@,
                )
                &&& forall|k: Seq<char>|
                    #[trigger] m.contains_key(k) ==> rep.pipeline.state.task_states@.contains_key(k)
                        && rep.pipeline.state.task_states@[k].status == final_status(self.statuses_view(), k)
                &&& forall|k: Seq<char>|
                    !m.contains_key(k) ==> (#[trigger] rep.pipeline.state.task_states@.contains_key(k)
                        <==> self.spec_pipeline().state.task_states@.contains_key(k)) && (
                    rep.pipeline.state.task_states@.contains_key(k)
                        ==> rep.pipeline.state.task_states@[k] == self.spec_pipeline().state.task_states@[k])
                &&& rep.pipeline.state.start_time is Some
                &&& rep.pipeline.state.start_time == self.spec_pipeline().state.start_time
                &&& rep.pipeline.state.end_time == Some(now)
                &&& rep.pipeline.state.is_complete
                &&& rep.pipeline.state.is_successful == (self.first_failure() is None)
                &&& rep.pipeline.state.is_successful == forall|k: Seq<char>|
                    #[trigger] m.contains_key(k) ==> rep.pipeline.state.task_states@[k].status is Completed
            },
    {
        let run = self;
        if !run.continue_on_failure && run.failure.is_some() {
            return Err(run.failure.unwrap());
        }
        proof {
            let m = run.pipeline.tasks@;
            let ks = run.pipeline.tasks.key_seq();
            let n = ks.len();
            let log = run.log();
            let f = run.rank@;
            run.pipeline.tasks.lemma_view();
            if run.failure is None {
                assert(!exists|kk: Seq<char>| #[trigger] has_failed(log, kk));
                if exists|i: int| 0 <= i < n && !run.started@[i] {
                    let rank = |q: int| f(ks[q]);
                    let i0 = lemma_least_rank(run.started@, rank, n as int);
                    assert(run.pipeline.task_seq()[i0]@ == m[ks[i0]]);
                    assert forall|d: Seq<char>| #[trigger] m[ks[i0]].dependencies.contains(d) implies has_finished(log, d) by {
                        assert(m.contains_key(ks[i0]));
                        assert(m.contains_key(d));
                        let jd = ks.index_of(d);
                        assert(ks[jd] == d);
                        assert(f(d) < f(ks[i0]));
                        if !run.started@[jd] {
                            assert(rank(i0) <= rank(jd));
                        }
                        assert(run.started@[jd]);
                        assert(!run.running@.contains(jd as usize));
                        assert(has_ended(log, ks[jd]));
                        assert(!has_failed(log, d));
                    }
                    assert(startable(m, log, ks[i0]));
                }
                assert forall|id: Seq<char>| #[trigger] m.contains_key(id) implies has_started(log, id) && has_finished(log, id) by {
                    let i = ks.index_of(id);
                    assert(ks[i] == id);
                    assert(run.started@[i]);
                    assert(!run.running@.contains(i as usize));
                    assert(!has_failed(log, id));
                }
            }
        }
        let mut pipeline = run.pipeline;
        let ghost m = pipeline.tasks@;
        let ghost ks = pipeline.tasks.key_seq();
        let ghost log = run.log();
        let ghost ts0 = pipeline.state.task_states@;
        let ghost sv = run.statuses@;
        proof {
            pipeline.tasks.lemma_view();
            assert forall|q: int| 0 <= q < ks.len() && #[trigger] run.started@[q] implies sv.contains_key(ks[q]) by {
                assert(!run.running@.contains(q as usize));
                assert(has_ended(log, ks[q]));
            }
        }
        let n = pipeline.tasks.len();
        let mut i: usize = 0;
        while i < n
            invariant
                pipeline.wf(),
                pipeline.tasks@ == m,
                pipeline.tasks.key_seq() == ks,
                n == ks.len(),
                i <= n,
                run.started@.len() == n,
                forall|q: int| 0 <= q < n ==> (#[trigger] run.started@[q] <==> has_started(log, ks[q])),
                forall|q: int| 0 <= q < n && #[trigger] run.started@[q] ==> sv.contains_key(ks[q]),
                forall|q: int| 0 <= q < n && has_ended(log, #[trigger] ks[q]) ==> run.started@[q],
                forall|k: Seq<char>| #[trigger] sv.contains_key(k) ==> m.contains_key(k) && has_ended(log, k),
                states_match(m, log, sv, run.before@, pipeline.state.task_states@),
                pipeline.state.start_time is Some,
                pipeline.state.start_time == run.pipeline.state.start_time,
                pipeline.id == run.pipeline.id,
                pipeline.name == run.pipeline.name,
                pipeline.description == run.pipeline.description,
                pipeline.schedule == run.pipeline.schedule,
                pipeline.tasks == run.pipeline.tasks,
                forall|q: int|
                    0 <= q < i ==> pipeline.state.task_states@.contains_key(#[trigger] ks[q])
                        && pipeline.state.task_states@[ks[q]].status == final_status(sv, ks[q]),
                forall|k: Seq<char>|
                    !m.contains_key(k) ==> (#[trigger] pipeline.state.task_states@.contains_key(k)
                        <==> ts0.contains_key(k)) && (pipeline.state.task_states@.contains_key(k)
                        ==> pipeline.state.task_states@[k] == ts0[k]),
            decreases n - i,
        {
            proof {
                pipeline.tasks.lemma_view();
            }
            if !run.started[i] {
                let id = pipeline.tasks.key_at(i).clone();
                let ghost before = pipeline.state.task_states@;
                pipeline.state.update_task_at(id.as_str(), TaskStatus::Skipped, now);
                proof {
                    let ts = pipeline.state.task_states@;
                    assert(!has_started(log, id@));
                    assert(!sv.contains_key(id@)) by {
                        if sv.contains_key(id@) {
                            assert(has_ended(log, ks[i as int]));
                        }
                    }
                    assert(states_match(m, log, sv, run.before@, ts)) by {
                        assert forall|k: Seq<char>| m.contains_key(k) && #[trigger] has_finished(log, k) implies ts.contains_key(k)
                            && ts[k].end_time is Some by {
                            assert(before.contains_key(k) && before[k].end_time is Some);
                        }
                    }
                    assert forall|q: int| 0 <= q < i + 1 implies ts.contains_key(#[trigger] ks[q])
                        && ts[ks[q]].status == final_status(sv, ks[q]) by {
                        if q < i {
                            assert(ks[q] != id@);
                        }
                    }
                }
            } else {
                proof {
                    assert(sv.contains_key(ks[i as int]));
                }
            }
            i = i + 1;
        }
        let success = run.failure.is_none();
        pipeline.state.complete_at(success, now);
        proof {
            let ts = pipeline.state.task_states@;
            assert forall|k: Seq<char>| #[trigger] m.contains_key(k) implies ts.contains_key(k)
                && ts[k].status == final_status(sv, k) by {
                let q = ks.index_of(k);
                assert(ks[q] == k);
            }
            if success {
                assert(runs_every_task(m, log));
                assert forall|k: Seq<char>| #[trigger] m.contains_key(k) implies ts[k].status is Completed by {
                    assert(has_finished(log, k));
                    assert(has_ended(log, k));
                    assert(sv.contains_key(k));
                }
            } else {
                let k = choose|k: Seq<char>| #[trigger] has_failed(log, k);
                assert(has_ended(log, k));
                let x = choose|x: int| 0 <= x < log.len() && #[trigger] log[x] == EventView::Failed(k);
                assert(m.contains_key(event_id(log[x])));
                assert(sv.contains_key(k));
                let q = ks.index_of(k);
                assert(ks[q] == k);
                assert(!has_finished(log, ks[q]));
                assert(!(ts[k].status is Completed));
            }
        }
        Ok(RunReport { pipeline, events: run.events })
    }
}

impl Executor {
    /// Starts a run of `pipeline` at clock reading `now`: checks it first,
    /// and gives the error that the check reports; otherwise marks the
    /// pipeline started, with no task started yet.
    pub fn start_run(&self, pipeline: Pipeline, now: u64) -> (r: Result<PipelineRun, GaiaError>)
        requires
            pipeline.wf(),
        ensures
            r is Ok <==> deps_resolved(pipeline.tasks@) && acyclic(pipeline.tasks@),
            r matches Err(e) ==> {
                ||| e is CircularDependency && !acyclic(pipeline.tasks@)
                ||| e matches GaiaError::TaskNotFound(d) && missing_dependency(pipeline.tasks@, d@)
            },
            r matches Ok(run) ==> {
                &&& run.wf()
                &&& run.log() == Seq::<EventView>::empty()
                &&& same_definition(run.spec_pipeline(), pipeline)
                &&& run.spec_pipeline().state.start_time == Some(now)
                &&& run.spec_pipeline().state.task_states@ == pipeline.state.task_states@
                &&& run.states_before() == pipeline.state.task_states@
                &&& run.max() == self.spec_config().max_concurrent_tasks
                &&& run.continues_on_failure() == self.spec_config().continue_on_failure
                &&& run.first_failure() is None
                &&& run.statuses_view() == Map::<Seq<char>, StatusView>::empty()
            },
    {
        let checked = pipeline.validate();
        self.start_checked_run(pipeline, checked, now)
    }

    /// Starts a run of `pipeline` at clock reading `now`, given `checked`, the
    /// outcome of its check: an error in `checked` is the result as it is.
    pub fn start_checked_run(
        &self,
        pipeline: Pipeline,
        checked: Result<(), GaiaError>,
        now: u64,
    ) -> (r: Result<PipelineRun, GaiaError>)
        requires
            pipeline.wf(),
            checked is Ok <==> deps_resolved(pipeline.tasks@) && acyclic(pipeline.tasks@),
        ensures
            checked matches Err(e) ==> r matches Err(e2) && e2 == e,
            checked is Ok ==> (r matches Ok(run) && {
                &&& run.wf()
                &&& run.log() == Seq::<EventView>::empty()
                &&& same_definition(run.spec_pipeline(), pipeline)
                &&& run.spec_pipeline().state.start_time == Some(now)
                &&& run.spec_pipeline().state.task_states@ == pipeline.state.task_states@
                &&& run.states_before() == pipeline.state.task_states@
                &&& run.max() == self.spec_config().max_concurrent_tasks
                &&& run.continues_on_failure() == self.spec_config().continue_on_failure
                &&& run.first_failure() is None
                &&& run.statuses_view() == Map::<Seq<char>, StatusView>::empty()
            }),
    {
        match checked {
            Err(e) => {
                return Err(e);
            },
            Ok(()) => {},
        }
        let ghost m = pipeline.tasks@;
        let ghost st0 = pipeline.state.task_states@;
        let ghost f = choose|f: spec_fn(Seq<char>) -> int| is_ranking(m, f);
        let mut p = pipeline;
        p.state.start_at(now);
        proof {
            p.tasks.lemma_view();
        }
        let n = p.tasks.len();
        let mut counts: Vec<usize> = Vec::new();
        let mut c: usize = 0;
        while c < n
            invariant
                p.wf(),
                n == p.task_seq().len(),
                c <= n,
                counts@.len() == c,
                forall|x: int| 0 <= x < c ==> #[trigger] counts@[x] == p.task_seq()[x]@.dependencies.len(),
            decreases n - c,
        {
            proof {
                p.tasks.lemma_view();
            }
            let task = p.tasks.value_at(c);
            proof {
                assert(task.wf());
            }
            counts.push(task.dependencies.len());
            c = c + 1;
        }
        let order = order_by_count(&counts);
        proof {
            assert forall|a: int, b: int|
                #![trigger order@[a], order@[b]]
                0 <= a < b < n implies pos_before(p, order@[a] as int, order@[b] as int) by {
                assert(comes_before(counts@, order@[a], order@[b]));
            }
        }
        let started: Vec<bool> = vec![false; n];
        let retries: Vec<u32> = vec![0u32; n];
        let run = PipelineRun {
            pipeline: p,
            order,
            started,
            running: Vec::new(),
            retries,
            statuses: IdMap::new(),
            events: Vec::new(),
            max: self.config().max_concurrent_tasks,
            continue_on_failure: self.config().continue_on_failure,
            failure: None,
            before: Ghost(st0),
            rank: Ghost(f),
        };
        proof {
            let log = run.log();
            assert(log =~= Seq::<EventView>::empty());
            assert forall|k: int| 0 <= k <= 0 implies #[trigger] in_flight(log.take(k)) <= run.max by {
                assert(log.take(k) =~= Seq::<EventView>::empty());
            }
            let ks = run.pipeline.tasks.key_seq();
            assert forall|i: int| 0 <= i < n implies (#[trigger] run.started@[i] <==> has_started(log, ks[i])) by {}
        }
        Ok(run)
    }
}

} // verus!

verus! {

/// In a run that respects dependencies, a task depended upon finishes before
/// the task that depends on it starts, which is before that task finishes.
pub proof fn law_dependency_finishes_first(
    m: Map<Seq<char>, TaskView>,
    log: Seq<EventView>,
    max: int,
    a: Seq<char>,
    d: Seq<char>,
    i: int,
)
    requires
        respects_dependencies(m, log, max),
        0 <= i < log.len(),
        log[i] == EventView::Started(a),
        m[a].dependencies.contains(d),
    ensures
        exists|j: int| 0 <= j < i && log[j] == EventView::Finished(d),
        forall|k: int| 0 <= k < log.len() && #[trigger] log[k] == EventView::Finished(a) ==> i < k,
{
    assert(event_id(log[i]) == a);
    assert(m[event_id(log[i])].dependencies.contains(d));
    assert forall|k: int| 0 <= k < log.len() && #[trigger] log[k] == EventView::Finished(a) implies i < k by {
        assert(event_id(log[k]) == a);
        let j = choose|j: int| 0 <= j < k && #[trigger] log[j] == EventView::Started(event_id(log[k]));
        assert(log[j] == log[i]);
    }
}

/// In a run that respects dependencies, no more than `max` tasks are ever
/// running at once.
pub proof fn law_bounded_concurrency(m: Map<Seq<char>, TaskView>, log: Seq<EventView>, max: int, k: int)
    requires
        respects_dependencies(m, log, max),
        0 <= k <= log.len(),
    ensures
        in_flight(log.take(k)) <= max,
{
}

} // verus!
