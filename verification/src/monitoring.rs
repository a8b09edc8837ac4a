//! The metrics that describe a task's state: its status as a number, its
//! duration and its retries, each labelled with the task's id and name.
use crate::pipeline::Pipeline;
use crate::state::{TaskState, TaskStateView};
use crate::task::{StatusView, TaskStatus};
use vstd::prelude::*;

verus! {

/// The number that stands for a status in metrics.
pub open spec fn status_code(s: StatusView) -> u64 {
    match s {
        StatusView::Pending => 0,
        StatusView::Running => 1,
        StatusView::Completed(_) => 2,
        StatusView::Failed => 3,
        StatusView::TimedOut => 4,
        StatusView::Skipped => 5,
        StatusView::Cancelled => 6,
    }
}

/// The number that stands for `status` in metrics.
pub fn task_status_code(status: &TaskStatus) -> (r: u64)
    ensures
        r == status_code(status@),
{
    match status {
        TaskStatus::Pending => 0,
        TaskStatus::Running => 1,
        TaskStatus::Completed(_) => 2,
        TaskStatus::Failed => 3,
        TaskStatus::TimedOut => 4,
        TaskStatus::Skipped => 5,
        TaskStatus::Cancelled => 6,
    }
}

/// A metric value with its name and labels.
#[derive(Debug)]
pub struct MetricSample {
    /// Name of the metric.
    pub name: String,
    /// Value of the metric.
    pub value: u64,
    /// Labels of the metric, as (key, value) pairs.
    pub labels: Vec<(String, String)>,
}

/// The mathematical value of a [`MetricSample`].
pub struct SampleView {
    pub name: Seq<char>,
    pub value: u64,
    pub labels: Seq<(Seq<char>, Seq<char>)>,
}

impl View for MetricSample {
    type V = SampleView;

    open spec fn view(&self) -> SampleView {
        SampleView {
            name: self.name@,
            value: self.value,
            labels: self.labels@.map_values(|l: (String, String)| (l.0@, l.1@)),
        }
    }
}

/// The labels of a task's metrics.
pub open spec fn task_labels(task_id: Seq<char>, task_name: Seq<char>) -> Seq<(Seq<char>, Seq<char>)> {
    seq![("task_id"@, task_id), ("task_name"@, task_name)]
}

/// The metrics of a task in state `st`: its status code; its duration, from
/// start to end, when both are known; its retries, when there were any.
pub open spec fn task_metrics(
    task_id: Seq<char>,
    task_name: Seq<char>,
    st: TaskStateView,
) -> Seq<SampleView> {
    let labels = task_labels(task_id, task_name);
    let status = seq![SampleView { name: "task.status"@, value: status_code(st.status), labels }];
    let duration = match (st.start_time, st.end_time) {
        (Some(s), Some(e)) => seq![
            SampleView { name: "task.duration"@, value: (e - s) as u64, labels },
        ],
        _ => Seq::empty(),
    };
    let retries = if st.retry_count > 0 {
        seq![SampleView { name: "task.retries"@, value: st.retry_count as u64, labels }]
    } else {
        Seq::empty()
    };
    status + duration + retries
}

fn labels_for(task_id: &str, task_name: &str) -> (r: Vec<(String, String)>)
    ensures
        r@.map_values(|l: (String, String)| (l.0@, l.1@)) == task_labels(task_id@, task_name@),
{
    let mut r: Vec<(String, String)> = Vec::new();
    r.push(("task_id".to_owned(), task_id.to_owned()));
    r.push(("task_name".to_owned(), task_name.to_owned()));
    assert(r@.map_values(|l: (String, String)| (l.0@, l.1@)) =~= task_labels(task_id@, task_name@));
    r
}

/// The metrics of task `task_id`, named `task_name`, in state `state`; see
/// [`task_metrics`].
pub fn task_metric_samples(task_id: &str, task_name: &str, state: &TaskState) -> (r: Vec<MetricSample>)
    requires
        state.start_time matches Some(s) ==> state.end_time matches Some(e) ==> s <= e,
    ensures
        r@.map_values(|m: MetricSample| m@) == task_metrics(task_id@, task_name@, state@),
{
    let mut r: Vec<MetricSample> = Vec::new();
    r.push(
        MetricSample {
            name: "task.status".to_owned(),
            value: task_status_code(&state.status),
            labels: labels_for(task_id, task_name),
        },
    );
    match (state.start_time, state.end_time) {
        (Some(s), Some(e)) => {
            r.push(
                MetricSample {
                    name: "task.duration".to_owned(),
                    value: e - s,
                    labels: labels_for(task_id, task_name),
                },
            );
        },
        _ => {},
    }
    if state.retry_count > 0 {
        r.push(
            MetricSample {
                name: "task.retries".to_owned(),
                value: state.retry_count as u64,
                labels: labels_for(task_id, task_name),
            },
        );
    }
    assert(r@.map_values(|m: MetricSample| m@) =~= task_metrics(task_id@, task_name@, state@));
    r
}


/// The metrics of the first `i` task states of `p`, in the order of the
/// states, for each state whose task belongs to `p` (see [`task_metrics`]).
pub open spec fn states_metrics(p: Pipeline, i: int) -> Seq<SampleView>
    decreases i,
{
    if i <= 0 {
        Seq::empty()
    } else {
        let k = p.state.task_states.key_seq()[i - 1];
        let before = states_metrics(p, i - 1);
        if p.tasks@.contains_key(k) {
            before + task_metrics(k, p.tasks@[k].name, p.state.task_states.val_seq()[i - 1]@)
        } else {
            before
        }
    }
}

/// The metrics of every task of `p` that has a state, in the order of the
/// states; see [`states_metrics`].
pub fn pipeline_metric_samples(p: &Pipeline) -> (r: Vec<MetricSample>)
    requires
        p.wf(),
        forall|i: int|
            #![trigger p.state.task_states.val_seq()[i]]
            0 <= i < p.state.task_states.val_seq().len() ==> (p.state.task_states.val_seq()[i].start_time matches Some(
                s,
            ) ==> p.state.task_states.val_seq()[i].end_time matches Some(e) ==> s <= e),
    ensures
        r@.map_values(|m: MetricSample| m@) == states_metrics(*p, p.state.task_states.key_seq().len() as int),
{
    let states = &p.state.task_states;
    proof {
        states.lemma_view();
    }
    let n = states.len();
    let mut r: Vec<MetricSample> = Vec::new();
    let mut i: usize = 0;
    while i < n
        invariant
            p.wf(),
            *states == p.state.task_states,
            n == states.key_seq().len(),
            i <= n,
            forall|q: int|
                #![trigger p.state.task_states.val_seq()[q]]
                0 <= q < p.state.task_states.val_seq().len() ==> (p.state.task_states.val_seq()[q].start_time matches Some(
                    s,
                ) ==> p.state.task_states.val_seq()[q].end_time matches Some(e) ==> s <= e),
            r@.map_values(|m: MetricSample| m@) == states_metrics(*p, i as int),
        decreases n - i,
    {
        proof {
            states.lemma_view();
        }
        let id = states.key_at(i);
        let state = states.value_at(i);
        let ghost before = r@;
        match p.tasks.get(id.as_str()) {
            Some(task) => {
                let mut more = task_metric_samples(id.as_str(), task.name.as_str(), state);
                let ghost added = more@;
                r.append(&mut more);
                proof {
                    assert(r@ == before + added);
                    assert(r@.map_values(|m: MetricSample| m@) =~= before.map_values(|m: MetricSample| m@)
                        + added.map_values(|m: MetricSample| m@));
                }
            },
            None => {},
        }
        i = i + 1;
    }
    r
}

/// Different statuses have different codes; the value a completed task
/// produced does not count.
pub proof fn law_status_codes_tell_statuses_apart(a: StatusView, b: StatusView)
    ensures
        status_code(a) == status_code(b) <==> match (a, b) {
            (StatusView::Completed(_), StatusView::Completed(_)) => true,
            _ => a == b,
        },
{
}

/// What a task's metrics say whatever its status: the first is its status
/// code; when it has a start and an end time, the second is its duration, the
/// end time less the start time; when it was retried, the last is its retry
/// count; and there is no other metric.
pub proof fn law_task_metrics_describe_state(task_id: Seq<char>, task_name: Seq<char>, st: TaskStateView)
    ensures
        task_metrics(task_id, task_name, st).len() == 1 + (if st.start_time is Some && st.end_time is Some {
            1int
        } else {
            0int
        }) + (if st.retry_count > 0 {
            1int
        } else {
            0int
        }),
        task_metrics(task_id, task_name, st)[0] == (SampleView {
            name: "task.status"@,
            value: status_code(st.status),
            labels: task_labels(task_id, task_name),
        }),
        st.start_time matches Some(s) ==> st.end_time matches Some(e) ==> task_metrics(task_id, task_name, st)[1]
            == (SampleView {
            name: "task.duration"@,
            value: (e - s) as u64,
            labels: task_labels(task_id, task_name),
        }),
        st.retry_count > 0 ==> task_metrics(task_id, task_name, st).last() == (SampleView {
            name: "task.retries"@,
            value: st.retry_count as u64,
            labels: task_labels(task_id, task_name),
        }),
{
}

/// The metrics of the first `i` states stay, in place, among those of the
/// first `j`.
proof fn lemma_states_metrics_prefix(p: Pipeline, i: int, j: int)
    requires
        0 <= i <= j,
    ensures
        states_metrics(p, i).len() <= states_metrics(p, j).len(),
        forall|e: int|
            0 <= e < states_metrics(p, i).len() ==> #[trigger] states_metrics(p, j)[e] == states_metrics(p, i)[e],
    decreases j,
{
    if i < j {
        lemma_states_metrics_prefix(p, i, j - 1);
    }
}

/// Every task of a pipeline that has a state has its metrics among the
/// pipeline's, in one piece, whatever its status: starting with its status
/// sample, labelled with its id and name.
pub proof fn law_every_task_state_measured(p: Pipeline, i: int)
    requires
        0 <= i < p.state.task_states.key_seq().len(),
        p.tasks@.contains_key(p.state.task_states.key_seq()[i]),
    ensures
        ({
            let k = p.state.task_states.key_seq()[i];
            let all = states_metrics(p, p.state.task_states.key_seq().len() as int);
            let mine = task_metrics(k, p.tasks@[k].name, p.state.task_states.val_seq()[i]@);
            exists|e: int|
                0 <= e && e + mine.len() <= all.len() && #[trigger] all.subrange(e, e + mine.len()) == mine
        }),
{
    let n = p.state.task_states.key_seq().len() as int;
    let k = p.state.task_states.key_seq()[i];
    let mine = task_metrics(k, p.tasks@[k].name, p.state.task_states.val_seq()[i]@);
    let before = states_metrics(p, i);
    let upto = states_metrics(p, i + 1);
    assert(upto == before + mine);
    lemma_states_metrics_prefix(p, i + 1, n);
    let all = states_metrics(p, n);
    let e = before.len() as int;
    assert(all.subrange(e, e + mine.len()) =~= mine) by {
        assert forall|q: int| 0 <= q < mine.len() implies all.subrange(e, e + mine.len())[q] == mine[q] by {
            assert(all[e + q] == upto[e + q]);
        }
    }
}

/// Every metric of a pipeline is one of the metrics of a task of the
/// pipeline that has a state, as that state gives it.
pub proof fn law_only_task_states_measured(p: Pipeline, i: int, e: int)
    requires
        0 <= i <= p.state.task_states.key_seq().len(),
        0 <= e < states_metrics(p, i).len(),
    ensures
        exists|q: int, f: int|
            #![trigger p.state.task_states.key_seq()[q], task_metrics(p.state.task_states.key_seq()[q], p.tasks@[p.state.task_states.key_seq()[q]].name, p.state.task_states.val_seq()[q]@)[f]]
            0 <= q < i && p.tasks@.contains_key(p.state.task_states.key_seq()[q]) && 0 <= f < task_metrics(
                p.state.task_states.key_seq()[q],
                p.tasks@[p.state.task_states.key_seq()[q]].name,
                p.state.task_states.val_seq()[q]@,
            ).len() && states_metrics(p, i)[e] == task_metrics(
                p.state.task_states.key_seq()[q],
                p.tasks@[p.state.task_states.key_seq()[q]].name,
                p.state.task_states.val_seq()[q]@,
            )[f],
    decreases i,
{
    let before = states_metrics(p, i - 1);
    if e < before.len() {
        law_only_task_states_measured(p, i - 1, e);
        assert(states_metrics(p, i)[e] == before[e]);
    } else {
        let k = p.state.task_states.key_seq()[i - 1];
        let mine = task_metrics(k, p.tasks@[k].name, p.state.task_states.val_seq()[i - 1]@);
        assert(p.tasks@.contains_key(k));
        let f = e - before.len();
        assert(states_metrics(p, i)[e] == mine[f]);
    }
}

} // verus!
