//! Execution state of a pipeline and of its tasks: start and end times,
//! statuses, retries, errors.
use crate::ids::IdMap;
use crate::task::{opt_view, StatusView, TaskStatus};
use vstd::prelude::*;

verus! {

#[verifier::external_type_specification]
#[verifier::external_body]
pub struct ExSystemTime(std::time::SystemTime);

#[verifier::external_type_specification]
#[verifier::external_body]
pub struct ExSystemTimeError(std::time::SystemTimeError);

/// The duration that `std::time::Duration::from_millis` makes of `ms` milliseconds.
pub uninterp spec fn duration_from_millis(ms: u64) -> std::time::Duration;

/// `std::time::Duration::from_millis`: the duration of `ms` milliseconds, a
/// function of `ms` alone.
#[verifier::external_body]
fn millis_duration(ms: u64) -> (d: std::time::Duration)
    ensures
        d == duration_from_millis(ms),
{
    std::time::Duration::from_millis(ms)
}

/// `std::time::SystemTime::now`: the current time of the system clock.
/// Nothing is claimed of it.
#[verifier::external_body]
fn system_now() -> std::time::SystemTime {
    std::time::SystemTime::now()
}

/// `std::time::SystemTime::duration_since` with `UNIX_EPOCH`: the time from
/// the epoch to `t`, or an error when `t` is earlier. Nothing is claimed of it.
#[verifier::external_body]
fn since_epoch(t: &std::time::SystemTime) -> Result<std::time::Duration, std::time::SystemTimeError> {
    t.duration_since(std::time::UNIX_EPOCH)
}

/// `std::time::Duration::as_millis`: the whole milliseconds of `d`. Nothing is
/// claimed of it here.
#[verifier::external_body]
fn whole_millis(d: &std::time::Duration) -> u128 {
    d.as_millis()
}

/// A clock reading: the milliseconds since the Unix epoch by the system
/// clock, truncated to 64 bits, or 0 when the clock reads earlier than the
/// epoch. Nothing is known of its value.
fn clock_millis() -> u64 {
    let now = system_now();
    match since_epoch(&now) {
        Ok(d) => {
            let ms = whole_millis(&d);
            #[verifier::truncate]
            (ms as u64)
        },
        Err(_) => 0,
    }
}

/// The milliseconds from `from` to `to`, or none when `to` is earlier.
pub open spec fn elapsed_millis(from: u64, to: u64) -> u64 {
    if from <= to {
        (to - from) as u64
    } else {
        0
    }
}

/// Execution state of one task.
#[derive(Debug)]
pub struct TaskState {
    /// Current status of the task.
    pub status: TaskStatus,
    /// When the task started, in clock milliseconds.
    pub start_time: Option<u64>,
    /// When the task finished, in clock milliseconds.
    pub end_time: Option<u64>,
    /// How many times the task has been retried.
    pub retry_count: u32,
    /// Error message if the task failed.
    pub error: Option<String>,
}

/// The mathematical value of a [`TaskState`].
pub struct TaskStateView {
    pub status: StatusView,
    pub start_time: Option<u64>,
    pub end_time: Option<u64>,
    pub retry_count: u32,
    pub error: Option<Seq<char>>,
}

impl View for TaskState {
    type V = TaskStateView;

    open spec fn view(&self) -> TaskStateView {
        TaskStateView {
            status: self.status@,
            start_time: self.start_time,
            end_time: self.end_time,
            retry_count: self.retry_count,
            error: opt_view(self.error),
        }
    }
}

/// The recorded state of task `id`, if it has one.
pub open spec fn prior_state(m: Map<Seq<char>, TaskStateView>, id: Seq<char>) -> Option<TaskStateView> {
    if m.contains_key(id) {
        Some(m[id])
    } else {
        None
    }
}

/// The state a task starts from before its first update.
pub open spec fn initial_task_state() -> TaskStateView {
    TaskStateView {
        status: StatusView::Pending,
        start_time: None,
        end_time: None,
        retry_count: 0,
        error: None,
    }
}

/// A status after which a task is over.
pub open spec fn is_terminal(s: StatusView) -> bool {
    s is Completed || s is Failed || s is Cancelled
}

/// The state of a task after an update to `status` at clock reading `now`,
/// from its state `prior` (none before its first update):
/// - the start time is set to `now` when the status is `Running` and no start
///   time was set;
/// - the end time is set to `now` when the status is `Completed`, `Failed` or
///   `Cancelled` and no end time was set;
/// - the status becomes `status`.
pub open spec fn updated_task_state(
    prior: Option<TaskStateView>,
    status: StatusView,
    now: u64,
) -> TaskStateView {
    let s = match prior {
        Some(p) => p,
        None => initial_task_state(),
    };
    TaskStateView {
        status: status,
        start_time: if status is Running && s.start_time is None {
            Some(now)
        } else {
            s.start_time
        },
        end_time: if is_terminal(status) && s.end_time is None {
            Some(now)
        } else {
            s.end_time
        },
        retry_count: s.retry_count,
        error: s.error,
    }
}

/// The state of a task after a failed run that is to be tried again, from
/// its state `prior` (none before its first update): its retry count goes up
/// by one, unless it is already the largest count; the rest stays.
pub open spec fn retried_task_state(prior: Option<TaskStateView>) -> TaskStateView {
    let s = match prior {
        Some(p) => p,
        None => initial_task_state(),
    };
    TaskStateView {
        retry_count: if s.retry_count < u32::MAX {
            (s.retry_count + 1) as u32
        } else {
            s.retry_count
        },
        ..s
    }
}

/// Execution state of a pipeline.
#[derive(Debug)]
pub struct PipelineState {
    /// When the pipeline started, in clock milliseconds.
    pub start_time: Option<u64>,
    /// When the pipeline finished, in clock milliseconds.
    pub end_time: Option<u64>,
    /// State of each task that has been updated, under its id.
    pub task_states: IdMap<TaskState>,
    /// Whether the execution is over.
    pub is_complete: bool,
    /// Whether the execution succeeded.
    pub is_successful: bool,
}

fn clone_opt_string(o: &Option<String>) -> (r: Option<String>)
    ensures
        opt_view(r) == opt_view(*o),
{
    match o {
        Some(s) => Some(s.clone()),
        None => None,
    }
}

impl PipelineState {
    pub open spec fn wf(&self) -> bool {
        self.task_states.wf()
    }

    /// A state with no start or end time, no task state, not complete and not successful.
    pub fn new() -> (s: Self)
        ensures
            s.wf(),
            s.start_time is None,
            s.end_time is None,
            s.task_states@ == Map::<Seq<char>, TaskStateView>::empty(),
            !s.is_complete,
            !s.is_successful,
    {
        PipelineState {
            start_time: None,
            end_time: None,
            task_states: IdMap::new(),
            is_complete: false,
            is_successful: false,
        }
    }

    /// Marks the pipeline as started at clock reading `now`.
    pub fn start_at(&mut self, now: u64)
        ensures
            final(self).start_time == Some(now),
            final(self).end_time == old(self).end_time,
            final(self).task_states == old(self).task_states,
            final(self).is_complete == old(self).is_complete,
            final(self).is_successful == old(self).is_successful,
    {
        self.start_time = Some(now);
    }

    /// Marks the pipeline as started now.
    pub fn start(&mut self)
        ensures
            final(self).start_time is Some,
            final(self).end_time == old(self).end_time,
            final(self).task_states == old(self).task_states,
            final(self).is_complete == old(self).is_complete,
            final(self).is_successful == old(self).is_successful,
    {
        let now = clock_millis();
        self.start_at(now);
    }

    /// Marks the pipeline as complete at clock reading `now`, successful or not.
    pub fn complete_at(&mut self, success: bool, now: u64)
        ensures
            final(self).end_time == Some(now),
            final(self).is_complete,
            final(self).is_successful == success,
            final(self).start_time == old(self).start_time,
            final(self).task_states == old(self).task_states,
    {
        self.end_time = Some(now);
        self.is_complete = true;
        self.is_successful = success;
    }

    /// Marks the pipeline as complete now, successful or not.
    pub fn complete(&mut self, success: bool)
        ensures
            final(self).end_time is Some,
            final(self).is_complete,
            final(self).is_successful == success,
            final(self).start_time == old(self).start_time,
            final(self).task_states == old(self).task_states,
    {
        let now = clock_millis();
        self.complete_at(success, now);
    }

    /// How long the pipeline ran, at clock reading `now`: from its start to
    /// its end, or to `now` while it has no end; none before it started.
    /// A reading earlier than the start counts as no time.
    pub fn duration_at(&self, now: u64) -> (d: Option<std::time::Duration>)
        ensures
            d == match (self.start_time, self.end_time) {
                (Some(s), Some(e)) => Some(duration_from_millis(elapsed_millis(s, e))),
                (Some(s), None) => Some(duration_from_millis(elapsed_millis(s, now))),
                _ => None,
            },
    {
        match (self.start_time, self.end_time) {
            (Some(s), Some(e)) => Some(millis_duration(e.saturating_sub(s))),
            (Some(s), None) => Some(millis_duration(now.saturating_sub(s))),
            _ => None,
        }
    }

    /// How long the pipeline ran, reading the clock when it has no end yet.
    pub fn duration(&self) -> (d: Option<std::time::Duration>)
        ensures
            d is Some <==> self.start_time is Some,
            self.start_time matches Some(s) ==> self.end_time matches Some(e) ==> d == Some(
                duration_from_millis(elapsed_millis(s, e)),
            ),
    {
        let now = clock_millis();
        self.duration_at(now)
    }

    /// Records that task `task_id` reached `status` at clock reading `now`;
    /// see [`updated_task_state`].
    pub fn update_task_at(&mut self, task_id: &str, status: TaskStatus, now: u64)
        requires
            old(self).wf(),
        ensures
            final(self).wf(),
            final(self).task_states@ == old(self).task_states@.insert(
                task_id@,
                updated_task_state(
                    prior_state(old(self).task_states@, task_id@),
                    status@,
                    now,
                ),
            ),
            final(self).start_time == old(self).start_time,
            final(self).end_time == old(self).end_time,
            final(self).is_complete == old(self).is_complete,
            final(self).is_successful == old(self).is_successful,
    {
        let (start_time, end_time, retry_count, error) = match self.task_states.get(task_id) {
            Some(st) => (
                st.start_time,
                st.end_time,
                st.retry_count,
                clone_opt_string(&st.error),
            ),
            None => (None, None, 0u32, None),
        };
        let is_running = match status {
            TaskStatus::Running => true,
            _ => false,
        };
        let terminal = match status {
            TaskStatus::Completed(_) | TaskStatus::Failed | TaskStatus::Cancelled => true,
            _ => false,
        };
        let start_time = if is_running && start_time.is_none() {
            Some(now)
        } else {
            start_time
        };
        let end_time = if terminal && end_time.is_none() {
            Some(now)
        } else {
            end_time
        };
        let st = TaskState { status, start_time, end_time, retry_count, error };
        self.task_states.insert(task_id.to_owned(), st);
    }

    /// Records that a run of task `task_id` failed and is to be tried again;
    /// see [`retried_task_state`].
    pub fn record_retry(&mut self, task_id: &str)
        requires
            old(self).wf(),
        ensures
            final(self).wf(),
            final(self).task_states@ == old(self).task_states@.insert(
                task_id@,
                retried_task_state(prior_state(old(self).task_states@, task_id@)),
            ),
            final(self).start_time == old(self).start_time,
            final(self).end_time == old(self).end_time,
            final(self).is_complete == old(self).is_complete,
            final(self).is_successful == old(self).is_successful,
    {
        let st = match self.task_states.get(task_id) {
            Some(st) => TaskState {
                status: st.status.clone(),
                start_time: st.start_time,
                end_time: st.end_time,
                retry_count: if st.retry_count < u32::MAX {
                    st.retry_count + 1
                } else {
                    st.retry_count
                },
                error: clone_opt_string(&st.error),
            },
            None => TaskState {
                status: TaskStatus::Pending,
                start_time: None,
                end_time: None,
                retry_count: 1,
                error: None,
            },
        };
        self.task_states.insert(task_id.to_owned(), st);
    }

    /// Records that task `task_id` reached `status` now; see [`updated_task_state`].
    pub fn update_task(&mut self, task_id: &str, status: TaskStatus)
        requires
            old(self).wf(),
        ensures
            final(self).wf(),
            exists|now: u64|
                final(self).task_states@ == old(self).task_states@.insert(
                    task_id@,
                    #[trigger] updated_task_state(
                        prior_state(old(self).task_states@, task_id@),
                        status@,
                        now,
                    ),
                ),
            final(self).start_time == old(self).start_time,
            final(self).end_time == old(self).end_time,
            final(self).is_complete == old(self).is_complete,
            final(self).is_successful == old(self).is_successful,
    {
        let now = clock_millis();
        self.update_task_at(task_id, status, now);
    }
}

} // verus!

verus! {

/// A task's start time is set by its first `Running` update only: a later
/// update of any kind keeps it.
pub proof fn law_start_time_set_once(
    prior: Option<TaskStateView>,
    first: StatusView,
    second: StatusView,
    t1: u64,
    t2: u64,
)
    requires
        first is Running,
    ensures
        updated_task_state(prior, first, t1).start_time is Some,
        updated_task_state(Some(updated_task_state(prior, first, t1)), second, t2).start_time
            == updated_task_state(prior, first, t1).start_time,
{
}

/// A task's end time is set by its first `Completed`, `Failed` or `Cancelled`
/// update only: a later update of any kind keeps it.
pub proof fn law_end_time_set_once(
    prior: Option<TaskStateView>,
    first: StatusView,
    second: StatusView,
    t1: u64,
    t2: u64,
)
    requires
        is_terminal(first),
    ensures
        updated_task_state(prior, first, t1).end_time is Some,
        updated_task_state(Some(updated_task_state(prior, first, t1)), second, t2).end_time
            == updated_task_state(prior, first, t1).end_time,
{
}

/// An update never changes a task's retry count or error.
pub proof fn law_update_keeps_retries_and_error(prior: TaskStateView, status: StatusView, now: u64)
    ensures
        updated_task_state(Some(prior), status, now).retry_count == prior.retry_count,
        updated_task_state(Some(prior), status, now).error == prior.error,
{
}

} // verus!
