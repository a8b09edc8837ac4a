//! Execution of pipelines: the executor's configuration, the context handed
//! to running tasks, the settling of a task's run, and the scheduling of a
//! whole pipeline.
use crate::error::{is_display_text, GaiaError};
use crate::ids::IdMap;
use crate::task::{OutputView, StatusView, Task, TaskOutput, TaskStatus, TaskView};
use vstd::prelude::*;

verus! {

/// The duration that `std::time::Duration::from_secs` makes of `secs` seconds.
pub uninterp spec fn duration_from_secs(secs: u64) -> std::time::Duration;

/// `std::time::Duration::from_secs`: the duration of `secs` seconds, a
/// function of `secs` alone.
#[verifier::external_body]
fn secs_duration(secs: u64) -> (d: std::time::Duration)
    ensures
        d == duration_from_secs(secs),
{
    std::time::Duration::from_secs(secs)
}

/// Configuration of an executor.
#[derive(Debug)]
pub struct ExecutorConfig {
    /// Timeout for tasks that set none.
    pub default_timeout: std::time::Duration,
    /// Largest number of tasks running at once.
    pub max_concurrent_tasks: usize,
    /// Whether to go on with a pipeline when a task fails.
    pub continue_on_failure: bool,
}

impl Default for ExecutorConfig {
    /// One hour of default timeout, four tasks at once, and going on after failures.
    fn default() -> (c: Self)
        ensures
            c.default_timeout == duration_from_secs(3600),
            c.max_concurrent_tasks == 4,
            c.continue_on_failure,
    {
        ExecutorConfig {
            default_timeout: secs_duration(3600),
            max_concurrent_tasks: 4,
            continue_on_failure: true,
        }
    }
}

/// Runs pipelines and their tasks.
#[derive(Debug)]
pub struct Executor {
    config: ExecutorConfig,
}

impl Executor {
    /// The configuration of this executor.
    pub closed spec fn spec_config(&self) -> ExecutorConfig {
        self.config
    }

    /// An executor with the default configuration.
    pub fn new() -> (e: Self)
        ensures
            e.spec_config().default_timeout == duration_from_secs(3600),
            e.spec_config().max_concurrent_tasks == 4,
            e.spec_config().continue_on_failure,
    {
        Executor { config: ExecutorConfig::default() }
    }

    /// An executor with the configuration `config`.
    pub fn with_config(config: ExecutorConfig) -> (e: Self)
        ensures
            e.spec_config() == config,
    {
        Executor { config }
    }

    /// The configuration of this executor.
    pub fn config(&self) -> (c: &ExecutorConfig)
        ensures
            *c == self.spec_config(),
    {
        &self.config
    }
}

/// A copy of a table of statuses.
fn copy_statuses(m: &IdMap<TaskStatus>) -> (r: IdMap<TaskStatus>)
    requires
        m.wf(),
    ensures
        r.wf(),
        r@ == m@,
{
    proof {
        m.lemma_view();
    }
    let ghost ks = m.key_seq();
    let n = m.len();
    let mut r: IdMap<TaskStatus> = IdMap::new();
    let mut i: usize = 0;
    proof {
        assert(r@ =~= m@.restrict(ks.take(0).to_set()));
    }
    while i < n
        invariant
            m.wf(),
            ks == m.key_seq(),
            n == ks.len(),
            i <= n,
            r.wf(),
            r@ == m@.restrict(ks.take(i as int).to_set()),
        decreases n - i,
    {
        proof {
            m.lemma_view();
        }
        let k = m.key_at(i).clone();
        let v = m.value_at(i).clone();
        r.insert(k, v);
        proof {
            let kk = ks[i as int];
            assert(ks.take(i + 1) =~= ks.take(i as int).push(kk));
            assert(m@.contains_key(kk));
            assert forall|x: Seq<char>| #[trigger] ks.take(i + 1).to_set().contains(x) <==> (ks.take(
                i as int,
            ).to_set().contains(x) || x == kk) by {
                if ks.take(i + 1).contains(x) {
                    let q = ks.take(i + 1).index_of(x);
                    if q < i {
                        assert(ks.take(i as int)[q] == x);
                    }
                }
                if ks.take(i as int).contains(x) {
                    let q = ks.take(i as int).index_of(x);
                    assert(ks.take(i + 1)[q] == x);
                }
                if x == kk {
                    assert(ks.take(i + 1)[i as int] == x);
                }
            }
            assert(r@ =~= m@.restrict(ks.take(i + 1).to_set()));
        }
        i = i + 1;
    }
    proof {
        assert(ks.take(n as int) =~= ks);
        assert(m@.restrict(ks.to_set()) =~= m@);
    }
    r
}

/// What a running task can see of the pipeline: the statuses of the tasks,
/// as they were when it was handed the context.
#[derive(Debug)]
pub struct ExecutorContext {
    task_statuses: IdMap<TaskStatus>,
}

impl View for ExecutorContext {
    type V = Map<Seq<char>, StatusView>;

    closed spec fn view(&self) -> Map<Seq<char>, StatusView> {
        self.task_statuses@
    }
}

impl ExecutorContext {
    pub closed spec fn wf(&self) -> bool {
        self.task_statuses.wf()
    }

    /// A context that shows the statuses in `task_statuses`.
    pub fn new(task_statuses: &IdMap<TaskStatus>) -> (c: Self)
        requires
            task_statuses.wf(),
        ensures
            c.wf(),
            c@ == task_statuses@,
    {
        ExecutorContext { task_statuses: copy_statuses(task_statuses) }
    }

    /// The status of task `task_id`, if it has one.
    pub fn task_status(&self, task_id: &str) -> (r: Option<TaskStatus>)
        requires
            self.wf(),
        ensures
            r is Some <==> self@.contains_key(task_id@),
            r matches Some(s) ==> s@ == self@[task_id@],
    {
        match self.task_statuses.get(task_id) {
            Some(s) => Some(s.clone()),
            None => None,
        }
    }
}

/// Every dependency of `task` has completed in `statuses`.
pub open spec fn deps_completed(task: TaskView, statuses: Map<Seq<char>, StatusView>) -> bool {
    forall|d: Seq<char>|
        #[trigger] task.dependencies.contains(d) ==> statuses.contains_key(d) && statuses[d] is Completed
}

/// Whether every dependency of `task` has completed.
pub fn is_ready(task: &Task, statuses: &IdMap<TaskStatus>) -> (r: bool)
    requires
        task.wf(),
        statuses.wf(),
    ensures
        r == deps_completed(task@, statuses@),
{
    let deps = &task.dependencies;
    proof {
        deps.lemma_view();
    }
    let n = deps.len();
    let mut i: usize = 0;
    while i < n
        invariant
            deps.wf(),
            statuses.wf(),
            n == deps.elems().len(),
            i <= n,
            *deps == task.dependencies,
            forall|q: int|
                0 <= q < i ==> statuses@.contains_key(#[trigger] deps.elems()[q])
                    && statuses@[deps.elems()[q]] is Completed,
        decreases n - i,
    {
        let d = deps.get(i);
        let done = match statuses.get(d.as_str()) {
            Some(TaskStatus::Completed(_)) => true,
            _ => false,
        };
        if !done {
            proof {
                deps.lemma_view();
                assert(task@.dependencies.contains(d@));
            }
            return false;
        }
        i = i + 1;
    }
    proof {
        deps.lemma_view();
        assert forall|d: Seq<char>| #[trigger] task@.dependencies.contains(d) implies statuses@.contains_key(d)
            && statuses@[d] is Completed by {
            let q = deps.elems().index_of(d);
            assert(deps.elems()[q] == d);
        }
    }
    true
}

/// How a run of a task's execution function ended, as seen by the executor.
#[derive(Debug)]
pub enum TaskOutcome {
    /// The task had no execution function.
    NoHandler,
    /// The execution function returned this result.
    Returned(Result<TaskOutput, GaiaError>),
    /// The execution function did not return within the task's timeout.
    TimedOut,
}

/// The text of the error of a task whose execution function failed.
pub open spec fn failure_text(task_id: Seq<char>, cause: Seq<char>) -> Seq<char> {
    "Task "@ + task_id + " failed: "@ + cause
}

/// `after` and `r` are what settling `before` by `outcome` gives: a run
/// without execution function completes the task with no value; a run whose
/// function returned a value completes the task with that value, which is
/// also the result; a run whose function failed fails the task with
/// `TaskExecutionFailed`; a run past the timeout times the task out with
/// `TaskTimeout`. Nothing but the status of the task changes.
pub open spec fn settles(before: Task, after: Task, outcome: TaskOutcome, r: Result<TaskOutput, GaiaError>) -> bool {
    &&& after@ == (TaskView { status: after@.status, ..before@ })
    &&& after.dependencies == before.dependencies
    &&& match outcome {
        TaskOutcome::NoHandler => {
            &&& r matches Ok(o) && o@ == OutputView::Unit
            &&& after@.status == StatusView::Completed(OutputView::Unit)
        },
        TaskOutcome::Returned(Ok(v)) => {
            &&& r matches Ok(o) && o@ == v@
            &&& after@.status == StatusView::Completed(v@)
        },
        TaskOutcome::Returned(Err(e)) => {
            &&& after@.status == StatusView::Failed
            &&& r matches Err(GaiaError::TaskExecutionFailed(msg)) && exists|t: Seq<char>|
                is_display_text(e, t) && msg@ == #[trigger] failure_text(before.id@, t)
        },
        TaskOutcome::TimedOut => {
            &&& after@.status == StatusView::TimedOut
            &&& r matches Err(GaiaError::TaskTimeout)
        },
    }
}

/// What follows a run of a task: another run, after this many failed runs,
/// or the task settled with this result.
#[derive(Debug)]
pub enum TaskStep {
    /// Run the task again; the count of failed runs so far.
    Retry(u32),
    /// The task is settled, with this result.
    Done(Result<TaskOutput, GaiaError>),
}

impl Executor {
    /// Settles a run of `task`: a run without execution function completes
    /// the task with no value; a run whose function returned a value
    /// completes the task with that value, which is also returned; a run whose
    /// function failed fails the task with `TaskExecutionFailed`; a run past
    /// the timeout times the task out with `TaskTimeout`.
    pub fn settle_task(&self, task: &mut Task, outcome: TaskOutcome) -> (r: Result<TaskOutput, GaiaError>)
        ensures
            settles(*old(task), *final(task), outcome, r),
    {
        match outcome {
            TaskOutcome::NoHandler => {
                task.status = TaskStatus::Completed(TaskOutput::Unit);
                Ok(TaskOutput::Unit)
            },
            TaskOutcome::Returned(Ok(v)) => {
                task.status = TaskStatus::Completed(v.clone());
                Ok(v)
            },
            TaskOutcome::Returned(Err(e)) => {
                task.status = TaskStatus::Failed;
                Err(failure_error(task.id.as_str(), &e))
            },
            TaskOutcome::TimedOut => {
                task.status = TaskStatus::TimedOut;
                Err(GaiaError::TaskTimeout)
            },
        }
    }

    /// How long a run of `task` may take: its own timeout, or the default
    /// timeout of this executor when it sets none.
    pub fn effective_timeout(&self, task: &Task) -> (d: std::time::Duration)
        ensures
            d == match task.timeout {
                Some(t) => t,
                None => self.spec_config().default_timeout,
            },
    {
        match task.timeout {
            Some(t) => t,
            None => self.config.default_timeout,
        }
    }

    /// Whether a run of `task` that ended with `outcome`, after `retries`
    /// earlier failed runs, is to be run again: it failed or timed out, and
    /// fewer than `retry_count` retries were made.
    pub fn needs_retry(&self, task: &Task, outcome: &TaskOutcome, retries: u32) -> (r: bool)
        ensures
            r == (is_failure(*outcome) && retries < task.retry_count),
    {
        let failed = match outcome {
            TaskOutcome::Returned(Err(_)) | TaskOutcome::TimedOut => true,
            _ => false,
        };
        failed && retries < task.retry_count
    }

    /// Decides what follows a run of `task` that ended with `outcome`, after
    /// `retries` earlier failed runs: another run while the task fails and has
    /// retries left (the task is left as it is), else the task settled by
    /// `outcome` (see [`settles`]).
    pub fn next_task_step(&self, task: &mut Task, outcome: TaskOutcome, retries: u32) -> (r: TaskStep)
        ensures
            is_failure(outcome) && retries < old(task).retry_count ==> (r matches TaskStep::Retry(n) && n
                == retries + 1 && *final(task) == *old(task)),
            !(is_failure(outcome) && retries < old(task).retry_count) ==> (r matches TaskStep::Done(res)
                && settles(*old(task), *final(task), outcome, res)),
    {
        if self.needs_retry(task, &outcome, retries) {
            TaskStep::Retry(retries + 1)
        } else {
            TaskStep::Done(self.settle_task(task, outcome))
        }
    }
}

/// A run that failed: its function returned an error or ran past its timeout.
pub open spec fn is_failure(outcome: TaskOutcome) -> bool {
    outcome matches TaskOutcome::Returned(Err(_)) || outcome is TimedOut
}

/// The error of task `task_id` whose execution function failed with `e`.
pub(crate) fn failure_error(task_id: &str, e: &GaiaError) -> (r: GaiaError)
    ensures
        r matches GaiaError::TaskExecutionFailed(msg) && exists|t: Seq<char>|
            is_display_text(*e, t) && msg@ == #[trigger] failure_text(task_id@, t),
{
    let cause = e.message();
    let mut msg = "Task ".to_owned();
    msg.append(task_id);
    msg.append(" failed: ");
    msg.append(cause.as_str());
    proof {
        assert(msg@ == failure_text(task_id@, cause@));
    }
    GaiaError::TaskExecutionFailed(msg)
}

} // verus!
