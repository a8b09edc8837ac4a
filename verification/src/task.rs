//! Tasks: the units of work of a pipeline, their statuses and their results.
use crate::ids::IdSet;
use vstd::prelude::*;

verus! {

/// What a task produced when it completed: a value of one of the plain types
/// that a task may return.
#[derive(Debug)]
pub enum TaskOutput {
    /// No value.
    Unit,
    /// A static string.
    Str(&'static str),
    /// An owned string.
    Text(String),
    /// Raw bytes.
    Bytes(Vec<u8>),
    Bool(bool),
    I32(i32),
    I64(i64),
    I128(i128),
    U32(u32),
    U64(u64),
    U128(u128),
    Isize(isize),
    Usize(usize),
}

/// The mathematical value of a [`TaskOutput`].
pub enum OutputView {
    Unit,
    Str(Seq<char>),
    Text(Seq<char>),
    Bytes(Seq<u8>),
    Bool(bool),
    I32(i32),
    I64(i64),
    I128(i128),
    U32(u32),
    U64(u64),
    U128(u128),
    Isize(isize),
    Usize(usize),
}

impl View for TaskOutput {
    type V = OutputView;

    open spec fn view(&self) -> OutputView {
        match self {
            TaskOutput::Unit => OutputView::Unit,
            TaskOutput::Str(s) => OutputView::Str(s@),
            TaskOutput::Text(s) => OutputView::Text(s@),
            TaskOutput::Bytes(b) => OutputView::Bytes(b@),
            TaskOutput::Bool(b) => OutputView::Bool(*b),
            TaskOutput::I32(v) => OutputView::I32(*v),
            TaskOutput::I64(v) => OutputView::I64(*v),
            TaskOutput::I128(v) => OutputView::I128(*v),
            TaskOutput::U32(v) => OutputView::U32(*v),
            TaskOutput::U64(v) => OutputView::U64(*v),
            TaskOutput::U128(v) => OutputView::U128(*v),
            TaskOutput::Isize(v) => OutputView::Isize(*v),
            TaskOutput::Usize(v) => OutputView::Usize(*v),
        }
    }
}

/// Whether an output counts as empty: no value, an empty text or byte
/// string, or a zero number. A boolean is never empty.
pub open spec fn output_is_empty(o: OutputView) -> bool {
    match o {
        OutputView::Unit => true,
        OutputView::Str(s) => s.len() == 0,
        OutputView::Text(s) => s.len() == 0,
        OutputView::Bytes(b) => b.len() == 0,
        OutputView::Bool(_) => false,
        OutputView::I32(v) => v == 0,
        OutputView::I64(v) => v == 0,
        OutputView::I128(v) => v == 0,
        OutputView::U32(v) => v == 0,
        OutputView::U64(v) => v == 0,
        OutputView::U128(v) => v == 0,
        OutputView::Isize(v) => v == 0,
        OutputView::Usize(v) => v == 0,
    }
}

/// Values that a task can return, with a test of whether the value is empty.
pub trait TaskResult {
    /// Whether the value is empty; by default no value is.
    fn is_empty(&self) -> (r: bool)
        default_ensures
            !r,
    {
        false
    }
}

impl TaskResult for () {
    fn is_empty(&self) -> (r: bool)
        ensures
            r,
    {
        true
    }
}

impl TaskResult for &'static str {
    fn is_empty(&self) -> (r: bool)
        ensures
            r == ((*self)@.len() == 0),
    {
        str::is_empty(*self)
    }
}

impl TaskResult for String {
    fn is_empty(&self) -> (r: bool)
        ensures
            r == (self@.len() == 0),
    {
        str::is_empty(self.as_str())
    }
}

impl TaskResult for Vec<u8> {
    fn is_empty(&self) -> (r: bool)
        ensures
            r == (self@.len() == 0),
    {
        self.len() == 0
    }
}

impl TaskResult for bool {
    fn is_empty(&self) -> (r: bool)
        ensures
            !r,
    {
        false
    }
}

impl TaskResult for i32 {
    fn is_empty(&self) -> (r: bool)
        ensures
            r == (*self == 0),
    {
        *self == 0
    }
}

impl TaskResult for i64 {
    fn is_empty(&self) -> (r: bool)
        ensures
            r == (*self == 0),
    {
        *self == 0
    }
}

impl TaskResult for i128 {
    fn is_empty(&self) -> (r: bool)
        ensures
            r == (*self == 0),
    {
        *self == 0
    }
}

impl TaskResult for u32 {
    fn is_empty(&self) -> (r: bool)
        ensures
            r == (*self == 0),
    {
        *self == 0
    }
}

impl TaskResult for u64 {
    fn is_empty(&self) -> (r: bool)
        ensures
            r == (*self == 0),
    {
        *self == 0
    }
}

impl TaskResult for u128 {
    fn is_empty(&self) -> (r: bool)
        ensures
            r == (*self == 0),
    {
        *self == 0
    }
}

impl TaskResult for isize {
    fn is_empty(&self) -> (r: bool)
        ensures
            r == (*self == 0),
    {
        *self == 0
    }
}

impl TaskResult for usize {
    fn is_empty(&self) -> (r: bool)
        ensures
            r == (*self == 0),
    {
        *self == 0
    }
}

impl TaskResult for TaskOutput {
    fn is_empty(&self) -> (r: bool)
        ensures
            r == output_is_empty(self@),
    {
        match self {
            TaskOutput::Unit => true,
            TaskOutput::Str(s) => str::is_empty(*s),
            TaskOutput::Text(s) => str::is_empty(s.as_str()),
            TaskOutput::Bytes(b) => b.len() == 0,
            TaskOutput::Bool(_) => false,
            TaskOutput::I32(v) => *v == 0,
            TaskOutput::I64(v) => *v == 0,
            TaskOutput::I128(v) => *v == 0,
            TaskOutput::U32(v) => *v == 0,
            TaskOutput::U64(v) => *v == 0,
            TaskOutput::U128(v) => *v == 0,
            TaskOutput::Isize(v) => *v == 0,
            TaskOutput::Usize(v) => *v == 0,
        }
    }
}

impl Clone for TaskOutput {
    fn clone(&self) -> (r: Self)
        ensures
            r@ == self@,
    {
        match self {
            TaskOutput::Unit => TaskOutput::Unit,
            TaskOutput::Str(s) => TaskOutput::Str(*s),
            TaskOutput::Text(s) => TaskOutput::Text(s.clone()),
            TaskOutput::Bytes(b) => {
                let c = b.clone();
                assert(c@ =~= b@);
                TaskOutput::Bytes(c)
            },
            TaskOutput::Bool(v) => TaskOutput::Bool(*v),
            TaskOutput::I32(v) => TaskOutput::I32(*v),
            TaskOutput::I64(v) => TaskOutput::I64(*v),
            TaskOutput::I128(v) => TaskOutput::I128(*v),
            TaskOutput::U32(v) => TaskOutput::U32(*v),
            TaskOutput::U64(v) => TaskOutput::U64(*v),
            TaskOutput::U128(v) => TaskOutput::U128(*v),
            TaskOutput::Isize(v) => TaskOutput::Isize(*v),
            TaskOutput::Usize(v) => TaskOutput::Usize(*v),
        }
    }
}

/// The plain types that a [`TaskOutput`] can hold, each with the variant that holds it.
pub trait OutputKind: Sized {
    /// The output that holds `v`.
    spec fn as_output(v: Self) -> OutputView;

    /// Whether `o` is the variant that holds values of this type.
    spec fn is_variant_of(o: OutputView) -> bool;

    /// The value held by `o`, if `o` holds a value of this type.
    fn extract(o: &TaskOutput) -> (r: Option<&Self>)
        ensures
            r is Some <==> Self::is_variant_of(o@),
            r matches Some(v) ==> Self::as_output(*v) == o@,
    ;
}

impl OutputKind for () {
    open spec fn as_output(v: Self) -> OutputView {
        OutputView::Unit
    }

    open spec fn is_variant_of(o: OutputView) -> bool {
        o is Unit
    }

    fn extract(o: &TaskOutput) -> (r: Option<&Self>) {
        match o {
            TaskOutput::Unit => Some(&()),
            _ => None,
        }
    }
}

impl OutputKind for &'static str {
    open spec fn as_output(v: Self) -> OutputView {
        OutputView::Str(v@)
    }

    open spec fn is_variant_of(o: OutputView) -> bool {
        o is Str
    }

    fn extract(o: &TaskOutput) -> (r: Option<&Self>) {
        match o {
            TaskOutput::Str(v) => Some(v),
            _ => None,
        }
    }
}

impl OutputKind for String {
    open spec fn as_output(v: Self) -> OutputView {
        OutputView::Text(v@)
    }

    open spec fn is_variant_of(o: OutputView) -> bool {
        o is Text
    }

    fn extract(o: &TaskOutput) -> (r: Option<&Self>) {
        match o {
            TaskOutput::Text(v) => Some(v),
            _ => None,
        }
    }
}

impl OutputKind for Vec<u8> {
    open spec fn as_output(v: Self) -> OutputView {
        OutputView::Bytes(v@)
    }

    open spec fn is_variant_of(o: OutputView) -> bool {
        o is Bytes
    }

    fn extract(o: &TaskOutput) -> (r: Option<&Self>) {
        match o {
            TaskOutput::Bytes(v) => Some(v),
            _ => None,
        }
    }
}

impl OutputKind for bool {
    open spec fn as_output(v: Self) -> OutputView {
        OutputView::Bool(v)
    }

    open spec fn is_variant_of(o: OutputView) -> bool {
        o is Bool
    }

    fn extract(o: &TaskOutput) -> (r: Option<&Self>) {
        match o {
            TaskOutput::Bool(v) => Some(v),
            _ => None,
        }
    }
}

impl OutputKind for i32 {
    open spec fn as_output(v: Self) -> OutputView {
        OutputView::I32(v)
    }

    open spec fn is_variant_of(o: OutputView) -> bool {
        o is I32
    }

    fn extract(o: &TaskOutput) -> (r: Option<&Self>) {
        match o {
            TaskOutput::I32(v) => Some(v),
            _ => None,
        }
    }
}

impl OutputKind for i64 {
    open spec fn as_output(v: Self) -> OutputView {
        OutputView::I64(v)
    }

    open spec fn is_variant_of(o: OutputView) -> bool {
        o is I64
    }

    fn extract(o: &TaskOutput) -> (r: Option<&Self>) {
        match o {
            TaskOutput::I64(v) => Some(v),
            _ => None,
        }
    }
}

impl OutputKind for i128 {
    open spec fn as_output(v: Self) -> OutputView {
        OutputView::I128(v)
    }

    open spec fn is_variant_of(o: OutputView) -> bool {
        o is I128
    }

    fn extract(o: &TaskOutput) -> (r: Option<&Self>) {
        match o {
            TaskOutput::I128(v) => Some(v),
            _ => None,
        }
    }
}

impl OutputKind for u32 {
    open spec fn as_output(v: Self) -> OutputView {
        OutputView::U32(v)
    }

    open spec fn is_variant_of(o: OutputView) -> bool {
        o is U32
    }

    fn extract(o: &TaskOutput) -> (r: Option<&Self>) {
        match o {
            TaskOutput::U32(v) => Some(v),
            _ => None,
        }
    }
}

impl OutputKind for u64 {
    open spec fn as_output(v: Self) -> OutputView {
        OutputView::U64(v)
    }

    open spec fn is_variant_of(o: OutputView) -> bool {
        o is U64
    }

    fn extract(o: &TaskOutput) -> (r: Option<&Self>) {
        match o {
            TaskOutput::U64(v) => Some(v),
            _ => None,
        }
    }
}

impl OutputKind for u128 {
    open spec fn as_output(v: Self) -> OutputView {
        OutputView::U128(v)
    }

    open spec fn is_variant_of(o: OutputView) -> bool {
        o is U128
    }

    fn extract(o: &TaskOutput) -> (r: Option<&Self>) {
        match o {
            TaskOutput::U128(v) => Some(v),
            _ => None,
        }
    }
}

impl OutputKind for isize {
    open spec fn as_output(v: Self) -> OutputView {
        OutputView::Isize(v)
    }

    open spec fn is_variant_of(o: OutputView) -> bool {
        o is Isize
    }

    fn extract(o: &TaskOutput) -> (r: Option<&Self>) {
        match o {
            TaskOutput::Isize(v) => Some(v),
            _ => None,
        }
    }
}

impl OutputKind for usize {
    open spec fn as_output(v: Self) -> OutputView {
        OutputView::Usize(v)
    }

    open spec fn is_variant_of(o: OutputView) -> bool {
        o is Usize
    }

    fn extract(o: &TaskOutput) -> (r: Option<&Self>) {
        match o {
            TaskOutput::Usize(v) => Some(v),
            _ => None,
        }
    }
}

/// Access to the value held by a task's output, by its type.
pub trait CastTask {
    /// The held value, if it has type `T`.
    fn cast<T: OutputKind>(&self) -> Option<&T>;
}

impl CastTask for TaskOutput {
    fn cast<T: OutputKind>(&self) -> (r: Option<&T>)
        ensures
            r is Some <==> T::is_variant_of(self@),
            r matches Some(v) ==> T::as_output(*v) == self@,
    {
        T::extract(self)
    }
}


/// Status of a task during its lifecycle.
#[derive(Debug)]
pub enum TaskStatus {
    /// Waiting to be executed.
    Pending,
    /// Being executed.
    Running,
    /// Completed successfully, with what it produced.
    Completed(TaskOutput),
    /// Ran longer than its timeout.
    TimedOut,
    /// Its execution failed.
    Failed,
    /// Cancelled before completion.
    Cancelled,
    /// Skipped.
    Skipped,
}

/// The mathematical value of a [`TaskStatus`].
pub enum StatusView {
    Pending,
    Running,
    Completed(OutputView),
    TimedOut,
    Failed,
    Cancelled,
    Skipped,
}

impl View for TaskStatus {
    type V = StatusView;

    open spec fn view(&self) -> StatusView {
        match self {
            TaskStatus::Pending => StatusView::Pending,
            TaskStatus::Running => StatusView::Running,
            TaskStatus::Completed(o) => StatusView::Completed(o@),
            TaskStatus::TimedOut => StatusView::TimedOut,
            TaskStatus::Failed => StatusView::Failed,
            TaskStatus::Cancelled => StatusView::Cancelled,
            TaskStatus::Skipped => StatusView::Skipped,
        }
    }
}

/// When two statuses compare equal: they are the same variant, and not
/// `Completed`, since what two tasks produced is never compared.
pub open spec fn same_status(a: StatusView, b: StatusView) -> bool {
    match (a, b) {
        (StatusView::Pending, StatusView::Pending) => true,
        (StatusView::Running, StatusView::Running) => true,
        (StatusView::TimedOut, StatusView::TimedOut) => true,
        (StatusView::Failed, StatusView::Failed) => true,
        (StatusView::Cancelled, StatusView::Cancelled) => true,
        (StatusView::Skipped, StatusView::Skipped) => true,
        _ => false,
    }
}

impl PartialEq for TaskStatus {
    fn eq(&self, other: &Self) -> (r: bool) {
        match (self, other) {
            (TaskStatus::Pending, TaskStatus::Pending) => true,
            (TaskStatus::Running, TaskStatus::Running) => true,
            (TaskStatus::TimedOut, TaskStatus::TimedOut) => true,
            (TaskStatus::Failed, TaskStatus::Failed) => true,
            (TaskStatus::Cancelled, TaskStatus::Cancelled) => true,
            (TaskStatus::Skipped, TaskStatus::Skipped) => true,
            _ => false,
        }
    }
}

impl vstd::std_specs::cmp::PartialEqSpecImpl for TaskStatus {
    open spec fn obeys_eq_spec() -> bool {
        true
    }

    open spec fn eq_spec(&self, other: &TaskStatus) -> bool {
        same_status(self@, other@)
    }
}

impl Clone for TaskStatus {
    fn clone(&self) -> (r: Self)
        ensures
            r@ == self@,
    {
        match self {
            TaskStatus::Pending => TaskStatus::Pending,
            TaskStatus::Running => TaskStatus::Running,
            TaskStatus::Completed(o) => TaskStatus::Completed(o.clone()),
            TaskStatus::TimedOut => TaskStatus::TimedOut,
            TaskStatus::Failed => TaskStatus::Failed,
            TaskStatus::Cancelled => TaskStatus::Cancelled,
            TaskStatus::Skipped => TaskStatus::Skipped,
        }
    }
}

impl Default for TaskStatus {
    fn default() -> (r: Self)
        ensures
            r@ == StatusView::Pending,
    {
        TaskStatus::Pending
    }
}

/// The mathematical value of a [`Task`].
pub struct TaskView {
    pub id: Seq<char>,
    pub name: Seq<char>,
    pub description: Option<Seq<char>>,
    pub dependencies: Set<Seq<char>>,
    pub timeout: Option<std::time::Duration>,
    pub retry_count: u32,
    pub status: StatusView,
}

/// A single task of a pipeline: an id, a name, an optional description, the
/// ids of the tasks it depends on, an optional timeout, a retry count and its
/// current status.
#[derive(Debug)]
pub struct Task {
    /// The id under which a pipeline files the task.
    pub id: String,
    /// A name for people to read.
    pub name: String,
    /// Optional prose about the work.
    pub description: Option<String>,
    /// Ids of the tasks to finish before this one starts.
    pub dependencies: IdSet,
    /// Optional bound on one run's length.
    pub timeout: Option<std::time::Duration>,
    /// How many more attempts a failure allows.
    pub retry_count: u32,
    /// Where the task stands now.
    pub status: TaskStatus,
}

pub open spec fn opt_view(o: Option<String>) -> Option<Seq<char>> {
    match o {
        Some(s) => Some(s@),
        None => None,
    }
}

impl View for Task {
    type V = TaskView;

    open spec fn view(&self) -> TaskView {
        TaskView {
            id: self.id@,
            name: self.name@,
            description: opt_view(self.description),
            dependencies: self.dependencies@,
            timeout: self.timeout,
            retry_count: self.retry_count,
            status: self.status@,
        }
    }
}

impl PartialEq for Task {
    fn eq(&self, other: &Self) -> (r: bool) {
        self.id == other.id
    }
}

impl vstd::std_specs::cmp::PartialEqSpecImpl for Task {
    open spec fn obeys_eq_spec() -> bool {
        true
    }

    open spec fn eq_spec(&self, other: &Task) -> bool {
        self.id@ == other.id@
    }
}

fn clone_opt(o: &Option<String>) -> (r: Option<String>)
    ensures
        opt_view(r) == opt_view(*o),
{
    match o {
        Some(s) => Some(s.clone()),
        None => None,
    }
}

impl Clone for Task {
    /// A copy of the task's definition, with its status back to `Pending`.
    fn clone(&self) -> (r: Self)
        ensures
            r@ == (TaskView { status: StatusView::Pending, ..self@ }),
            self.wf() ==> r.wf(),
    {
        Task {
            id: self.id.clone(),
            name: self.name.clone(),
            description: clone_opt(&self.description),
            dependencies: self.dependencies.clone(),
            timeout: self.timeout,
            retry_count: self.retry_count,
            status: TaskStatus::Pending,
        }
    }
}

impl Task {
    /// The dependency set holds no id twice.
    pub open spec fn wf(&self) -> bool {
        self.dependencies.wf()
    }

    /// A task with the given id and name, no description, no dependency, no
    /// timeout, no retry and status `Pending`.
    pub fn new(id: &str, name: &str) -> (t: Self)
        ensures
            t.wf(),
            t@ == (TaskView {
                id: id@,
                name: name@,
                description: None,
                dependencies: Set::empty(),
                timeout: None,
                retry_count: 0,
                status: StatusView::Pending,
            }),
    {
        Task {
            id: id.to_owned(),
            name: name.to_owned(),
            description: None,
            dependencies: IdSet::new(),
            timeout: None,
            retry_count: 0,
            status: TaskStatus::Pending,
        }
    }

    /// Adds a dependency on the task with id `dependency_id`.
    pub fn add_dependency(self, dependency_id: &str) -> (t: Self)
        requires
            self.wf(),
        ensures
            t.wf(),
            t@ == (TaskView { dependencies: self@.dependencies.insert(dependency_id@), ..self@ }),
    {
        let mut t = self;
        t.dependencies.insert(dependency_id.to_owned());
        t
    }

    /// Replaces the dependencies by `dependencies`.
    pub fn with_dependencies(self, dependencies: IdSet) -> (t: Self)
        requires
            dependencies.wf(),
        ensures
            t.wf(),
            t@ == (TaskView { dependencies: dependencies@, ..self@ }),
    {
        let mut t = self;
        t.dependencies = dependencies;
        t
    }

    /// Sets the description.
    pub fn with_description(self, description: &str) -> (t: Self)
        ensures
            self.wf() ==> t.wf(),
            t@ == (TaskView { description: Some(description@), ..self@ }),
    {
        let mut t = self;
        t.description = Some(description.to_owned());
        t
    }

    /// Sets the timeout.
    pub fn with_timeout(self, timeout: std::time::Duration) -> (t: Self)
        ensures
            self.wf() ==> t.wf(),
            t@ == (TaskView { timeout: Some(timeout), ..self@ }),
    {
        let mut t = self;
        t.timeout = Some(timeout);
        t
    }

    /// Sets the number of retry attempts.
    pub fn with_retry_count(self, retry_count: u32) -> (t: Self)
        ensures
            self.wf() ==> t.wf(),
            t@ == (TaskView { retry_count: retry_count, ..self@ }),
    {
        let mut t = self;
        t.retry_count = retry_count;
        t
    }
}

} // verus!
