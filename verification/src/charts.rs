//! What the dashboard's metric charts show: the chart each metric goes to,
//! the label a metric is shown under, the name of each status code, how many
//! metrics report each status, and the text of a metric's labels.
use crate::ids::IdMap;
use vstd::prelude::*;

verus! {

broadcast use vstd::seq_lib::group_seq_properties;

/// Whether `prefix` is a prefix of `s`.
fn has_prefix(s: &str, prefix: &str) -> (r: bool)
    ensures
        r == prefix@.is_prefix_of(s@),
{
    let n = prefix.unicode_len();
    let m = s.unicode_len();
    if n > m {
        return false;
    }
    let mut i: usize = 0;
    while i < n
        invariant
            i <= n <= m,
            n == prefix@.len(),
            m == s@.len(),
            forall|j: int| 0 <= j < i ==> prefix@[j] == s@[j],
        decreases n - i,
    {
        if prefix.get_char(i) != s.get_char(i) {
            return false;
        }
        i = i + 1;
    }
    assert(prefix@ =~= s@.subrange(0, n as int));
    true
}

/// Whether `a` and `b` hold the same text.
fn same_text(a: &str, b: &str) -> (r: bool)
    ensures
        r == (a@ == b@),
{
    if a.unicode_len() != b.unicode_len() {
        return false;
    }
    let r = has_prefix(a, b);
    proof {
        if r {
            assert(a@ =~= b@);
        }
    }
    r
}

/// The chart of the dashboard that a metric goes to.
#[derive(Debug, PartialEq, Eq, Structural)]
pub enum MetricGroup {
    /// The chart of task durations.
    TaskDuration,
    /// The chart of task statuses.
    TaskStatus,
    /// The chart of pipeline metrics.
    Pipeline,
    /// No chart.
    Other,
}

/// The chart of a metric named `name`: durations and statuses of tasks by
/// their exact names, pipeline metrics by the prefix `pipeline.`.
pub open spec fn group_of(name: Seq<char>) -> MetricGroup {
    if name == "task.duration"@ {
        MetricGroup::TaskDuration
    } else if name == "task.status"@ {
        MetricGroup::TaskStatus
    } else if "pipeline."@.is_prefix_of(name) {
        MetricGroup::Pipeline
    } else {
        MetricGroup::Other
    }
}

/// The chart of a metric named `name`; see [`group_of`].
pub fn metric_group(name: &str) -> (r: MetricGroup)
    ensures
        r == group_of(name@),
{
    if same_text(name, "task.duration") {
        MetricGroup::TaskDuration
    } else if same_text(name, "task.status") {
        MetricGroup::TaskStatus
    } else if has_prefix(name, "pipeline.") {
        MetricGroup::Pipeline
    } else {
        MetricGroup::Other
    }
}

/// The views of a list of labels.
pub open spec fn label_views(labels: Seq<(String, String)>) -> Seq<(Seq<char>, Seq<char>)> {
    labels.map_values(|l: (String, String)| (l.0@, l.1@))
}

/// The value of the first label with key `key`, or `Unknown` when there is none.
pub open spec fn label_or_unknown(labels: Seq<(Seq<char>, Seq<char>)>, key: Seq<char>) -> Seq<char>
    decreases labels.len(),
{
    if labels.len() == 0 {
        "Unknown"@
    } else if labels[0].0 == key {
        labels[0].1
    } else {
        label_or_unknown(labels.drop_first(), key)
    }
}

/// The value of the first label with key `key`, or `Unknown`; see
/// [`label_or_unknown`].
pub fn label_value(labels: &Vec<(String, String)>, key: &str) -> (r: String)
    ensures
        r@ == label_or_unknown(label_views(labels@), key@),
{
    let ghost ls = label_views(labels@);
    let n = labels.len();
    let mut i: usize = 0;
    while i < n
        invariant
            n == labels@.len(),
            ls == label_views(labels@),
            i <= n,
            label_or_unknown(ls.subrange(i as int, n as int), key@) == label_or_unknown(ls, key@),
        decreases n - i,
    {
        let ghost rest = ls.subrange(i as int, n as int);
        assert(rest.drop_first() =~= ls.subrange(i + 1, n as int));
        assert(rest[0] == (labels@[i as int].0@, labels@[i as int].1@));
        if same_text(labels[i].0.as_str(), key) {
            return labels[i].1.clone();
        }
        i = i + 1;
    }
    assert(ls.subrange(n as int, n as int) =~= Seq::<(Seq<char>, Seq<char>)>::empty());
    "Unknown".to_owned()
}

/// The name the status chart gives the status code `code`.
pub open spec fn status_name(code: i32) -> Seq<char> {
    if code == 0 {
        "Pending"@
    } else if code == 1 {
        "Running"@
    } else if code == 2 {
        "Completed"@
    } else if code == 3 {
        "Failed"@
    } else if code == 4 {
        "Cancelled"@
    } else {
        "Unknown"@
    }
}

/// The name the status chart gives the status code `code`; see [`status_name`].
pub fn status_label(code: i32) -> (r: &'static str)
    ensures
        r@ == status_name(code),
{
    match code {
        0 => "Pending",
        1 => "Running",
        2 => "Completed",
        3 => "Failed",
        4 => "Cancelled",
        _ => "Unknown",
    }
}

/// How many of `codes` have the name `name`.
pub open spec fn count_named(codes: Seq<i32>, name: Seq<char>) -> nat
    decreases codes.len(),
{
    if codes.len() == 0 {
        0
    } else {
        count_named(codes.drop_last(), name) + if status_name(codes.last()) == name {
            1nat
        } else {
            0nat
        }
    }
}

/// For each status name that some code of `codes` has, how many codes have it.
pub open spec fn name_counts(codes: Seq<i32>) -> Map<Seq<char>, i32> {
    Map::new(|k: Seq<char>| count_named(codes, k) > 0, |k: Seq<char>| count_named(codes, k) as i32)
}

proof fn lemma_count_named_bound(codes: Seq<i32>, name: Seq<char>)
    ensures
        count_named(codes, name) <= codes.len(),
    decreases codes.len(),
{
    if codes.len() > 0 {
        lemma_count_named_bound(codes.drop_last(), name);
    }
}

/// How many of the status codes `codes` have each status name; see
/// [`name_counts`].
pub fn status_counts(codes: &Vec<i32>) -> (r: IdMap<i32>)
    requires
        codes@.len() <= i32::MAX,
    ensures
        r.wf(),
        r@ == name_counts(codes@),
{
    let n = codes.len();
    let mut counts: IdMap<i32> = IdMap::new();
    let mut i: usize = 0;
    proof {
        assert(counts@ =~= name_counts(codes@.take(0)));
    }
    while i < n
        invariant
            n == codes@.len(),
            n <= i32::MAX,
            i <= n,
            counts.wf(),
            counts@ == name_counts(codes@.take(i as int)),
        decreases n - i,
    {
        let ghost before = codes@.take(i as int);
        let ghost after = codes@.take(i + 1);
        let code = codes[i];
        let label = status_label(code);
        proof {
            assert(after.drop_last() =~= before);
            assert(after.last() == code);
            lemma_count_named_bound(before, label@);
        }
        let c = match counts.get(label) {
            Some(c) => *c,
            None => 0,
        };
        counts.insert(label.to_owned(), c + 1);
        proof {
            assert(counts@ =~= name_counts(after));
        }
        i = i + 1;
    }
    proof {
        assert(codes@.take(n as int) =~= codes@);
    }
    counts
}

/// The text of a metric's labels: each label as its key, `: ` and its value,
/// the labels separated by `, `.
pub open spec fn labels_text(labels: Seq<(Seq<char>, Seq<char>)>) -> Seq<char>
    decreases labels.len(),
{
    if labels.len() == 0 {
        Seq::empty()
    } else if labels.len() == 1 {
        labels[0].0 + ": "@ + labels[0].1
    } else {
        labels_text(labels.drop_last()) + ", "@ + labels.last().0 + ": "@ + labels.last().1
    }
}

/// The text of a metric's labels; see [`labels_text`].
pub fn format_labels(labels: &Vec<(String, String)>) -> (r: String)
    ensures
        r@ == labels_text(label_views(labels@)),
{
    let ghost ls = label_views(labels@);
    let n = labels.len();
    let mut r = String::new();
    let mut i: usize = 0;
    while i < n
        invariant
            n == labels@.len(),
            ls == label_views(labels@),
            i <= n,
            r@ == labels_text(ls.take(i as int)),
        decreases n - i,
    {
        let ghost before = r@;
        if i > 0 {
            r.append(", ");
        }
        r.append(labels[i].0.as_str());
        r.append(": ");
        r.append(labels[i].1.as_str());
        proof {
            let t = ls.take(i + 1);
            assert(t.drop_last() =~= ls.take(i as int));
            assert(t.last() == (labels@[i as int].0@, labels@[i as int].1@));
            if i == 0 {
                assert(r@ =~= t[0].0 + ": "@ + t[0].1);
            } else {
                assert(r@ =~= before + ", "@ + t.last().0 + ": "@ + t.last().1);
            }
        }
        i = i + 1;
    }
    proof {
        assert(ls.take(n as int) =~= ls);
    }
    r
}

} // verus!
