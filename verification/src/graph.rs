//! The drawing of a pipeline as a graph: each task gets a level, one more than
//! the highest level among the dependencies that a depth-first walk reaches
//! from it; the tasks of a level stand in one column, spread evenly about the
//! middle of a drawing 600 units high.
use crate::ids::{IdMap, IdSet};
use crate::pipeline::Pipeline;
use crate::task::{StatusView, Task, TaskStatus};
use vstd::prelude::*;
use vstd::set_lib::lemma_len_subset;

verus! {

broadcast use vstd::seq_lib::group_seq_properties;

/// The dependencies of each task of `tasks`, in the order they were added.
pub open spec fn dep_lists(tasks: IdMap<Task>) -> Map<Seq<char>, Seq<Seq<char>>> {
    Map::new(
        |k: Seq<char>| tasks@.contains_key(k),
        |k: Seq<char>| tasks.val_seq()[tasks.key_seq().index_of(k)].dependencies.elems(),
    )
}

/// `u` is a finite set that holds every task id of `g` and every id that a
/// task of `g` depends on.
pub open spec fn covers(g: Map<Seq<char>, Seq<Seq<char>>>, u: Set<Seq<char>>) -> bool {
    &&& u.finite()
    &&& forall|k: Seq<char>| #[trigger] g.contains_key(k) ==> u.contains(k)
    &&& forall|k: Seq<char>, x: Seq<char>| g.contains_key(k) && #[trigger] g[k].contains(x) ==> u.contains(x)
}

/// The levels found so far, in the order in which they were found, and the
/// ids that the current walk has entered.
#[verifier::ext_equal]
pub struct LevelState {
    pub order: Seq<Seq<char>>,
    pub levels: Map<Seq<char>, i32>,
    pub visited: Set<Seq<char>>,
}

/// How many ids of `u` the walk has not entered yet.
pub open spec fn unvisited(u: Set<Seq<char>>, visited: Set<Seq<char>>) -> nat {
    u.difference(visited).len()
}

/// `st` with `level` recorded for `id`; an id seen for the first time goes at
/// the end of the order.
pub open spec fn record(st: LevelState, id: Seq<char>, level: int) -> LevelState {
    LevelState {
        order: if st.levels.contains_key(id) {
            st.order
        } else {
            st.order.push(id)
        },
        levels: st.levels.insert(id, level as i32),
        visited: st.visited,
    }
}

/// The level of `id` and the state after the walk from it. A level already
/// found is kept. Otherwise `id` is entered; an id that is no task has level
/// 0 and gets none recorded; a task without dependencies has level 0; any
/// other task has level one more than the highest level among the
/// dependencies the walk reaches (see [`deps_max`]).
pub open spec fn level_from(
    g: Map<Seq<char>, Seq<Seq<char>>>,
    u: Set<Seq<char>>,
    id: Seq<char>,
    st: LevelState,
) -> (int, LevelState)
    decreases unvisited(u, st.visited), 0int,
    when covers(g, u) && u.contains(id) && !st.visited.contains(id)
{
    if st.levels.contains_key(id) {
        (st.levels[id] as int, st)
    } else {
        let st1 = LevelState { visited: st.visited.insert(id), ..st };
        proof {
            assert(u.difference(st1.visited) =~= u.difference(st.visited).remove(id));
        }
        if !g.contains_key(id) {
            (0, st1)
        } else if g[id].len() == 0 {
            (0, record(st1, id, 0))
        } else {
            let (m, st2) = deps_max(g, u, g[id], 0, -1, st1);
            (m + 1, record(st2, id, m + 1))
        }
    }
}

/// The highest of `acc` and the levels of `deps[j..]`, walking from each
/// dependency in turn; a dependency that the walk has already entered is
/// passed over.
pub open spec fn deps_max(
    g: Map<Seq<char>, Seq<Seq<char>>>,
    u: Set<Seq<char>>,
    deps: Seq<Seq<char>>,
    j: int,
    acc: int,
    st: LevelState,
) -> (int, LevelState)
    decreases unvisited(u, st.visited), deps.len() - j,
    when covers(g, u) && 0 <= j <= deps.len() && forall|x: Seq<char>| #[trigger] deps.contains(x) ==> u.contains(x)
{
    if j >= deps.len() {
        (acc, st)
    } else if st.visited.contains(deps[j]) {
        deps_max(g, u, deps, j + 1, acc, st)
    } else {
        let (l, st2) = level_from(g, u, deps[j], st);
        let st3 = LevelState { visited: st.visited.union(st2.visited), ..st2 };
        proof {
            lemma_len_subset(u.difference(st3.visited), u.difference(st.visited));
        }
        deps_max(
            g,
            u,
            deps,
            j + 1,
            if acc >= l {
                acc
            } else {
                l
            },
            st3,
        )
    }
}

/// Walking on through `deps` from position `j` never lowers the highest level
/// found so far.
proof fn lemma_deps_max_at_least(
    g: Map<Seq<char>, Seq<Seq<char>>>,
    u: Set<Seq<char>>,
    deps: Seq<Seq<char>>,
    j: int,
    acc: int,
    st: LevelState,
)
    requires
        covers(g, u),
        0 <= j <= deps.len(),
        forall|x: Seq<char>| #[trigger] deps.contains(x) ==> u.contains(x),
    ensures
        deps_max(g, u, deps, j, acc, st).0 >= acc,
    decreases unvisited(u, st.visited), deps.len() - j,
{
    if j < deps.len() {
        if st.visited.contains(deps[j]) {
            lemma_deps_max_at_least(g, u, deps, j + 1, acc, st);
        } else {
            assert(deps.contains(deps[j]));
            let (l, st2) = level_from(g, u, deps[j], st);
            let st3 = LevelState { visited: st.visited.union(st2.visited), ..st2 };
            lemma_len_subset(u.difference(st3.visited), u.difference(st.visited));
            let next = if acc >= l {
                acc
            } else {
                l
            };
            lemma_deps_max_at_least(g, u, deps, j + 1, next, st3);
        }
    }
}

/// The level that a walk over a task's dependencies settles on is the
/// highest it meets: it is at least the level found so far (`acc`), and at
/// least the level found for the dependency at position `j` when the walk has
/// not entered that dependency yet.
pub proof fn law_deps_max_tops_each_walked_dependency(
    g: Map<Seq<char>, Seq<Seq<char>>>,
    u: Set<Seq<char>>,
    deps: Seq<Seq<char>>,
    j: int,
    acc: int,
    st: LevelState,
)
    requires
        covers(g, u),
        0 <= j < deps.len(),
        forall|x: Seq<char>| #[trigger] deps.contains(x) ==> u.contains(x),
        !st.visited.contains(deps[j]),
    ensures
        deps_max(g, u, deps, j, acc, st).0 >= acc,
        deps_max(g, u, deps, j, acc, st).0 >= level_from(g, u, deps[j], st).0,
{
    assert(deps.contains(deps[j]));
    let (l, st2) = level_from(g, u, deps[j], st);
    let st3 = LevelState { visited: st.visited.union(st2.visited), ..st2 };
    let next = if acc >= l {
        acc
    } else {
        l
    };
    lemma_deps_max_at_least(g, u, deps, j + 1, next, st3);
}

/// A task whose level the walk computes lies at least one level above the
/// level found for its first dependency, when the walk has not entered that
/// dependency yet.
pub proof fn law_level_above_first_dependency(
    g: Map<Seq<char>, Seq<Seq<char>>>,
    u: Set<Seq<char>>,
    id: Seq<char>,
    st: LevelState,
)
    requires
        covers(g, u),
        u.contains(id),
        !st.visited.contains(id),
        !st.levels.contains_key(id),
        g.contains_key(id),
        g[id].len() > 0,
        g[id][0] != id,
        !st.visited.contains(g[id][0]),
    ensures
        level_from(g, u, id, st).0 >= level_from(
            g,
            u,
            g[id][0],
            LevelState { visited: st.visited.insert(id), ..st },
        ).0 + 1,
{
    let st1 = LevelState { visited: st.visited.insert(id), ..st };
    assert forall|x: Seq<char>| #[trigger] g[id].contains(x) implies u.contains(x) by {}
    law_deps_max_tops_each_walked_dependency(g, u, g[id], 0, -1, st1);
}

/// Every level recorded in `st` is at least 0.
pub open spec fn levels_nonneg(st: LevelState) -> bool {
    forall|k: Seq<char>| #[trigger] st.levels.contains_key(k) ==> st.levels[k] >= 0
}

/// The level a walk finds is never negative when no level recorded before is.
proof fn lemma_level_from_nonneg(g: Map<Seq<char>, Seq<Seq<char>>>, u: Set<Seq<char>>, id: Seq<char>, st: LevelState)
    requires
        covers(g, u),
        u.contains(id),
        !st.visited.contains(id),
        levels_nonneg(st),
    ensures
        level_from(g, u, id, st).0 >= 0,
{
    if !st.levels.contains_key(id) {
        let st1 = LevelState { visited: st.visited.insert(id), ..st };
        if g.contains_key(id) && g[id].len() > 0 {
            assert forall|x: Seq<char>| #[trigger] g[id].contains(x) implies u.contains(x) by {}
            lemma_deps_max_at_least(g, u, g[id], 0, -1, st1);
        }
    }
}

/// A task with a single dependency, which the walk has not entered, lies
/// exactly one level above the level found for that dependency.
pub proof fn law_single_dependency_one_level_up(
    g: Map<Seq<char>, Seq<Seq<char>>>,
    u: Set<Seq<char>>,
    id: Seq<char>,
    st: LevelState,
)
    requires
        covers(g, u),
        u.contains(id),
        !st.visited.contains(id),
        !st.levels.contains_key(id),
        levels_nonneg(st),
        g.contains_key(id),
        g[id].len() == 1,
        g[id][0] != id,
        !st.visited.contains(g[id][0]),
    ensures
        level_from(g, u, id, st).0 == level_from(
            g,
            u,
            g[id][0],
            LevelState { visited: st.visited.insert(id), ..st },
        ).0 + 1,
{
    let st1 = LevelState { visited: st.visited.insert(id), ..st };
    let deps = g[id];
    let d = deps[0];
    assert(deps.contains(d));
    assert forall|x: Seq<char>| #[trigger] deps.contains(x) implies u.contains(x) by {}
    lemma_level_from_nonneg(g, u, d, st1);
    let (l, st2) = level_from(g, u, d, st1);
    let st3 = LevelState { visited: st1.visited.union(st2.visited), ..st2 };
    assert(deps_max(g, u, deps, 0, -1, st1) == deps_max(g, u, deps, 1, l, st3));
    assert(deps_max(g, u, deps, 1, l, st3).0 == l);
}

/// The state of a walk, as held by a level map and a visited set.
pub open spec fn state_of(levels: IdMap<i32>, visited: IdSet) -> LevelState {
    LevelState { order: levels.key_seq(), levels: levels@, visited: visited@ }
}

/// The map is well formed, no task holds a dependency twice, and each task
/// is filed under its own id.
pub open spec fn tasks_ok(tasks: IdMap<Task>) -> bool {
    &&& tasks.wf()
    &&& forall|i: int|
        #![trigger tasks.val_seq()[i]]
        0 <= i < tasks.val_seq().len() ==> tasks.val_seq()[i].wf()
}

/// Only tasks have a level, each level lies between 0 and the number of
/// levels, and a task without dependencies has level 0.
pub open spec fn levels_ok(tasks: IdMap<Task>, levels: IdMap<i32>) -> bool {
    &&& levels.wf()
    &&& forall|k: Seq<char>|
        #[trigger] levels@.contains_key(k) ==> {
            &&& tasks@.contains_key(k)
            &&& 0 <= levels@[k] <= levels@.len()
            &&& dep_lists(tasks)[k].len() == 0 ==> levels@[k] == 0
        }
}

/// Computes the level of task `task_id`, walking through its dependencies
/// and recording in `levels` each level found and in `visited` each id entered.
fn calculate_task_level(
    task_id: &str,
    tasks: &IdMap<Task>,
    levels: &mut IdMap<i32>,
    visited: &mut IdSet,
    Ghost(u): Ghost<Set<Seq<char>>>,
) -> (r: i32)
    requires
        tasks_ok(*tasks),
        tasks@.len() < 2_147_483_647,
        covers(dep_lists(*tasks), u),
        u.contains(task_id@),
        !old(visited)@.contains(task_id@),
        old(visited).wf(),
        levels_ok(*tasks, *old(levels)),
    ensures
        final(visited).wf(),
        levels_ok(*tasks, *final(levels)),
        (r as int, state_of(*final(levels), *final(visited))) == level_from(
            dep_lists(*tasks),
            u,
            task_id@,
            state_of(*old(levels), *old(visited)),
        ),
        0 <= r <= final(levels)@.len(),
        tasks@.contains_key(task_id@) ==> final(levels)@.contains_key(task_id@),
        old(visited)@.subset_of(final(visited)@),
        old(levels)@.dom().subset_of(final(levels)@.dom()),
        forall|k: Seq<char>|
            #[trigger] final(levels)@.contains_key(k) && !old(levels)@.contains_key(k)
                ==> final(visited)@.contains(k) && !old(visited)@.contains(k),
    decreases unvisited(u, old(visited)@),
{
    let ghost g = dep_lists(*tasks);
    let ghost st0 = state_of(*levels, *visited);
    match levels.get(task_id) {
        Some(l) => {
            return *l;
        },
        None => {},
    }
    visited.insert(task_id.to_owned());
    let ghost st1 = state_of(*levels, *visited);
    assert(st1 == LevelState { visited: st0.visited.insert(task_id@), ..st0 });
    let i = match tasks.position(task_id) {
        Some(i) => i,
        None => {
            return 0;
        },
    };
    let task = tasks.value_at(i);
    proof {
        tasks.lemma_view();
        assert(tasks.key_seq().index_of(task_id@) == i as int);
        assert(g[task_id@] == task.dependencies.elems());
        assert(task.wf());
    }
    let deps = &task.dependencies;
    let n = deps.len();
    if n == 0 {
        let ghost before = *levels;
        levels.insert(task_id.to_owned(), 0);
        proof {
            before.lemma_view();
            levels.lemma_view();
            assert(levels@.dom() =~= before@.dom().insert(task_id@));
            assert(state_of(*levels, *visited) == record(st1, task_id@, 0));
        }
        return 0;
    }
    let ghost list = deps.elems();
    let mut acc: i32 = -1;
    let mut j: usize = 0;
    while j < n
        invariant
            tasks_ok(*tasks),
            tasks@.len() < 2_147_483_647,
            covers(g, u),
            g == dep_lists(*tasks),
            g.contains_key(task_id@),
            g[task_id@] == list,
            list == deps.elems(),
            n == list.len(),
            0 <= j <= n,
            visited.wf(),
            levels_ok(*tasks, *levels),
            u.contains(task_id@),
            !old(visited)@.contains(task_id@),
            st1.visited == old(visited)@.insert(task_id@),
            st1.visited.subset_of(visited@),
            old(levels)@.dom().subset_of(levels@.dom()),
            !old(levels)@.contains_key(task_id@),
            forall|k: Seq<char>|
                #[trigger] levels@.contains_key(k) && !old(levels)@.contains_key(k) ==> visited@.contains(k)
                    && !st1.visited.contains(k),
            -1 <= acc <= levels@.len(),
            deps_max(g, u, list, j as int, acc as int, state_of(*levels, *visited)) == deps_max(
                g,
                u,
                list,
                0,
                -1,
                st1,
            ),
        decreases n - j,
    {
        let d = deps.get(j);
        assert(list.contains(d@));
        if !visited.contains(d.as_str()) {
            let ghost cur = state_of(*levels, *visited);
            let ghost before = *levels;
            proof {
                assert(u.difference(old(visited)@.insert(task_id@)) =~= u.difference(old(visited)@).remove(task_id@));
                lemma_len_subset(u.difference(visited@), u.difference(old(visited)@.insert(task_id@)));
            }
            let l = calculate_task_level(d.as_str(), tasks, levels, visited, Ghost(u));
            proof {
                let st2 = state_of(*levels, *visited);
                assert(LevelState { visited: cur.visited.union(st2.visited), ..st2 } == st2);
                before.lemma_view();
                levels.lemma_view();
                lemma_len_subset(before@.dom(), levels@.dom());
            }
            if l > acc {
                acc = l;
            }
        }
        j = j + 1;
    }
    proof {
        levels.lemma_view();
        tasks.lemma_view();
        lemma_len_subset(levels@.dom(), tasks@.dom());
    }
    let level = acc + 1;
    let ghost st2 = state_of(*levels, *visited);
    let ghost before = *levels;
    levels.insert(task_id.to_owned(), level);
    proof {
        assert(!before@.contains_key(task_id@));
        levels.lemma_view();
        assert(levels@.dom() =~= before@.dom().insert(task_id@));
        assert(state_of(*levels, *visited) == record(st2, task_id@, level as int));
    }
    level
}

/// The ids of `tasks` and the ids that the first `i` tasks depend on.
pub open spec fn ids_upto(tasks: IdMap<Task>, i: int) -> Set<Seq<char>>
    decreases i,
{
    if i <= 0 {
        tasks@.dom()
    } else {
        ids_upto(tasks, i - 1).union(tasks.val_seq()[i - 1]@.dependencies)
    }
}

/// The ids of `tasks` and every id that one of them depends on.
pub open spec fn all_ids(tasks: IdMap<Task>) -> Set<Seq<char>> {
    ids_upto(tasks, tasks.val_seq().len() as int)
}

proof fn lemma_ids_upto(tasks: IdMap<Task>, i: int)
    requires
        tasks_ok(tasks),
        0 <= i <= tasks.val_seq().len(),
    ensures
        ids_upto(tasks, i).finite(),
        tasks@.dom().subset_of(ids_upto(tasks, i)),
        forall|q: int, x: Seq<char>|
            0 <= q < i && #[trigger] tasks.val_seq()[q]@.dependencies.contains(x) ==> ids_upto(
                tasks,
                i,
            ).contains(x),
    decreases i,
{
    tasks.lemma_view();
    if i > 0 {
        lemma_ids_upto(tasks, i - 1);
        assert(tasks.val_seq()[i - 1].wf());
        tasks.val_seq()[i - 1].dependencies.lemma_view();
    }
}

proof fn lemma_all_ids_cover(tasks: IdMap<Task>)
    requires
        tasks_ok(tasks),
    ensures
        covers(dep_lists(tasks), all_ids(tasks)),
{
    let g = dep_lists(tasks);
    let u = all_ids(tasks);
    tasks.lemma_view();
    lemma_ids_upto(tasks, tasks.val_seq().len() as int);
    assert forall|k: Seq<char>, x: Seq<char>| g.contains_key(k) && #[trigger] g[k].contains(x) implies u.contains(
        x,
    ) by {
        let q = tasks.key_seq().index_of(k);
        assert(tasks.key_seq().contains(k));
        assert(tasks.val_seq()[q]@.dependencies.contains(x));
    }
}

/// The levels found by walking from each id of `ids`, from position `i` on,
/// each walk starting with nothing entered: the ids in the order in which
/// their levels were found, and the levels.
pub open spec fn walk_all(
    g: Map<Seq<char>, Seq<Seq<char>>>,
    u: Set<Seq<char>>,
    ids: Seq<Seq<char>>,
    i: int,
    order: Seq<Seq<char>>,
    levels: Map<Seq<char>, i32>,
) -> (Seq<Seq<char>>, Map<Seq<char>, i32>)
    decreases ids.len() - i,
{
    if i >= ids.len() {
        (order, levels)
    } else {
        let st = level_from(g, u, ids[i], LevelState { order, levels, visited: Set::empty() }).1;
        walk_all(g, u, ids, i + 1, st.order, st.levels)
    }
}

/// The levels of the tasks of `tasks`, found by walking from each task in
/// the order of the map.
pub open spec fn task_levels(tasks: IdMap<Task>) -> (Seq<Seq<char>>, Map<Seq<char>, i32>) {
    walk_all(dep_lists(tasks), all_ids(tasks), tasks.key_seq(), 0, Seq::empty(), Map::empty())
}

/// How many of the first `i` ids of `order` have level `l` in `levels`.
pub open spec fn count_level(order: Seq<Seq<char>>, levels: Map<Seq<char>, i32>, l: int, i: int) -> nat
    decreases i,
{
    if i <= 0 {
        0
    } else {
        count_level(order, levels, l, i - 1) + if levels[order[i - 1]] as int == l {
            1nat
        } else {
            0nat
        }
    }
}

/// Where task `id` is drawn: in the column of its level, 200 units per
/// level; in the column, the tasks of that level 120 units apart in the order
/// in which their levels were found, the column centred in a height of 600.
pub open spec fn node_position(order: Seq<Seq<char>>, levels: Map<Seq<char>, i32>, id: Seq<char>) -> (
    i32,
    i32,
) {
    let l = levels[id] as int;
    let n = count_level(order, levels, l, order.len() as int);
    let rank = count_level(order, levels, l, order.index_of(id));
    ((l * 200) as i32, ((600 - n * 120) / 2 + rank * 120) as i32)
}

/// The position of every id that has a level.
pub open spec fn layout(order: Seq<Seq<char>>, levels: Map<Seq<char>, i32>) -> Map<Seq<char>, (i32, i32)> {
    Map::new(|k: Seq<char>| levels.contains_key(k), |k: Seq<char>| node_position(order, levels, k))
}

proof fn lemma_count_level_mono(order: Seq<Seq<char>>, levels: Map<Seq<char>, i32>, l: int, i: int, j: int)
    requires
        0 <= i <= j,
    ensures
        count_level(order, levels, l, i) <= count_level(order, levels, l, j),
        count_level(order, levels, l, j) <= j,
    decreases j,
{
    if j > 0 {
        if i < j {
            lemma_count_level_mono(order, levels, l, i, j - 1);
        } else {
            lemma_count_level_mono(order, levels, l, j - 1, j - 1);
        }
    }
}

/// The places of a layout fit in 32 bits: no level beyond 10,737,418 and no
/// column of more than 17,895,697 tasks.
pub open spec fn layout_fits(order: Seq<Seq<char>>, levels: Map<Seq<char>, i32>) -> bool {
    forall|k: Seq<char>|
        #[trigger] levels.contains_key(k) ==> 0 <= levels[k] <= 10_737_418 && count_level(
            order,
            levels,
            levels[k] as int,
            order.len() as int,
        ) <= 17_895_697
}

/// Two ids of a layout have different places, when each id is held once in
/// the order and the levels and the count of ids are small enough.
proof fn lemma_layout_apart(order: Seq<Seq<char>>, levels: Map<Seq<char>, i32>, a: Seq<char>, b: Seq<char>)
    requires
        order.no_duplicates(),
        layout_fits(order, levels),
        forall|k: Seq<char>| #[trigger] levels.contains_key(k) ==> order.contains(k),
        levels.contains_key(a),
        levels.contains_key(b),
        a != b,
    ensures
        layout(order, levels)[a] != layout(order, levels)[b],
{
    let ia = order.index_of(a);
    let ib = order.index_of(b);
    assert(order.contains(a) && order.contains(b));
    let la = levels[a] as int;
    let lb = levels[b] as int;
    let n = count_level(order, levels, la, order.len() as int);
    lemma_count_level_mono(order, levels, la, ia, order.len() as int);
    lemma_count_level_mono(order, levels, la, ib, order.len() as int);
    if la == lb {
        if ia < ib {
            lemma_count_level_mono(order, levels, la, ia + 1, ib);
            assert(count_level(order, levels, la, ia + 1) == count_level(order, levels, la, ia) + 1);
        } else {
            lemma_count_level_mono(order, levels, la, ib + 1, ia);
            assert(count_level(order, levels, la, ib + 1) == count_level(order, levels, la, ib) + 1);
        }
    }
}

/// How many of the first `upto` entries of `levels` have level `l`.
fn count_at_level(levels: &IdMap<i32>, l: i32, upto: usize) -> (r: usize)
    requires
        levels.wf(),
        upto <= levels.key_seq().len(),
    ensures
        r == count_level(levels.key_seq(), levels@, l as int, upto as int),
        r <= upto,
{
    let mut c: usize = 0;
    let mut j: usize = 0;
    while j < upto
        invariant
            levels.wf(),
            j <= upto,
            upto <= levels.key_seq().len(),
            c == count_level(levels.key_seq(), levels@, l as int, j as int),
            c <= j,
        decreases upto - j,
    {
        if *levels.value_at(j) == l {
            c = c + 1;
        }
        j = j + 1;
    }
    c
}

/// The levels of the tasks of `tasks`, found by walking from each task in
/// turn, in the order in which they were found (see [`task_levels`]).
fn task_level_map(tasks: &IdMap<Task>) -> (levels: IdMap<i32>)
    requires
        tasks_ok(*tasks),
        tasks@.len() < 2_147_483_647,
    ensures
        levels_ok(*tasks, levels),
        levels.key_seq() == task_levels(*tasks).0,
        levels@ == task_levels(*tasks).1,
        forall|k: Seq<char>| #[trigger] tasks@.contains_key(k) ==> levels@.contains_key(k),
{
    let ghost g = dep_lists(*tasks);
    let ghost u = all_ids(*tasks);
    let ghost keys = tasks.key_seq();
    proof {
        lemma_all_ids_cover(*tasks);
        tasks.lemma_view();
    }
    let mut levels: IdMap<i32> = IdMap::new();
    let n = tasks.len();
    let mut i: usize = 0;
    while i < n
        invariant
            tasks_ok(*tasks),
            tasks@.len() < 2_147_483_647,
            covers(g, u),
            g == dep_lists(*tasks),
            keys == tasks.key_seq(),
            n == keys.len(),
            i <= n,
            levels_ok(*tasks, levels),
            forall|q: int| 0 <= q < i ==> levels@.contains_key(#[trigger] keys[q]),
            walk_all(g, u, keys, i as int, levels.key_seq(), levels@) == walk_all(
                g,
                u,
                keys,
                0,
                Seq::empty(),
                Map::empty(),
            ),
        decreases n - i,
    {
        let id = tasks.key_at(i);
        let mut visited = IdSet::new();
        proof {
            tasks.lemma_view();
            assert(tasks@.contains_key(keys[i as int]));
            assert(g.contains_key(id@));
            assert(state_of(levels, visited) == LevelState {
                order: levels.key_seq(),
                levels: levels@,
                visited: Set::empty(),
            });
        }
        calculate_task_level(id.as_str(), tasks, &mut levels, &mut visited, Ghost(u));
        i = i + 1;
    }
    proof {
        tasks.lemma_view();
        assert forall|k: Seq<char>| #[trigger] tasks@.contains_key(k) implies levels@.contains_key(k) by {
            let q = keys.index_of(k);
            assert(keys[q] == k);
        }
    }
    levels
}

/// Places each task of `pipeline` by its level in `levels` (see [`layout`]).
fn place_tasks(pipeline: &Pipeline, levels: &IdMap<i32>) -> (r: IdMap<(i32, i32)>)
    requires
        pipeline.wf(),
        levels_ok(pipeline.tasks, *levels),
        levels.key_seq() == task_levels(pipeline.tasks).0,
        levels@ == task_levels(pipeline.tasks).1,
        forall|k: Seq<char>| #[trigger] pipeline.tasks@.contains_key(k) ==> levels@.contains_key(k),
        layout_fits(task_levels(pipeline.tasks).0, task_levels(pipeline.tasks).1),
    ensures
        r.wf(),
        r@ == layout(task_levels(pipeline.tasks).0, task_levels(pipeline.tasks).1),
        r@.dom() == pipeline.tasks@.dom(),
        forall|k: Seq<char>|
            #[trigger] r@.contains_key(k) && pipeline.tasks@[k].dependencies.is_empty() ==> r@[k].0 == 0,
        forall|a: Seq<char>, b: Seq<char>|
            #[trigger] r@.contains_key(a) && #[trigger] r@.contains_key(b) && a != b ==> r@[a] != r@[b],
        (forall|k: Seq<char>|
            #[trigger] task_levels(pipeline.tasks).1.contains_key(k) ==> task_levels(pipeline.tasks).1[k]
                < 10_737_418) ==> positions_fit(r@),
{
    let tasks = &pipeline.tasks;
    let ghost keys = tasks.key_seq();
    proof {
        levels.lemma_view();
        tasks.lemma_view();
        lemma_len_subset(levels@.dom(), tasks@.dom());
    }
    let ghost order = levels.key_seq();
    let m = levels.len();
    let mut positions: IdMap<(i32, i32)> = IdMap::new();
    let mut k: usize = 0;
    while k < m
        invariant
            levels_ok(*tasks, *levels),
            order == levels.key_seq(),
            m == order.len(),
            layout_fits(order, levels@),
            k <= m,
            positions.wf(),
            positions@ == Map::new(
                |x: Seq<char>| order.take(k as int).contains(x),
                |x: Seq<char>| node_position(order, levels@, x),
            ),
        decreases m - k,
    {
        let id = levels.key_at(k);
        let l = *levels.value_at(k);
        let count = count_at_level(levels, l, m);
        let rank = count_at_level(levels, l, k);
        proof {
            levels.lemma_view();
            assert(order.index_of(id@) == k as int);
            assert(levels@.contains_key(id@));
            lemma_count_level_mono(order, levels@, l as int, k as int, m as int);
        }
        let px = l * 200;
        let py = 300 - (count as i32) * 60 + (rank as i32) * 120;
        proof {
            assert((px, py) == node_position(order, levels@, id@));
        }
        positions.insert(id.clone(), (px, py));
        proof {
            assert(order.take(k + 1) =~= order.take(k as int).push(id@));
            assert(positions@ =~= Map::new(
                |x: Seq<char>| order.take(k + 1).contains(x),
                |x: Seq<char>| node_position(order, levels@, x),
            ));
        }
        k = k + 1;
    }
    proof {
        levels.lemma_view();
        assert(order.take(m as int) =~= order);
        assert(positions@ =~= layout(order, levels@));
        assert forall|k: Seq<char>| #[trigger] tasks@.contains_key(k) implies levels@.contains_key(k) by {
            let q = keys.index_of(k);
            assert(keys[q] == k);
        }
        assert(positions@.dom() =~= tasks@.dom());
        assert forall|a: Seq<char>, b: Seq<char>|
            #[trigger] positions@.contains_key(a) && #[trigger] positions@.contains_key(b) && a != b implies positions@[a]
            != positions@[b] by {
            lemma_layout_apart(order, levels@, a, b);
        }
        if forall|k: Seq<char>| #[trigger] levels@.contains_key(k) ==> levels@[k] < 10_737_418 {
            assert forall|k: Seq<char>| #[trigger] positions@.contains_key(k) implies positions@[k].0 + 75
                <= i32::MAX && positions@[k].1 + 30 <= i32::MAX by {
                let l = levels@[k] as int;
                assert(order.contains(k));
                lemma_count_level_mono(order, levels@, l, order.index_of(k), order.len() as int);
            }
        }
        assert forall|k: Seq<char>|
            #[trigger] positions@.contains_key(k) && tasks@[k].dependencies.is_empty() implies positions@[k].0 == 0 by {
            let q = keys.index_of(k);
            assert(keys[q] == k);
            assert(tasks.val_seq()[q].wf());
            tasks.val_seq()[q].dependencies.lemma_view();
            assert(dep_lists(*tasks)[k] == tasks.val_seq()[q].dependencies.elems());
        }
    }
    positions
}

/// Where each task of `pipeline` is drawn: its level comes from a walk from
/// each task in turn (see [`task_levels`]), its place from [`layout`].
pub fn calculate_task_positions(pipeline: &Pipeline) -> (r: IdMap<(i32, i32)>)
    requires
        pipeline.wf(),
        pipeline.tasks@.len() < 2_147_483_647,
        layout_fits(task_levels(pipeline.tasks).0, task_levels(pipeline.tasks).1),
    ensures
        r.wf(),
        r@ == layout(task_levels(pipeline.tasks).0, task_levels(pipeline.tasks).1),
        r@.dom() == pipeline.tasks@.dom(),
        forall|k: Seq<char>|
            #[trigger] r@.contains_key(k) && pipeline.tasks@[k].dependencies.is_empty() ==> r@[k].0 == 0,
        forall|a: Seq<char>, b: Seq<char>|
            #[trigger] r@.contains_key(a) && #[trigger] r@.contains_key(b) && a != b ==> r@[a] != r@[b],
        (forall|k: Seq<char>|
            #[trigger] task_levels(pipeline.tasks).1.contains_key(k) ==> task_levels(pipeline.tasks).1[k]
                < 10_737_418) ==> positions_fit(r@),
{
    let levels = task_level_map(&pipeline.tasks);
    place_tasks(pipeline, &levels)
}

/// Whether the places of the tasks with levels `levels` fit in 32 bits (see
/// [`layout_fits`]).
fn layout_fits_levels(levels: &IdMap<i32>) -> (r: bool)
    requires
        levels.wf(),
    ensures
        r == layout_fits(levels.key_seq(), levels@),
{
    proof {
        levels.lemma_view();
    }
    let ghost order = levels.key_seq();
    let m = levels.len();
    let mut k: usize = 0;
    while k < m
        invariant
            levels.wf(),
            order == levels.key_seq(),
            m == order.len(),
            k <= m,
            forall|q: int|
                #![trigger order[q]]
                0 <= q < k ==> 0 <= levels@[order[q]] <= 10_737_418 && count_level(
                    order,
                    levels@,
                    levels@[order[q]] as int,
                    m as int,
                ) <= 17_895_697,
        decreases m - k,
    {
        let l = *levels.value_at(k);
        proof {
            levels.lemma_view();
            assert(levels@.contains_key(order[k as int]));
            assert(levels@[order[k as int]] == l);
        }
        if l < 0 || l > 10_737_418 {
            return false;
        }
        let count = count_at_level(levels, l, m);
        if count > 17_895_697 {
            return false;
        }
        k = k + 1;
    }
    proof {
        levels.lemma_view();
        assert forall|key: Seq<char>| #[trigger] levels@.contains_key(key) implies 0 <= levels@[key] <= 10_737_418
            && count_level(order, levels@, levels@[key] as int, m as int) <= 17_895_697 by {
            let q = order.index_of(key);
            assert(order[q] == key);
        }
    }
    true
}

/// Where each task of `pipeline` is drawn, as [`calculate_task_positions`]
/// gives it, when every place fits in 32 bits; `None` when one does not.
pub fn try_task_positions(pipeline: &Pipeline) -> (r: Option<IdMap<(i32, i32)>>)
    requires
        pipeline.wf(),
        pipeline.tasks@.len() < 2_147_483_647,
    ensures
        r is Some <==> layout_fits(task_levels(pipeline.tasks).0, task_levels(pipeline.tasks).1),
        r matches Some(m) ==> m.wf() && m@ == layout(task_levels(pipeline.tasks).0, task_levels(pipeline.tasks).1),
{
    let levels = task_level_map(&pipeline.tasks);
    if layout_fits_levels(&levels) {
        Some(place_tasks(pipeline, &levels))
    } else {
        None
    }
}

/// A line of the drawing, from the right side of a dependency's box to the
/// left side of the box of the task that depends on it.
#[derive(Debug)]
pub struct GraphEdge {
    pub task_id: String,
    pub dep_id: String,
    pub from_x: i32,
    pub from_y: i32,
    pub to_x: i32,
    pub to_y: i32,
}

/// The mathematical value of a [`GraphEdge`].
pub struct EdgeView {
    pub task_id: Seq<char>,
    pub dep_id: Seq<char>,
    pub from_x: i32,
    pub from_y: i32,
    pub to_x: i32,
    pub to_y: i32,
}

impl View for GraphEdge {
    type V = EdgeView;

    open spec fn view(&self) -> EdgeView {
        EdgeView {
            task_id: self.task_id@,
            dep_id: self.dep_id@,
            from_x: self.from_x,
            from_y: self.from_y,
            to_x: self.to_x,
            to_y: self.to_y,
        }
    }
}

/// The views of a sequence of edges.
pub open spec fn edge_views(s: Seq<GraphEdge>) -> Seq<EdgeView> {
    s.map_values(|e: GraphEdge| e@)
}

/// The line into task `task_id` from its dependency `dep_id`: from 75 units
/// right of and 30 below the dependency's corner, to 30 below the task's.
pub open spec fn edge_between(task_id: Seq<char>, dep_id: Seq<char>, pos: Map<Seq<char>, (i32, i32)>) -> EdgeView {
    EdgeView {
        task_id,
        dep_id,
        from_x: (pos[dep_id].0 + 75) as i32,
        from_y: (pos[dep_id].1 + 30) as i32,
        to_x: pos[task_id].0,
        to_y: (pos[task_id].1 + 30) as i32,
    }
}

/// The lines into task `task_id` from the first `j` of `deps`, for each
/// dependency that has a position when the task has one too.
pub open spec fn edges_into(
    task_id: Seq<char>,
    deps: Seq<Seq<char>>,
    pos: Map<Seq<char>, (i32, i32)>,
    j: int,
) -> Seq<EdgeView>
    decreases j,
{
    if j <= 0 {
        Seq::empty()
    } else {
        edges_into(task_id, deps, pos, j - 1) + if pos.contains_key(deps[j - 1]) && pos.contains_key(
            task_id,
        ) {
            seq![edge_between(task_id, deps[j - 1], pos)]
        } else {
            Seq::empty()
        }
    }
}

/// The lines into the first `i` tasks of `tasks`, task by task in the order
/// of the map, each task's in the order of its dependencies.
pub open spec fn edges_upto(tasks: IdMap<Task>, pos: Map<Seq<char>, (i32, i32)>, i: int) -> Seq<EdgeView>
    decreases i,
{
    if i <= 0 {
        Seq::empty()
    } else {
        let deps = tasks.val_seq()[i - 1].dependencies.elems();
        edges_upto(tasks, pos, i - 1) + edges_into(tasks.key_seq()[i - 1], deps, pos, deps.len() as int)
    }
}

/// The line from each positioned dependency among the first `m` of `deps`
/// into a positioned task is among the lines into that task.
proof fn lemma_edges_into_has(task_id: Seq<char>, deps: Seq<Seq<char>>, pos: Map<Seq<char>, (i32, i32)>, m: int, q: int)
    requires
        0 <= q < m <= deps.len(),
        pos.contains_key(task_id),
        pos.contains_key(deps[q]),
    ensures
        exists|e: int|
            0 <= e < edges_into(task_id, deps, pos, m).len() && #[trigger] edges_into(task_id, deps, pos, m)[e]
                == edge_between(task_id, deps[q], pos),
    decreases m,
{
    let s = edges_into(task_id, deps, pos, m);
    let before = edges_into(task_id, deps, pos, m - 1);
    if q == m - 1 {
        assert(s[before.len() as int] == edge_between(task_id, deps[q], pos));
    } else {
        lemma_edges_into_has(task_id, deps, pos, m - 1, q);
        let e = choose|e: int|
            0 <= e < before.len() && #[trigger] before[e] == edge_between(task_id, deps[q], pos);
        assert(s[e] == before[e]);
    }
}

/// Each line among the lines into a task runs from one of the first `m` of
/// `deps`, both ends positioned.
proof fn lemma_edges_into_only(task_id: Seq<char>, deps: Seq<Seq<char>>, pos: Map<Seq<char>, (i32, i32)>, m: int, e: int)
    requires
        0 <= m <= deps.len(),
        0 <= e < edges_into(task_id, deps, pos, m).len(),
    ensures
        exists|q: int|
            0 <= q < m && pos.contains_key(task_id) && pos.contains_key(deps[q]) && edges_into(task_id, deps, pos, m)[e]
                == edge_between(task_id, #[trigger] deps[q], pos),
    decreases m,
{
    let before = edges_into(task_id, deps, pos, m - 1);
    if e < before.len() {
        lemma_edges_into_only(task_id, deps, pos, m - 1, e);
        let q = choose|q: int|
            0 <= q < m - 1 && pos.contains_key(task_id) && pos.contains_key(deps[q]) && before[e]
                == edge_between(task_id, #[trigger] deps[q], pos);
        assert(edges_into(task_id, deps, pos, m)[e] == before[e]);
    } else {
        assert(edges_into(task_id, deps, pos, m)[e] == edge_between(task_id, deps[m - 1], pos));
    }
}

/// The lines into the first `i` tasks stay, in place, among the lines into
/// the first `j`.
proof fn lemma_edges_upto_prefix(tasks: IdMap<Task>, pos: Map<Seq<char>, (i32, i32)>, i: int, j: int)
    requires
        0 <= i <= j,
    ensures
        edges_upto(tasks, pos, i).len() <= edges_upto(tasks, pos, j).len(),
        forall|e: int|
            0 <= e < edges_upto(tasks, pos, i).len() ==> #[trigger] edges_upto(tasks, pos, j)[e] == edges_upto(
                tasks,
                pos,
                i,
            )[e],
    decreases j,
{
    if i < j {
        lemma_edges_upto_prefix(tasks, pos, i, j - 1);
    }
}

/// Every dependency of a task is drawn when both it and the task have a
/// position: the lines of the drawing hold a line from the dependency into
/// the task.
pub proof fn law_every_dependency_drawn(p: Pipeline, pos: Map<Seq<char>, (i32, i32)>, k: Seq<char>, d: Seq<char>)
    requires
        p.wf(),
        p.tasks@.contains_key(k),
        p.tasks@[k].dependencies.contains(d),
        pos.contains_key(k),
        pos.contains_key(d),
    ensures
        exists|e: int|
            0 <= e < edges_upto(p.tasks, pos, p.tasks.val_seq().len() as int).len() && #[trigger] edges_upto(
                p.tasks,
                pos,
                p.tasks.val_seq().len() as int,
            )[e] == edge_between(k, d, pos),
{
    let tasks = p.tasks;
    tasks.lemma_view();
    let n = tasks.val_seq().len() as int;
    let i = tasks.key_seq().index_of(k);
    assert(tasks.key_seq()[i] == k);
    assert(tasks@[k] == tasks.val_seq()[i]@);
    let deps = tasks.val_seq()[i].dependencies.elems();
    assert(p.task_seq()[i].wf());
    tasks.val_seq()[i].dependencies.lemma_view();
    let q = deps.index_of(d);
    lemma_edges_into_has(k, deps, pos, deps.len() as int, q);
    let into = edges_into(k, deps, pos, deps.len() as int);
    let e = choose|e: int| 0 <= e < into.len() && #[trigger] into[e] == edge_between(k, d, pos);
    let before = edges_upto(tasks, pos, i);
    assert(edges_upto(tasks, pos, i + 1)[before.len() + e] == into[e]);
    lemma_edges_upto_prefix(tasks, pos, i + 1, n);
    assert(edges_upto(tasks, pos, n)[before.len() + e] == edge_between(k, d, pos));
}

/// Every line of the drawing runs from a dependency of a task into that
/// task, both with a position.
pub proof fn law_only_dependencies_drawn(p: Pipeline, pos: Map<Seq<char>, (i32, i32)>, e: int)
    requires
        p.wf(),
        0 <= e < edges_upto(p.tasks, pos, p.tasks.val_seq().len() as int).len(),
    ensures
        exists|k: Seq<char>, d: Seq<char>|
            #![trigger edge_between(k, d, pos)]
            p.tasks@.contains_key(k) && p.tasks@[k].dependencies.contains(d) && pos.contains_key(k) && pos.contains_key(
                d,
            ) && edges_upto(p.tasks, pos, p.tasks.val_seq().len() as int)[e] == edge_between(k, d, pos),
{
    lemma_edges_upto_only(p, pos, p.tasks.val_seq().len() as int, e);
}

proof fn lemma_edges_upto_only(p: Pipeline, pos: Map<Seq<char>, (i32, i32)>, i: int, e: int)
    requires
        p.wf(),
        0 <= i <= p.tasks.val_seq().len(),
        0 <= e < edges_upto(p.tasks, pos, i).len(),
    ensures
        exists|k: Seq<char>, d: Seq<char>|
            #![trigger edge_between(k, d, pos)]
            p.tasks@.contains_key(k) && p.tasks@[k].dependencies.contains(d) && pos.contains_key(k) && pos.contains_key(
                d,
            ) && edges_upto(p.tasks, pos, i)[e] == edge_between(k, d, pos),
    decreases i,
{
    let tasks = p.tasks;
    let before = edges_upto(tasks, pos, i - 1);
    if e < before.len() {
        lemma_edges_upto_only(p, pos, i - 1, e);
        assert(edges_upto(tasks, pos, i)[e] == before[e]);
    } else {
        tasks.lemma_view();
        let k = tasks.key_seq()[i - 1];
        let deps = tasks.val_seq()[i - 1].dependencies.elems();
        let into = edges_into(k, deps, pos, deps.len() as int);
        let f = e - before.len();
        assert(edges_upto(tasks, pos, i)[e] == into[f]);
        lemma_edges_into_only(k, deps, pos, deps.len() as int, f);
        let q = choose|q: int|
            0 <= q < deps.len() && pos.contains_key(k) && pos.contains_key(deps[q]) && into[f] == edge_between(
                k,
                #[trigger] deps[q],
                pos,
            );
        assert(p.task_seq()[i - 1].wf());
        tasks.val_seq()[i - 1].dependencies.lemma_view();
        assert(deps.contains(deps[q]));
        assert(tasks@[k] == tasks.val_seq()[i - 1]@);
        assert(tasks@.contains_key(k));
        assert(edges_upto(tasks, pos, i)[e] == edge_between(k, deps[q], pos));
    }
}

/// Every line into a task runs into that task, and no two of them from the
/// same dependency when no dependency is listed twice.
proof fn lemma_edges_into_distinct(
    task_id: Seq<char>,
    deps: Seq<Seq<char>>,
    pos: Map<Seq<char>, (i32, i32)>,
    m: int,
    e1: int,
    e2: int,
)
    requires
        deps.no_duplicates(),
        0 <= m <= deps.len(),
        0 <= e1 < e2 < edges_into(task_id, deps, pos, m).len(),
    ensures
        edges_into(task_id, deps, pos, m)[e1].dep_id != edges_into(task_id, deps, pos, m)[e2].dep_id,
    decreases m,
{
    let s = edges_into(task_id, deps, pos, m);
    let before = edges_into(task_id, deps, pos, m - 1);
    if e2 < before.len() {
        lemma_edges_into_distinct(task_id, deps, pos, m - 1, e1, e2);
        assert(s[e1] == before[e1]);
        assert(s[e2] == before[e2]);
    } else {
        assert(s[e2] == edge_between(task_id, deps[m - 1], pos));
        lemma_edges_into_only(task_id, deps, pos, m - 1, e1);
        let q = choose|q: int|
            0 <= q < m - 1 && pos.contains_key(task_id) && pos.contains_key(deps[q]) && before[e1]
                == edge_between(task_id, #[trigger] deps[q], pos);
        assert(s[e1] == before[e1]);
        assert(deps[q] != deps[m - 1]);
    }
}

/// Each line among the lines into the first `i` tasks runs into one of them.
proof fn lemma_edges_upto_task(tasks: IdMap<Task>, pos: Map<Seq<char>, (i32, i32)>, i: int, e: int)
    requires
        0 <= i,
        0 <= e < edges_upto(tasks, pos, i).len(),
    ensures
        exists|q: int| 0 <= q < i && edges_upto(tasks, pos, i)[e].task_id == #[trigger] tasks.key_seq()[q],
    decreases i,
{
    let before = edges_upto(tasks, pos, i - 1);
    if e < before.len() {
        lemma_edges_upto_task(tasks, pos, i - 1, e);
        assert(edges_upto(tasks, pos, i)[e] == before[e]);
    } else {
        let k = tasks.key_seq()[i - 1];
        let deps = tasks.val_seq()[i - 1].dependencies.elems();
        let f = e - before.len();
        assert(edges_upto(tasks, pos, i)[e] == edges_into(k, deps, pos, deps.len() as int)[f]);
        lemma_edges_into_only(k, deps, pos, deps.len() as int, f);
    }
}

proof fn lemma_edges_upto_distinct(p: Pipeline, pos: Map<Seq<char>, (i32, i32)>, i: int, e1: int, e2: int)
    requires
        p.wf(),
        0 <= i <= p.tasks.val_seq().len(),
        0 <= e1 < e2 < edges_upto(p.tasks, pos, i).len(),
    ensures
        edges_upto(p.tasks, pos, i)[e1].task_id != edges_upto(p.tasks, pos, i)[e2].task_id
            || edges_upto(p.tasks, pos, i)[e1].dep_id != edges_upto(p.tasks, pos, i)[e2].dep_id,
    decreases i,
{
    let tasks = p.tasks;
    let s = edges_upto(tasks, pos, i);
    let before = edges_upto(tasks, pos, i - 1);
    tasks.lemma_view();
    let k = tasks.key_seq()[i - 1];
    let deps = tasks.val_seq()[i - 1].dependencies.elems();
    let into = edges_into(k, deps, pos, deps.len() as int);
    if e2 < before.len() {
        lemma_edges_upto_distinct(p, pos, i - 1, e1, e2);
        assert(s[e1] == before[e1]);
        assert(s[e2] == before[e2]);
    } else if e1 < before.len() {
        lemma_edges_upto_task(tasks, pos, i - 1, e1);
        let q = choose|q: int| 0 <= q < i - 1 && before[e1].task_id == #[trigger] tasks.key_seq()[q];
        assert(s[e1] == before[e1]);
        let f = e2 - before.len();
        assert(s[e2] == into[f]);
        lemma_edges_into_only(k, deps, pos, deps.len() as int, f);
        assert(tasks.key_seq()[q] != k);
    } else {
        assert(p.task_seq()[i - 1].wf());
        tasks.val_seq()[i - 1].dependencies.lemma_view();
        let f1 = e1 - before.len();
        let f2 = e2 - before.len();
        assert(s[e1] == into[f1]);
        assert(s[e2] == into[f2]);
        lemma_edges_into_distinct(k, deps, pos, deps.len() as int, f1, f2);
    }
}

/// No line is drawn twice: two lines of the drawing differ in the task they
/// run into or in the dependency they come from.
pub proof fn law_each_dependency_drawn_once(p: Pipeline, pos: Map<Seq<char>, (i32, i32)>, e1: int, e2: int)
    requires
        p.wf(),
        0 <= e1 < edges_upto(p.tasks, pos, p.tasks.val_seq().len() as int).len(),
        0 <= e2 < edges_upto(p.tasks, pos, p.tasks.val_seq().len() as int).len(),
        e1 != e2,
    ensures
        edges_upto(p.tasks, pos, p.tasks.val_seq().len() as int)[e1].task_id != edges_upto(
            p.tasks,
            pos,
            p.tasks.val_seq().len() as int,
        )[e2].task_id || edges_upto(p.tasks, pos, p.tasks.val_seq().len() as int)[e1].dep_id != edges_upto(
            p.tasks,
            pos,
            p.tasks.val_seq().len() as int,
        )[e2].dep_id,
{
    let n = p.tasks.val_seq().len() as int;
    if e1 < e2 {
        lemma_edges_upto_distinct(p, pos, n, e1, e2);
    } else {
        lemma_edges_upto_distinct(p, pos, n, e2, e1);
    }
}

/// Every position leaves room for the offsets of a line's ends.
pub open spec fn positions_fit(pos: Map<Seq<char>, (i32, i32)>) -> bool {
    forall|k: Seq<char>|
        #[trigger] pos.contains_key(k) ==> pos[k].0 + 75 <= i32::MAX && pos[k].1 + 30 <= i32::MAX
}

/// The lines of the drawing of `pipeline` with its tasks at `positions`; see
/// [`edges_upto`].
pub fn graph_edges(pipeline: &Pipeline, positions: &IdMap<(i32, i32)>) -> (r: Vec<GraphEdge>)
    requires
        pipeline.wf(),
        positions.wf(),
        positions_fit(positions@),
    ensures
        edge_views(r@) == edges_upto(pipeline.tasks, positions@, pipeline.tasks.val_seq().len() as int),
{
    let tasks = &pipeline.tasks;
    let ghost pos = positions@;
    let mut r: Vec<GraphEdge> = Vec::new();
    let n = tasks.len();
    proof {
        tasks.lemma_view();
    }
    let mut i: usize = 0;
    while i < n
        invariant
            pipeline.wf(),
            tasks == &pipeline.tasks,
            positions.wf(),
            pos == positions@,
            positions_fit(pos),
            n == tasks.val_seq().len(),
            n == tasks.key_seq().len(),
            i <= n,
            edge_views(r@) == edges_upto(*tasks, pos, i as int),
        decreases n - i,
    {
        let task_id = tasks.key_at(i);
        let task = tasks.value_at(i);
        assert(pipeline.task_seq()[i as int].wf());
        let deps = &task.dependencies;
        let m = deps.len();
        let ghost before = edge_views(r@);
        let mut j: usize = 0;
        while j < m
            invariant
                positions.wf(),
                pos == positions@,
                positions_fit(pos),
                deps.wf(),
                m == deps.elems().len(),
                j <= m,
                edge_views(r@) == before + edges_into(task_id@, deps.elems(), pos, j as int),
            decreases m - j,
        {
            let dep_id = deps.get(j);
            match (positions.get(dep_id.as_str()), positions.get(task_id.as_str())) {
                (Some(from), Some(to)) => {
                    let edge = GraphEdge {
                        task_id: task_id.clone(),
                        dep_id: dep_id.clone(),
                        from_x: from.0 + 75,
                        from_y: from.1 + 30,
                        to_x: to.0,
                        to_y: to.1 + 30,
                    };
                    let ghost old_r = r@;
                    r.push(edge);
                    proof {
                        assert(edge_views(r@) =~= edge_views(old_r).push(edge@));
                    }
                },
                _ => {},
            }
            proof {
                assert(edges_into(task_id@, deps.elems(), pos, j + 1) =~= edges_into(
                    task_id@,
                    deps.elems(),
                    pos,
                    j as int,
                ) + if pos.contains_key(deps.elems()[j as int]) && pos.contains_key(task_id@) {
                    seq![edge_between(task_id@, deps.elems()[j as int], pos)]
                } else {
                    Seq::<EdgeView>::empty()
                });
            }
            j = j + 1;
        }
        proof {
            assert(*task == tasks.val_seq()[i as int]);
            assert(edges_upto(*tasks, pos, i + 1) =~= edges_upto(*tasks, pos, i as int) + edges_into(
                task_id@,
                deps.elems(),
                pos,
                m as int,
            ));
        }
        i = i + 1;
    }
    r
}

/// The style of the box of a task in status `s`.
pub open spec fn status_style(s: StatusView) -> Seq<char> {
    match s {
        StatusView::Pending => "bg-gray-100 border-gray-300"@,
        StatusView::Running => "bg-blue-100 border-blue-300"@,
        StatusView::Completed(_) => "bg-green-100 border-green-300"@,
        StatusView::Failed => "bg-red-100 border-red-300"@,
        StatusView::Cancelled => "bg-yellow-100 border-yellow-300"@,
        StatusView::TimedOut => "bg-orange-100 border-orange-300"@,
        StatusView::Skipped => "bg-purple-100 border-purple-300"@,
    }
}

/// The style of the box of a task in status `status`; see [`status_style`].
pub fn status_class(status: &TaskStatus) -> (r: &'static str)
    ensures
        r@ == status_style(status@),
{
    match status {
        TaskStatus::Pending => "bg-gray-100 border-gray-300",
        TaskStatus::Running => "bg-blue-100 border-blue-300",
        TaskStatus::Completed(_) => "bg-green-100 border-green-300",
        TaskStatus::Failed => "bg-red-100 border-red-300",
        TaskStatus::Cancelled => "bg-yellow-100 border-yellow-300",
        TaskStatus::TimedOut => "bg-orange-100 border-orange-300",
        TaskStatus::Skipped => "bg-purple-100 border-purple-300",
    }
}

} // verus!
