//! Properties of the library that relate several of its operations.
use vstd::prelude::*;

use crate::graph::{cond_count, lemma_distinct_bounded, lemma_with_task, GraphView, LinkView};

use crate::schedule::{
    after_reports, after_success, block_after, first_failure, block_step, lemma_cond_count_prefix, ready, ready_tasks,
    ready_upto, reports_fit, ExecutionView, ReportView,
};
use crate::value::{ContextValue, ValueView};

verus! {

/// Reading a key right after storing a value under it, as the type the
/// value was stored with, gives back that value: `set` followed by `get`
/// (or `get_cloned`, `get_mut`, `remove`) with the same type finds it.
pub proof fn law_get_after_set<T: ContextValue>(before: Map<Seq<char>, ValueView>, key: Seq<char>, value: T)
    ensures
        ({
            let after = before.insert(key, value.model());
            &&& after.contains_key(key)
            &&& after[key] == value.model()
            &&& after[key].kind() == T::kind()
        }),
{
    value.lemma_model_kind();
}

/// A value stored as one type is not handed out as a type with another tag:
/// `get::<U>` right after `set` of a `T` finds nothing.
pub proof fn law_get_other_type_after_set<T: ContextValue, U: ContextValue>(
    before: Map<Seq<char>, ValueView>,
    key: Seq<char>,
    value: T,
)
    requires
        T::kind() != U::kind(),
    ensures
        before.insert(key, value.model())[key].kind() != U::kind(),
{
    value.lemma_model_kind();
}

/// Storing under one key leaves every other key as it was.
pub proof fn law_set_keeps_other_keys(
    before: Map<Seq<char>, ValueView>,
    key: Seq<char>,
    other: Seq<char>,
    v: ValueView,
)
    requires
        key != other,
    ensures
        before.insert(key, v).contains_key(other) == before.contains_key(other),
        before.contains_key(other) ==> before.insert(key, v)[other] == before[other],
{
}

/// Removing a key right after storing a value under it hands the value back
/// to a reader of the same type and leaves the key absent.
pub proof fn law_remove_after_set<T: ContextValue>(before: Map<Seq<char>, ValueView>, key: Seq<char>, value: T)
    ensures
        ({
            let after = before.insert(key, value.model());
            &&& after.contains_key(key) && after[key].kind() == T::kind() && after[key] == value.model()
            &&& !after.remove(key).contains_key(key)
            &&& after.remove(key) == before.remove(key)
        }),
{
    value.lemma_model_kind();
    assert(before.insert(key, value.model()).remove(key) =~= before.remove(key));
}

/// An edge from a task to itself closes a cycle.
pub proof fn law_self_edge_is_cycle(g: GraphView, i: int, l: LinkView)
    requires
        0 <= i < g.n(),
        g.links.len() == g.n(),
        l.target == i,
    ensures
        g.with_edge(i, l).has_cycle(),
{
    let h = g.with_edge(i, l);
    let p = seq![i, i];
    assert(h.links[i][g.links[i].len() as int].leads_to(i));
    assert(h.edge(p[0], p[1]));
    assert(h.is_path(p));
}

proof fn lemma_ready_upto(g: GraphView, st: ExecutionView, k: int)
    ensures
        forall|q: int| 0 <= q < ready_upto(g, st, k).len() ==> {
            &&& 0 <= #[trigger] ready_upto(g, st, k)[q] < k
            &&& ready(g, st, ready_upto(g, st, k)[q])
        },
        forall|q1: int, q2: int|
            0 <= q1 < q2 < ready_upto(g, st, k).len() ==> #[trigger] ready_upto(g, st, k)[q1]
                < #[trigger] ready_upto(g, st, k)[q2],
    decreases k,
{
    if k > 0 {
        lemma_ready_upto(g, st, k - 1);
        let prev = ready_upto(g, st, k - 1);
        let cur = ready_upto(g, st, k);
        if ready(g, st, k - 1) {
            assert(cur == prev.push(k - 1));
            assert forall|q: int| 0 <= q < cur.len() implies {
                &&& 0 <= #[trigger] cur[q] < k
                &&& ready(g, st, cur[q])
            } by {
                if q < prev.len() {
                    assert(cur[q] == prev[q]);
                }
            }
            assert forall|q1: int, q2: int| 0 <= q1 < q2 < cur.len() implies #[trigger] cur[q1] < #[trigger] cur[q2] by {
                assert(cur[q1] == prev[q1]);
                if q2 < prev.len() {
                    assert(cur[q2] == prev[q2]);
                }
            }
        } else {
            assert(cur == prev);
        }
    }
}

/// Every task that an execution is told to run is ready: it has not run,
/// no condition blocked it, and all the tasks it waits for have completed.
/// No task is named twice in one batch.
pub proof fn law_scheduled_tasks_are_ready(g: GraphView, st: ExecutionView)
    ensures
        forall|q: int| 0 <= q < ready_tasks(g, st).len() ==> {
            &&& 0 <= #[trigger] ready_tasks(g, st)[q] < g.n()
            &&& !st.completed[ready_tasks(g, st)[q]]
            &&& !st.blocked[ready_tasks(g, st)[q]]
            &&& forall|d: int| #[trigger] g.deps[ready_tasks(g, st)[q]].contains(d) ==> st.completed[d]
        },
        ready_tasks(g, st).no_duplicates(),
{
    lemma_ready_upto(g, st, g.n());
}

/// When every task has completed, the execution is over.
pub proof fn law_finished_when_all_completed(g: GraphView, st: ExecutionView)
    requires
        forall|i: int| 0 <= i < g.n() ==> #[trigger] st.completed[i],
    ensures
        ready_tasks(g, st).len() == 0,
{
    lemma_ready_upto(g, st, g.n());
    if ready_tasks(g, st).len() > 0 {
        let x = ready_tasks(g, st)[0];
        assert(st.completed[x]);
    }
}

/// When every reported task succeeded, each of them has completed
/// afterwards, and no task that had completed is undone.
pub proof fn law_successes_complete(g: GraphView, st: ExecutionView, reports: Seq<ReportView>)
    requires
        forall|j: int| 0 <= j < reports.len() ==> #[trigger] reports[j].outcome is Ok,
        st.completed.len() == g.n(),
        reports_fit(g, reports),
        g.ids.no_duplicates(),
    ensures
        after_reports(g, st, reports).completed.len() == g.n(),
        forall|i: int| 0 <= i < g.n() && st.completed[i] ==> #[trigger] after_reports(g, st, reports).completed[i],
        forall|j: int| 0 <= j < reports.len() ==> after_reports(g, st, reports).completed[g.index(
            #[trigger] reports[j].task_id,
        )],
    decreases reports.len(),
{
    if reports.len() > 0 {
        let rest = reports.drop_last();
        assert forall|j: int| 0 <= j < rest.len() implies #[trigger] rest[j].outcome is Ok by {
            assert(rest[j] == reports[j]);
        }
        assert(reports_fit(g, rest)) by {
            assert forall|j: int| 0 <= j < rest.len() implies g.has_id(#[trigger] rest[j].task_id) && (
            rest[j].outcome matches Ok(o) ==> o.len() == cond_count_of(g, rest[j].task_id)) by {
                assert(rest[j] == reports[j]);
                assert(g.has_id(reports[j].task_id));
            }
        }
        law_successes_complete(g, st, rest);
        let last = reports.last();
        assert(last == reports[reports.len() - 1]);
        assert(g.has_id(last.task_id));
        let i = g.index(last.task_id);
        assert(0 <= i < g.n()) by {
            assert(g.ids[i] == last.task_id);
        }
        assert forall|j: int| 0 <= j < reports.len() implies after_reports(g, st, reports).completed[g.index(
            #[trigger] reports[j].task_id,
        )] by {
            if j < reports.len() - 1 {
                assert(rest[j] == reports[j]);
            }
        }
    }
}

spec fn cond_count_of(g: GraphView, id: Seq<char>) -> nat {
    crate::graph::cond_count(g.links[g.index(id)])
}

/// A condition that holds blocks the edge's else task; one that fails
/// blocks the edge's target and releases its else task.
pub proof fn law_condition_decides_branch(blocked: Seq<bool>, l: LinkView, outcome: bool)
    requires
        0 <= l.target < blocked.len(),
        l.else_target matches Some(e) ==> 0 <= e < blocked.len() && e != l.target,
    ensures
        outcome ==> (l.else_target matches Some(e) ==> block_step(blocked, l, outcome)[e]),
        outcome ==> block_step(blocked, l, outcome)[l.target] == blocked[l.target],
        !outcome ==> block_step(blocked, l, outcome)[l.target],
        !outcome ==> (l.else_target matches Some(e) ==> !block_step(blocked, l, outcome)[e]),
{
}

/// The number of tasks marked in `s`.
pub open spec fn count_marked(s: Seq<bool>) -> nat
    decreases s.len(),
{
    if s.len() == 0 {
        0
    } else {
        count_marked(s.drop_last()) + if s.last() {
            1nat
        } else {
            0nat
        }
    }
}

proof fn lemma_count_marked(a: Seq<bool>, b: Seq<bool>)
    requires
        a.len() == b.len(),
        forall|i: int| 0 <= i < a.len() && #[trigger] a[i] ==> b[i],
    ensures
        count_marked(a) <= count_marked(b),
        count_marked(b) <= b.len(),
        (exists|i: int| 0 <= i < a.len() && !a[i] && #[trigger] b[i]) ==> count_marked(a) < count_marked(b),
    decreases a.len(),
{
    if a.len() > 0 {
        let a2 = a.drop_last();
        let b2 = b.drop_last();
        assert forall|i: int| 0 <= i < a2.len() && #[trigger] a2[i] implies b2[i] by {
            assert(a[i]);
        }
        lemma_count_marked(a2, b2);
        if exists|i: int| 0 <= i < a.len() && !a[i] && #[trigger] b[i] {
            let i = choose|i: int| 0 <= i < a.len() && !a[i] && #[trigger] b[i];
            if i < a.len() - 1 {
                assert(!a2[i] && b2[i]);
            }
        }
    }
}

/// Every round of an execution in which the tasks that ran all succeeded
/// completes more tasks than were completed before, and no more than there
/// are tasks: an execution ends after at most as many rounds as the graph
/// has tasks.
pub proof fn law_execution_progresses(g: GraphView, st: ExecutionView, reports: Seq<ReportView>)
    requires
        forall|j: int| 0 <= j < reports.len() ==> #[trigger] reports[j].outcome is Ok,
        st.completed.len() == g.n(),
        reports_fit(g, reports),
        g.ids.no_duplicates(),
        reports.len() > 0,
        !st.completed[g.index(reports[0].task_id)],
    ensures
        count_marked(st.completed) < count_marked(after_reports(g, st, reports).completed),
        count_marked(after_reports(g, st, reports).completed) <= g.n(),
{
    law_successes_complete(g, st, reports);
    let after = after_reports(g, st, reports).completed;
    let i = g.index(reports[0].task_id);
    assert(g.has_id(reports[0].task_id));
    assert(g.ids[i] == reports[0].task_id);
    assert(after[i]);
    lemma_count_marked(st.completed, after);
}
/// The edges of `g.with_edge(f, l)`: those of `g`, and the edge from `f` to
/// each task that `l` leads to.
proof fn lemma_edges_of_with_edge(g: GraphView, f: int, l: LinkView)
    requires
        0 <= f < g.n(),
        g.links.len() == g.n(),
    ensures
        forall|x: int, y: int| #[trigger] g.edge(x, y) ==> g.with_edge(f, l).edge(x, y),
        forall|x: int, y: int| #[trigger] g.with_edge(f, l).edge(x, y) && !g.edge(x, y) ==> x == f && l.leads_to(y),
        forall|y: int| #[trigger] l.leads_to(y) ==> g.with_edge(f, l).edge(f, y),
        g.with_edge(f, l).n() == g.n(),
        g.with_edge(f, l).links.len() == g.n(),
{
    let h = g.with_edge(f, l);
    assert(h.links == g.links.update(f, g.links[f].push(l)));
    assert forall|x: int, y: int| #[trigger] g.edge(x, y) implies h.edge(x, y) by {
        let k = choose|k: int| 0 <= k < g.links[x].len() && #[trigger] g.links[x][k].leads_to(y);
        assert(h.links[x][k] == g.links[x][k]);
    }
    assert forall|x: int, y: int| #[trigger] h.edge(x, y) && !g.edge(x, y) implies x == f && l.leads_to(y) by {
        let k = choose|k: int| 0 <= k < h.links[x].len() && #[trigger] h.links[x][k].leads_to(y);
        if x != f || k < g.links[x].len() {
            assert(h.links[x][k] == g.links[x][k]);
            assert(g.edge(x, y));
        }
    }
    assert forall|y: int| #[trigger] l.leads_to(y) implies h.edge(f, y) by {
        assert(h.links[f][g.links[f].len() as int] == l);
    }
}

/// A walk whose steps are all edges of `g` is a walk of `g`.
proof fn lemma_path_in(g: GraphView, h: GraphView, p: Seq<int>)
    requires
        h.is_path(p),
        g.n() == h.n(),
        forall|k: int| 0 <= k < p.len() - 1 ==> #[trigger] g.edge(p[k], p[k + 1]),
    ensures
        g.is_path(p),
{
}

/// A walk that ends at `f`, in `g` with edges from `f` added, can be cut
/// short to one of `g` alone.
proof fn lemma_walk_back(g: GraphView, f: int, l: LinkView, w: Seq<int>)
    requires
        0 <= f < g.n(),
        g.links.len() == g.n(),
        g.with_edge(f, l).is_path(w),
        w.last() == f,
    ensures
        g.reaches(w[0], f),
    decreases w.len(),
{
    let h = g.with_edge(f, l);
    lemma_edges_of_with_edge(g, f, l);
    if forall|k: int| 0 <= k < w.len() - 1 ==> #[trigger] g.edge(w[k], w[k + 1]) {
        lemma_path_in(g, h, w);
        assert(g.is_path(w));
    } else {
        let j = choose|j: int| 0 <= j < w.len() - 1 && !#[trigger] g.edge(w[j], w[j + 1]);
        assert(h.edge(w[j], w[j + 1]));
        assert(w[j] == f);
        let v = w.take(j + 1);
        assert forall|k: int| 0 <= k < v.len() - 1 implies #[trigger] h.edge(v[k], v[k + 1]) by {
            assert(v[k] == w[k]);
            assert(v[k + 1] == w[k + 1]);
        }
        assert(h.is_path(v));
        assert(v.last() == w[j]);
        assert(v[0] == w[0]);
        lemma_walk_back(g, f, l, v);
    }
}

/// An edge from `f` to a task that already reaches `f` closes a cycle.
proof fn lemma_back_edge_closes_cycle(g: GraphView, f: int, l: LinkView, y: int)
    requires
        g.links.len() == g.n(),
        0 <= f < g.n(),
        l.leads_to(y),
        g.reaches(y, f),
    ensures
        g.with_edge(f, l).has_cycle(),
{
    let h = g.with_edge(f, l);
    lemma_edges_of_with_edge(g, f, l);
    let p = choose|p: Seq<int>| #[trigger] g.is_path(p) && p[0] == y && p.last() == f;
    let q = p.push(y);
    assert forall|k: int| 0 <= k < q.len() implies 0 <= #[trigger] q[k] < h.n() by {
        if k < p.len() {
            assert(q[k] == p[k]);
        } else {
            assert(q[k] == p[0]);
        }
    }
    assert forall|k: int| 0 <= k < q.len() - 1 implies #[trigger] h.edge(q[k], q[k + 1]) by {
        if k < p.len() - 1 {
            assert(q[k] == p[k]);
            assert(q[k + 1] == p[k + 1]);
            assert(g.edge(p[k], p[k + 1]));
        } else {
            assert(q[k] == f);
            assert(q[k + 1] == y);
        }
    }
    assert(h.is_path(q));
}

/// In a graph without cycles, adding an edge from task `f` closes a cycle
/// exactly when its target, or its else task, already reaches `f` (or is
/// `f`): edges are refused only when they would let a task run after itself.
pub proof fn law_new_cycle_needs_path_back(g: GraphView, f: int, l: LinkView)
    requires
        !g.has_cycle(),
        g.links.len() == g.n(),
        0 <= f < g.n(),
        0 <= l.target < g.n(),
        l.else_target matches Some(e) ==> 0 <= e < g.n(),
    ensures
        g.with_edge(f, l).has_cycle() <==> (g.reaches(l.target, f) || (l.else_target matches Some(e) && g.reaches(
            e,
            f,
        ))),
{
    let h = g.with_edge(f, l);
    lemma_edges_of_with_edge(g, f, l);
    if g.reaches(l.target, f) {
        lemma_back_edge_closes_cycle(g, f, l, l.target);
    }
    if let Some(e) = l.else_target {
        if g.reaches(e, f) {
            lemma_back_edge_closes_cycle(g, f, l, e);
        }
    }
    if h.has_cycle() {
        let c = choose|c: Seq<int>| #[trigger] h.is_path(c) && c.len() >= 2 && c[0] == c.last();
        if forall|k: int| 0 <= k < c.len() - 1 ==> #[trigger] g.edge(c[k], c[k + 1]) {
            lemma_path_in(g, h, c);
            assert(g.is_path(c));
            assert(g.has_cycle());
        }
        let k = choose|k: int| 0 <= k < c.len() - 1 && !#[trigger] g.edge(c[k], c[k + 1]);
        assert(h.edge(c[k], c[k + 1]));
        assert(c[k] == f && l.leads_to(c[k + 1]));
        let len = c.len() as int;
        let w = c.subrange(k + 1, len) + c.subrange(1, k + 1);
        let a = len - k - 1;
        assert forall|q: int| 0 <= q < w.len() implies 0 <= #[trigger] w[q] < h.n() by {
            if q < a {
                assert(w[q] == c[k + 1 + q]);
            } else {
                assert(w[q] == c[q - a + 1]);
            }
        }
        assert forall|q: int| 0 <= q < w.len() - 1 implies #[trigger] h.edge(w[q], w[q + 1]) by {
            if q < a - 1 {
                assert(w[q] == c[k + 1 + q]);
                assert(w[q + 1] == c[k + 1 + q + 1]);
                assert(h.edge(c[k + 1 + q], c[k + 1 + q + 1]));
            } else if q == a - 1 {
                assert(w[q] == c[len - 1]);
                assert(w[q + 1] == c[1]);
                assert(h.edge(c[0], c[1]));
            } else {
                assert(w[q] == c[q - a + 1]);
                assert(w[q + 1] == c[q - a + 2]);
                assert(h.edge(c[q - a + 1], c[q - a + 2]));
            }
        }
        assert(h.is_path(w));
        assert(w[0] == c[k + 1]);
        if k == 0 {
            assert(w.last() == c[len - 1]);
        } else {
            assert(w.last() == c[k]);
        }
        lemma_walk_back(g, f, l, w);
    }
}

proof fn lemma_edge_in_range(g: GraphView, x: int, y: int)
    requires
        g.well_formed(),
        g.edge(x, y),
    ensures
        0 <= x < g.n(),
        0 <= y < g.n(),
{
    let k = choose|k: int| 0 <= k < g.links[x].len() && #[trigger] g.links[x][k].leads_to(y);
    assert(0 <= g.links[x][k].target < g.n());
}

/// Adding a task keeps the graph well formed, adds no cycle and changes no
/// walk between the tasks that were there; a task that is new reaches only
/// itself and is reached only from itself.
pub proof fn law_new_task_is_isolated(g: GraphView, id: Seq<char>)
    requires
        g.well_formed(),
    ensures
        ({
            let h = g.with_task(id);
            &&& h.well_formed()
            &&& h.has_id(id)
            &&& h.n() >= g.n()
            &&& forall|i: int| 0 <= i < g.n() ==> #[trigger] h.ids[i] == g.ids[i]
            &&& forall|x: Seq<char>| #[trigger] g.has_id(x) ==> h.has_id(x) && h.index(x) == g.index(x)
            &&& !g.has_id(id) ==> h.index(id) == g.n()
            &&& h.has_cycle() == g.has_cycle()
            &&& forall|a: int, b: int| 0 <= a < g.n() && 0 <= b < g.n() ==> #[trigger] h.reaches(a, b) == g.reaches(a, b)
            &&& forall|a: int, b: int| #[trigger] h.reaches(a, b) && (a == g.n() || b == g.n()) ==> a == b
        }),
{
    let h = g.with_task(id);
    let n = g.n();
    lemma_with_task(g, id);
    if !g.has_id(id) {
        assert(h.ids[n] == id);
        assert(h.index(id) == n) by {
            let j = h.index(id);
            assert(h.ids[j] == id);
            if j < n {
                assert(g.ids[j] == id);
            }
        }
        // edges of h are those of g
        assert forall|x: int, y: int| #[trigger] h.edge(x, y) <==> g.edge(x, y) by {
            if h.edge(x, y) {
                let k = choose|k: int| 0 <= k < h.links[x].len() && #[trigger] h.links[x][k].leads_to(y);
                if x < n {
                    assert(h.links[x][k] == g.links[x][k]);
                }
            }
            if g.edge(x, y) {
                let k = choose|k: int| 0 <= k < g.links[x].len() && #[trigger] g.links[x][k].leads_to(y);
                assert(h.links[x][k] == g.links[x][k]);
            }
        }
        assert(h.well_formed()) by {
            assert forall|i: int, k: int|
                #![trigger h.links[i][k]]
                0 <= i < h.n() && 0 <= k < h.links[i].len() implies 0 <= h.links[i][k].target < h.n() && (
                h.links[i][k].else_target matches Some(e) ==> 0 <= e < h.n()) by {
                assert(i < n);
                assert(h.links[i][k] == g.links[i][k]);
            }
            assert forall|i: int, d: int| 0 <= i < h.n() && #[trigger] h.deps[i].contains(d) implies 0 <= d < h.n() by {
                if i < n {
                    assert(h.deps[i] == g.deps[i]);
                }
            }
        }
        // walks of length two or more stay among the old tasks
        assert forall|p: Seq<int>| #[trigger] h.is_path(p) && p.len() >= 2 implies g.is_path(p) by {
            assert forall|k: int| 0 <= k < p.len() implies 0 <= #[trigger] p[k] < g.n() by {
                if k < p.len() - 1 {
                    assert(h.edge(p[k], p[k + 1]));
                    lemma_edge_in_range(g, p[k], p[k + 1]);
                } else {
                    let j = k - 1;
                    assert(h.edge(p[j], p[j + 1]));
                    lemma_edge_in_range(g, p[j], p[j + 1]);
                }
            }
            assert forall|k: int| 0 <= k < p.len() - 1 implies #[trigger] g.edge(p[k], p[k + 1]) by {
                assert(h.edge(p[k], p[k + 1]));
            }
        }
        assert forall|p: Seq<int>| #[trigger] g.is_path(p) implies h.is_path(p) by {
            assert forall|k: int| 0 <= k < p.len() - 1 implies #[trigger] h.edge(p[k], p[k + 1]) by {
                assert(g.edge(p[k], p[k + 1]));
            }
        }
        if h.has_cycle() {
            let c = choose|c: Seq<int>| #[trigger] h.is_path(c) && c.len() >= 2 && c[0] == c.last();
            assert(g.is_path(c));
        }
        if g.has_cycle() {
            let c = choose|c: Seq<int>| #[trigger] g.is_path(c) && c.len() >= 2 && c[0] == c.last();
            assert(h.is_path(c));
        }
        assert forall|a: int, b: int| 0 <= a < g.n() && 0 <= b < g.n() implies #[trigger] h.reaches(a, b) == g.reaches(a, b) by {
            if h.reaches(a, b) {
                let p = choose|p: Seq<int>| #[trigger] h.is_path(p) && p[0] == a && p.last() == b;
                if p.len() >= 2 {
                    assert(g.is_path(p));
                } else {
                    assert(g.is_path(seq![a]));
                    assert(seq![a].last() == b);
                }
            }
            if g.reaches(a, b) {
                let p = choose|p: Seq<int>| #[trigger] g.is_path(p) && p[0] == a && p.last() == b;
                assert(h.is_path(p));
            }
        }
        assert forall|a: int, b: int| #[trigger] h.reaches(a, b) && (a == g.n() || b == g.n()) implies a == b by {
            let p = choose|p: Seq<int>| #[trigger] h.is_path(p) && p[0] == a && p.last() == b;
            if p.len() >= 2 {
                assert(g.is_path(p));
                assert(0 <= p[0] < g.n());
                assert(0 <= p[p.len() - 1] < g.n());
            }
        }
    } else {
        assert forall|a: int, b: int| #[trigger] h.reaches(a, b) && (a == g.n() || b == g.n()) implies a == b by {
            let p = choose|p: Seq<int>| #[trigger] h.is_path(p) && p[0] == a && p.last() == b;
            assert(0 <= p[0] < g.n());
            assert(0 <= p[p.len() - 1] < g.n());
        }
    }
}

proof fn lemma_reaches_in_range(g: GraphView, a: int, b: int)
    requires
        g.reaches(a, b),
    ensures
        0 <= a < g.n(),
        0 <= b < g.n(),
{
    let p = choose|p: Seq<int>| #[trigger] g.is_path(p) && p[0] == a && p.last() == b;
    assert(0 <= p[0] < g.n());
    assert(0 <= p[p.len() - 1] < g.n());
}

/// No two different tasks are joined by a walk when one of them is at
/// position `n0` or later.
spec fn isolated_from(g: GraphView, n0: int) -> bool {
    forall|a: int, b: int| #[trigger] g.reaches(a, b) && a != b ==> a < n0 && b < n0
}

/// What a graph that is well formed, has no cycle, and in which the tasks
/// from position `n0` on are isolated, keeps when a task is added.
proof fn lemma_add_task_step(g: GraphView, base: GraphView, id: Seq<char>)
    requires
        g.well_formed(),
        !g.has_cycle(),
        base.n() <= g.n(),
        isolated_from(g, base.n()),
        forall|i: int| 0 <= i < base.n() ==> #[trigger] g.ids[i] == base.ids[i],
        forall|a: int, b: int| 0 <= a < base.n() && 0 <= b < base.n() ==> #[trigger] g.reaches(a, b) == base.reaches(a, b),
    ensures
        ({
            let h = g.with_task(id);
            &&& h.well_formed()
            &&& !h.has_cycle()
            &&& base.n() <= h.n()
            &&& isolated_from(h, base.n())
            &&& forall|i: int| 0 <= i < base.n() ==> #[trigger] h.ids[i] == base.ids[i]
            &&& forall|a: int, b: int| 0 <= a < base.n() && 0 <= b < base.n() ==> #[trigger] h.reaches(a, b) == base.reaches(a, b)
        }),
{
    let h = g.with_task(id);
    law_new_task_is_isolated(g, id);
    assert forall|a: int, b: int| #[trigger] h.reaches(a, b) && a != b implies a < base.n() && b < base.n() by {
        lemma_reaches_in_range(h, a, b);
        if a < g.n() && b < g.n() {
            assert(g.reaches(a, b));
        }
    }
    assert forall|i: int| 0 <= i < base.n() implies #[trigger] h.ids[i] == base.ids[i] by {
        assert(g.ids[i] == base.ids[i]);
    }
    assert forall|a: int, b: int| 0 <= a < base.n() && 0 <= b < base.n() implies #[trigger] h.reaches(a, b)
        == base.reaches(a, b) by {
        assert(g.reaches(a, b) == base.reaches(a, b));
    }
}

/// The graph after the tasks of an edge (and, for a conditional edge, its
/// else task) are added, as `add_edge` and `add_cond_edge` do.
pub open spec fn with_edge_tasks(g: GraphView, from: Seq<char>, to: Seq<char>, extra: Option<Seq<char>>) -> GraphView {
    let g2 = g.with_task(from).with_task(to);
    match extra {
        Some(e) => g2.with_task(e),
        None => g2,
    }
}

/// `from` and `to` name the same task, or both name tasks of `g` and `to`
/// reaches `from` there.
pub open spec fn path_back(g: GraphView, from: Seq<char>, to: Seq<char>) -> bool {
    from == to || (g.has_id(from) && g.has_id(to) && g.reaches(g.index(to), g.index(from)))
}

/// In `h`, which holds the tasks of `g` at their positions, walks between
/// them unchanged, and new tasks reached by no other, the task named `x`
/// reaches the one named `from` exactly when `path_back(g, from, x)`.
proof fn lemma_reach_back_in(g: GraphView, h: GraphView, from: Seq<char>, x: Seq<char>)
    requires
        g.well_formed(),
        h.well_formed(),
        g.n() <= h.n(),
        isolated_from(h, g.n()),
        forall|i: int| 0 <= i < g.n() ==> #[trigger] h.ids[i] == g.ids[i],
        forall|a: int, b: int| 0 <= a < g.n() && 0 <= b < g.n() ==> #[trigger] h.reaches(a, b) == g.reaches(a, b),
        h.has_id(from),
        h.has_id(x),
    ensures
        h.reaches(h.index(x), h.index(from)) <==> path_back(g, from, x),
{
    let f = h.index(from);
    let t = h.index(x);
    assert(h.ids[f] == from);
    assert(h.ids[t] == x);
    if from == x {
        assert(h.is_path(seq![f]));
        assert(h.reaches(t, f));
    } else {
        assert(f != t);
        if g.has_id(from) && g.has_id(x) {
            let gf = g.index(from);
            let gt = g.index(x);
            assert(g.ids[gf] == from);
            assert(g.ids[gt] == x);
            assert(h.ids[gf] == from);
            assert(h.ids[gt] == x);
            assert(h.ids.no_duplicates());
            assert(f == gf);
            assert(t == gt);
            assert(h.reaches(t, f) == g.reaches(t, f));
        } else {
            if !g.has_id(from) && f < g.n() {
                assert(h.ids[f] == g.ids[f]);
                assert(g.ids[f] == from);
            }
            if !g.has_id(x) && t < g.n() {
                assert(h.ids[t] == g.ids[t]);
                assert(g.ids[t] == x);
            }
            assert(!h.reaches(t, f));
        }
    }
}

/// In a graph without cycles, an edge from `from` to `to` added by
/// `add_edge` or `add_cond_edge` closes a cycle exactly when `to`, or the
/// else task, is the task `from` or was in the graph and reached it there.
/// Tasks that the call adds never close a cycle.
pub proof fn law_add_edge_refused_iff_path_back(
    g: GraphView,
    from: Seq<char>,
    to: Seq<char>,
    extra: Option<Seq<char>>,
    l: LinkView,
)
    requires
        g.well_formed(),
        !g.has_cycle(),
        l.target == with_edge_tasks(g, from, to, extra).index(to),
        l.else_target == match extra {
            Some(e) => Some(with_edge_tasks(g, from, to, extra).index(e)),
            None => None,
        },
    ensures
        ({
            let h = with_edge_tasks(g, from, to, extra);
            h.with_edge(h.index(from), l).has_cycle() <==> (path_back(g, from, to) || (extra matches Some(e)
                && path_back(g, from, e)))
        }),
{
    let g1 = g.with_task(from);
    let g2 = g1.with_task(to);
    let h = with_edge_tasks(g, from, to, extra);
    assert(isolated_from(g, g.n())) by {
        assert forall|a: int, b: int| #[trigger] g.reaches(a, b) && a != b implies a < g.n() && b < g.n() by {
            lemma_reaches_in_range(g, a, b);
        }
    }
    lemma_add_task_step(g, g, from);
    lemma_add_task_step(g1, g, to);
    law_new_task_is_isolated(g, from);
    law_new_task_is_isolated(g1, to);
    match extra {
        Some(e) => {
            lemma_add_task_step(g2, g, e);
            law_new_task_is_isolated(g2, e);
        },
        None => {},
    }
    assert(h.well_formed() && !h.has_cycle() && isolated_from(h, g.n()));
    assert(h.has_id(from) && h.has_id(to));
    let f = h.index(from);
    assert(h.ids[f] == from);
    assert(h.ids[l.target] == to);
    match extra {
        Some(e) => {
            assert(h.has_id(e));
            assert(h.ids[h.index(e)] == e);
            lemma_reach_back_in(g, h, from, e);
        },
        None => {},
    }
    lemma_reach_back_in(g, h, from, to);
    law_new_cycle_needs_path_back(h, f, l);
}
/// No edge of the graph is conditional.
pub open spec fn no_conditional_edges(g: GraphView) -> bool {
    forall|i: int, k: int| 0 <= i < g.n() && 0 <= k < g.links[i].len() ==> !(#[trigger] g.links[i][k]).conditional
}

/// Every task waits only for tasks with an edge leading to it.
pub open spec fn deps_from_edges(g: GraphView) -> bool {
    forall|i: int, d: int| 0 <= i < g.n() && #[trigger] g.deps[i].contains(d) ==> g.edge(d, i)
}

/// Nothing is blocked.
pub open spec fn none_blocked(st: ExecutionView) -> bool {
    forall|i: int| 0 <= i < st.blocked.len() ==> !#[trigger] st.blocked[i]
}

/// The state before an execution of a graph of `n` tasks.
pub open spec fn initial_state(n: nat) -> ExecutionView {
    ExecutionView { completed: Seq::new(n, |i: int| false), blocked: Seq::new(n, |i: int| false), failed: false }
}

/// Reports of success, with no condition outcomes, for the given tasks.
pub open spec fn success_reports(g: GraphView, tasks: Seq<int>) -> Seq<ReportView> {
    tasks.map_values(|j: int| ReportView { task_id: g.ids[j], outcome: Ok(Seq::<bool>::empty()) })
}

/// One round in which every ready task runs and succeeds.
pub open spec fn successful_round(g: GraphView, st: ExecutionView) -> ExecutionView {
    after_reports(g, st, success_reports(g, ready_tasks(g, st)))
}

/// `k` rounds in which every task that runs succeeds.
pub open spec fn successful_rounds(g: GraphView, st: ExecutionView, k: nat) -> ExecutionView
    decreases k,
{
    if k == 0 {
        st
    } else {
        successful_rounds(g, successful_round(g, st), (k - 1) as nat)
    }
}

proof fn lemma_ready_upto_nonempty(g: GraphView, st: ExecutionView, k: int, i: int)
    requires
        0 <= i < k,
        ready(g, st, i),
    ensures
        ready_upto(g, st, k).len() > 0,
    decreases k,
{
    if i < k - 1 {
        lemma_ready_upto_nonempty(g, st, k - 1, i);
    }
}

proof fn lemma_back_walk(g: GraphView, st: ExecutionView, x: int, len: int)
    requires
        g.well_formed(),
        deps_from_edges(g),
        st.completed.len() == g.n(),
        st.blocked.len() == g.n(),
        none_blocked(st),
        forall|i: int| 0 <= i < g.n() ==> !#[trigger] ready(g, st, i),
        0 <= x < g.n(),
        !st.completed[x],
        len >= 1,
    ensures
        exists|p: Seq<int>|
            #[trigger] g.is_path(p) && p.len() == len && forall|k: int| 0 <= k < p.len() ==> !st.completed[#[trigger] p[k]],
    decreases len,
{
    if len == 1 {
        let p = seq![x];
        assert(g.is_path(p));
        assert(forall|k: int| 0 <= k < p.len() ==> !st.completed[#[trigger] p[k]]);
    } else {
        lemma_back_walk(g, st, x, len - 1);
        let p = choose|p: Seq<int>|
            #[trigger] g.is_path(p) && p.len() == len - 1 && forall|k: int| 0 <= k < p.len() ==> !st.completed[#[trigger] p[k]];
        let y = p[0];
        assert(!st.completed[y]);
        assert(!st.blocked[y]);
        assert(!ready(g, st, y));
        let d = choose|d: int| #[trigger] g.deps[y].contains(d) && !st.completed[d];
        assert(g.edge(d, y));
        let q = seq![d] + p;
        assert forall|k: int| 0 <= k < q.len() implies 0 <= #[trigger] q[k] < g.n() by {
            if k == 0 {
                lemma_edge_in_range(g, d, y);
            } else {
                assert(q[k] == p[k - 1]);
            }
        }
        assert forall|k: int| 0 <= k < q.len() - 1 implies #[trigger] g.edge(q[k], q[k + 1]) by {
            if k > 0 {
                assert(q[k] == p[k - 1]);
                assert(q[k + 1] == p[k]);
                assert(g.edge(p[k - 1], p[(k - 1) + 1]));
            }
        }
        assert(g.is_path(q));
        assert forall|k: int| 0 <= k < q.len() implies !st.completed[#[trigger] q[k]] by {
            if k > 0 {
                assert(q[k] == p[k - 1]);
            }
        }
    }
}

/// In a graph without cycles in which every task waits only for tasks with
/// an edge to it, an execution with nothing blocked never gets stuck: while
/// some task has not completed, some task is ready to run.
pub proof fn law_some_task_ready(g: GraphView, st: ExecutionView)
    requires
        g.well_formed(),
        !g.has_cycle(),
        deps_from_edges(g),
        st.completed.len() == g.n(),
        st.blocked.len() == g.n(),
        none_blocked(st),
        exists|i: int| 0 <= i < g.n() && !#[trigger] st.completed[i],
    ensures
        ready_tasks(g, st).len() > 0,
{
    if exists|i: int| 0 <= i < g.n() && #[trigger] ready(g, st, i) {
        let i = choose|i: int| 0 <= i < g.n() && #[trigger] ready(g, st, i);
        lemma_ready_upto_nonempty(g, st, g.n(), i);
    } else {
        let x = choose|i: int| 0 <= i < g.n() && !#[trigger] st.completed[i];
        lemma_back_walk(g, st, x, g.n() + 1);
        let p = choose|p: Seq<int>|
            #[trigger] g.is_path(p) && p.len() == g.n() + 1 && forall|k: int| 0 <= k < p.len() ==> !st.completed[#[trigger] p[k]];
        if p.no_duplicates() {
            lemma_distinct_bounded(p, g.n());
        }
        let (i, j) = choose|i: int, j: int| 0 <= i < p.len() && 0 <= j < p.len() && i != j && p[i] == p[j];
        let a = if i < j { i } else { j };
        let b = if i < j { j } else { i };
        let c = p.subrange(a, b + 1);
        assert forall|k: int| 0 <= k < c.len() implies 0 <= #[trigger] c[k] < g.n() by {
            assert(c[k] == p[a + k]);
        }
        assert forall|k: int| 0 <= k < c.len() - 1 implies #[trigger] g.edge(c[k], c[k + 1]) by {
            assert(c[k] == p[a + k]);
            assert(c[k + 1] == p[a + k + 1]);
            assert(g.edge(p[a + k], p[a + k + 1]));
        }
        assert(g.is_path(c));
        assert(c[0] == c.last());
        assert(g.has_cycle());
    }
}

proof fn lemma_no_conditional_count(links: Seq<LinkView>)
    requires
        forall|k: int| 0 <= k < links.len() ==> !(#[trigger] links[k]).conditional,
    ensures
        cond_count(links) == 0,
        forall|b: Seq<bool>, o: Seq<bool>| #[trigger] block_after(b, links, o) == b,
    decreases links.len(),
{
    if links.len() > 0 {
        let rest = links.drop_last();
        assert forall|k: int| 0 <= k < rest.len() implies !(#[trigger] rest[k]).conditional by {
            assert(rest[k] == links[k]);
        }
        lemma_no_conditional_count(rest);
        assert(!links[links.len() - 1].conditional);
        assert forall|b: Seq<bool>, o: Seq<bool>| #[trigger] block_after(b, links, o) == b by {
            assert(block_after(b, links, o) == block_after(b, rest, o));
        }
    }
}

proof fn lemma_success_reports_blocked(g: GraphView, st: ExecutionView, rs: Seq<ReportView>)
    requires
        g.well_formed(),
        no_conditional_edges(g),
        forall|j: int| 0 <= j < rs.len() ==> g.has_id(#[trigger] rs[j].task_id),
    ensures
        after_reports(g, st, rs).blocked == st.blocked,
    decreases rs.len(),
{
    if rs.len() > 0 {
        let rest = rs.drop_last();
        assert forall|j: int| 0 <= j < rest.len() implies g.has_id(#[trigger] rest[j].task_id) by {
            assert(rest[j] == rs[j]);
        }
        lemma_success_reports_blocked(g, st, rest);
        let r = rs.last();
        assert(r == rs[rs.len() - 1]);
        let i = g.index(r.task_id);
        assert(g.ids[i] == r.task_id);
        assert forall|k: int| 0 <= k < g.links[i].len() implies !(#[trigger] g.links[i][k]).conditional by {
            assert(!(g.links[i][k]).conditional);
        }
        lemma_no_conditional_count(g.links[i]);
    }
}

proof fn lemma_count_full(s: Seq<bool>)
    requires
        count_marked(s) >= s.len(),
    ensures
        forall|i: int| 0 <= i < s.len() ==> #[trigger] s[i],
    decreases s.len(),
{
    if s.len() > 0 {
        let t = s.drop_last();
        lemma_count_marked(t, t);
        if !s.last() {
            assert(count_marked(s) == count_marked(t));
        }
        lemma_count_full(t);
        assert forall|i: int| 0 <= i < s.len() implies #[trigger] s[i] by {
            if i < s.len() - 1 {
                assert(s[i] == t[i]);
            }
        }
    }
}

proof fn lemma_success_round(g: GraphView, st: ExecutionView)
    requires
        g.well_formed(),
        !g.has_cycle(),
        deps_from_edges(g),
        no_conditional_edges(g),
        st.completed.len() == g.n(),
        st.blocked.len() == g.n(),
        none_blocked(st),
    ensures
        successful_round(g, st).completed.len() == g.n(),
        successful_round(g, st).blocked == st.blocked,
        count_marked(successful_round(g, st).completed) <= g.n(),
        (exists|i: int| 0 <= i < g.n() && !#[trigger] st.completed[i]) ==> count_marked(st.completed) < count_marked(
            successful_round(g, st).completed,
        ),
        (forall|i: int| 0 <= i < g.n() ==> #[trigger] st.completed[i]) ==> successful_round(g, st) == st,
{
    let rt = ready_tasks(g, st);
    let rs = success_reports(g, rt);
    law_scheduled_tasks_are_ready(g, st);
    assert forall|j: int| 0 <= j < rs.len() implies g.has_id(#[trigger] rs[j].task_id) && g.index(rs[j].task_id) == rt[j] by {
        let x = rt[j];
        assert(rs[j].task_id == g.ids[x]);
        assert(g.ids.contains(g.ids[x]));
        let y = g.index(g.ids[x]);
        assert(g.ids[y] == g.ids[x]);
    }
    assert(reports_fit(g, rs)) by {
        assert forall|j: int| 0 <= j < rs.len() implies {
            &&& g.has_id(#[trigger] rs[j].task_id)
            &&& rs[j].outcome matches Ok(o) ==> o.len() == cond_count(g.links[g.index(rs[j].task_id)])
        } by {
            let i = rt[j];
            assert forall|k: int| 0 <= k < g.links[i].len() implies !(#[trigger] g.links[i][k]).conditional by {
                assert(!(g.links[i][k]).conditional);
            }
            lemma_no_conditional_count(g.links[i]);
        }
    }
    lemma_success_reports_blocked(g, st, rs);
    law_successes_complete(g, st, rs);
    lemma_count_marked(st.completed, successful_round(g, st).completed);
    if exists|i: int| 0 <= i < g.n() && !#[trigger] st.completed[i] {
        law_some_task_ready(g, st);
        assert(rs[0].outcome is Ok);
        law_execution_progresses(g, st, rs);
    }
    if forall|i: int| 0 <= i < g.n() ==> #[trigger] st.completed[i] {
        law_finished_when_all_completed(g, st);
        assert(rs.len() == 0);
    }
}

proof fn lemma_successful_rounds(g: GraphView, st: ExecutionView, k: nat)
    requires
        g.well_formed(),
        !g.has_cycle(),
        deps_from_edges(g),
        no_conditional_edges(g),
        st.completed.len() == g.n(),
        st.blocked.len() == g.n(),
        none_blocked(st),
    ensures
        ({
            let s = successful_rounds(g, st, k);
            &&& s.completed.len() == g.n()
            &&& none_blocked(s)
            &&& (count_marked(st.completed) + k <= count_marked(s.completed) || forall|i: int|
                0 <= i < g.n() ==> #[trigger] s.completed[i])
            &&& (forall|i: int| 0 <= i < g.n() ==> #[trigger] st.completed[i]) ==> s == st
        }),
    decreases k,
{
    if k > 0 {
        lemma_success_round(g, st);
        let s1 = successful_round(g, st);
        lemma_successful_rounds(g, s1, (k - 1) as nat);
        assert(successful_rounds(g, st, k) == successful_rounds(g, s1, (k - 1) as nat));
        if forall|i: int| 0 <= i < g.n() ==> #[trigger] st.completed[i] {
            assert(s1 == st);
        }
    }
}

/// In a graph without cycles whose edges are all direct, an execution in
/// which every task succeeds runs every task: after as many rounds as there
/// are tasks, all have completed. A task runs in one round only, since a
/// round runs only tasks that have not completed and completes them.
pub proof fn law_all_tasks_run(g: GraphView)
    requires
        g.well_formed(),
        !g.has_cycle(),
        deps_from_edges(g),
        no_conditional_edges(g),
    ensures
        forall|i: int| 0 <= i < g.n() ==> #[trigger] successful_rounds(g, initial_state(g.n() as nat), g.n() as nat).completed[i],
        forall|st: ExecutionView, q: int|
            st.completed.len() == g.n() && 0 <= q < ready_tasks(g, st).len() ==> !st.completed[#[trigger] ready_tasks(g, st)[q]]
                && successful_round(g, st).completed[ready_tasks(g, st)[q]],
{
    let init = initial_state(g.n() as nat);
    assert(count_marked(init.completed) == 0) by {
        lemma_count_zero(init.completed);
    }
    lemma_successful_rounds(g, init, g.n() as nat);
    let s = successful_rounds(g, init, g.n() as nat);
    if count_marked(init.completed) + g.n() <= count_marked(s.completed) {
        lemma_count_full(s.completed);
    }
    assert forall|st: ExecutionView, q: int|
        st.completed.len() == g.n() && 0 <= q < ready_tasks(g, st).len() implies !st.completed[#[trigger] ready_tasks(g, st)[q]]
            && successful_round(g, st).completed[ready_tasks(g, st)[q]] by {
        law_scheduled_tasks_are_ready(g, st);
        let rt = ready_tasks(g, st);
        let rs = success_reports(g, rt);
        assert forall|j: int| 0 <= j < rs.len() implies g.has_id(#[trigger] rs[j].task_id) && g.index(rs[j].task_id) == rt[j] by {
            let x = rt[j];
            assert(rs[j].task_id == g.ids[x]);
            assert(g.ids.contains(g.ids[x]));
            let y = g.index(g.ids[x]);
            assert(g.ids[y] == g.ids[x]);
        }
        assert(reports_fit(g, rs)) by {
            assert forall|j: int| 0 <= j < rs.len() implies {
                &&& g.has_id(#[trigger] rs[j].task_id)
                &&& rs[j].outcome matches Ok(o) ==> o.len() == cond_count(g.links[g.index(rs[j].task_id)])
            } by {
                let i = rt[j];
                assert forall|k: int| 0 <= k < g.links[i].len() implies !(#[trigger] g.links[i][k]).conditional by {
                    assert(!(g.links[i][k]).conditional);
                }
                lemma_no_conditional_count(g.links[i]);
            }
        }
        law_successes_complete(g, st, rs);
        assert(g.index(rs[q].task_id) == rt[q]);
    }
}

proof fn lemma_count_zero(s: Seq<bool>)
    requires
        forall|i: int| 0 <= i < s.len() ==> !#[trigger] s[i],
    ensures
        count_marked(s) == 0,
    decreases s.len(),
{
    if s.len() > 0 {
        let t = s.drop_last();
        assert forall|i: int| 0 <= i < t.len() implies !#[trigger] t[i] by {
            assert(t[i] == s[i]);
        }
        lemma_count_zero(t);
    }
}
/// Graphs built with `add_task`, `add_edge` and `add_cond_edge` keep every
/// dependency backed by an edge (a task waits only for tasks with an edge
/// leading to it, as target or as else task), and those built with
/// `add_task` and `add_edge` alone have no conditional edge.
pub proof fn law_edges_back_dependencies(g: GraphView, id: Seq<char>, f: int, l: LinkView)
    requires
        g.well_formed(),
        0 <= f < g.n(),
        0 <= l.target < g.n(),
        l.else_target matches Some(e) ==> 0 <= e < g.n(),
    ensures
        deps_from_edges(g) ==> deps_from_edges(g.with_task(id)),
        deps_from_edges(g) ==> deps_from_edges(g.with_edge(f, l)),
        no_conditional_edges(g) ==> no_conditional_edges(g.with_task(id)),
        no_conditional_edges(g) && !l.conditional ==> no_conditional_edges(g.with_edge(f, l)),
{
    let h = g.with_task(id);
    let k2 = g.with_edge(f, l);
    lemma_edges_of_with_edge(g, f, l);
    assert(k2.links == g.links.update(f, g.links[f].push(l)));
    if !g.has_id(id) {
        assert forall|x: int, y: int| #[trigger] g.edge(x, y) implies h.edge(x, y) by {
            let k = choose|k: int| 0 <= k < g.links[x].len() && #[trigger] g.links[x][k].leads_to(y);
            assert(h.links[x][k] == g.links[x][k]);
        }
        if deps_from_edges(g) {
            assert forall|i: int, d: int| 0 <= i < h.n() && #[trigger] h.deps[i].contains(d) implies h.edge(d, i) by {
                if i < g.n() {
                    assert(h.deps[i] == g.deps[i]);
                    assert(g.edge(d, i));
                }
            }
        }
        if no_conditional_edges(g) {
            assert forall|i: int, k: int| 0 <= i < h.n() && 0 <= k < h.links[i].len() implies !(#[trigger] h.links[i][k]).conditional by {
                if i < g.n() {
                    assert(h.links[i][k] == g.links[i][k]);
                }
            }
        }
    }
    if deps_from_edges(g) {
        assert forall|i: int, d: int| 0 <= i < k2.n() && #[trigger] k2.deps[i].contains(d) implies k2.edge(d, i) by {
            if d == f && l.leads_to(i) {
                assert(k2.edge(f, i));
            } else {
                assert(g.deps[i].contains(d));
                assert(g.edge(d, i));
            }
        }
    }
    if no_conditional_edges(g) && !l.conditional {
        assert forall|i: int, k: int| 0 <= i < k2.n() && 0 <= k < k2.links[i].len() implies !(#[trigger] k2.links[i][k]).conditional by {
            if i == f && k == g.links[f].len() {
            } else {
                assert(k2.links[i][k] == g.links[i][k]);
            }
        }
    }
}
proof fn lemma_block_after_keeps(b: Seq<bool>, links: Seq<LinkView>, o: Seq<bool>, x: int)
    requires
        0 <= x < b.len(),
        b[x],
        forall|k: int| 0 <= k < links.len() ==> 0 <= #[trigger] links[k].target < b.len(),
        forall|k: int| 0 <= k < links.len() ==> (#[trigger] links[k].else_target matches Some(e) ==> 0 <= e < b.len()),
        forall|k: int| 0 <= k < links.len() && (#[trigger] links[k]).conditional ==> links[k].else_target != Some(x),
    ensures
        block_after(b, links, o).len() == b.len(),
        block_after(b, links, o)[x],
    decreases links.len(),
{
    if links.len() > 0 {
        let rest = links.drop_last();
        assert forall|k: int| 0 <= k < rest.len() implies 0 <= #[trigger] rest[k].target < b.len() by {
            assert(rest[k] == links[k]);
        }
        assert forall|k: int| 0 <= k < rest.len() implies (#[trigger] rest[k].else_target matches Some(e) ==> 0 <= e < b.len()) by {
            assert(rest[k] == links[k]);
        }
        assert forall|k: int| 0 <= k < rest.len() && (#[trigger] rest[k]).conditional implies rest[k].else_target != Some(x) by {
            assert(rest[k] == links[k]);
        }
        lemma_block_after_keeps(b, rest, o.drop_last(), x);
        lemma_block_after_keeps(b, rest, o, x);
        let l = links.last();
        assert(l == links[links.len() - 1]);
    }
}

/// A task that a condition blocked stays blocked, and so never runs, for
/// as long as no task with a conditional edge that has it as else task
/// completes: a branch that was not taken is not taken later. With
/// `law_condition_decides_branch` and `law_scheduled_tasks_are_ready`: when
/// the condition holds the else task never runs, and when it fails the
/// target never runs, unless another conditional edge names it as else task.
pub proof fn law_blocked_stays_blocked(g: GraphView, st: ExecutionView, rs: Seq<ReportView>, x: int)
    requires
        g.well_formed(),
        0 <= x < g.n(),
        st.blocked.len() == g.n(),
        st.blocked[x],
        reports_fit(g, rs),
        forall|j: int, k: int|
            0 <= j < rs.len() && 0 <= k < g.links[g.index(rs[j].task_id)].len() && (#[trigger] g.links[g.index(
                #[trigger] rs[j].task_id,
            )][k]).conditional ==> g.links[g.index(rs[j].task_id)][k].else_target != Some(x),
    ensures
        after_reports(g, st, rs).blocked.len() == g.n(),
        after_reports(g, st, rs).blocked[x],
        !ready_tasks(g, after_reports(g, st, rs)).contains(x),
    decreases rs.len(),
{
    if rs.len() > 0 {
        let rest = rs.drop_last();
        assert(reports_fit(g, rest)) by {
            assert forall|j: int| 0 <= j < rest.len() implies {
                &&& g.has_id(#[trigger] rest[j].task_id)
                &&& rest[j].outcome matches Ok(o) ==> o.len() == cond_count(g.links[g.index(rest[j].task_id)])
            } by {
                assert(rest[j] == rs[j]);
                assert(g.has_id(rs[j].task_id));
            }
        }
        assert forall|j: int, k: int|
            0 <= j < rest.len() && 0 <= k < g.links[g.index(rest[j].task_id)].len() && (#[trigger] g.links[g.index(
                #[trigger] rest[j].task_id,
            )][k]).conditional implies g.links[g.index(rest[j].task_id)][k].else_target != Some(x) by {
            assert(rest[j] == rs[j]);
        }
        law_blocked_stays_blocked(g, st, rest, x);
        let r = rs.last();
        let j0 = rs.len() - 1;
        assert(r == rs[j0]);
        assert(g.has_id(rs[j0].task_id));
        let i = g.index(r.task_id);
        assert(g.ids[i] == r.task_id);
        let links = g.links[i];
        assert forall|k: int| 0 <= k < links.len() implies 0 <= #[trigger] links[k].target < g.n() by {
            assert(links[k] == g.links[i][k]);
        }
        assert forall|k: int| 0 <= k < links.len() implies (#[trigger] links[k].else_target matches Some(e) ==> 0
            <= e < g.n()) by {
            assert(links[k] == g.links[i][k]);
        }
        assert forall|k: int| 0 <= k < links.len() && (#[trigger] links[k]).conditional implies links[k].else_target
            != Some(x) by {
            assert(g.links[g.index(rs[j0].task_id)][k].conditional);
        }
        let prev = after_reports(g, st, rest);
        match r.outcome {
            Ok(o) => {
                lemma_block_after_keeps(prev.blocked, links, o, x);
            },
            Err(_) => {},
        }
    }
    law_scheduled_tasks_are_ready(g, after_reports(g, st, rs));
    if ready_tasks(g, after_reports(g, st, rs)).contains(x) {
        let q = choose|q: int| 0 <= q < ready_tasks(g, after_reports(g, st, rs)).len() && ready_tasks(g, after_reports(g, st, rs))[q] == x;
        assert(!after_reports(g, st, rs).blocked[ready_tasks(g, after_reports(g, st, rs))[q]]);
    }
}

/// `reports` tells of the tasks of `batch`, in order: one report each, a
/// success with one outcome for each conditional edge of the task.
pub open spec fn batch_succeeded(g: GraphView, batch: Seq<int>, reports: Seq<ReportView>) -> bool {
    &&& reports.len() == batch.len()
    &&& forall|j: int|
        0 <= j < reports.len() ==> {
            &&& (#[trigger] reports[j]).task_id == g.ids[batch[j]]
            &&& reports[j].outcome matches Ok(o) && o.len() == cond_count(g.links[batch[j]])
        }
}

/// `sts` are the states of an execution whose rounds all succeeded: it
/// starts before any task has run, and in round `k` the tasks that
/// `next_action` hands out in state `sts[k]` run, succeed and report
/// `rounds[k]`, which `apply_results` turns into state `sts[k + 1]`.
pub open spec fn successful_run(g: GraphView, sts: Seq<ExecutionView>, rounds: Seq<Seq<ReportView>>) -> bool {
    &&& sts.len() == rounds.len() + 1
    &&& sts[0] == initial_state(g.n() as nat)
    &&& forall|k: int|
        0 <= k < rounds.len() ==> {
            &&& ready_tasks(g, sts[k]).len() > 0
            &&& batch_succeeded(g, ready_tasks(g, sts[k]), #[trigger] rounds[k])
            &&& sts[k + 1] == after_reports(g, sts[k], rounds[k])
        }
}

/// What one round of a successful run does: the reports fit the graph,
/// completed tasks stay completed, the tasks of the batch complete, and
/// more tasks have completed than before.
proof fn lemma_run_step(g: GraphView, sts: Seq<ExecutionView>, rounds: Seq<Seq<ReportView>>, k: int)
    requires
        g.well_formed(),
        successful_run(g, sts, rounds),
        0 <= k < rounds.len(),
        sts[k].completed.len() == g.n(),
    ensures
        reports_fit(g, rounds[k]),
        sts[k + 1].completed.len() == g.n(),
        forall|i: int| 0 <= i < g.n() && sts[k].completed[i] ==> #[trigger] sts[k + 1].completed[i],
        forall|q: int|
            0 <= q < ready_tasks(g, sts[k]).len() ==> sts[k + 1].completed[#[trigger] ready_tasks(g, sts[k])[q]],
        forall|j: int| 0 <= j < rounds[k].len() ==> g.index(#[trigger] rounds[k][j].task_id) == ready_tasks(g, sts[k])[j],
        count_marked(sts[k].completed) < count_marked(sts[k + 1].completed),
        count_marked(sts[k + 1].completed) <= g.n(),
{
    let st = sts[k];
    let rs = rounds[k];
    let batch = ready_tasks(g, st);
    assert(batch_succeeded(g, batch, rs));
    law_scheduled_tasks_are_ready(g, st);
    assert forall|j: int| 0 <= j < rs.len() implies g.has_id(#[trigger] rs[j].task_id) && g.index(rs[j].task_id)
        == batch[j] by {
        let x = batch[j];
        assert(rs[j].task_id == g.ids[x]);
        assert(g.ids.contains(g.ids[x]));
        let y = g.index(g.ids[x]);
        assert(g.ids[y] == g.ids[x]);
    }
    assert(reports_fit(g, rs)) by {
        assert forall|j: int| 0 <= j < rs.len() implies {
            &&& g.has_id(#[trigger] rs[j].task_id)
            &&& rs[j].outcome matches Ok(o) ==> o.len() == cond_count(g.links[g.index(rs[j].task_id)])
        } by {
            assert(g.index(rs[j].task_id) == batch[j]);
        }
    }
    assert forall|j: int| 0 <= j < rs.len() implies #[trigger] rs[j].outcome is Ok by {
        assert(rs[j].task_id == g.ids[batch[j]]);
    }
    law_successes_complete(g, st, rs);
    assert(g.index(rs[0].task_id) == batch[0]);
    law_execution_progresses(g, st, rs);
    assert forall|q: int| 0 <= q < batch.len() implies sts[k + 1].completed[#[trigger] batch[q]] by {
        assert(g.index(rs[q].task_id) == batch[q]);
    }
}

/// The first `k` states of a successful run: the tasks of every round so far
/// have completed, and at least `k` tasks have.
proof fn lemma_run_prefix(g: GraphView, sts: Seq<ExecutionView>, rounds: Seq<Seq<ReportView>>, k: int)
    requires
        g.well_formed(),
        successful_run(g, sts, rounds),
        0 <= k <= rounds.len(),
    ensures
        sts[k].completed.len() == g.n(),
        k <= count_marked(sts[k].completed),
        forall|k1: int, q: int|
            0 <= k1 < k && 0 <= q < ready_tasks(g, sts[k1]).len() ==> sts[k].completed[#[trigger] ready_tasks(
                g,
                sts[k1],
            )[q]],
    decreases k,
{
    if k == 0 {
        assert(sts[0].completed.len() == g.n());
    } else {
        lemma_run_prefix(g, sts, rounds, k - 1);
        lemma_run_step(g, sts, rounds, k - 1);
        law_scheduled_tasks_are_ready(g, sts[k - 1]);
        assert forall|k1: int, q: int|
            0 <= k1 < k && 0 <= q < ready_tasks(g, sts[k1]).len() implies sts[k].completed[#[trigger] ready_tasks(
            g,
            sts[k1],
        )[q]] by {
            if k1 < k - 1 {
                let x = ready_tasks(g, sts[k1])[q];
                law_scheduled_tasks_are_ready(g, sts[k1]);
                assert(sts[k - 1].completed[x]);
                assert(0 <= x < g.n());
            }
        }
    }
}

/// Completed tasks stay completed along a successful run.
proof fn lemma_run_keeps_completed(g: GraphView, sts: Seq<ExecutionView>, rounds: Seq<Seq<ReportView>>, k0: int, k: int)
    requires
        g.well_formed(),
        successful_run(g, sts, rounds),
        0 <= k0 <= k <= rounds.len(),
    ensures
        forall|i: int| 0 <= i < g.n() && sts[k0].completed[i] ==> #[trigger] sts[k].completed[i],
    decreases k - k0,
{
    if k0 < k {
        lemma_run_keeps_completed(g, sts, rounds, k0, k - 1);
        lemma_run_prefix(g, sts, rounds, k - 1);
        lemma_run_step(g, sts, rounds, k - 1);
    }
}

/// An execution whose rounds all succeed ends after at most as many rounds
/// as the graph has tasks, and runs each task at most once: no task is in
/// two rounds, nor twice in one round.
pub proof fn law_run_is_bounded(g: GraphView, sts: Seq<ExecutionView>, rounds: Seq<Seq<ReportView>>)
    requires
        g.well_formed(),
        successful_run(g, sts, rounds),
    ensures
        rounds.len() <= g.n(),
        forall|k1: int, k2: int, q1: int, q2: int|
            0 <= k1 < k2 < rounds.len() && 0 <= q1 < ready_tasks(g, sts[k1]).len() && 0 <= q2 < ready_tasks(
                g,
                sts[k2],
            ).len() ==> #[trigger] ready_tasks(g, sts[k1])[q1] != #[trigger] ready_tasks(g, sts[k2])[q2],
        forall|k: int| 0 <= k < rounds.len() ==> (#[trigger] ready_tasks(g, sts[k])).no_duplicates(),
{
    let m = rounds.len() as int;
    lemma_run_prefix(g, sts, rounds, m);
    lemma_count_marked(sts[m].completed, sts[m].completed);
    assert forall|k1: int, k2: int, q1: int, q2: int|
        0 <= k1 < k2 < rounds.len() && 0 <= q1 < ready_tasks(g, sts[k1]).len() && 0 <= q2 < ready_tasks(
            g,
            sts[k2],
        ).len() implies #[trigger] ready_tasks(g, sts[k1])[q1] != #[trigger] ready_tasks(g, sts[k2])[q2] by {
        lemma_run_prefix(g, sts, rounds, k2);
        law_scheduled_tasks_are_ready(g, sts[k2]);
        assert(sts[k2].completed[ready_tasks(g, sts[k1])[q1]]);
        assert(!sts[k2].completed[ready_tasks(g, sts[k2])[q2]]);
    }
    assert forall|k: int| 0 <= k < rounds.len() implies (#[trigger] ready_tasks(g, sts[k])).no_duplicates() by {
        law_scheduled_tasks_are_ready(g, sts[k]);
    }
}

/// A task blocked by a condition at some point of a successful run never
/// runs in a later round, when every conditional edge that names it as else
/// task leaves a task that had completed by then. With
/// `law_condition_decides_branch`: once a condition is decided, the branch
/// it did not take never runs.
pub proof fn law_blocked_never_runs_later(
    g: GraphView,
    sts: Seq<ExecutionView>,
    rounds: Seq<Seq<ReportView>>,
    k: int,
    x: int,
)
    requires
        g.well_formed(),
        successful_run(g, sts, rounds),
        0 <= k <= rounds.len(),
        0 <= x < g.n(),
        sts[k].blocked.len() == g.n(),
        sts[k].blocked[x],
        forall|i: int, c: int|
            0 <= i < g.n() && 0 <= c < g.links[i].len() && (#[trigger] g.links[i][c]).conditional
                && g.links[i][c].else_target == Some(x) ==> sts[k].completed[i],
    ensures
        forall|k2: int| k <= k2 < rounds.len() ==> !(#[trigger] ready_tasks(g, sts[k2])).contains(x),
{
    assert forall|k2: int| k <= k2 < rounds.len() implies !(#[trigger] ready_tasks(g, sts[k2])).contains(x) by {
        lemma_blocked_until(g, sts, rounds, k, x, k2);
        law_scheduled_tasks_are_ready(g, sts[k2]);
        if ready_tasks(g, sts[k2]).contains(x) {
            let q = choose|q: int| 0 <= q < ready_tasks(g, sts[k2]).len() && ready_tasks(g, sts[k2])[q] == x;
            assert(!sts[k2].blocked[ready_tasks(g, sts[k2])[q]]);
        }
    }
}

proof fn lemma_blocked_until(
    g: GraphView,
    sts: Seq<ExecutionView>,
    rounds: Seq<Seq<ReportView>>,
    k: int,
    x: int,
    k2: int,
)
    requires
        g.well_formed(),
        successful_run(g, sts, rounds),
        0 <= k <= k2 <= rounds.len(),
        0 <= x < g.n(),
        sts[k].blocked.len() == g.n(),
        sts[k].blocked[x],
        forall|i: int, c: int|
            0 <= i < g.n() && 0 <= c < g.links[i].len() && (#[trigger] g.links[i][c]).conditional
                && g.links[i][c].else_target == Some(x) ==> sts[k].completed[i],
    ensures
        sts[k2].blocked.len() == g.n(),
        sts[k2].blocked[x],
    decreases k2 - k,
{
    if k < k2 {
        let k1 = k2 - 1;
        lemma_blocked_until(g, sts, rounds, k, x, k1);
        lemma_run_prefix(g, sts, rounds, k1);
        lemma_run_step(g, sts, rounds, k1);
        lemma_run_keeps_completed(g, sts, rounds, k, k1);
        law_scheduled_tasks_are_ready(g, sts[k1]);
        let rs = rounds[k1];
        let batch = ready_tasks(g, sts[k1]);
        assert forall|j: int, c: int|
            0 <= j < rs.len() && 0 <= c < g.links[g.index(rs[j].task_id)].len() && (#[trigger] g.links[g.index(
                #[trigger] rs[j].task_id,
            )][c]).conditional implies g.links[g.index(rs[j].task_id)][c].else_target != Some(x) by {
            let i = g.index(rs[j].task_id);
            assert(i == batch[j]);
            assert(!sts[k1].completed[batch[j]]);
            if g.links[i][c].else_target == Some(x) {
                assert(sts[k].completed[i]);
            }
        }
        law_blocked_stays_blocked(g, sts[k1], rs, x);
    }
}


/// The task that the outcome `b` of the conditional edge `l` leaves out: its
/// else task when the condition held, its target when it failed.
pub open spec fn branch_not_taken(l: LinkView, b: bool) -> Option<int> {
    if b {
        l.else_target
    } else {
        Some(l.target)
    }
}

/// Deciding conditional edges keeps as many flags as there are.
proof fn lemma_block_after_len(b: Seq<bool>, links: Seq<LinkView>, o: Seq<bool>)
    requires
        forall|k: int| 0 <= k < links.len() ==> 0 <= #[trigger] links[k].target < b.len(),
        forall|k: int| 0 <= k < links.len() ==> (#[trigger] links[k].else_target matches Some(e) ==> 0 <= e < b.len()),
    ensures
        block_after(b, links, o).len() == b.len(),
    decreases links.len(),
{
    if links.len() > 0 {
        let rest = links.drop_last();
        assert forall|k: int| 0 <= k < rest.len() implies 0 <= #[trigger] rest[k].target < b.len() by {
            assert(rest[k] == links[k]);
        }
        assert forall|k: int| 0 <= k < rest.len() implies (#[trigger] rest[k].else_target matches Some(e) ==> 0 <= e
            < b.len()) by {
            assert(rest[k] == links[k]);
        }
        lemma_block_after_len(b, rest, o.drop_last());
        lemma_block_after_len(b, rest, o);
        assert(links.last() == links[links.len() - 1]);
    }
}

/// Once conditional edge `c` has been decided, the task it left out stays
/// blocked through the later edges of the same task, none of which names
/// that task as else task.
proof fn lemma_branch_stays_blocked(b: Seq<bool>, links: Seq<LinkView>, o: Seq<bool>, c: int, x: int, m: int)
    requires
        forall|k: int| 0 <= k < links.len() ==> 0 <= #[trigger] links[k].target < b.len(),
        forall|k: int| 0 <= k < links.len() ==> (#[trigger] links[k].else_target matches Some(e) ==> 0 <= e < b.len()),
        0 <= x < b.len(),
        0 <= c < m <= links.len(),
        links[c].conditional,
        links[c].else_target != Some(links[c].target),
        o.len() == cond_count(links),
        branch_not_taken(links[c], o[cond_count(links.take(c)) as int]) == Some(x),
        forall|k: int|
            0 <= k < links.len() && (#[trigger] links[k]).conditional && links[k].else_target == Some(x) ==> k == c,
    ensures
        block_after(b, links.take(m), o.take(cond_count(links.take(m)) as int))[x],
    decreases m,
{
    let lm = links.take(m);
    let pre = links.take(m - 1);
    assert(lm.drop_last() =~= pre);
    assert(lm.last() == links[m - 1]);
    lemma_cond_count_prefix(links, m);
    lemma_cond_count_prefix(links, m - 1);
    let cm = cond_count(lm) as int;
    let cp = cond_count(pre) as int;
    let om = o.take(cm);
    assert forall|k: int| 0 <= k < pre.len() implies 0 <= #[trigger] pre[k].target < b.len() by {
        assert(pre[k] == links[k]);
    }
    assert forall|k: int| 0 <= k < pre.len() implies (#[trigger] pre[k].else_target matches Some(e) ==> 0 <= e
        < b.len()) by {
        assert(pre[k] == links[k]);
    }
    if links[m - 1].conditional {
        assert(cm == cp + 1);
        assert(om.drop_last() =~= o.take(cp));
        assert(om.last() == o[cp]);
        lemma_block_after_len(b, pre, o.take(cp));
        let prev = block_after(b, pre, o.take(cp));
        assert(block_after(b, lm, om) == block_step(prev, links[m - 1], o[cp]));
        if m - 1 == c {
            assert(pre =~= links.take(c));
        } else {
            lemma_branch_stays_blocked(b, links, o, c, x, m - 1);
            assert(links[m - 1].else_target != Some(x));
        }
    } else {
        assert(cm == cp);
        assert(m - 1 != c);
        lemma_branch_stays_blocked(b, links, o, c, x, m - 1);
        assert(block_after(b, lm, om) == block_after(b, pre, om));
    }
}

/// Taking reports keeps as many blocked flags as there are tasks.
proof fn lemma_after_reports_len(g: GraphView, st: ExecutionView, rs: Seq<ReportView>)
    requires
        g.well_formed(),
        st.blocked.len() == g.n(),
        forall|j: int| 0 <= j < rs.len() ==> g.has_id(#[trigger] rs[j].task_id),
    ensures
        after_reports(g, st, rs).blocked.len() == g.n(),
    decreases rs.len(),
{
    if rs.len() > 0 {
        let rest = rs.drop_last();
        assert forall|j: int| 0 <= j < rest.len() implies g.has_id(#[trigger] rest[j].task_id) by {
            assert(rest[j] == rs[j]);
        }
        lemma_after_reports_len(g, st, rest);
        let r = rs.last();
        assert(r == rs[rs.len() - 1]);
        let i = g.index(r.task_id);
        assert(g.ids[i] == r.task_id);
        let prev = after_reports(g, st, rest);
        match r.outcome {
            Ok(o) => {
                lemma_block_after_len(prev.blocked, g.links[i], o);
            },
            Err(_) => {},
        }
    }
}

/// Every state of a successful run has a blocked flag per task.
proof fn lemma_run_blocked_len(g: GraphView, sts: Seq<ExecutionView>, rounds: Seq<Seq<ReportView>>, k: int)
    requires
        g.well_formed(),
        successful_run(g, sts, rounds),
        0 <= k <= rounds.len(),
    ensures
        sts[k].blocked.len() == g.n(),
    decreases k,
{
    if k > 0 {
        lemma_run_blocked_len(g, sts, rounds, k - 1);
        lemma_run_prefix(g, sts, rounds, k - 1);
        lemma_run_step(g, sts, rounds, k - 1);
        lemma_after_reports_len(g, sts[k - 1], rounds[k - 1]);
    }
}

/// A task blocked after report `q` stays blocked through the later reports
/// of the same round, when none of the tasks they tell of has a conditional
/// edge that names it as else task.
proof fn lemma_blocked_through_reports(g: GraphView, st: ExecutionView, rs: Seq<ReportView>, q: int, x: int, j: int)
    requires
        g.well_formed(),
        reports_fit(g, rs),
        0 <= q < j <= rs.len(),
        0 <= x < g.n(),
        after_reports(g, st, rs.take(q + 1)).blocked.len() == g.n(),
        after_reports(g, st, rs.take(q + 1)).blocked[x],
        forall|j2: int, c: int|
            q < j2 < rs.len() && 0 <= c < g.links[g.index(rs[j2].task_id)].len() && (#[trigger] g.links[g.index(
                #[trigger] rs[j2].task_id,
            )][c]).conditional ==> g.links[g.index(rs[j2].task_id)][c].else_target != Some(x),
    ensures
        after_reports(g, st, rs.take(j)).blocked.len() == g.n(),
        after_reports(g, st, rs.take(j)).blocked[x],
    decreases j,
{
    if j > q + 1 {
        lemma_blocked_through_reports(g, st, rs, q, x, j - 1);
        let r = rs[j - 1];
        assert(rs.take(j).drop_last() =~= rs.take(j - 1));
        assert(rs.take(j).last() == r);
        assert(g.has_id(r.task_id));
        let i = g.index(r.task_id);
        assert(g.ids[i] == r.task_id);
        let prev = after_reports(g, st, rs.take(j - 1));
        let links = g.links[i];
        assert forall|k: int| 0 <= k < links.len() implies 0 <= #[trigger] links[k].target < g.n() by {
            assert(links[k] == g.links[i][k]);
        }
        assert forall|k: int| 0 <= k < links.len() implies (#[trigger] links[k].else_target matches Some(e) ==> 0
            <= e < g.n()) by {
            assert(links[k] == g.links[i][k]);
        }
        assert forall|k: int| 0 <= k < links.len() && (#[trigger] links[k]).conditional implies links[k].else_target
            != Some(x) by {
            assert(g.links[g.index(rs[j - 1].task_id)][k].conditional);
        }
        match r.outcome {
            Ok(o) => {
                lemma_block_after_keeps(prev.blocked, links, o, x);
            },
            Err(_) => {},
        }
    }
}

/// In round `k` of an execution whose rounds all succeed, the task at
/// position `q` of the batch runs and its report decides its conditional
/// edge `c`; the task `x` that the condition left out (the else task when
/// it held, the target when it failed) is blocked from then on and runs in
/// no later round. This holds when no other conditional edge names `x` as
/// else task, and the edge's else task is not its target.
pub proof fn law_branch_not_taken_never_runs(
    g: GraphView,
    sts: Seq<ExecutionView>,
    rounds: Seq<Seq<ReportView>>,
    k: int,
    q: int,
    c: int,
    x: int,
)
    requires
        g.well_formed(),
        successful_run(g, sts, rounds),
        0 <= k < rounds.len(),
        0 <= q < ready_tasks(g, sts[k]).len(),
        ({
            let i = ready_tasks(g, sts[k])[q];
            let l = g.links[i][c];
            &&& 0 <= c < g.links[i].len()
            &&& l.conditional
            &&& l.else_target != Some(l.target)
            &&& rounds[k][q].outcome matches Ok(o) && branch_not_taken(l, o[cond_count(g.links[i].take(c)) as int])
                == Some(x)
            &&& forall|i2: int, c2: int|
                0 <= i2 < g.n() && 0 <= c2 < g.links[i2].len() && (#[trigger] g.links[i2][c2]).conditional
                    && g.links[i2][c2].else_target == Some(x) ==> i2 == i && c2 == c
        }),
    ensures
        sts[k + 1].blocked[x],
        forall|k2: int| k < k2 < rounds.len() ==> !(#[trigger] ready_tasks(g, sts[k2])).contains(x),
{
    let st = sts[k];
    let rs = rounds[k];
    let batch = ready_tasks(g, st);
    let i = batch[q];
    let links = g.links[i];
    lemma_run_prefix(g, sts, rounds, k);
    lemma_run_blocked_len(g, sts, rounds, k);
    lemma_run_step(g, sts, rounds, k);
    law_scheduled_tasks_are_ready(g, st);
    assert(batch_succeeded(g, batch, rs));
    assert(g.index(rs[q].task_id) == i);
    assert(0 <= i < g.n());
    let o = rs[q].outcome->Ok_0;
    assert(o.len() == cond_count(links));
    assert(0 <= x < g.n()) by {
        if o[cond_count(links.take(c)) as int] {
            assert(links[c] == g.links[i][c]);
        }
    }
    // the reports before `q`
    let before = rs.take(q);
    assert forall|j: int| 0 <= j < before.len() implies g.has_id(#[trigger] before[j].task_id) by {
        assert(before[j] == rs[j]);
    }
    lemma_after_reports_len(g, st, before);
    let prev = after_reports(g, st, before);
    assert(rs.take(q + 1).drop_last() =~= before);
    assert(rs.take(q + 1).last() == rs[q]);
    assert forall|kk: int| 0 <= kk < links.len() implies 0 <= #[trigger] links[kk].target < prev.blocked.len() by {
        assert(links[kk] == g.links[i][kk]);
    }
    assert forall|kk: int| 0 <= kk < links.len() implies (#[trigger] links[kk].else_target matches Some(e) ==> 0
        <= e < prev.blocked.len()) by {
        assert(links[kk] == g.links[i][kk]);
    }
    assert forall|kk: int|
        0 <= kk < links.len() && (#[trigger] links[kk]).conditional && links[kk].else_target == Some(x) implies kk
        == c by {
        assert(g.links[i][kk].conditional);
    }
    lemma_branch_stays_blocked(prev.blocked, links, o, c, x, links.len() as int);
    assert(links.take(links.len() as int) =~= links);
    lemma_cond_count_prefix(links, links.len() as int);
    assert(o.take(cond_count(links) as int) =~= o);
    lemma_block_after_len(prev.blocked, links, o);
    assert(after_reports(g, st, rs.take(q + 1)).blocked[x]);
    // the reports after `q`
    assert forall|j2: int, c2: int|
        q < j2 < rs.len() && 0 <= c2 < g.links[g.index(rs[j2].task_id)].len() && (#[trigger] g.links[g.index(
            #[trigger] rs[j2].task_id,
        )][c2]).conditional implies g.links[g.index(rs[j2].task_id)][c2].else_target != Some(x) by {
        assert(g.index(rs[j2].task_id) == batch[j2]);
        assert(batch[j2] != batch[q]);
    }
    lemma_blocked_through_reports(g, st, rs, q, x, rs.len() as int);
    assert(rs.take(rs.len() as int) =~= rs);
    assert(sts[k + 1].blocked[x]);
    // later rounds
    assert forall|i2: int, c2: int|
        0 <= i2 < g.n() && 0 <= c2 < g.links[i2].len() && (#[trigger] g.links[i2][c2]).conditional
            && g.links[i2][c2].else_target == Some(x) implies sts[k + 1].completed[i2] by {
        assert(i2 == i);
    }
    lemma_run_blocked_len(g, sts, rounds, k + 1);
    law_blocked_never_runs_later(g, sts, rounds, k + 1, x);
}


/// Walking back from a task that has not run, over tasks that have not run
/// and that no blocked task that has not run reaches, when no task can run.
proof fn lemma_back_walk_unblocked(g: GraphView, st: ExecutionView, x: int, len: int)
    requires
        g.well_formed(),
        deps_from_edges(g),
        st.completed.len() == g.n(),
        st.blocked.len() == g.n(),
        forall|i: int| 0 <= i < g.n() ==> !#[trigger] ready(g, st, i),
        0 <= x < g.n(),
        !st.completed[x],
        forall|b: int| 0 <= b < g.n() && #[trigger] st.blocked[b] && !st.completed[b] ==> !g.reaches(b, x),
        len >= 1,
    ensures
        exists|p: Seq<int>|
            #[trigger] g.is_path(p) && p.len() == len && p.last() == x && forall|k: int|
                0 <= k < p.len() ==> !st.completed[#[trigger] p[k]],
    decreases len,
{
    if len == 1 {
        let p = seq![x];
        assert(g.is_path(p));
        assert(forall|k: int| 0 <= k < p.len() ==> !st.completed[#[trigger] p[k]]);
    } else {
        lemma_back_walk_unblocked(g, st, x, len - 1);
        let p = choose|p: Seq<int>|
            #[trigger] g.is_path(p) && p.len() == len - 1 && p.last() == x && forall|k: int|
                0 <= k < p.len() ==> !st.completed[#[trigger] p[k]];
        let y = p[0];
        assert(!st.completed[y]);
        assert(g.reaches(y, x));
        assert(!st.blocked[y]);
        assert(!ready(g, st, y));
        let d = choose|d: int| #[trigger] g.deps[y].contains(d) && !st.completed[d];
        assert(g.edge(d, y));
        let q = seq![d] + p;
        assert forall|k: int| 0 <= k < q.len() implies 0 <= #[trigger] q[k] < g.n() by {
            if k == 0 {
                lemma_edge_in_range(g, d, y);
            } else {
                assert(q[k] == p[k - 1]);
            }
        }
        assert forall|k: int| 0 <= k < q.len() - 1 implies #[trigger] g.edge(q[k], q[k + 1]) by {
            if k > 0 {
                assert(q[k] == p[k - 1]);
                assert(q[k + 1] == p[k]);
                assert(g.edge(p[k - 1], p[(k - 1) + 1]));
            }
        }
        assert(g.is_path(q));
        assert(q.last() == x);
        assert forall|k: int| 0 <= k < q.len() implies !st.completed[#[trigger] q[k]] by {
            if k > 0 {
                assert(q[k] == p[k - 1]);
            }
        }
    }
}

/// In a graph without cycles in which every task waits only for tasks with
/// an edge leading to it, an execution stops only where conditions cut it
/// off: when no task can run, every task that has not run is blocked, or is
/// reached from a blocked task that has not run. Every task that the
/// conditions leave reachable runs.
pub proof fn law_stops_only_behind_blocked(g: GraphView, st: ExecutionView)
    requires
        g.well_formed(),
        !g.has_cycle(),
        deps_from_edges(g),
        st.completed.len() == g.n(),
        st.blocked.len() == g.n(),
        ready_tasks(g, st).len() == 0,
    ensures
        forall|x: int|
            0 <= x < g.n() && !#[trigger] st.completed[x] ==> exists|b: int|
                0 <= b < g.n() && st.blocked[b] && !st.completed[b] && #[trigger] g.reaches(b, x),
{
    assert forall|i: int| 0 <= i < g.n() implies !#[trigger] ready(g, st, i) by {
        if ready(g, st, i) {
            lemma_ready_upto_nonempty(g, st, g.n(), i);
        }
    }
    assert forall|x: int| 0 <= x < g.n() && !#[trigger] st.completed[x] implies exists|b: int|
        0 <= b < g.n() && st.blocked[b] && !st.completed[b] && #[trigger] g.reaches(b, x) by {
        if !exists|b: int| 0 <= b < g.n() && st.blocked[b] && !st.completed[b] && #[trigger] g.reaches(b, x) {
            assert forall|b: int| 0 <= b < g.n() && #[trigger] st.blocked[b] && !st.completed[b] implies !g.reaches(
                b,
                x,
            ) by {}
            lemma_back_walk_unblocked(g, st, x, g.n() + 1);
            let p = choose|p: Seq<int>|
                #[trigger] g.is_path(p) && p.len() == g.n() + 1 && p.last() == x && forall|k: int|
                    0 <= k < p.len() ==> !st.completed[#[trigger] p[k]];
            if p.no_duplicates() {
                lemma_distinct_bounded(p, g.n());
            }
            let (i, j) = choose|i: int, j: int| 0 <= i < p.len() && 0 <= j < p.len() && i != j && p[i] == p[j];
            let a = if i < j { i } else { j };
            let b = if i < j { j } else { i };
            let c = p.subrange(a, b + 1);
            assert forall|k: int| 0 <= k < c.len() implies 0 <= #[trigger] c[k] < g.n() by {
                assert(c[k] == p[a + k]);
            }
            assert forall|k: int| 0 <= k < c.len() - 1 implies #[trigger] g.edge(c[k], c[k + 1]) by {
                assert(c[k] == p[a + k]);
                assert(c[k + 1] == p[a + k + 1]);
                assert(g.edge(p[a + k], p[a + k + 1]));
            }
            assert(g.is_path(c));
            assert(c[0] == c.last());
            assert(g.has_cycle());
        }
    }
}


/// Among the reports up to `j`, of which `j` is a failure, some report is
/// the first failure.
proof fn lemma_least_failure(rv: Seq<ReportView>, j: int)
    requires
        0 <= j < rv.len(),
        rv[j].outcome is Err,
    ensures
        exists|m: int|
            0 <= m <= j && (#[trigger] rv[m]).outcome is Err && forall|k: int| 0 <= k < m ==> rv[k].outcome is Ok,
    decreases j,
{
    if exists|k: int| 0 <= k < j && (#[trigger] rv[k]).outcome is Err {
        let k = choose|k: int| 0 <= k < j && (#[trigger] rv[k]).outcome is Err;
        lemma_least_failure(rv, k);
    } else {
        assert(forall|k: int| 0 <= k < j ==> rv[k].outcome is Ok);
    }
}

/// A batch fails exactly when one of its reports is a failure, wherever it
/// stands in the batch, and the failure it ends with is the first one: the
/// report it names is a failure and every report before it a success. So
/// `apply_results` returns an error, and marks the execution failed, when
/// any task of the batch failed, and its message names the first task that
/// did.
pub proof fn law_first_failure(rv: Seq<ReportView>)
    ensures
        first_failure(rv) is Some <==> exists|j: int| 0 <= j < rv.len() && (#[trigger] rv[j]).outcome is Err,
        first_failure(rv) matches Some(j) ==> {
            &&& 0 <= j < rv.len()
            &&& rv[j].outcome is Err
            &&& forall|k: int| 0 <= k < j ==> (#[trigger] rv[k]).outcome is Ok
        },
        (forall|j: int| 0 <= j < rv.len() ==> (#[trigger] rv[j]).outcome is Ok) ==> first_failure(rv) is None,
{
    if exists|j: int| 0 <= j < rv.len() && (#[trigger] rv[j]).outcome is Err {
        let j = choose|j: int| 0 <= j < rv.len() && (#[trigger] rv[j]).outcome is Err;
        lemma_least_failure(rv, j);
    }
}

} // verus!
