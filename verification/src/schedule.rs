use vstd::prelude::*;
use vstd::string::*;

use crate::error::GraphError;
use crate::graph::{cond_count, GraphView, LinkView, TaskGraph};
use crate::value::strings_view;

verus! {

/// The model of an execution in progress: which tasks have completed,
/// which are blocked because a condition ruled them out, and whether a task
/// has failed, which ends the execution.
pub struct ExecutionView {
    pub completed: Seq<bool>,
    pub blocked: Seq<bool>,
    pub failed: bool,
}

/// The model of what became of a task that ran: `Ok` with the outcome of
/// each condition on its outgoing edges, or `Err` with the text of its
/// error.
pub struct ReportView {
    pub task_id: Seq<char>,
    pub outcome: Result<Seq<bool>, Seq<char>>,
}

/// What became of a task that ran: `Ok` with the outcome of each condition on
/// its conditional outgoing edges, in the order of the edges (as listed by
/// `TaskGraph::conditions`), or `Err` with the text of the task's error.
pub struct TaskReport {
    pub task_id: String,
    pub outcome: Result<Vec<bool>, String>,
}

impl View for TaskReport {
    type V = ReportView;

    open spec fn view(&self) -> ReportView {
        ReportView {
            task_id: self.task_id@,
            outcome: match self.outcome {
                Ok(v) => Ok(v@),
                Err(e) => Err(e@),
            },
        }
    }
}

/// What the runner of a graph is to do next.
pub enum Action {
    /// Run these tasks, which may run in parallel, then report on each.
    Run(Vec<String>),
    /// Execution is over: no task can run any more, or a task has failed.
    Finished,
}

/// The progress of one execution of a task graph.
pub struct ExecutionState {
    completed: Vec<bool>,
    blocked: Vec<bool>,
    failed: bool,
}

impl View for ExecutionState {
    type V = ExecutionView;

    closed spec fn view(&self) -> ExecutionView {
        ExecutionView { completed: self.completed@, blocked: self.blocked@, failed: self.failed }
    }
}

/// Task `i` can run: it has not run, no condition has blocked it, and every
/// task it waits for has completed.
pub open spec fn ready(g: GraphView, st: ExecutionView, i: int) -> bool {
    &&& !st.completed[i]
    &&& !st.blocked[i]
    &&& forall|d: int| #[trigger] g.deps[i].contains(d) ==> st.completed[d]
}

/// The tasks among the first `k` that can run, in order.
pub open spec fn ready_upto(g: GraphView, st: ExecutionView, k: int) -> Seq<int>
    decreases k,
{
    if k <= 0 {
        Seq::empty()
    } else if ready(g, st, k - 1) {
        ready_upto(g, st, k - 1).push(k - 1)
    } else {
        ready_upto(g, st, k - 1)
    }
}

/// The tasks that can run, in the order in which they were added.
pub open spec fn ready_tasks(g: GraphView, st: ExecutionView) -> Seq<int> {
    ready_upto(g, st, g.n())
}

/// The blocked flags after a conditional edge `l` was decided by `outcome`:
/// when the condition fails, the edge's target is blocked and its else task
/// released; when it holds, the else task is blocked.
pub open spec fn block_step(blocked: Seq<bool>, l: LinkView, outcome: bool) -> Seq<bool> {
    if !outcome {
        let b = blocked.update(l.target, true);
        match l.else_target {
            Some(e) => b.update(e, false),
            None => b,
        }
    } else {
        match l.else_target {
            Some(e) => blocked.update(e, true),
            None => blocked,
        }
    }
}

/// The blocked flags after the conditional edges among `links` were decided,
/// in order, by `outcomes`, one outcome per conditional edge.
pub open spec fn block_after(blocked: Seq<bool>, links: Seq<LinkView>, outcomes: Seq<bool>) -> Seq<bool>
    decreases links.len(),
{
    if links.len() == 0 {
        blocked
    } else if links.last().conditional {
        block_step(block_after(blocked, links.drop_last(), outcomes.drop_last()), links.last(), outcomes.last())
    } else {
        block_after(blocked, links.drop_last(), outcomes)
    }
}

/// The state after the task named in `r` completed with the condition
/// outcomes of `r`.
pub open spec fn after_success(g: GraphView, st: ExecutionView, r: ReportView) -> ExecutionView {
    let i = g.index(r.task_id);
    match r.outcome {
        Ok(outcomes) => ExecutionView {
            completed: st.completed.update(i, true),
            blocked: block_after(st.blocked, g.links[i], outcomes),
            failed: st.failed,
        },
        Err(_) => st,
    }
}

/// The state after the reports were taken in order.
pub open spec fn after_reports(g: GraphView, st: ExecutionView, reports: Seq<ReportView>) -> ExecutionView
    decreases reports.len(),
{
    if reports.len() == 0 {
        st
    } else {
        after_success(g, after_reports(g, st, reports.drop_last()), reports.last())
    }
}

/// The first report of a failed task, if there is one.
pub open spec fn first_failure(reports: Seq<ReportView>) -> Option<int> {
    if exists|j: int| 0 <= j < reports.len() && #[trigger] reports[j].outcome is Err {
        Some(choose|j: int| 0 <= j < reports.len() && #[trigger] reports[j].outcome is Err && forall|k: int|
            0 <= k < j ==> reports[k].outcome is Ok)
    } else {
        None
    }
}

/// The message of the error that ends an execution when a task fails.
pub open spec fn failure_message(task_id: Seq<char>, error: Seq<char>) -> Seq<char> {
    "Task "@ + task_id + " failed: "@ + error
}

impl ExecutionState {
    /// The state fits a graph of `n` tasks.
    pub open spec fn fits(&self, n: int) -> bool {
        self@.completed.len() == n && self@.blocked.len() == n
    }

    /// The state before any task of `graph` has run.
    pub fn new<T, C>(graph: &TaskGraph<T, C>) -> (r: Self)
        ensures
            r.fits(graph@.n()),
            forall|i: int| 0 <= i < graph@.n() ==> !#[trigger] r@.completed[i] && !r@.blocked[i],
            !r@.failed,
    {
        let n = graph.len();
        ExecutionState { completed: vec![false; n], blocked: vec![false; n], failed: false }
    }
}

/// Fewer edges have fewer conditional ones.
pub(crate) proof fn lemma_cond_count_prefix(links: Seq<LinkView>, k: int)
    requires
        0 <= k <= links.len(),
    ensures
        cond_count(links.take(k)) <= cond_count(links),
    decreases links.len() - k,
{
    if k < links.len() {
        lemma_cond_count_prefix(links, k + 1);
        assert(links.take(k + 1).drop_last() =~= links.take(k));
    } else {
        assert(links.take(k) =~= links);
    }
}

impl<T, C> TaskGraph<T, C> {
    /// Check if task `i` is ready to execute based on its dependencies: every
    /// task it waits for has completed.
    fn is_task_ready(&self, i: usize, completed: &Vec<bool>) -> (r: bool)
        requires
            self.wf(),
            i < self@.n(),
            completed@.len() == self@.n(),
        ensures
            r == forall|d: int| #[trigger] self@.deps[i as int].contains(d) ==> completed@[d],
    {
        let deps = self.dependencies_at(i);
        let m = deps.len();
        let mut k: usize = 0;
        while k < m
            invariant
                m == deps@.len(),
                k <= m,
                completed@.len() == self@.n(),
                forall|j: int| 0 <= j < deps@.len() ==> #[trigger] deps@[j] < self@.n(),
                forall|d: int| #[trigger] self@.deps[i as int].contains(d) <==> exists|j: int| 0 <= j < deps@.len() && deps@[j] == d,
                forall|j: int| 0 <= j < k ==> completed@[#[trigger] deps@[j] as int],
            decreases m - k,
        {
            if !completed[deps[k]] {
                proof {
                    assert(self@.deps[i as int].contains(deps@[k as int] as int));
                }
                return false;
            }
            k = k + 1;
        }
        proof {
            assert forall|d: int| #[trigger] self@.deps[i as int].contains(d) implies completed@[d] by {
                let j = choose|j: int| 0 <= j < deps@.len() && deps@[j] == d;
                assert(completed@[deps@[j] as int]);
            }
        }
        true
    }

    /// What to do next in an execution: run every task that is ready, or
    /// stop when none is or when a task has failed.
    pub fn next_action(&self, state: &ExecutionState) -> (r: Action)
        requires
            self.wf(),
            state.fits(self@.n()),
        ensures
            r is Finished <==> state@.failed || ready_tasks(self@, state@).len() == 0,
            r matches Action::Run(ids) ==> strings_view(ids@) == ready_tasks(self@, state@).map_values(
                |j: int| self@.ids[j],
            ),
    {
        if state.failed {
            return Action::Finished;
        }
        let n = self.len();
        let ghost g = self@;
        let ghost st = state@;
        let mut ids: Vec<String> = Vec::new();
        let mut i: usize = 0;
        while i < n
            invariant
                self.wf(),
                g == self@,
                st == state@,
                n == g.n(),
                state.fits(n as int),
                i <= n,
                strings_view(ids@) == ready_upto(g, st, i as int).map_values(|j: int| g.ids[j]),
            decreases n - i,
        {
            let ghost prev = ids@;
            if !state.completed[i] && !state.blocked[i] && self.is_task_ready(i, &state.completed) {
                let id = self.id_at(i).clone();
                ids.push(id);
                proof {
                    assert(ready(g, st, i as int));
                    assert(strings_view(ids@) =~= strings_view(prev).push(g.ids[i as int]));
                    assert(ready_upto(g, st, i + 1) == ready_upto(g, st, i as int).push(i as int));
                    assert(ready_upto(g, st, i + 1).map_values(|j: int| g.ids[j]) =~= ready_upto(
                        g,
                        st,
                        i as int,
                    ).map_values(|j: int| g.ids[j]).push(g.ids[i as int]));
                }
            } else {
                proof {
                    assert(!ready(g, st, i as int));
                    assert(ready_upto(g, st, i + 1) == ready_upto(g, st, i as int));
                }
            }
            i = i + 1;
        }
        if ids.len() == 0 {
            Action::Finished
        } else {
            Action::Run(ids)
        }
    }

    /// Decide the conditional edges leaving task `i`, in order, by `outcomes`.
    fn apply_conditions(&self, state: &mut ExecutionState, i: usize, outcomes: &Vec<bool>)
        requires
            self.wf(),
            old(state).fits(self@.n()),
            i < self@.n(),
            outcomes@.len() == cond_count(self@.links[i as int]),
        ensures
            final(state).fits(self@.n()),
            final(state)@.completed == old(state)@.completed,
            final(state)@.blocked == block_after(old(state)@.blocked, self@.links[i as int], outcomes@),
            final(state)@.failed == old(state)@.failed,
    {
        proof {
            self.lemma_shape();
        }
        let ghost links = self@.links[i as int];
        let ghost b0 = state@.blocked;
        let olen = outcomes.len();
        let m = self.links_len(i);
        let mut c: usize = 0;
        let mut k: usize = 0;
        while k < m
            invariant
                self.wf(),
                i < self@.n(),
                links == self@.links[i as int],
                m == links.len(),
                k <= m,
                state.fits(self@.n()),
                state@.completed == old(state)@.completed,
                state@.failed == old(state)@.failed,
                b0 == old(state)@.blocked,
                outcomes@.len() == cond_count(links),
                olen == outcomes@.len(),
                c == cond_count(links.take(k as int)),
                state@.blocked == block_after(b0, links.take(k as int), outcomes@.take(c as int)),
            decreases m - k,
        {
            let (t, conditional, else_target) = self.link_at(i, k);
            proof {
                assert(links.take(k + 1).drop_last() =~= links.take(k as int));
                assert(links.take(k + 1).last() == links[k as int]);
                lemma_cond_count_prefix(links, k + 1);
            }
            if conditional {
                assert(c < olen);
                let o = outcomes[c];
                proof {
                    assert(outcomes@.take(c + 1).drop_last() =~= outcomes@.take(c as int));
                    assert(outcomes@.take(c + 1).last() == o);
                }
                if !o {
                    state.blocked.set(t, true);
                    match else_target {
                        Some(e) => {
                            state.blocked.set(e, false);
                        },
                        None => {},
                    }
                } else {
                    match else_target {
                        Some(e) => {
                            state.blocked.set(e, true);
                        },
                        None => {},
                    }
                }
                c = c + 1;
            }
            k = k + 1;
        }
        proof {
            assert(links.take(m as int) =~= links);
            assert(outcomes@.take(c as int) =~= outcomes@);
        }
    }
}

/// The models of a list of reports.
pub open spec fn reports_view(reports: Seq<TaskReport>) -> Seq<ReportView> {
    reports.map_values(|r: TaskReport| r@)
}

/// Every report names a task of `g`, and a task that succeeded reports one
/// outcome for each of its conditional edges.
pub open spec fn reports_fit(g: GraphView, reports: Seq<ReportView>) -> bool {
    forall|j: int|
        0 <= j < reports.len() ==> {
            &&& g.has_id(#[trigger] reports[j].task_id)
            &&& reports[j].outcome matches Ok(o) ==> o.len() == cond_count(g.links[g.index(reports[j].task_id)])
        }
}

impl<T, C> TaskGraph<T, C> {
    /// Take the reports on the tasks that ran, in order: a task that
    /// succeeded is completed and its conditional edges are decided; the
    /// first task that failed ends the execution with an error that names it,
    /// and after it `next_action` hands out no more tasks.
    pub fn apply_results(&self, state: &mut ExecutionState, reports: &Vec<TaskReport>) -> (r: Result<(), GraphError>)
        requires
            self.wf(),
            old(state).fits(self@.n()),
            reports_fit(self@, reports_view(reports@)),
        ensures
            final(state).fits(self@.n()),
            ({
                let rv = reports_view(reports@);
                match first_failure(rv) {
                    None => r is Ok && final(state)@ == after_reports(self@, old(state)@, rv),
                    Some(j) => {
                        let a = after_reports(self@, old(state)@, rv.take(j));
                        &&& final(state)@ == (ExecutionView { completed: a.completed, blocked: a.blocked, failed: true })
                        &&& r matches Err(GraphError::TaskExecutionFailed(m))
                        &&& rv[j].outcome matches Err(text) && m@ == failure_message(rv[j].task_id, text)
                    },
                }
            }),
    {
        let ghost g = self@;
        let ghost rv = reports_view(reports@);
        let ghost st0 = state@;
        proof {
            self.lemma_shape();
        }
        let n = reports.len();
        let mut j: usize = 0;
        while j < n
            invariant
                self.wf(),
                g == self@,
                g.links.len() == g.n(),
                rv == reports_view(reports@),
                n == rv.len(),
                reports_fit(g, rv),
                j <= n,
                state.fits(g.n()),
                st0 == old(state)@,
                forall|k: int| 0 <= k < j ==> #[trigger] rv[k].outcome is Ok,
                state@ == after_reports(g, st0, rv.take(j as int)),
            decreases n - j,
        {
            let rep = &reports[j];
            proof {
                assert(rv[j as int] == rep@);
                assert(rv.take(j + 1).drop_last() =~= rv.take(j as int));
                assert(rv.take(j + 1).last() == rv[j as int]);
                assert(g.has_id(rv[j as int].task_id));
            }
            let i = self.find(rep.task_id.as_str()).unwrap();
            match &rep.outcome {
                Ok(outcomes) => {
                    proof {
                        assert(rv[j as int].outcome == Ok::<Seq<bool>, Seq<char>>(outcomes@));
                        assert(g.index(rv[j as int].task_id) == i);
                    }
                    state.completed.set(i, true);
                    self.apply_conditions(state, i, outcomes);
                },
                Err(text) => {
                    let msg = "Task ".to_owned().concat(rep.task_id.as_str()).concat(" failed: ").concat(
                        text.as_str(),
                    );
                    proof {
                        assert(rv[j as int].outcome is Err);
                        let f = first_failure(rv);
                        assert(f is Some);
                        let jj = f->0;
                        assert(rv[jj].outcome is Err);
                        if jj < j {
                            assert(rv[jj].outcome is Ok);
                        }
                        if jj > j {
                            assert(rv[j as int].outcome is Ok);
                        }
                        assert(jj == j);
                    }
                    state.failed = true;
                    return Err(GraphError::TaskExecutionFailed(msg));
                },
            }
            j = j + 1;
        }
        proof {
            assert(rv.take(n as int) =~= rv);
            assert(!exists|k: int| 0 <= k < rv.len() && #[trigger] rv[k].outcome is Err);
        }
        Ok(())
    }
}

} // verus!
