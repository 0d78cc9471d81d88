use vstd::prelude::*;
use vstd::set_lib::*;

use crate::error::GraphError;

verus! {

/// Represents an edge in the graph.
#[derive(Clone, Debug)]
pub enum Edge<C> {
    /// Direct edge - always followed.
    Direct,
    /// Conditional edge - followed only if the condition holds; when it does
    /// not, the else task (if any) runs in its place.
    Conditional { condition: C, else_task: Option<String> },
}

/// The model of an edge leaving a task: the index of the task it leads to,
/// whether it is conditional, and the index of its else task.
pub struct LinkView {
    pub target: int,
    pub conditional: bool,
    pub else_target: Option<int>,
}

impl LinkView {
    /// The edge leads to task `j`: `j` is its target or its else task. Either
    /// way `j` waits for the task the edge leaves.
    pub open spec fn leads_to(self, j: int) -> bool {
        self.target == j || self.else_target == Some(j)
    }
}

/// The model of a task graph. Task `i` has id `ids[i]`, must wait for the
/// tasks in `deps[i]`, and has the outgoing edges `links[i]`, in the order in
/// which they were added.
pub struct GraphView {
    pub ids: Seq<Seq<char>>,
    pub deps: Seq<Set<int>>,
    pub links: Seq<Seq<LinkView>>,
}

impl GraphView {
    pub open spec fn n(self) -> int {
        self.ids.len() as int
    }

    pub open spec fn has_id(self, id: Seq<char>) -> bool {
        self.ids.contains(id)
    }

    /// The index of the task with id `id`.
    pub open spec fn index(self, id: Seq<char>) -> int {
        self.ids.index_of(id)
    }

    /// Task `j` waits for task `i` through one of the edges leaving `i`: as
    /// its target, or as its else task.
    pub open spec fn edge(self, i: int, j: int) -> bool {
        0 <= i < self.n() && exists|k: int|
            0 <= k < self.links[i].len() && #[trigger] self.links[i][k].leads_to(j)
    }

    /// `p` is a walk along edges of the graph.
    pub open spec fn is_path(self, p: Seq<int>) -> bool {
        &&& p.len() >= 1
        &&& forall|k: int| 0 <= k < p.len() ==> 0 <= #[trigger] p[k] < self.n()
        &&& forall|k: int| 0 <= k < p.len() - 1 ==> #[trigger] self.edge(p[k], p[k + 1])
    }

    /// Some walk leads from task `a` to task `b`.
    pub open spec fn reaches(self, a: int, b: int) -> bool {
        exists|p: Seq<int>| #[trigger] self.is_path(p) && p[0] == a && p.last() == b
    }

    /// Some walk from task `a` runs into a cycle: it comes back to a task it
    /// has passed before.
    pub open spec fn cycle_reachable_from(self, a: int) -> bool {
        exists|p: Seq<int>|
            #[trigger] self.is_path(p) && p[0] == a && exists|j: int| 0 <= j < p.len() - 1 && p[j] == p.last()
    }

    /// Some walk of at least one edge leads from a task back to itself.
    pub open spec fn has_cycle(self) -> bool {
        exists|p: Seq<int>| #[trigger] self.is_path(p) && p.len() >= 2 && p[0] == p.last()
    }

    /// The graph with one more task, with no edges.
    pub open spec fn add_node(self, id: Seq<char>) -> GraphView {
        GraphView {
            ids: self.ids.push(id),
            deps: self.deps.push(Set::empty()),
            links: self.links.push(Seq::empty()),
        }
    }

    /// The graph with the edge `l` added after the other edges leaving task
    /// `from`, and `from` among the tasks that `l.target` waits for.
    pub open spec fn add_link(self, from: int, l: LinkView) -> GraphView {
        GraphView {
            ids: self.ids,
            deps: self.deps.update(l.target, self.deps[l.target].insert(from)),
            links: self.links.update(from, self.links[from].push(l)),
        }
    }

    /// The graph with the edge `l` added after the other edges leaving task
    /// `from`, and `from` among the tasks that the edge's target and its else
    /// task wait for.
    pub open spec fn with_edge(self, from: int, l: LinkView) -> GraphView {
        let g = self.add_link(from, l);
        match l.else_target {
            Some(e) => g.add_dep(from, e),
            None => g,
        }
    }

    /// Task ids are distinct, every task has its dependencies and outgoing
    /// edges, and every edge and dependency names a task of the graph.
    pub open spec fn well_formed(self) -> bool {
        &&& self.ids.no_duplicates()
        &&& self.deps.len() == self.n()
        &&& self.links.len() == self.n()
        &&& forall|i: int, k: int|
            #![trigger self.links[i][k]]
            0 <= i < self.n() && 0 <= k < self.links[i].len() ==> 0 <= self.links[i][k].target < self.n() && (
            self.links[i][k].else_target matches Some(e) ==> 0 <= e < self.n())
        &&& forall|i: int, d: int| 0 <= i < self.n() && #[trigger] self.deps[i].contains(d) ==> 0 <= d < self.n()
    }

    /// The graph with a task named `id`, added unless one is there.
    pub open spec fn with_task(self, id: Seq<char>) -> GraphView {
        if self.has_id(id) {
            self
        } else {
            self.add_node(id)
        }
    }

    /// The graph with `from` among the tasks that `to` waits for.
    pub open spec fn add_dep(self, from: int, to: int) -> GraphView {
        GraphView { ids: self.ids, deps: self.deps.update(to, self.deps[to].insert(from)), links: self.links }
    }
}

/// The state of a depth-first search for cycles: `stack` is the walk from
/// the root of the search to the task being explored, `fin` lists the tasks
/// whose exploration has ended, in the order in which it ended. Every edge
/// from a finished task leads to a task that finished earlier.
spec fn dfs_inv(g: GraphView, visited: Seq<bool>, on_stack: Seq<bool>, stack: Seq<int>, fin: Seq<int>) -> bool {
    &&& visited.len() == g.n()
    &&& on_stack.len() == g.n()
    &&& stack.no_duplicates()
    &&& fin.no_duplicates()
    &&& forall|k: int| 0 <= k < stack.len() ==> 0 <= #[trigger] stack[k] < g.n()
    &&& forall|k: int| 0 <= k < fin.len() ==> 0 <= #[trigger] fin[k] < g.n()
    &&& stack.len() > 0 ==> g.is_path(stack)
    &&& forall|x: int| 0 <= x < g.n() ==> (#[trigger] on_stack[x] <==> stack.contains(x))
    &&& forall|x: int| 0 <= x < g.n() ==> (#[trigger] visited[x] <==> (stack.contains(x) || fin.contains(x)))
    &&& forall|x: int| !(#[trigger] stack.contains(x) && fin.contains(x))
    &&& finished_closed(g, fin)
}

spec fn finished_closed(g: GraphView, fin: Seq<int>) -> bool {
    forall|a: int, v: int|
        #![trigger g.edge(fin[a], v)]
        0 <= a < fin.len() && g.edge(fin[a], v) ==> fin.take(a).contains(v)
}

/// A sequence of distinct integers in `[0, n)` has at most `n` elements.
pub(crate) proof fn lemma_distinct_bounded(s: Seq<int>, n: int)
    requires
        n >= 0,
        s.no_duplicates(),
        forall|k: int| 0 <= k < s.len() ==> 0 <= #[trigger] s[k] < n,
    ensures
        s.len() <= n,
{
    s.unique_seq_to_set();
    lemma_int_range(0, n);
    assert(s.to_set().subset_of(set_int_range(0, n)));
    lemma_len_subset(s.to_set(), set_int_range(0, n));
}

/// When every task has finished, the graph has no cycle.
proof fn lemma_closed_acyclic(g: GraphView, fin: Seq<int>)
    requires
        g.n() == g.links.len(),
        fin.no_duplicates(),
        finished_closed(g, fin),
        forall|x: int| 0 <= x < g.n() ==> fin.contains(x),
    ensures
        !g.has_cycle(),
{
    if g.has_cycle() {
        let p = choose|p: Seq<int>| #[trigger] g.is_path(p) && p.len() >= 2 && p[0] == p.last();
        assert(fin.contains(p[0]));
        lemma_walk_in_finished(g, fin, p, p.len() - 1);
    }
}

/// Adding a task keeps the tasks that were there, at their positions, and
/// leaves the graph with a task of that id.
pub(crate) proof fn lemma_with_task(g: GraphView, id: Seq<char>)
    requires
        g.ids.no_duplicates(),
    ensures
        g.with_task(id).has_id(id),
        g.with_task(id).ids.no_duplicates(),
        g.with_task(id).ids.len() >= g.ids.len(),
        forall|i: int| 0 <= i < g.ids.len() ==> #[trigger] g.with_task(id).ids[i] == g.ids[i],
        forall|x: Seq<char>| #[trigger] g.has_id(x) ==> g.with_task(id).has_id(x) && g.with_task(id).index(x)
            == g.index(x),
{
    let h = g.with_task(id);
    if !g.has_id(id) {
        assert(h.ids[g.ids.len() as int] == id);
        assert(h.has_id(id));
    }
    assert forall|x: Seq<char>| #[trigger] g.has_id(x) implies h.has_id(x) && h.index(x) == g.index(x) by {
        let i = g.index(x);
        assert(g.ids[i] == x);
        assert(h.ids[i] == x);
        let j = h.index(x);
        assert(h.ids[j] == x);
        if j < g.ids.len() {
            assert(g.ids[j] == x);
        }
    }
}

/// The number of conditional edges among `links`.
pub open spec fn cond_count(links: Seq<LinkView>) -> nat
    decreases links.len(),
{
    if links.len() == 0 {
        0
    } else {
        cond_count(links.drop_last()) + if links.last().conditional {
            1nat
        } else {
            0nat
        }
    }
}

/// The conditions of the conditional edges among `edges`, in order.
pub open spec fn conditions_of<C>(edges: Seq<Edge<C>>) -> Seq<C>
    decreases edges.len(),
{
    if edges.len() == 0 {
        Seq::empty()
    } else {
        match edges.last() {
            Edge::Conditional { condition, else_task } => conditions_of(edges.drop_last()).push(condition),
            Edge::Direct => conditions_of(edges.drop_last()),
        }
    }
}

/// `s` with `x` appended for a task named `id` that `ids` lacks: what a
/// per-task sequence becomes when the task is added unless it is there.
pub open spec fn seq_with<X>(ids: Seq<Seq<char>>, s: Seq<X>, id: Seq<char>, x: X) -> Seq<X> {
    if ids.contains(id) {
        s
    } else {
        s.push(x)
    }
}

/// A walk that runs into a cycle contains one.
proof fn lemma_cycle_reachable_is_cycle(g: GraphView, a: int)
    requires
        g.cycle_reachable_from(a),
    ensures
        g.has_cycle(),
{
    let p = choose|p: Seq<int>|
        #[trigger] g.is_path(p) && p[0] == a && exists|j: int| 0 <= j < p.len() - 1 && p[j] == p.last();
    let j = choose|j: int| 0 <= j < p.len() - 1 && p[j] == p.last();
    let c = p.subrange(j, p.len() as int);
    assert forall|k: int| 0 <= k < c.len() implies 0 <= #[trigger] c[k] < g.n() by {
        assert(c[k] == p[j + k]);
    }
    assert forall|k: int| 0 <= k < c.len() - 1 implies #[trigger] g.edge(c[k], c[k + 1]) by {
        assert(c[k] == p[j + k]);
        assert(c[k + 1] == p[j + k + 1]);
        assert(g.edge(p[j + k], p[j + k + 1]));
    }
    assert(g.is_path(c));
    assert(c[0] == c.last());
}

/// A walk from `b` that runs into a cycle, after an edge from `a` to `b`, is
/// one from `a`.
proof fn lemma_cycle_reachable_prepend(g: GraphView, a: int, b: int)
    requires
        g.edge(a, b),
        g.cycle_reachable_from(b),
    ensures
        g.cycle_reachable_from(a),
{
    let p = choose|p: Seq<int>|
        #[trigger] g.is_path(p) && p[0] == b && exists|j: int| 0 <= j < p.len() - 1 && p[j] == p.last();
    let j = choose|j: int| 0 <= j < p.len() - 1 && p[j] == p.last();
    let q = seq![a] + p;
    assert forall|k: int| 0 <= k < q.len() implies 0 <= #[trigger] q[k] < g.n() by {
        if k > 0 {
            assert(q[k] == p[k - 1]);
        }
    }
    assert forall|k: int| 0 <= k < q.len() - 1 implies #[trigger] g.edge(q[k], q[k + 1]) by {
        if k > 0 {
            assert(q[k] == p[k - 1]);
            assert(q[k + 1] == p[k]);
            assert(g.edge(p[k - 1], p[(k - 1) + 1]));
        }
    }
    assert(g.is_path(q));
    assert(q[j + 1] == p[j]);
    assert(q.last() == p.last());
}

/// A walk from `b`, after an edge from `a` to `b`, is one from `a`.
proof fn lemma_reaches_prepend(g: GraphView, a: int, b: int, x: int)
    requires
        g.edge(a, b),
        g.reaches(b, x),
    ensures
        g.reaches(a, x),
{
    let p = choose|p: Seq<int>| #[trigger] g.is_path(p) && p[0] == b && p.last() == x;
    let q = seq![a] + p;
    assert forall|k: int| 0 <= k < q.len() implies 0 <= #[trigger] q[k] < g.n() by {
        if k > 0 {
            assert(q[k] == p[k - 1]);
        }
    }
    assert forall|k: int| 0 <= k < q.len() - 1 implies #[trigger] g.edge(q[k], q[k + 1]) by {
        if k > 0 {
            assert(q[k] == p[k - 1]);
            assert(q[k + 1] == p[k]);
            assert(g.edge(p[k - 1], p[(k - 1) + 1]));
        }
    }
    assert(g.is_path(q));
    assert(q.last() == p.last());
}

/// Every task reaches itself.
proof fn lemma_reaches_self(g: GraphView, a: int)
    requires
        0 <= a < g.n(),
    ensures
        g.reaches(a, a),
{
    let p = seq![a];
    assert(g.is_path(p));
}

/// A walk that starts at a finished task stays among finished tasks, and
/// the position in the finishing order goes down by at least one per step.
proof fn lemma_walk_in_finished(g: GraphView, fin: Seq<int>, p: Seq<int>, k: int)
    requires
        g.n() == g.links.len(),
        fin.no_duplicates(),
        finished_closed(g, fin),
        g.is_path(p),
        fin.contains(p[0]),
        0 <= k < p.len(),
    ensures
        0 <= fin.index_of(p[k]) < fin.len(),
        fin[fin.index_of(p[k])] == p[k],
        fin.index_of(p[k]) <= fin.index_of(p[0]) - k,
    decreases k,
{
    if k > 0 {
        lemma_walk_in_finished(g, fin, p, k - 1);
        let a = fin.index_of(p[k - 1]);
        let j = k - 1;
        assert(g.edge(p[j], p[j + 1]));
        assert(j + 1 == k);
        assert(g.edge(fin[a], p[k]));
        assert(fin.take(a).contains(p[k]));
        let b = choose|b: int| 0 <= b < fin.take(a).len() && fin.take(a)[b] == p[k];
        assert(fin[b] == p[k]);
        assert(fin.contains(p[k]));
        let c = fin.index_of(p[k]);
        assert(fin[c] == p[k]);
        assert(c == b);
    } else {
        let c = fin.index_of(p[0]);
        assert(fin[c] == p[0]);
    }
}

/// From a finished task, no walk runs into a cycle, and every task it
/// reaches has finished.
proof fn lemma_finished_closed_from(g: GraphView, fin: Seq<int>, a: int)
    requires
        g.n() == g.links.len(),
        fin.no_duplicates(),
        finished_closed(g, fin),
        fin.contains(a),
    ensures
        !g.cycle_reachable_from(a),
        forall|x: int| #[trigger] g.reaches(a, x) ==> fin.contains(x),
{
    if g.cycle_reachable_from(a) {
        let p = choose|p: Seq<int>|
            #[trigger] g.is_path(p) && p[0] == a && exists|j: int| 0 <= j < p.len() - 1 && p[j] == p.last();
        let j = choose|j: int| 0 <= j < p.len() - 1 && p[j] == p.last();
        lemma_walk_in_finished(g, fin, p, j);
        let q = p.subrange(j, p.len() as int);
        assert forall|k: int| 0 <= k < q.len() implies 0 <= #[trigger] q[k] < g.n() by {
            assert(q[k] == p[j + k]);
        }
        assert forall|k: int| 0 <= k < q.len() - 1 implies #[trigger] g.edge(q[k], q[k + 1]) by {
            assert(q[k] == p[j + k]);
            assert(q[k + 1] == p[j + k + 1]);
            assert(g.edge(p[j + k], p[j + k + 1]));
        }
        assert(g.is_path(q));
        assert(fin.contains(q[0])) by {
            assert(fin[fin.index_of(p[j])] == p[j]);
        }
        lemma_walk_in_finished(g, fin, q, q.len() - 1);
        assert(q.last() == q[0]);
    }
    assert forall|x: int| #[trigger] g.reaches(a, x) implies fin.contains(x) by {
        let p = choose|p: Seq<int>| #[trigger] g.is_path(p) && p[0] == a && p.last() == x;
        lemma_walk_in_finished(g, fin, p, p.len() - 1);
        assert(fin[fin.index_of(p.last())] == x);
    }
}

struct Link<C> {
    target: usize,
    edge: Edge<C>,
    else_target: Option<usize>,
}

struct TaskNode<T, C> {
    id: String,
    task: T,
    dependencies: Vec<usize>,
    dependents: Vec<Link<C>>,
}

/// The main task graph structure: tasks of type `T`, named by distinct ids,
/// joined by edges whose conditions have type `C`.
pub struct TaskGraph<T, C> {
    nodes: Vec<TaskNode<T, C>>,
}

spec fn link_view<C>(l: Link<C>) -> LinkView {
    LinkView {
        target: l.target as int,
        conditional: l.edge is Conditional,
        else_target: match l.else_target {
            Some(e) => Some(e as int),
            None => None,
        },
    }
}

spec fn deps_view(d: Seq<usize>) -> Set<int> {
    d.map_values(|x: usize| x as int).to_set()
}

impl<T, C> View for TaskGraph<T, C> {
    type V = GraphView;

    closed spec fn view(&self) -> GraphView {
        GraphView {
            ids: self.nodes@.map_values(|nd: TaskNode<T, C>| nd.id@),
            deps: self.nodes@.map_values(|nd: TaskNode<T, C>| deps_view(nd.dependencies@)),
            links: self.nodes@.map_values(
                |nd: TaskNode<T, C>| nd.dependents@.map_values(|l: Link<C>| link_view(l)),
            ),
        }
    }
}

impl<T, C> TaskGraph<T, C> {
    /// The tasks, in the order in which they were added.
    pub closed spec fn tasks(&self) -> Seq<T> {
        self.nodes@.map_values(|nd: TaskNode<T, C>| nd.task)
    }

    /// The edges leaving each task, in the order in which they were added.
    pub closed spec fn edges(&self) -> Seq<Seq<Edge<C>>> {
        self.nodes@.map_values(|nd: TaskNode<T, C>| nd.dependents@.map_values(|l: Link<C>| l.edge))
    }

    spec fn link_wf(&self, l: Link<C>) -> bool {
        &&& l.target < self.nodes@.len()
        &&& match l.edge {
            Edge::Direct => l.else_target is None,
            Edge::Conditional { condition, else_task } => match else_task {
                None => l.else_target is None,
                Some(e) => l.else_target matches Some(x) && x < self.nodes@.len()
                    && self.nodes@[x as int].id@ == e@,
            },
        }
    }

    spec fn node_wf(&self, nd: TaskNode<T, C>) -> bool {
        &&& nd.dependencies@.no_duplicates()
        &&& forall|k: int| 0 <= k < nd.dependencies@.len() ==> #[trigger] nd.dependencies@[k] < self.nodes@.len()
        &&& forall|k: int| 0 <= k < nd.dependents@.len() ==> self.link_wf(#[trigger] nd.dependents@[k])
    }

    /// Task ids are distinct, and every edge and dependency names a task of
    /// the graph.
    pub closed spec fn wf(&self) -> bool {
        &&& self@.ids.no_duplicates()
        &&& forall|i: int| 0 <= i < self.nodes@.len() ==> self.node_wf(#[trigger] self.nodes@[i])
    }

    /// Create a new, empty task graph.
    pub fn new() -> (r: Self)
        ensures
            r.wf(),
            r@ == (GraphView { ids: Seq::empty(), deps: Seq::empty(), links: Seq::empty() }),
            r.tasks() == Seq::<T>::empty(),
            r.edges() == Seq::<Seq<Edge<C>>>::empty(),
    {
        let r = TaskGraph { nodes: Vec::new() };
        assert(r@.ids =~= Seq::<Seq<char>>::empty());
        assert(r@.deps =~= Seq::<Set<int>>::empty());
        assert(r@.links =~= Seq::<Seq<LinkView>>::empty());
        assert(r.tasks() =~= Seq::<T>::empty());
        assert(r.edges() =~= Seq::<Seq<Edge<C>>>::empty());
        r
    }

    /// The index of the task with id `id`, if the graph has one.
    pub(crate) fn find(&self, id: &str) -> (r: Option<usize>)
        requires
            self.wf(),
        ensures
            r is Some <==> self@.has_id(id@),
            r matches Some(i) ==> i < self@.n() && self@.ids[i as int] == id@ && self@.index(id@) == i,
    {
        let wanted = id.to_owned();
        let n = self.nodes.len();
        let mut i: usize = 0;
        while i < n
            invariant
                self.wf(),
                n == self.nodes@.len(),
                i <= n,
                wanted@ == id@,
                forall|j: int| 0 <= j < i ==> self@.ids[j] != id@,
            decreases n - i,
        {
            if self.nodes[i].id == wanted {
                proof {
                    assert(self@.ids[i as int] == id@);
                    assert(self@.ids.contains(id@));
                    let j = self@.ids.index_of(id@);
                    assert(self@.ids[j] == id@);
                }
                return Some(i);
            }
            i = i + 1;
        }
        proof {
            assert(!self@.ids.contains(id@));
        }
        None
    }
}

impl<T, C> TaskGraph<T, C> {
    /// Add a task to the graph under `task_id`, unless the graph already has
    /// a task with that id, in which case nothing changes.
    pub fn add_task(&mut self, task_id: String, task: T)
        requires
            old(self).wf(),
        ensures
            final(self).wf(),
            old(self)@.has_id(task_id@) ==> final(self)@ == old(self)@ && final(self).tasks() == old(
                self,
            ).tasks() && final(self).edges() == old(self).edges(),
            !old(self)@.has_id(task_id@) ==> final(self)@ == old(self)@.add_node(task_id@)
                && final(self).tasks() == old(self).tasks().push(task) && final(self).edges() == old(
                self,
            ).edges().push(Seq::empty()),
    {
        if self.find(task_id.as_str()).is_none() {
            let ghost old_self = *self;
            let node = TaskNode {
                id: task_id,
                task: task,
                dependencies: Vec::new(),
                dependents: Vec::new(),
            };
            self.nodes.push(node);
            proof {
                let n = old_self.nodes@.len() as int;
                assert(self@.ids =~= old_self@.ids.push(task_id@));
                assert(self@.deps =~= old_self@.deps.push(Set::empty())) by {
                    assert(deps_view(self.nodes@[n].dependencies@) =~= Set::<int>::empty());
                }
                assert(self@.links[n] =~= Seq::<LinkView>::empty());
                assert(self@.links =~= old_self@.links.push(Seq::empty()));
                assert(self.tasks() =~= old_self.tasks().push(task));
                assert(self.edges()[n] =~= Seq::<Edge<C>>::empty());
                assert(self.edges() =~= old_self.edges().push(Seq::empty()));
                assert forall|i: int| 0 <= i < self.nodes@.len() implies self.node_wf(
                    #[trigger] self.nodes@[i],
                ) by {
                    if i < n {
                        assert(old_self.node_wf(old_self.nodes@[i]));
                        let nd = self.nodes@[i];
                        assert forall|k: int| 0 <= k < nd.dependents@.len() implies self.link_wf(
                            #[trigger] nd.dependents@[k],
                        ) by {
                            assert(old_self.link_wf(nd.dependents@[k]));
                        }
                    }
                }
            }
        }
    }
}

impl<T, C> TaskGraph<T, C> {
    proof fn lemma_view_shape(&self)
        ensures
            self@.ids.len() == self.nodes@.len(),
            self@.deps.len() == self.nodes@.len(),
            self@.links.len() == self.nodes@.len(),
            forall|i: int| 0 <= i < self.nodes@.len() ==> #[trigger] self@.links[i].len() == self.nodes@[i].dependents@.len(),
            forall|i: int, k: int| 0 <= i < self.nodes@.len() && 0 <= k < self.nodes@[i].dependents@.len()
                ==> #[trigger] self@.links[i][k] == link_view(self.nodes@[i].dependents@[k]),
    {
    }

    /// Every task has its dependencies and its outgoing edges.
    pub(crate) proof fn lemma_shape(&self)
        ensures
            self@.deps.len() == self@.n(),
            self@.links.len() == self@.n(),
    {
    }

    /// The model of a well-formed graph is well formed: its ids are distinct,
    /// and its edges and dependencies name its tasks.
    pub proof fn lemma_well_formed(&self)
        requires
            self.wf(),
        ensures
            self@.well_formed(),
    {
        self.lemma_view_shape();
        let g = self@;
        assert forall|i: int, k: int|
            #![trigger g.links[i][k]]
            0 <= i < g.n() && 0 <= k < g.links[i].len() implies 0 <= g.links[i][k].target < g.n() && (
            g.links[i][k].else_target matches Some(e) ==> 0 <= e < g.n()) by {
            assert(self.node_wf(self.nodes@[i]));
            assert(self.link_wf(self.nodes@[i].dependents@[k]));
        }
        assert forall|i: int, d: int| 0 <= i < g.n() && #[trigger] g.deps[i].contains(d) implies 0 <= d < g.n() by {
            assert(self.node_wf(self.nodes@[i]));
            lemma_deps_view(self.nodes@[i].dependencies@, 0);
            let k = choose|k: int| 0 <= k < self.nodes@[i].dependencies@.len() && self.nodes@[i].dependencies@[k] == d;
        }
    }

    /// Check if the graph has cycles using depth-first search.
    fn has_cycle(&self) -> (r: bool)
        requires
            self.wf(),
        ensures
            r == self@.has_cycle(),
    {
        proof {
            self.lemma_view_shape();
        }
        let n = self.nodes.len();
        let mut visited: Vec<bool> = vec![false; n];
        let mut on_stack: Vec<bool> = vec![false; n];
        let ghost mut fin: Seq<int> = Seq::empty();
        let ghost empty: Seq<int> = Seq::empty();
        assert(dfs_inv(self@, visited@, on_stack@, empty, fin));
        let mut i: usize = 0;
        while i < n
            invariant
                self.wf(),
                n == self@.n(),
                n == self@.links.len(),
                i <= n,
                empty == Seq::<int>::empty(),
                dfs_inv(self@, visited@, on_stack@, empty, fin),
                forall|j: int| 0 <= j < i ==> #[trigger] visited@[j],
            decreases n - i,
        {
            if !visited[i] {
                proof {
                    assert forall|j: int| 0 <= j < i implies fin.contains(j) by {
                        assert(visited@[j]);
                        assert(!empty.contains(j));
                    }
                }
                let (res, Ghost(f)) = self.has_cycle_util(i, &mut visited, &mut on_stack, Ghost(empty), Ghost(fin));
                if res {
                    proof {
                        lemma_cycle_reachable_is_cycle(self@, i as int);
                    }
                    return true;
                }
                proof {
                    assert forall|j: int| 0 <= j < i implies #[trigger] visited@[j] by {
                        assert(fin.contains(j));
                        let b = choose|b: int| 0 <= b < fin.len() && fin[b] == j;
                        assert(f.take(fin.len() as int)[b] == j);
                        assert(f.contains(j));
                    }
                    fin = f;
                }
            }
            i = i + 1;
        }
        proof {
            assert forall|x: int| 0 <= x < self@.n() implies fin.contains(x) by {
                assert(visited@[x]);
            }
            lemma_closed_acyclic(self@, fin);
        }
        false
    }

    /// The tasks that wait for task `u` through its edges: the target of
    /// each edge and its else task, in the order of the edges.
    fn successors(&self, u: usize) -> (r: Vec<usize>)
        requires
            self.wf(),
            u < self@.n(),
        ensures
            forall|k: int| 0 <= k < r@.len() ==> #[trigger] r@[k] < self@.n() && self@.edge(u as int, r@[k] as int),
            forall|j: int| #[trigger] self@.edge(u as int, j) ==> exists|k: int| 0 <= k < r@.len() && r@[k] as int == j,
    {
        proof {
            self.lemma_view_shape();
        }
        let ghost g = self@;
        let ghost ui = u as int;
        let mut r: Vec<usize> = Vec::new();
        let m = self.nodes[u].dependents.len();
        let mut k: usize = 0;
        while k < m
            invariant
                self.wf(),
                g == self@,
                0 <= ui < g.n(),
                ui == u,
                g.n() == self.nodes@.len(),
                m == g.links[ui].len(),
                m == self.nodes@[ui].dependents@.len(),
                k <= m,
                forall|q: int| 0 <= q < r@.len() ==> #[trigger] r@[q] < g.n() && g.edge(ui, r@[q] as int),
                forall|q: int, j: int|
                    0 <= q < k && #[trigger] g.links[ui][q].leads_to(j) ==> exists|x: int| 0 <= x < r@.len() && r@[x] as int == j,
            decreases m - k,
        {
            proof {
                assert(self.node_wf(self.nodes@[ui]));
                assert(self.link_wf(self.nodes@[ui].dependents@[k as int]));
                assert(g.links[ui][k as int] == link_view(self.nodes@[ui].dependents@[k as int]));
            }
            let t = self.nodes[u].dependents[k].target;
            let ghost before = r@;
            proof {
                assert(g.links[ui][k as int].leads_to(t as int));
            }
            r.push(t);
            proof {
                assert(r@[before.len() as int] == t);
            }
            let ghost mid = r@;
            match self.nodes[u].dependents[k].else_target {
                Some(e) => {
                    proof {
                        assert(g.links[ui][k as int].leads_to(e as int));
                    }
                    r.push(e);
                    proof {
                        assert(r@[mid.len() as int] == e);
                    }
                },
                None => {},
            }
            proof {
                assert forall|q: int| 0 <= q < r@.len() implies #[trigger] r@[q] < g.n() && g.edge(ui, r@[q] as int) by {
                    if q < before.len() {
                        assert(r@[q] == before[q]);
                    } else if q < mid.len() {
                        assert(r@[q] == t);
                    }
                }
                assert forall|q: int, j: int|
                    0 <= q < k + 1 && #[trigger] g.links[ui][q].leads_to(j) implies exists|x: int|
                    0 <= x < r@.len() && r@[x] as int == j by {
                    if q < k {
                        let x = choose|x: int| 0 <= x < before.len() && before[x] as int == j;
                        assert(r@[x] == before[x]);
                    } else if g.links[ui][q].target == j {
                        assert(r@[before.len() as int] == t);
                    } else {
                        assert(r@[mid.len() as int] as int == j);
                    }
                }
            }
            k = k + 1;
        }
        proof {
            assert forall|j: int| #[trigger] g.edge(ui, j) implies exists|x: int| 0 <= x < r@.len() && r@[x] as int == j by {
                let q = choose|q: int| 0 <= q < g.links[ui].len() && #[trigger] g.links[ui][q].leads_to(j);
                assert(g.links[ui][q].leads_to(j));
            }
        }
        r
    }

    fn has_cycle_util(
        &self,
        u: usize,
        visited: &mut Vec<bool>,
        on_stack: &mut Vec<bool>,
        Ghost(stack): Ghost<Seq<int>>,
        Ghost(fin): Ghost<Seq<int>>,
    ) -> (r: (bool, Ghost<Seq<int>>))
        requires
            self.wf(),
            self@.n() == self@.links.len(),
            dfs_inv(self@, old(visited)@, old(on_stack)@, stack, fin),
            u < self@.n(),
            !old(visited)@[u as int],
            stack.len() > 0 ==> self@.edge(stack.last(), u as int),
        ensures
            final(visited)@.len() == self@.n(),
            final(on_stack)@.len() == self@.n(),
            r.0 ==> self@.cycle_reachable_from(u as int),
            !r.0 ==> dfs_inv(self@, final(visited)@, final(on_stack)@, stack, r.1@) && fin.len()
                <= r.1@.len() && r.1@.take(fin.len() as int) == fin && r.1@.contains(u as int),
            !r.0 ==> forall|k: int| fin.len() <= k < r.1@.len() ==> self@.reaches(u as int, #[trigger] r.1@[k]),
            !r.0 ==> !self@.cycle_reachable_from(u as int),
            !r.0 ==> forall|x: int| #[trigger] self@.reaches(u as int, x) ==> r.1@.contains(x),
        decreases self@.n() - stack.len(),
    {
        let ghost g = self@;
        let ghost ui = u as int;
        let ghost stack2 = stack.push(ui);
        proof {
            self.lemma_view_shape();
            assert(!stack.contains(ui));
            assert(!fin.contains(ui));
            assert(stack2.no_duplicates());
            assert forall|k: int| 0 <= k < stack2.len() implies 0 <= #[trigger] stack2[k] < g.n() by {
                if k < stack.len() {
                    assert(stack2[k] == stack[k]);
                }
            }
            lemma_distinct_bounded(stack2, g.n());
            assert(g.is_path(stack2)) by {
                assert forall|k: int| 0 <= k < stack2.len() - 1 implies #[trigger] g.edge(stack2[k], stack2[k + 1]) by {
                    if k + 1 < stack.len() {
                        assert(stack2[k] == stack[k]);
                        assert(stack2[k + 1] == stack[k + 1]);
                        assert(g.edge(stack[k], stack[k + 1]));
                    } else {
                        assert(stack2[k] == stack.last());
                        assert(stack2[k + 1] == ui);
                    }
                }
            }
        }
        visited.set(u, true);
        on_stack.set(u, true);
        let ghost mut cur = fin;
        proof {
            assert forall|x: int| 0 <= x < g.n() implies (#[trigger] on_stack@[x] <==> stack2.contains(x)) by {
                if x == ui {
                    assert(stack2[stack.len() as int] == ui);
                } else {
                    if stack.contains(x) {
                        let b = choose|b: int| 0 <= b < stack.len() && stack[b] == x;
                        assert(stack2[b] == x);
                    }
                    if stack2.contains(x) {
                        let b = choose|b: int| 0 <= b < stack2.len() && stack2[b] == x;
                        assert(stack[b] == x);
                    }
                }
            }
            assert forall|x: int| 0 <= x < g.n() implies (#[trigger] visited@[x] <==> (stack2.contains(x)
                || cur.contains(x))) by {
                if x == ui {
                    assert(stack2[stack.len() as int] == ui);
                } else {
                    if stack.contains(x) {
                        let b = choose|b: int| 0 <= b < stack.len() && stack[b] == x;
                        assert(stack2[b] == x);
                    }
                    if stack2.contains(x) {
                        let b = choose|b: int| 0 <= b < stack2.len() && stack2[b] == x;
                        assert(stack[b] == x);
                    }
                }
            }
            assert forall|x: int| !(#[trigger] stack2.contains(x) && cur.contains(x)) by {
                if stack2.contains(x) && x != ui {
                    let b = choose|b: int| 0 <= b < stack2.len() && stack2[b] == x;
                    assert(stack[b] == x);
                    assert(stack.contains(x));
                }
            }
            assert(dfs_inv(g, visited@, on_stack@, stack2, cur));
            assert(cur.take(fin.len() as int) =~= fin);
        }
        let succs = self.successors(u);
        let m = succs.len();
        let mut k: usize = 0;
        while k < m
            invariant
                self.wf(),
                g == self@,
                g.n() == g.links.len(),
                0 <= ui < g.n(),
                ui == u,
                stack2 == stack.push(ui),
                stack2.len() <= g.n(),
                m == succs@.len(),
                forall|q: int| 0 <= q < succs@.len() ==> #[trigger] succs@[q] < g.n() && g.edge(ui, succs@[q] as int),
                k <= m,
                dfs_inv(g, visited@, on_stack@, stack2, cur),
                fin.len() <= cur.len(),
                cur.take(fin.len() as int) == fin,
                forall|j: int| 0 <= j < k ==> cur.contains(#[trigger] succs@[j] as int),
                forall|q: int| fin.len() <= q < cur.len() ==> g.reaches(ui, #[trigger] cur[q]),
            decreases m - k,
        {
            let v = succs[k];
            proof {
                assert(succs@[k as int] == v);
                assert(g.edge(ui, v as int));
            }
            if !visited[v] {
                assert(stack2.last() == ui);
                let (res, Ghost(f2)) = self.has_cycle_util(v, visited, on_stack, Ghost(stack2), Ghost(cur));
                if res {
                    proof {
                        lemma_cycle_reachable_prepend(g, ui, v as int);
                    }
                    return (true, Ghost(f2));
                }
                proof {
                    assert forall|q: int| fin.len() <= q < f2.len() implies g.reaches(ui, #[trigger] f2[q]) by {
                        if q < cur.len() {
                            assert(f2.take(cur.len() as int)[q] == f2[q]);
                            assert(cur[q] == f2[q]);
                        } else {
                            lemma_reaches_prepend(g, ui, v as int, f2[q]);
                        }
                    }
                    assert forall|j: int| 0 <= j < k + 1 implies f2.contains(#[trigger] succs@[j] as int) by {
                        if j < k {
                            let t = succs@[j] as int;
                            assert(cur.contains(t));
                            let b = choose|b: int| 0 <= b < cur.len() && cur[b] == t;
                            assert(f2.take(cur.len() as int)[b] == t);
                        }
                    }
                    assert(f2.take(fin.len() as int) =~= f2.take(cur.len() as int).take(fin.len() as int));
                    cur = f2;
                }
            } else if on_stack[v] {
                proof {
                    let vi = v as int;
                    assert(stack2.contains(vi));
                    let j = choose|j: int| 0 <= j < stack2.len() && stack2[j] == vi;
                    let p = stack2.subrange(j, stack2.len() as int).push(vi);
                    assert forall|q: int| 0 <= q < p.len() implies 0 <= #[trigger] p[q] < g.n() by {
                        if q < p.len() - 1 {
                            assert(p[q] == stack2[j + q]);
                        }
                    }
                    assert forall|q: int| 0 <= q < p.len() - 1 implies #[trigger] g.edge(p[q], p[q + 1]) by {
                        if q < p.len() - 2 {
                            assert(p[q] == stack2[j + q]);
                            assert(p[q + 1] == stack2[j + q + 1]);
                            assert(g.edge(stack2[j + q], stack2[j + q + 1]));
                        } else {
                            assert(p[q] == stack2.last());
                            assert(p[q + 1] == vi);
                        }
                    }
                    assert(g.is_path(p));
                    assert(p[0] == p.last());
                    let w = seq![ui] + stack2.subrange(j, stack2.len() as int);
                    assert forall|q: int| 0 <= q < w.len() implies 0 <= #[trigger] w[q] < g.n() by {
                        if q > 0 {
                            assert(w[q] == stack2[j + q - 1]);
                        }
                    }
                    assert forall|q: int| 0 <= q < w.len() - 1 implies #[trigger] g.edge(w[q], w[q + 1]) by {
                        if q == 0 {
                            assert(w[1] == vi);
                        } else {
                            assert(w[q] == stack2[j + q - 1]);
                            assert(w[q + 1] == stack2[j + q]);
                            assert(g.edge(stack2[j + q - 1], stack2[(j + q - 1) + 1]));
                        }
                    }
                    assert(g.is_path(w));
                    assert(w.last() == stack2.last());
                    assert(w[0] == w.last());
                    assert(g.cycle_reachable_from(ui));
                }
                return (true, Ghost(cur));
            } else {
                proof {
                    assert(cur.contains(v as int));
                }
            }
            k = k + 1;
        }
        on_stack.set(u, false);
        let ghost fin2 = cur.push(ui);
        proof {
            assert(stack2[stack.len() as int] == ui);
            assert(stack2.contains(ui));
            assert(fin2[cur.len() as int] == ui);
            assert(fin2.contains(ui));
            assert(!cur.contains(ui)) by {
                assert(stack2.contains(ui)) by {
                    assert(stack2[stack.len() as int] == ui);
                }
            }
            assert(fin2.no_duplicates());
            assert forall|x: int| 0 <= x < g.n() implies (#[trigger] on_stack@[x] <==> stack.contains(x)) by {
                if x != ui {
                    assert(on_stack@[x] <==> stack2.contains(x));
                    if stack.contains(x) {
                        let b = choose|b: int| 0 <= b < stack.len() && stack[b] == x;
                        assert(stack2[b] == x);
                    }
                    if stack2.contains(x) {
                        let b = choose|b: int| 0 <= b < stack2.len() && stack2[b] == x;
                        assert(stack[b] == x);
                    }
                }
            }
            assert forall|x: int| 0 <= x < g.n() implies (#[trigger] visited@[x] <==> (stack.contains(x)
                || fin2.contains(x))) by {
                assert(visited@[x] <==> (stack2.contains(x) || cur.contains(x)));
                if x == ui {
                    assert(fin2[cur.len() as int] == ui);
                } else {
                    if stack.contains(x) {
                        let b = choose|b: int| 0 <= b < stack.len() && stack[b] == x;
                        assert(stack2[b] == x);
                    }
                    if stack2.contains(x) {
                        let b = choose|b: int| 0 <= b < stack2.len() && stack2[b] == x;
                        assert(stack[b] == x);
                    }
                    if cur.contains(x) {
                        let b = choose|b: int| 0 <= b < cur.len() && cur[b] == x;
                        assert(fin2[b] == x);
                    }
                    if fin2.contains(x) {
                        let b = choose|b: int| 0 <= b < fin2.len() && fin2[b] == x;
                        assert(cur[b] == x);
                    }
                }
            }
            assert forall|x: int| !(#[trigger] stack.contains(x) && fin2.contains(x)) by {
                if stack.contains(x) && fin2.contains(x) {
                    let b = choose|b: int| 0 <= b < stack.len() && stack[b] == x;
                    assert(stack2[b] == x);
                    assert(stack2.contains(x));
                    let c = choose|c: int| 0 <= c < fin2.len() && fin2[c] == x;
                    if c < cur.len() {
                        assert(cur[c] == x);
                        assert(cur.contains(x));
                    } else {
                        assert(x == ui);
                    }
                }
            }
            assert forall|k: int| 0 <= k < fin2.len() implies 0 <= #[trigger] fin2[k] < g.n() by {
                if k < cur.len() {
                    assert(fin2[k] == cur[k]);
                }
            }
            assert forall|a: int, v: int|
                #![trigger g.edge(fin2[a], v)]
                0 <= a < fin2.len() && g.edge(fin2[a], v) implies fin2.take(a).contains(v) by {
                if a < cur.len() {
                    assert(fin2[a] == cur[a]);
                    assert(cur.take(a) =~= fin2.take(a));
                    assert(g.edge(cur[a], v));
                    assert(cur.take(a).contains(v));
                } else {
                    assert(fin2[a] == ui);
                    assert(fin2.take(a) =~= cur);
                    assert(g.edge(ui, v));
                    let x = choose|x: int| 0 <= x < succs@.len() && succs@[x] as int == v;
                    assert(cur.contains(succs@[x] as int));
                }
            }
            assert(dfs_inv(g, visited@, on_stack@, stack, fin2));
            assert(fin2.take(fin.len() as int) =~= fin);
            assert(fin2[cur.len() as int] == ui);
            lemma_reaches_self(g, ui);
            assert forall|q: int| fin.len() <= q < fin2.len() implies g.reaches(ui, #[trigger] fin2[q]) by {
                if q < cur.len() {
                    assert(fin2[q] == cur[q]);
                }
            }
            lemma_finished_closed_from(g, fin2, ui);
        }
        (false, Ghost(fin2))
    }
}

proof fn lemma_deps_view(d: Seq<usize>, x: usize)
    ensures
        deps_view(d.push(x)) == deps_view(d).insert(x as int),
        d.contains(x) ==> deps_view(d) == deps_view(d).insert(x as int),
        forall|y: int| #[trigger] deps_view(d).contains(y) <==> exists|k: int| 0 <= k < d.len() && d[k] == y,
{
    let f = |v: usize| v as int;
    assert(d.push(x).map_values(f) =~= d.map_values(f).push(x as int));
    assert forall|y: int| #[trigger] deps_view(d).contains(y) <==> exists|k: int| 0 <= k < d.len() && d[k] == y by {
        if deps_view(d).contains(y) {
            let k = choose|k: int| 0 <= k < d.map_values(f).len() && d.map_values(f)[k] == y;
            assert(d[k] == y);
        }
        if exists|k: int| 0 <= k < d.len() && d[k] == y {
            let k = choose|k: int| 0 <= k < d.len() && d[k] == y;
            assert(d.map_values(f)[k] == y);
        }
    }
    assert(deps_view(d.push(x)) =~= deps_view(d).insert(x as int)) by {
        assert forall|y: int| #[trigger] deps_view(d.push(x)).contains(y) <==> deps_view(d).insert(x as int).contains(y) by {
            let s2 = d.push(x).map_values(f);
            if s2.contains(y) {
                let k = choose|k: int| 0 <= k < s2.len() && s2[k] == y;
                if k < d.len() {
                    assert(d.map_values(f)[k] == y);
                }
            }
            if deps_view(d).contains(y) {
                let k = choose|k: int| 0 <= k < d.map_values(f).len() && d.map_values(f)[k] == y;
                assert(s2[k] == y);
            }
            if y == x as int {
                assert(s2[d.len() as int] == y);
            }
        }
    }
    if d.contains(x) {
        let k = choose|k: int| 0 <= k < d.len() && d[k] == x;
        assert(d.map_values(f)[k] == x as int);
        assert(deps_view(d) =~= deps_view(d).insert(x as int));
    }
}

/// Whether `d` holds `x`.
fn holds_index(d: &Vec<usize>, x: usize) -> (r: bool)
    ensures
        r == d@.contains(x),
{
    let n = d.len();
    let mut i: usize = 0;
    while i < n
        invariant
            n == d@.len(),
            i <= n,
            forall|j: int| 0 <= j < i ==> d@[j] != x,
        decreases n - i,
    {
        if d[i] == x {
            return true;
        }
        i = i + 1;
    }
    false
}

impl<T, C> TaskGraph<T, C> {
    /// A node that is well formed in one graph is well formed in another
    /// graph with the same ids.
    proof fn lemma_node_wf_transfer(&self, other: &Self, nd: TaskNode<T, C>)
        requires
            self.node_wf(nd),
            other.nodes@.len() == self.nodes@.len(),
            other@.ids == self@.ids,
        ensures
            other.node_wf(nd),
    {
        assert forall|k: int| 0 <= k < nd.dependents@.len() implies other.link_wf(#[trigger] nd.dependents@[k]) by {
            let l = nd.dependents@[k];
            assert(self.link_wf(l));
            if let Some(x) = l.else_target {
                assert(self@.ids[x as int] == self.nodes@[x as int].id@);
                assert(other@.ids[x as int] == other.nodes@[x as int].id@);
            }
        }
    }

    /// The link that an edge from task `from` to task `to` becomes.
    pub open spec fn link_for(g: GraphView, to: Seq<char>, edge: Edge<C>) -> LinkView {
        LinkView {
            target: g.index(to),
            conditional: edge is Conditional,
            else_target: match edge {
                Edge::Conditional { condition, else_task: Some(e) } => Some(g.index(e@)),
                _ => None,
            },
        }
    }

    /// Add an edge between tasks by their ids: the edge goes after the other
    /// edges leaving `from_id`, and its target and its else task wait for
    /// `from_id`. An edge that would close a cycle is refused and the graph
    /// is left as it was.
    fn add_edge_by_id(&mut self, from_id: &str, to_id: &str, edge: Edge<C>) -> (r: Result<(), GraphError>)
        requires
            old(self).wf(),
            edge matches Edge::Conditional { condition, else_task: Some(e) } ==> old(self)@.has_id(e@),
        ensures
            final(self).wf(),
            final(self).tasks() == old(self).tasks(),
            !old(self)@.has_id(from_id@) ==> final(self)@ == old(self)@ && final(self).edges() == old(
                self,
            ).edges() && (r matches Err(GraphError::TaskNotFound(s)) && s@ == from_id@),
            old(self)@.has_id(from_id@) && !old(self)@.has_id(to_id@) ==> final(self)@ == old(self)@
                && final(self).edges() == old(self).edges() && (r matches Err(
                GraphError::TaskNotFound(s),
            ) && s@ == to_id@),
            old(self)@.has_id(from_id@) && old(self)@.has_id(to_id@) ==> {
                let fi = old(self)@.index(from_id@);
                let g = old(self)@.with_edge(fi, Self::link_for(old(self)@, to_id@, edge));
                &&& (r is Ok <==> !g.has_cycle())
                &&& r is Ok ==> final(self)@ == g && final(self).edges() == old(self).edges().update(
                    fi,
                    old(self).edges()[fi].push(edge),
                )
                &&& r is Err ==> (r matches Err(GraphError::CycleDetected)) && final(self)@ == old(self)@
                    && final(self).edges() == old(self).edges()
            },
    {
        let fi = match self.find(from_id) {
            Some(i) => i,
            None => {
                return Err(GraphError::TaskNotFound(from_id.to_owned()));
            },
        };
        let ti = match self.find(to_id) {
            Some(i) => i,
            None => {
                return Err(GraphError::TaskNotFound(to_id.to_owned()));
            },
        };
        let else_target = match &edge {
            Edge::Conditional { condition: _, else_task: Some(e) } => self.find(e.as_str()),
            _ => None,
        };
        let ghost old_self = *self;
        let ghost l = Self::link_for(old_self@, to_id@, edge);
        let link = Link { target: ti, edge: edge, else_target: else_target };
        proof {
            old_self.lemma_view_shape();
            assert(link_view(link) == l);
            assert(self.link_wf(link));
        }
        self.nodes[fi].dependents.push(link);
        let ghost mid = *self;
        proof {
            mid.lemma_view_shape();
            assert(mid@.ids =~= old_self@.ids);
            assert(mid@.deps =~= old_self@.deps);
            assert(mid@.links[fi as int] =~= old_self@.links[fi as int].push(l));
            assert(mid@.links =~= old_self@.links.update(fi as int, old_self@.links[fi as int].push(l)));
            assert(mid.tasks() =~= old_self.tasks());
            assert(mid.edges()[fi as int] =~= old_self.edges()[fi as int].push(edge));
            assert(mid.edges() =~= old_self.edges().update(fi as int, old_self.edges()[fi as int].push(edge)));
            assert forall|i: int| 0 <= i < mid.nodes@.len() implies mid.node_wf(#[trigger] mid.nodes@[i]) by {
                assert(old_self.node_wf(old_self.nodes@[i]));
                old_self.lemma_node_wf_transfer(&mid, old_self.nodes@[i]);
                if i == fi {
                    let nd = mid.nodes@[i];
                    assert forall|k: int| 0 <= k < nd.dependents@.len() implies mid.link_wf(#[trigger] nd.dependents@[k]) by {
                        if k < nd.dependents@.len() - 1 {
                            assert(nd.dependents@[k] == old_self.nodes@[i].dependents@[k]);
                            assert(mid.link_wf(old_self.nodes@[i].dependents@[k]));
                        } else {
                            old_self.lemma_node_wf_transfer(&mid, TaskNode {
                                id: nd.id,
                                task: nd.task,
                                dependencies: nd.dependencies,
                                dependents: nd.dependents,
                            });
                        }
                    }
                }
            }
        }
        let added_target = self.insert_dependency(fi, ti);
        let ghost with_target = *self;
        proof {
            assert(self@.links =~= old_self@.links.update(fi as int, old_self@.links[fi as int].push(l)));
            assert(self@ =~= old_self@.add_link(fi as int, l));
            assert(self.edges()[fi as int] =~= old_self.edges()[fi as int].push(edge));
            assert(self.edges() =~= old_self.edges().update(fi as int, old_self.edges()[fi as int].push(edge)));
        }
        let added_else = match else_target {
            Some(ei) => self.insert_dependency(fi, ei),
            None => false,
        };
        proof {
            assert(self@ == old_self@.with_edge(fi as int, l));
        }
        if self.has_cycle() {
            if let Some(ei) = else_target {
                if added_else {
                    self.drop_last_dependency(ei);
                }
            }
            proof {
                assert forall|i: int| 0 <= i < self.nodes@.len() implies #[trigger] self.nodes@[i].dependencies@
                    == with_target.nodes@[i].dependencies@ by {
                    if let Some(ei) = else_target {
                        if added_else && i == ei {
                            assert(with_target.nodes@[i].dependencies@.push(fi).drop_last()
                                =~= with_target.nodes@[i].dependencies@);
                        }
                    }
                }
            }
            if added_target {
                self.drop_last_dependency(ti);
            }
            self.drop_last_link(fi);
            proof {
                assert forall|i: int| 0 <= i < self.nodes@.len() implies self.same_node(
                    #[trigger] self.nodes@[i],
                    old_self.nodes@[i],
                ) by {
                    if added_target && i == ti {
                        assert(mid.nodes@[i].dependencies@.push(fi).drop_last() =~= mid.nodes@[i].dependencies@);
                    }
                    if i == fi {
                        assert(old_self.nodes@[i].dependents@.push(link).drop_last()
                            =~= old_self.nodes@[i].dependents@);
                    }
                }
                self.lemma_same_nodes(&old_self);
            }
            return Err(GraphError::CycleDetected);
        }
        Ok(())
    }
}

impl<T, C> TaskGraph<T, C> {
    /// The two nodes hold the same id, task, dependencies and edges.
    spec fn same_node(&self, a: TaskNode<T, C>, b: TaskNode<T, C>) -> bool {
        &&& a.id == b.id
        &&& a.task == b.task
        &&& a.dependencies@ == b.dependencies@
        &&& a.dependents@ == b.dependents@
    }

    /// Graphs whose nodes hold the same contents have the same model, tasks
    /// and edges, and are well formed together.
    proof fn lemma_same_nodes(&self, other: &Self)
        requires
            other.wf(),
            self.nodes@.len() == other.nodes@.len(),
            forall|i: int| 0 <= i < self.nodes@.len() ==> self.same_node(#[trigger] self.nodes@[i], other.nodes@[i]),
        ensures
            self.wf(),
            self@ == other@,
            self.tasks() == other.tasks(),
            self.edges() == other.edges(),
    {
        self.lemma_view_shape();
        other.lemma_view_shape();
        assert(self@.ids =~= other@.ids);
        assert(self@.deps =~= other@.deps);
        assert forall|i: int| 0 <= i < self.nodes@.len() implies #[trigger] self@.links[i] == other@.links[i] by {
            assert(self.same_node(self.nodes@[i], other.nodes@[i]));
            assert(self@.links[i] =~= other@.links[i]);
        }
        assert(self@.links =~= other@.links);
        assert(self.tasks() =~= other.tasks());
        assert forall|i: int| 0 <= i < self.nodes@.len() implies #[trigger] self.edges()[i] == other.edges()[i] by {
            assert(self.same_node(self.nodes@[i], other.nodes@[i]));
            assert(self.edges()[i] =~= other.edges()[i]);
        }
        assert(self.edges() =~= other.edges());
        assert forall|i: int| 0 <= i < self.nodes@.len() implies self.node_wf(#[trigger] self.nodes@[i]) by {
            let nd = self.nodes@[i];
            let od = other.nodes@[i];
            assert(self.same_node(nd, od));
            assert(other.node_wf(od));
            assert forall|k: int| 0 <= k < nd.dependencies@.len() implies #[trigger] nd.dependencies@[k]
                < self.nodes@.len() by {
                assert(nd.dependencies@[k] == od.dependencies@[k]);
            }
            assert forall|k: int| 0 <= k < nd.dependents@.len() implies self.link_wf(#[trigger] nd.dependents@[k]) by {
                assert(nd.dependents@[k] == od.dependents@[k]);
                let lk = od.dependents@[k];
                assert(other.link_wf(lk));
                if let Some(x) = lk.else_target {
                    assert(self@.ids[x as int] == self.nodes@[x as int].id@);
                    assert(other@.ids[x as int] == other.nodes@[x as int].id@);
                }
            }
        }
    }

    /// Take back the last dependency recorded for task `to`.
    fn drop_last_dependency(&mut self, to: usize)
        requires
            to < old(self).nodes@.len(),
            old(self).nodes@[to as int].dependencies@.len() > 0,
        ensures
            final(self).nodes@.len() == old(self).nodes@.len(),
            forall|i: int| 0 <= i < final(self).nodes@.len() && i != to ==> #[trigger] final(self).nodes@[i] == old(
                self,
            ).nodes@[i],
            final(self).nodes@[to as int].id == old(self).nodes@[to as int].id,
            final(self).nodes@[to as int].task == old(self).nodes@[to as int].task,
            final(self).nodes@[to as int].dependents == old(self).nodes@[to as int].dependents,
            final(self).nodes@[to as int].dependencies@ == old(self).nodes@[to as int].dependencies@.drop_last(),
    {
        self.nodes[to].dependencies.pop();
    }

    /// Take back the last edge leaving task `from`.
    fn drop_last_link(&mut self, from: usize)
        requires
            from < old(self).nodes@.len(),
            old(self).nodes@[from as int].dependents@.len() > 0,
        ensures
            final(self).nodes@.len() == old(self).nodes@.len(),
            forall|i: int| 0 <= i < final(self).nodes@.len() && i != from ==> #[trigger] final(self).nodes@[i] == old(
                self,
            ).nodes@[i],
            final(self).nodes@[from as int].id == old(self).nodes@[from as int].id,
            final(self).nodes@[from as int].task == old(self).nodes@[from as int].task,
            final(self).nodes@[from as int].dependencies == old(self).nodes@[from as int].dependencies,
            final(self).nodes@[from as int].dependents@ == old(self).nodes@[from as int].dependents@.drop_last(),
    {
        self.nodes[from].dependents.pop();
    }
}

impl<T, C> TaskGraph<T, C> {
    /// Record that task `to` waits for task `from`; whether it was new.
    fn insert_dependency(&mut self, from: usize, to: usize) -> (added: bool)
        requires
            old(self).wf(),
            from < old(self)@.n(),
            to < old(self)@.n(),
        ensures
            final(self).wf(),
            final(self)@ == old(self)@.add_dep(from as int, to as int),
            final(self).tasks() == old(self).tasks(),
            final(self).edges() == old(self).edges(),
            final(self).nodes@.len() == old(self).nodes@.len(),
            forall|i: int| 0 <= i < final(self).nodes@.len() && i != to ==> #[trigger] final(self).nodes@[i] == old(
                self,
            ).nodes@[i],
            final(self).nodes@[to as int].id == old(self).nodes@[to as int].id,
            final(self).nodes@[to as int].task == old(self).nodes@[to as int].task,
            final(self).nodes@[to as int].dependents == old(self).nodes@[to as int].dependents,
            added ==> final(self).nodes@[to as int].dependencies@ == old(self).nodes@[
                to as int
            ].dependencies@.push(from),
            !added ==> final(self).nodes@[to as int].dependencies@ == old(self).nodes@[to as int].dependencies@,
    {
        let ghost old_self = *self;
        proof {
            old_self.lemma_view_shape();
        }
        let added = !holds_index(&self.nodes[to].dependencies, from);
        if added {
            self.nodes[to].dependencies.push(from);
        }
        proof {
            self.lemma_view_shape();
            lemma_deps_view(old_self.nodes@[to as int].dependencies@, from);
            assert(self@.ids =~= old_self@.ids);
            assert(deps_view(self.nodes@[to as int].dependencies@) =~= deps_view(
                old_self.nodes@[to as int].dependencies@,
            ).insert(from as int));
            assert(self@.deps =~= old_self@.deps.update(to as int, old_self@.deps[to as int].insert(from as int)));
            assert(self@.links =~= old_self@.links);
            assert(self@ =~= old_self@.add_dep(from as int, to as int));
            assert(self.tasks() =~= old_self.tasks());
            assert(self.edges() =~= old_self.edges());
            assert forall|i: int| 0 <= i < self.nodes@.len() implies self.node_wf(#[trigger] self.nodes@[i]) by {
                assert(old_self.node_wf(old_self.nodes@[i]));
                old_self.lemma_node_wf_transfer(self, old_self.nodes@[i]);
                if i == to {
                    let nd = self.nodes@[i];
                    self.lemma_node_wf_transfer(self, TaskNode {
                        id: nd.id,
                        task: nd.task,
                        dependencies: old_self.nodes@[i].dependencies,
                        dependents: nd.dependents,
                    });
                }
            }
        }
        added
    }
}

impl<T, C> TaskGraph<T, C> {
    /// Add a direct edge between two tasks, adding each task under its id
    /// unless the graph has a task with that id. An edge that would close a
    /// cycle is refused: the tasks added stay, the edge does not.
    pub fn add_edge(&mut self, from_id: String, from_task: T, to_id: String, to_task: T) -> (r: Result<
        (),
        GraphError,
    >)
        requires
            old(self).wf(),
        ensures
            final(self).wf(),
            ({
                let g1 = old(self)@.with_task(from_id@);
                let g2 = g1.with_task(to_id@);
                let t1 = seq_with(old(self)@.ids, old(self).tasks(), from_id@, from_task);
                let e1 = seq_with(old(self)@.ids, old(self).edges(), from_id@, Seq::empty());
                let e2 = seq_with(g1.ids, e1, to_id@, Seq::empty());
                let fi = g2.index(from_id@);
                let g = g2.with_edge(fi, LinkView { target: g2.index(to_id@), conditional: false, else_target: None });
                &&& final(self).tasks() == seq_with(g1.ids, t1, to_id@, to_task)
                &&& (r is Ok <==> !g.has_cycle())
                &&& r is Ok ==> final(self)@ == g && final(self).edges() == e2.update(fi, e2[fi].push(Edge::Direct))
                &&& r is Err ==> (r matches Err(GraphError::CycleDetected)) && final(self)@ == g2
                    && final(self).edges() == e2
            }),
    {
        let from_key = from_id.clone();
        let to_key = to_id.clone();
        let ghost g0 = self@;
        proof {
            lemma_with_task(g0, from_id@);
            lemma_with_task(g0.with_task(from_id@), to_id@);
        }
        self.add_task(from_id, from_task);
        self.add_task(to_id, to_task);
        self.add_edge_by_id(from_key.as_str(), to_key.as_str(), Edge::Direct)
    }

    /// Add a conditional edge between two tasks, with an optional else task
    /// that runs in place of `to` when the condition does not hold. Each task
    /// is added under its id unless the graph has a task with that id. The
    /// else task waits for `from` as `to` does, and the cycle check counts
    /// that wait: an edge that would close a cycle through `to` or through
    /// the else task is refused, and then the tasks added stay, the edge does
    /// not.
    pub fn add_cond_edge(
        &mut self,
        from_id: String,
        from_task: T,
        to_id: String,
        to_task: T,
        condition: C,
        else_task: Option<(String, T)>,
    ) -> (r: Result<(), GraphError>)
        requires
            old(self).wf(),
        ensures
            final(self).wf(),
            ({
                let g1 = old(self)@.with_task(from_id@);
                let g2 = g1.with_task(to_id@);
                let g3 = match else_task {
                    Some(e) => g2.with_task(e.0@),
                    None => g2,
                };
                let t1 = seq_with(old(self)@.ids, old(self).tasks(), from_id@, from_task);
                let t2 = seq_with(g1.ids, t1, to_id@, to_task);
                let t3 = match else_task {
                    Some(e) => seq_with(g2.ids, t2, e.0@, e.1),
                    None => t2,
                };
                let e1 = seq_with(old(self)@.ids, old(self).edges(), from_id@, Seq::empty());
                let e2 = seq_with(g1.ids, e1, to_id@, Seq::empty());
                let e3 = match else_task {
                    Some(e) => seq_with(g2.ids, e2, e.0@, Seq::empty()),
                    None => e2,
                };
                let fi = g3.index(from_id@);
                let edge = Edge::Conditional {
                    condition: condition,
                    else_task: match else_task {
                        Some(e) => Some(e.0),
                        None => None,
                    },
                };
                let g4 = g3.with_edge(fi, Self::link_for(g3, to_id@, edge));
                &&& final(self).tasks() == t3
                &&& (r is Ok <==> !g4.has_cycle())
                &&& r is Ok ==> final(self)@ == g4 && final(self).edges() == e3.update(fi, e3[fi].push(edge))
                &&& r is Err ==> (r matches Err(GraphError::CycleDetected)) && final(self)@ == g3
                    && final(self).edges() == e3
            }),
    {
        let from_key = from_id.clone();
        let to_key = to_id.clone();
        let ghost g0 = self@;
        let ghost g1 = g0.with_task(from_id@);
        let ghost g2 = g1.with_task(to_id@);
        proof {
            lemma_with_task(g0, from_id@);
            lemma_with_task(g1, to_id@);
        }
        self.add_task(from_id, from_task);
        self.add_task(to_id, to_task);
        let else_id = match else_task {
            Some((id, task)) => {
                let key = id.clone();
                proof {
                    lemma_with_task(g2, id@);
                }
                self.add_task(id, task);
                Some(key)
            },
            None => None,
        };
        let edge = Edge::Conditional { condition: condition, else_task: else_id };
        self.add_edge_by_id(from_key.as_str(), to_key.as_str(), edge)
    }
}

impl<T, C> TaskGraph<T, C> {
    /// The number of tasks.
    pub fn len(&self) -> (r: usize)
        ensures
            r == self@.n(),
    {
        proof {
            self.lemma_view_shape();
        }
        self.nodes.len()
    }

    /// The id of task `i`.
    pub(crate) fn id_at(&self, i: usize) -> (r: &String)
        requires
            i < self@.n(),
        ensures
            r@ == self@.ids[i as int],
    {
        proof {
            self.lemma_view_shape();
        }
        &self.nodes[i].id
    }

    /// The tasks that task `i` waits for.
    pub(crate) fn dependencies_at(&self, i: usize) -> (r: &Vec<usize>)
        requires
            self.wf(),
            i < self@.n(),
        ensures
            forall|k: int| 0 <= k < r@.len() ==> #[trigger] r@[k] < self@.n(),
            forall|d: int| #[trigger] self@.deps[i as int].contains(d) <==> exists|k: int| 0 <= k < r@.len() && r@[k] == d,
    {
        proof {
            self.lemma_view_shape();
            assert(self.node_wf(self.nodes@[i as int]));
            lemma_deps_view(self.nodes@[i as int].dependencies@, 0);
        }
        &self.nodes[i].dependencies
    }

    /// The number of edges leaving task `i`.
    pub(crate) fn links_len(&self, i: usize) -> (r: usize)
        requires
            i < self@.n(),
        ensures
            r == self@.links[i as int].len(),
    {
        proof {
            self.lemma_view_shape();
        }
        self.nodes[i].dependents.len()
    }

    /// Edge `k` leaving task `i`: its target, whether it is conditional, and
    /// its else task.
    pub(crate) fn link_at(&self, i: usize, k: usize) -> (r: (usize, bool, Option<usize>))
        requires
            self.wf(),
            i < self@.n(),
            k < self@.links[i as int].len(),
        ensures
            r.0 == self@.links[i as int][k as int].target,
            r.1 == self@.links[i as int][k as int].conditional,
            r.2 matches Some(e) ==> self@.links[i as int][k as int].else_target == Some(e as int),
            r.2 is None ==> self@.links[i as int][k as int].else_target is None,
            r.0 < self@.n(),
            r.2 matches Some(e) ==> e < self@.n(),
    {
        proof {
            self.lemma_view_shape();
            assert(self.node_wf(self.nodes@[i as int]));
            assert(self.link_wf(self.nodes@[i as int].dependents@[k as int]));
        }
        let l = &self.nodes[i].dependents[k];
        let conditional = match &l.edge {
            Edge::Direct => false,
            Edge::Conditional { .. } => true,
        };
        (l.target, conditional, l.else_target)
    }

    /// The task named `task_id`, if the graph has one.
    pub fn task(&self, task_id: &str) -> (r: Option<&T>)
        requires
            self.wf(),
        ensures
            r is Some <==> self@.has_id(task_id@),
            r matches Some(t) ==> *t == self.tasks()[self@.index(task_id@)],
    {
        match self.find(task_id) {
            Some(i) => Some(&self.nodes[i].task),
            None => None,
        }
    }

    /// The conditions on the edges leaving the task named `task_id`, in the
    /// order of the edges; empty when the graph has no such task.
    pub fn conditions(&self, task_id: &str) -> (r: Vec<&C>)
        requires
            self.wf(),
        ensures
            !self@.has_id(task_id@) ==> r@.len() == 0,
            self@.has_id(task_id@) ==> r@.len() == cond_count(self@.links[self@.index(task_id@)])
                && r@.map_values(|c: &C| *c) == conditions_of(self.edges()[self@.index(task_id@)]),
    {
        let mut r: Vec<&C> = Vec::new();
        match self.find(task_id) {
            Some(i) => {
                proof {
                    self.lemma_view_shape();
                }
                let ghost ii = i as int;
                let ghost links = self@.links[ii];
                let ghost es = self.edges()[ii];
                let m = self.nodes[i].dependents.len();
                let mut k: usize = 0;
                while k < m
                    invariant
                        m == links.len(),
                        m == es.len(),
                        m == self.nodes@[ii].dependents@.len(),
                        0 <= ii < self.nodes@.len(),
                        ii == i as int,
                        links == self@.links[ii],
                        es == self.edges()[ii],
                        k <= m,
                        r@.len() == cond_count(links.take(k as int)),
                        r@.map_values(|c: &C| *c) == conditions_of(es.take(k as int)),
                    decreases m - k,
                {
                    let ghost prev = r@;
                    assert(links.take(k + 1).drop_last() =~= links.take(k as int));
                    assert(es.take(k + 1).drop_last() =~= es.take(k as int));
                    assert(links[k as int] == link_view(self.nodes@[ii].dependents@[k as int]));
                    assert(es[k as int] == self.nodes@[ii].dependents@[k as int].edge);
                    match &self.nodes[i].dependents[k].edge {
                        Edge::Conditional { condition, else_task: _ } => {
                            r.push(condition);
                            assert(r@.map_values(|c: &C| *c) =~= prev.map_values(|c: &C| *c).push(*condition));
                        },
                        Edge::Direct => {},
                    }
                    k = k + 1;
                }
                assert(links.take(m as int) =~= links);
                assert(es.take(m as int) =~= es);
            },
            None => {},
        }
        r
    }
}

/// Among edges that agree with `links` on which are conditional, the
/// condition of the edge at position `k`, when it is conditional, is the one
/// at position "number of conditional edges before `k`" of `conditions_of`:
/// conditions come in the order of their edges, each from its own edge.
proof fn lemma_conditions_of_index<C>(es: Seq<Edge<C>>, links: Seq<LinkView>)
    requires
        es.len() == links.len(),
        forall|k: int| 0 <= k < es.len() ==> (#[trigger] links[k]).conditional == es[k] is Conditional,
    ensures
        conditions_of(es).len() == cond_count(links),
        forall|k: int|
            0 <= k < es.len() ==> (#[trigger] es[k] matches Edge::Conditional { condition, else_task } ==> conditions_of(
                es,
            )[cond_count(links.take(k)) as int] == condition),
    decreases es.len(),
{
    if es.len() > 0 {
        let er = es.drop_last();
        let lr = links.drop_last();
        assert forall|k: int| 0 <= k < er.len() implies (#[trigger] lr[k]).conditional == er[k] is Conditional by {
            assert(lr[k] == links[k]);
            assert(er[k] == es[k]);
        }
        lemma_conditions_of_index(er, lr);
        let n = es.len() - 1;
        assert(links.last() == links[n]);
        assert(es.last() == es[n]);
        assert forall|k: int|
            0 <= k < es.len() implies (#[trigger] es[k] matches Edge::Conditional { condition, else_task }
            ==> conditions_of(es)[cond_count(links.take(k)) as int] == condition) by {
            if k < n {
                assert(er[k] == es[k]);
                assert(links.take(k) =~= lr.take(k));
                lemma_cond_count_take_le(lr, k);
            } else {
                assert(links.take(k) =~= lr);
            }
        }
    }
}

/// Fewer edges have fewer conditional ones: the edges before `k`, when `k`
/// is a position of an edge, have fewer than all of them.
proof fn lemma_cond_count_take_le(links: Seq<LinkView>, k: int)
    requires
        0 <= k < links.len(),
    ensures
        cond_count(links.take(k)) + (if links[k].conditional { 1int } else { 0int }) <= cond_count(links),
    decreases links.len() - k,
{
    assert(links.take(k + 1).drop_last() =~= links.take(k));
    assert(links.take(k + 1).last() == links[k]);
    if k + 1 < links.len() {
        lemma_cond_count_take_le(links, k + 1);
        assert(cond_count(links.take(k + 1)) <= cond_count(links.take(k + 1)) + (if links[k + 1].conditional {
            1int
        } else {
            0int
        }));
    } else {
        assert(links.take(k + 1) =~= links);
    }
}

impl<T, C> TaskGraph<T, C> {
    /// The conditions of a task come from its own conditional edges, in the
    /// order in which the edges were added: the edge at position `k` among
    /// those leaving the task is conditional in the model exactly when it is
    /// a conditional edge, and when it is, its condition is the one at
    /// position "number of conditional edges before it" of what
    /// `conditions` returns, whatever its else task. The outcome a report
    /// gives at that position is the one `apply_results` applies to that
    /// same edge.
    pub proof fn law_conditions_in_edge_order(&self, i: int)
        requires
            self.wf(),
            0 <= i < self@.n(),
        ensures
            self.edges()[i].len() == self@.links[i].len(),
            forall|k: int|
                0 <= k < self@.links[i].len() ==> (#[trigger] self@.links[i][k]).conditional
                    == self.edges()[i][k] is Conditional,
            conditions_of(self.edges()[i]).len() == cond_count(self@.links[i]),
            forall|k: int|
                0 <= k < self.edges()[i].len() ==> (#[trigger] self.edges()[i][k] matches Edge::Conditional {
                    condition,
                    else_task,
                } ==> conditions_of(self.edges()[i])[cond_count(self@.links[i].take(k)) as int] == condition),
    {
        self.lemma_view_shape();
        let es = self.edges()[i];
        let links = self@.links[i];
        assert forall|k: int| 0 <= k < es.len() implies (#[trigger] links[k]).conditional == es[k] is Conditional by {
            assert(links[k] == link_view(self.nodes@[i].dependents@[k]));
            assert(es[k] == self.nodes@[i].dependents@[k].edge);
        }
        lemma_conditions_of_index(es, links);
    }
}

} // verus!
