use vstd::prelude::*;

pub mod map;
pub mod distances;
pub mod bfs;
pub mod dijkstra;
pub mod astar;
pub mod laws;

use crate::distances::{distance, heuristic, Distances};
use crate::map::{Graph, GraphView};

verus! {

/// A route found by a search: the node names from origin to destination, and its cost.
#[derive(Debug)]
pub struct CostPath {
    pub path: Vec<String>,
    pub cost: u32,
}

impl CostPath {
    pub open spec fn names(&self) -> Seq<Seq<char>> {
        self.path@.map_values(|s: String| s@)
    }
}

/// Why a search found no route.
#[derive(Clone, Copy, Debug, PartialEq, Eq)]
pub enum PathError {
    /// The destination is not a node of the graph.
    UnknownNode,
    /// No route leads from the origin to the destination.
    NoPath,
}

/// A queue entry: a node index and its priority; the least priority leaves first.
#[derive(Clone, Copy, Debug)]
pub struct PriorityQueueItem {
    pub priority: u64,
    pub id: usize,
}

/// Take out the entry of least priority (the earliest among equals).
fn pop_min(q: &mut Vec<PriorityQueueItem>) -> (r: PriorityQueueItem)
    requires
        old(q).len() > 0,
    ensures
        exists|m: int|
            0 <= m < old(q).len() && r == old(q)@[m] && final(q)@ == old(q)@.remove(m),
        forall|k: int| 0 <= k < old(q).len() ==> r.priority <= #[trigger] old(q)@[k].priority,
{
    let mut m: usize = 0;
    let mut k: usize = 1;
    while k < q.len()
        invariant
            0 <= m < k <= q.len(),
            forall|kk: int| 0 <= kk < k ==> q@[m as int].priority <= #[trigger] q@[kk].priority,
        decreases q.len() - k,
    {
        if q[k].priority < q[m].priority {
            m = k;
        }
        k = k + 1;
    }
    q.remove(m)
}

/// Cost of the step from `u` to `v`: one when `unit`, else the edge's weight.
pub open spec fn step(g: GraphView, u: int, v: int, unit: bool) -> int {
    if unit {
        1
    } else {
        g.weight(u, v)
    }
}

/// The heuristic estimate at node `i`: nothing without a heuristic or a goal.
pub open spec fn estimate(g: GraphView, heur: Option<Distances>, goal: Option<usize>, i: int) -> int {
    match (heur, goal) {
        (Some(kind), Some(e)) => distance(kind, g.positions[i], g.positions[e as int]) as int,
        _ => 0,
    }
}

/// The heuristic never overestimates the weight of a walk into `e`.
pub open spec fn admissible(g: GraphView, kind: Distances, e: int) -> bool {
    forall|w: Seq<int>|
        g.is_walk(w) && w.last() == e ==> distance(kind, g.positions[w[0]], g.positions[e])
            <= #[trigger] g.walk_weight(w)
}

/// No walk from `s` to `e` costs less than `c`.
pub open spec fn least_cost(g: GraphView, s: int, e: int, c: int, unit: bool) -> bool {
    forall|w: Seq<int>|
        g.is_walk(w) && w[0] == s && w.last() == e ==> c <= #[trigger] g.walk_cost(w, unit)
}

pub open spec fn cost_of(c: Option<u32>) -> int {
    c.unwrap() as int
}

/// The edge `u -> j` needs no relaxing: it leads past the budget, or `j` costs no more
/// than going through `u`.
pub open spec fn edge_ok(g: GraphView, costs: Seq<Option<u32>>, u: int, j: int, budget: int, unit: bool) -> bool {
    costs[u] is Some && (cost_of(costs[u]) + step(g, u, j, unit) > budget || (costs[j] is Some
        && cost_of(costs[j]) <= cost_of(costs[u]) + step(g, u, j, unit)))
}

pub open spec fn relaxed(g: GraphView, costs: Seq<Option<u32>>, u: int, budget: int, unit: bool) -> bool {
    forall|j: int| 0 <= j < g.len() && #[trigger] g.has_edge(u, j) ==> edge_ok(g, costs, u, j, budget, unit)
}

/// Node `v` waits in the queue with a priority no larger than its cost plus its estimate.
pub open spec fn pending(g: GraphView, q: Seq<PriorityQueueItem>, costs: Seq<Option<u32>>, v: int, heur: Option<Distances>, goal: Option<usize>) -> bool {
    exists|k: int|
        0 <= k < q.len() && q[k].id == v && #[trigger] q[k].priority <= cost_of(costs[v]) + estimate(g, heur, goal, v)
}

/// The search tree: costs within the budget, each reached node's predecessor reached at
/// no more than its cost minus the step, ordered by cost then by time of last update;
/// each cost is met by some walk.
#[verifier::opaque]
pub open spec fn tree(g: GraphView, start: int, costs: Seq<Option<u32>>, preds: Seq<Option<(usize, u32)>>, stamps: Seq<nat>, budget: int, unit: bool) -> bool {
    &&& costs.len() == g.len()
    &&& preds.len() == g.len()
    &&& stamps.len() == g.len()
    &&& 0 <= start < g.len()
    &&& costs[start] == Some(0u32)
    &&& preds[start] is None
    &&& forall|v: int| 0 <= v < g.len() && #[trigger] costs[v] is Some ==> cost_of(costs[v]) <= budget
            && g.reaches(start, v, cost_of(costs[v]), unit)
    &&& forall|v: int| 0 <= v < g.len() && v != start && #[trigger] costs[v] is Some ==> {
            &&& preds[v] is Some
            &&& ({
                let (u, w) = preds[v].unwrap();
                &&& u < g.len()
                &&& costs[u as int] is Some
                &&& g.has_edge(u as int, v)
                &&& w == g.weight(u as int, v)
                &&& cost_of(costs[u as int]) + step(g, u as int, v, unit) <= cost_of(costs[v])
                &&& (cost_of(costs[u as int]) < cost_of(costs[v]) || stamps[u as int] < stamps[v])
            })
        }
}

/// The queue: each entry names a reached node, no cheaper than that node's cost; each
/// reached node is relaxed or pending.
pub open spec fn frontier(g: GraphView, q: Seq<PriorityQueueItem>, costs: Seq<Option<u32>>, budget: int, unit: bool, heur: Option<Distances>, goal: Option<usize>) -> bool {
    &&& forall|k: int| 0 <= k < q.len() ==> #[trigger] q[k].id < g.len() && costs[q[k].id as int] is Some
            && q[k].priority >= cost_of(costs[q[k].id as int])
    &&& forall|v: int| 0 <= v < g.len() && #[trigger] costs[v] is Some ==> relaxed(g, costs, v, budget, unit)
            || pending(g, q, costs, v, heur, goal)
}

pub open spec fn val(c: Option<u32>, cap: nat) -> nat {
    match c {
        Some(x) => x as nat,
        None => cap,
    }
}

/// Sum of the costs, an unreached node counting `cap`.
pub open spec fn potential(s: Seq<Option<u32>>, cap: nat) -> nat
    decreases s.len(),
{
    if s.len() == 0 {
        0
    } else {
        potential(s.drop_last(), cap) + val(s.last(), cap)
    }
}

proof fn lemma_potential_update(s: Seq<Option<u32>>, cap: nat, i: int, x: u32)
    requires
        0 <= i < s.len(),
        val(Some(x), cap) < val(s[i], cap),
    ensures
        potential(s.update(i, Some(x)), cap) < potential(s, cap),
    decreases s.len(),
{
    let t = s.update(i, Some(x));
    if i == s.len() - 1 {
        assert(t.drop_last() =~= s.drop_last());
    } else {
        lemma_potential_update(s.drop_last(), cap, i, x);
        assert(t.drop_last() =~= s.drop_last().update(i, Some(x)));
    }
}

/// Extending a walk by one edge adds that step's cost.
proof fn lemma_walk_push(g: GraphView, w: Seq<int>, x: int, unit: bool)
    requires
        w.len() > 0,
    ensures
        g.walk_cost(w.push(x), unit) == g.walk_cost(w, unit) + step(g, w.last(), x, unit),
{
    assert(w.push(x).drop_last() =~= w);
}

proof fn lemma_walk_prepend(g: GraphView, p: int, w: Seq<int>)
    requires
        w.len() > 0,
    ensures
        g.walk_weight(seq![p] + w) == g.weight(p, w[0]) + g.walk_weight(w),
    decreases w.len(),
{
    let v = seq![p] + w;
    if w.len() == 1 {
        assert(v.drop_last() =~= seq![p]);
        assert(v[v.len() - 2] == p && v.last() == w[0]);
        assert(g.walk_weight(v) == g.walk_weight(v.drop_last()) + g.weight(v[v.len() - 2], v.last()));
        assert(g.walk_weight(seq![p]) == 0);
        assert(g.walk_weight(w) == 0);
    } else {
        lemma_walk_prepend(g, p, w.drop_last());
        assert(v.drop_last() =~= seq![p] + w.drop_last());
        assert(v[v.len() - 2] == w[w.len() - 2] && v.last() == w.last());
        assert(w.drop_last()[0] == w[0]);
        assert(g.walk_weight(v) == g.walk_weight(v.drop_last()) + g.weight(v[v.len() - 2], v.last()));
        assert(g.walk_weight(w) == g.walk_weight(w.drop_last()) + g.weight(w[w.len() - 2], w.last()));
    }
}

proof fn lemma_nonneg(g: GraphView, w: Seq<int>)
    ensures
        g.walk_weight(w) >= 0,
    decreases w.len(),
{
    if w.len() > 1 {
        lemma_nonneg(g, w.drop_last());
    }
}

/// A walk's weight splits at any node into the weights before and after it.
proof fn lemma_walk_split(g: GraphView, w: Seq<int>, i: int)
    requires
        0 <= i < w.len(),
    ensures
        g.walk_weight(w) == g.walk_weight(w.take(i + 1)) + g.walk_weight(w.skip(i)),
    decreases w.len(),
{
    if i == w.len() - 1 {
        assert(w.take(i + 1) =~= w);
    } else {
        let d = w.drop_last();
        lemma_walk_split(g, d, i);
        assert(d.take(i + 1) =~= w.take(i + 1));
        assert(w.skip(i).drop_last() =~= d.skip(i));
    }
}

proof fn lemma_prefix_le(g: GraphView, w: Seq<int>, i: int, unit: bool)
    requires
        0 <= i < w.len(),
    ensures
        g.walk_cost(w.take(i + 1), unit) <= g.walk_cost(w, unit),
{
    lemma_walk_split(g, w, i);
    lemma_nonneg(g, w.skip(i));
}

/// Following a walk from a reached node, either its end is reached at no more than the
/// walk's cost, or some node on it is pending at no more than the cost of the walk up to it.
proof fn lemma_frontier(g: GraphView, q: Seq<PriorityQueueItem>, costs: Seq<Option<u32>>, budget: int, unit: bool, heur: Option<Distances>, goal: Option<usize>, w: Seq<int>, j: int)
    requires
        g.wf(),
        costs.len() == g.len(),
        frontier(g, q, costs, budget, unit, heur, goal),
        g.is_walk(w),
        g.walk_cost(w, unit) <= budget,
        0 <= j < w.len(),
        costs[w[j]] is Some,
        cost_of(costs[w[j]]) <= g.walk_cost(w.take(j + 1), unit),
    ensures
        (costs[w.last()] is Some && cost_of(costs[w.last()]) <= g.walk_cost(w, unit)) || exists|i: int|
            0 <= i < w.len() && costs[w[i]] is Some && cost_of(costs[w[i]]) <= g.walk_cost(w.take(i + 1), unit)
                && #[trigger] pending(g, q, costs, w[i], heur, goal),
    decreases w.len() - j,
{
    if j == w.len() - 1 {
        assert(w.take(j + 1) =~= w);
    } else if pending(g, q, costs, w[j], heur, goal) {
    } else {
        let a = w[j];
        let b = w[j + 1];
        assert(g.has_edge(a, b));
        assert(relaxed(g, costs, a, budget, unit));
        assert(edge_ok(g, costs, a, b, budget, unit));
        lemma_walk_push(g, w.take(j + 1), b, unit);
        assert(w.take(j + 1).push(b) =~= w.take(j + 2));
        lemma_prefix_le(g, w, j + 1, unit);
        lemma_frontier(g, q, costs, budget, unit, heur, goal, w, j + 1);
    }
}

/// What a search leaves behind: the cost and predecessor of each reached node, and
/// whether the goal was taken from the queue.
pub(crate) struct Explored {
    pub(crate) costs: Vec<Option<u32>>,
    pub(crate) preds: Vec<Option<(usize, u32)>>,
    pub(crate) found: bool,
    pub(crate) stamps: Ghost<Seq<nat>>,
}

pub open spec fn sound_heuristic(g: GraphView, heur: Option<Distances>, goal: Option<usize>) -> bool {
    match (heur, goal) {
        (Some(kind), Some(e)) => admissible(g, kind, e as int),
        _ => true,
    }
}

/// The state between two steps of the search.
#[verifier::opaque]
pub open spec fn outer(g: GraphView, start: int, costs: Seq<Option<u32>>, preds: Seq<Option<(usize, u32)>>, stamps: Seq<nat>, clock: nat, q: Seq<PriorityQueueItem>, budget: int, unit: bool, heur: Option<Distances>, goal: Option<usize>) -> bool {
    &&& tree(g, start, costs, preds, stamps, budget, unit)
    &&& costs.len() == g.len()
    &&& 0 <= start < g.len()
    &&& costs[start] == Some(0u32)
    &&& forall|v: int| 0 <= v < g.len() ==> #[trigger] stamps[v] < clock
    &&& frontier(g, q, costs, budget, unit, heur, goal)
    &&& (goal is Some && costs[goal.unwrap() as int] is Some ==> exists|k: int|
            0 <= k < q.len() && #[trigger] q[k].id == goal.unwrap())
}

/// The state while the edges out of `u` are relaxed, the first `k` of them done.
#[verifier::opaque]
pub open spec fn inner(g: GraphView, start: int, costs: Seq<Option<u32>>, preds: Seq<Option<(usize, u32)>>, stamps: Seq<nat>, clock: nat, q: Seq<PriorityQueueItem>, budget: int, unit: bool, heur: Option<Distances>, goal: Option<usize>, u: int, k: int) -> bool {
    &&& tree(g, start, costs, preds, stamps, budget, unit)
    &&& costs.len() == g.len()
    &&& 0 <= start < g.len()
    &&& costs[start] == Some(0u32)
    &&& forall|v: int| 0 <= v < g.len() ==> #[trigger] stamps[v] < clock
    &&& forall|kk: int| 0 <= kk < q.len() ==> #[trigger] q[kk].id < g.len() && costs[q[kk].id as int] is Some
            && q[kk].priority >= cost_of(costs[q[kk].id as int])
    &&& forall|v: int| 0 <= v < g.len() && v != u && #[trigger] costs[v] is Some ==> relaxed(g, costs, v, budget, unit)
            || pending(g, q, costs, v, heur, goal)
    &&& forall|kk: int| 0 <= kk < k ==> edge_ok(g, costs, u, #[trigger] g.adj[u][kk].0 as int, budget, unit)
    &&& (goal is Some && costs[goal.unwrap() as int] is Some ==> exists|kk: int|
            0 <= kk < q.len() && #[trigger] q[kk].id == goal.unwrap())
}

proof fn lemma_init(g: GraphView, start: int, costs: Seq<Option<u32>>, preds: Seq<Option<(usize, u32)>>, q: Seq<PriorityQueueItem>, budget: int, unit: bool, heur: Option<Distances>, goal: Option<usize>)
    requires
        g.wf(),
        0 <= start < g.len(),
        budget >= 0,
        costs.len() == g.len(),
        preds.len() == g.len(),
        forall|v: int| 0 <= v < g.len() && v != start ==> costs[v] is None && preds[v] is None,
        costs[start] == Some(0u32),
        preds[start] is None,
        q == seq![PriorityQueueItem { priority: 0, id: start as usize }],
        goal matches Some(e) ==> e < g.len(),
        start == start as usize as int,
    ensures
        outer(g, start, costs, preds, Seq::new(g.len() as nat, |v: int| 0nat), 1, q, budget, unit, heur, goal),
{
    reveal(tree);
    reveal(outer);
    assert(q[0] == PriorityQueueItem { priority: 0, id: start as usize });
    let w0 = seq![start];
    assert(g.is_walk(w0));
    assert(g.walk_cost(w0, unit) == 0);
    assert(g.reaches(start, start, 0, unit));
    assert(pending(g, q, costs, start, heur, goal)) by {
        assert(q[0].id == start);
        assert(estimate(g, heur, goal, start) >= 0);
        assert(q[0].priority <= cost_of(costs[start]) + estimate(g, heur, goal, start));
    }
    if goal is Some && costs[goal.unwrap() as int] is Some {
        assert(q[0].id == goal.unwrap());
    }
}

proof fn lemma_pending_remove(g: GraphView, q0: Seq<PriorityQueueItem>, m: int, costs: Seq<Option<u32>>, v: int, heur: Option<Distances>, goal: Option<usize>)
    requires
        0 <= m < q0.len(),
        q0[m].id != v,
        pending(g, q0, costs, v, heur, goal),
    ensures
        pending(g, q0.remove(m), costs, v, heur, goal),
{
    let q = q0.remove(m);
    let kk = choose|kk: int| 0 <= kk < q0.len() && q0[kk].id == v && #[trigger] q0[kk].priority
        <= cost_of(costs[v]) + estimate(g, heur, goal, v);
    if kk < m {
        assert(q[kk] == q0[kk]);
    } else {
        assert(q[kk - 1] == q0[kk]);
    }
}

proof fn lemma_pending_push(g: GraphView, q0: Seq<PriorityQueueItem>, x: PriorityQueueItem, c0: Seq<Option<u32>>, costs: Seq<Option<u32>>, v: int, heur: Option<Distances>, goal: Option<usize>)
    requires
        pending(g, q0, c0, v, heur, goal),
        c0[v] == costs[v],
    ensures
        pending(g, q0.push(x), costs, v, heur, goal),
{
    let kk = choose|kk: int| 0 <= kk < q0.len() && q0[kk].id == v && #[trigger] q0[kk].priority
        <= cost_of(c0[v]) + estimate(g, heur, goal, v);
    assert(q0.push(x)[kk] == q0[kk]);
}

proof fn lemma_pop(g: GraphView, start: int, costs: Seq<Option<u32>>, preds: Seq<Option<(usize, u32)>>, stamps: Seq<nat>, clock: nat, q0: Seq<PriorityQueueItem>, q: Seq<PriorityQueueItem>, m: int, budget: int, unit: bool, heur: Option<Distances>, goal: Option<usize>)
    requires
        outer(g, start, costs, preds, stamps, clock, q0, budget, unit, heur, goal),
        0 <= m < q0.len(),
        q == q0.remove(m),
        goal != Some(q0[m].id),
    ensures
        q0[m].id < g.len(),
        costs[q0[m].id as int] is Some,
        inner(g, start, costs, preds, stamps, clock, q, budget, unit, heur, goal, q0[m].id as int, 0),
{
    reveal(outer);
    reveal(inner);
    let u = q0[m].id as int;
    assert(q0[m].id < g.len());
    assert forall|v: int| 0 <= v < g.len() && v != u && #[trigger] costs[v] is Some && !relaxed(g, costs, v, budget, unit)
        implies pending(g, q, costs, v, heur, goal) by {
        lemma_pending_remove(g, q0, m, costs, v, heur, goal);
    }
    assert forall|kk: int| 0 <= kk < q.len() implies #[trigger] q[kk].id < g.len() && costs[q[kk].id as int] is Some
        && q[kk].priority >= cost_of(costs[q[kk].id as int]) by {
        if kk < m {
            assert(q[kk] == q0[kk]);
        } else {
            assert(q[kk] == q0[kk + 1]);
        }
    }
    if goal is Some && costs[goal.unwrap() as int] is Some {
        let kk = choose|kk: int| 0 <= kk < q0.len() && #[trigger] q0[kk].id == goal.unwrap();
        if kk < m {
            assert(q[kk] == q0[kk]);
        } else {
            assert(q[kk - 1] == q0[kk]);
        }
    }
}

/// Taking the goal from the queue ends the search with its cost least among walks.
proof fn lemma_found(g: GraphView, start: int, costs: Seq<Option<u32>>, preds: Seq<Option<(usize, u32)>>, stamps: Seq<nat>, clock: nat, q0: Seq<PriorityQueueItem>, m: int, budget: int, unit: bool, heur: Option<Distances>, goal: Option<usize>)
    requires
        g.wf(),
        outer(g, start, costs, preds, stamps, clock, q0, budget, unit, heur, goal),
        0 <= m < q0.len(),
        forall|k: int| 0 <= k < q0.len() ==> q0[m].priority <= #[trigger] q0[k].priority,
        goal == Some(q0[m].id),
        heur is Some ==> !unit,
    ensures
        costs[q0[m].id as int] is Some,
        sound_heuristic(g, heur, goal) ==> forall|w: Seq<int>|
            g.is_walk(w) && w[0] == start && w.last() == q0[m].id && #[trigger] g.walk_cost(w, unit) <= budget
                ==> cost_of(costs[q0[m].id as int]) <= g.walk_cost(w, unit),
{
    reveal(outer);
    let e = q0[m].id as int;
    assert(q0[m].id < g.len());
    assert forall|w: Seq<int>| sound_heuristic(g, heur, goal) &&
        g.is_walk(w) && w[0] == start && w.last() == e && #[trigger] g.walk_cost(w, unit) <= budget
            implies cost_of(costs[e]) <= g.walk_cost(w, unit) by {
        assert(w.take(1) =~= seq![start]);
        assert(g.walk_cost(w.take(1), unit) == 0);
        lemma_frontier(g, q0, costs, budget, unit, heur, goal, w, 0);
        if !(costs[w.last()] is Some && cost_of(costs[w.last()]) <= g.walk_cost(w, unit)) {
            let i = choose|i: int| 0 <= i < w.len() && costs[w[i]] is Some && cost_of(costs[w[i]])
                <= g.walk_cost(w.take(i + 1), unit) && #[trigger] pending(g, q0, costs, w[i], heur, goal);
            let k = choose|k: int| 0 <= k < q0.len() && q0[k].id == w[i] && #[trigger] q0[k].priority
                <= cost_of(costs[w[i]]) + estimate(g, heur, goal, w[i]);
            assert(q0[m].priority <= q0[k].priority);
            lemma_walk_split(g, w, i);
            lemma_nonneg(g, w.skip(i));
            if let Some(kind) = heur {
                let sfx = w.skip(i);
                assert(g.is_walk(sfx)) by {
                    assert forall|t: int| 0 <= t < sfx.len() - 1 implies #[trigger] g.has_edge(sfx[t], sfx[t + 1]) by {
                        assert(g.has_edge(w[i + t], w[i + t + 1]));
                    }
                }
                assert(sfx.last() == e);
                assert(distance(kind, g.positions[sfx[0]], g.positions[e]) <= g.walk_weight(sfx));
            }
        }
    }
}

/// An edge that needs no update leaves the state as it is, one edge further.
proof fn lemma_keep(g: GraphView, start: int, costs: Seq<Option<u32>>, preds: Seq<Option<(usize, u32)>>, stamps: Seq<nat>, clock: nat, q: Seq<PriorityQueueItem>, budget: int, unit: bool, heur: Option<Distances>, goal: Option<usize>, u: int, k: int)
    requires
        g.wf(),
        0 <= u < g.len(),
        0 <= k < g.adj[u].len(),
        inner(g, start, costs, preds, stamps, clock, q, budget, unit, heur, goal, u, k),
        edge_ok(g, costs, u, g.adj[u][k].0 as int, budget, unit),
    ensures
        inner(g, start, costs, preds, stamps, clock, q, budget, unit, heur, goal, u, k + 1),
{
    reveal(inner);
}

proof fn lemma_edge_ok_lower(g: GraphView, c0: Seq<Option<u32>>, u: int, t: int, j: int, nc: u32, budget: int, unit: bool)
    requires
        edge_ok(g, c0, u, t, budget, unit),
        u != j,
        0 <= j < c0.len(),
        0 <= u < c0.len(),
        0 <= t < c0.len(),
        c0[j] is None || nc < cost_of(c0[j]),
    ensures
        edge_ok(g, c0.update(j, Some(nc)), u, t, budget, unit),
{
}

proof fn lemma_other(g: GraphView, c0: Seq<Option<u32>>, q0: Seq<PriorityQueueItem>, x: PriorityQueueItem, v: int, j: int, nc: u32, budget: int, unit: bool, heur: Option<Distances>, goal: Option<usize>)
    requires
        0 <= j < c0.len(),
        0 <= v < c0.len(),
        c0.len() == g.len(),
        v != j,
        c0[v] is Some,
        relaxed(g, c0, v, budget, unit) || pending(g, q0, c0, v, heur, goal),
        c0[j] is None || nc < cost_of(c0[j]),
    ensures
        relaxed(g, c0.update(j, Some(nc)), v, budget, unit) || pending(g, q0.push(x), c0.update(j, Some(nc)), v, heur, goal),
{
    let costs = c0.update(j, Some(nc));
    if pending(g, q0, c0, v, heur, goal) {
        lemma_pending_push(g, q0, x, c0, costs, v, heur, goal);
    } else {
        assert forall|t: int| 0 <= t < g.len() && #[trigger] g.has_edge(v, t) implies edge_ok(g, costs, v, t, budget, unit) by {
            lemma_edge_ok_lower(g, c0, v, t, j, nc, budget, unit);
        }
    }
}

/// Lowering the cost of `j` through `u` and enqueueing it keeps the state, one edge further.
proof fn lemma_relax(g: GraphView, start: int, c0: Seq<Option<u32>>, p0: Seq<Option<(usize, u32)>>, s0: Seq<nat>, clock: nat, q0: Seq<PriorityQueueItem>, budget: int, unit: bool, heur: Option<Distances>, goal: Option<usize>, u: int, k: int, nc: u32, pr: u64)
    requires
        g.wf(),
        0 <= u < g.len(),
        u == u as usize as int,
        0 <= k < g.adj[u].len(),
        inner(g, start, c0, p0, s0, clock, q0, budget, unit, heur, goal, u, k),
        c0[u] is Some,
        nc == cost_of(c0[u]) + step(g, u, g.adj[u][k].0 as int, unit),
        nc <= budget,
        c0[g.adj[u][k].0 as int] is None || nc < cost_of(c0[g.adj[u][k].0 as int]),
        pr == nc + estimate(g, heur, goal, g.adj[u][k].0 as int),
        goal is Some ==> goal.unwrap() < g.len(),
    ensures
        ({
            let j = g.adj[u][k].0 as int;
            inner(g, start, c0.update(j, Some(nc)), p0.update(j, Some((u as usize, g.adj[u][k].1))),
                s0.update(j, clock), clock + 1, q0.push(PriorityQueueItem { priority: pr, id: j as usize }),
                budget, unit, heur, goal, u, k + 1)
        }),
{
    reveal(inner);
    let j = g.adj[u][k].0 as int;
    let w = g.adj[u][k].1;
    let costs = c0.update(j, Some(nc));
    let preds = p0.update(j, Some((u as usize, w)));
    let stamps = s0.update(j, clock);
    let q = q0.push(PriorityQueueItem { priority: pr, id: j as usize });
    crate::map::lemma_weight_at(g, u, k);
    assert(j < g.len());
    lemma_relax_tree(g, start, c0, p0, s0, clock, budget, unit, u, k, nc);
    assert(pending(g, q, costs, j, heur, goal)) by {
        assert(q[q.len() - 1] == PriorityQueueItem { priority: pr, id: j as usize });
        assert(q[q.len() - 1].id == j);
        assert(cost_of(costs[j]) == nc);
        assert(q[q.len() - 1].priority <= cost_of(costs[j]) + estimate(g, heur, goal, j));
    }
    assert forall|v: int| 0 <= v < g.len() && v != u && #[trigger] costs[v] is Some implies relaxed(g, costs, v, budget, unit)
        || pending(g, q, costs, v, heur, goal) by {
        if v != j {
            lemma_other(g, c0, q0, PriorityQueueItem { priority: pr, id: j as usize }, v, j, nc, budget, unit, heur, goal);
        }
    }
    assert forall|kk: int| 0 <= kk < k + 1 implies edge_ok(g, costs, u, #[trigger] g.adj[u][kk].0 as int, budget, unit) by {
        if kk < k {
            lemma_edge_ok_lower(g, c0, u, g.adj[u][kk].0 as int, j, nc, budget, unit);
        }
    }
    assert forall|kk: int| 0 <= kk < q.len() implies #[trigger] q[kk].id < g.len() && costs[q[kk].id as int] is Some
        && q[kk].priority >= cost_of(costs[q[kk].id as int]) by {
        if kk < q.len() - 1 {
            assert(q[kk] == q0[kk]);
        }
    }
    if goal is Some && costs[goal.unwrap() as int] is Some {
        if goal.unwrap() as int != j {
            let kk = choose|kk: int| 0 <= kk < q0.len() && #[trigger] q0[kk].id == goal.unwrap();
            assert(q[kk] == q0[kk]);
        } else {
            assert(q[q.len() - 1].id == goal.unwrap());
        }
    }
}

/// Lowering the cost of `j` through `u` keeps the search tree.
#[verifier::rlimit(60)]
proof fn lemma_relax_tree(g: GraphView, start: int, c0: Seq<Option<u32>>, p0: Seq<Option<(usize, u32)>>, s0: Seq<nat>, clock: nat, budget: int, unit: bool, u: int, k: int, nc: u32)
    requires
        g.wf(),
        0 <= u < g.len(),
        u == u as usize as int,
        0 <= k < g.adj[u].len(),
        tree(g, start, c0, p0, s0, budget, unit),
        forall|v: int| 0 <= v < g.len() ==> #[trigger] s0[v] < clock,
        c0[u] is Some,
        nc == cost_of(c0[u]) + step(g, u, g.adj[u][k].0 as int, unit),
        nc <= budget,
        c0[g.adj[u][k].0 as int] is None || nc < cost_of(c0[g.adj[u][k].0 as int]),
    ensures
        ({
            let j = g.adj[u][k].0 as int;
            &&& tree(g, start, c0.update(j, Some(nc)), p0.update(j, Some((u as usize, g.adj[u][k].1))),
                s0.update(j, clock), budget, unit)
            &&& forall|v: int| 0 <= v < g.len() ==> #[trigger] s0.update(j, clock)[v] < clock + 1
            &&& j != start
            &&& j != u
        }),
{
    reveal(tree);
    let j = g.adj[u][k].0 as int;
    let w = g.adj[u][k].1;
    let costs = c0.update(j, Some(nc));
    let preds = p0.update(j, Some((u as usize, w)));
    let stamps = s0.update(j, clock);
    crate::map::lemma_weight_at(g, u, k);
    assert(j < g.len());
    assert(j != start) by {
        assert(c0[start] == Some(0u32));
    }
    assert(j != u);
    let wu = choose|wu: Seq<int>| g.is_walk(wu) && wu[0] == start && wu.last() == u
        && #[trigger] g.walk_cost(wu, unit) <= cost_of(c0[u]);
    let wj = wu.push(j);
    lemma_walk_push(g, wu, j, unit);
    assert(g.is_walk(wj));
    assert(g.reaches(start, j, nc as int, unit)) by {
        assert(g.walk_cost(wj, unit) <= nc);
    }
    assert forall|v: int| 0 <= v < g.len() && #[trigger] costs[v] is Some implies cost_of(costs[v]) <= budget
        && g.reaches(start, v, cost_of(costs[v]), unit) by {
        if v != j {
            assert(c0[v] is Some);
        }
    }
    assert forall|v: int| 0 <= v < g.len() && v != start && #[trigger] costs[v] is Some implies {
            &&& preds[v] is Some
            &&& ({
                let (a, b) = preds[v].unwrap();
                &&& a < g.len()
                &&& costs[a as int] is Some
                &&& g.has_edge(a as int, v)
                &&& b == g.weight(a as int, v)
                &&& cost_of(costs[a as int]) + step(g, a as int, v, unit) <= cost_of(costs[v])
                &&& (cost_of(costs[a as int]) < cost_of(costs[v]) || stamps[a as int] < stamps[v])
            })
        } by {
        if v != j {
            assert(c0[v] is Some);
            let (a, b) = p0[v].unwrap();
            if a as int == j {
                assert(cost_of(costs[j]) < cost_of(c0[j]));
            }
        }
    }
    assert(tree(g, start, costs, preds, stamps, budget, unit));
    assert forall|v: int| 0 <= v < g.len() implies #[trigger] stamps[v] < clock + 1 by {
        if v != j {
            assert(s0[v] < clock);
        }
    }
}

/// Once every edge out of `u` is done, `u` is relaxed.
proof fn lemma_done(g: GraphView, start: int, costs: Seq<Option<u32>>, preds: Seq<Option<(usize, u32)>>, stamps: Seq<nat>, clock: nat, q: Seq<PriorityQueueItem>, budget: int, unit: bool, heur: Option<Distances>, goal: Option<usize>, u: int)
    requires
        g.wf(),
        0 <= u < g.len(),
        inner(g, start, costs, preds, stamps, clock, q, budget, unit, heur, goal, u, g.adj[u].len() as int),
    ensures
        outer(g, start, costs, preds, stamps, clock, q, budget, unit, heur, goal),
{
    reveal(inner);
    reveal(outer);
    assert(relaxed(g, costs, u, budget, unit)) by {
        assert forall|t: int| 0 <= t < g.len() && #[trigger] g.has_edge(u, t) implies edge_ok(g, costs, u, t, budget, unit) by {
            let kk = g.slot(u, t);
            assert(g.adj[u][kk].0 == t);
        }
    }
}

/// With the queue empty every reached node is relaxed, so whatever is reachable within
/// the budget has been reached.
proof fn lemma_exhausted(g: GraphView, start: int, costs: Seq<Option<u32>>, preds: Seq<Option<(usize, u32)>>, stamps: Seq<nat>, clock: nat, q: Seq<PriorityQueueItem>, budget: int, unit: bool, heur: Option<Distances>, goal: Option<usize>)
    requires
        g.wf(),
        outer(g, start, costs, preds, stamps, clock, q, budget, unit, heur, goal),
        q.len() == 0,
    ensures
        forall|v: int| 0 <= v < g.len() ==> (#[trigger] costs[v] is Some <==> g.reaches(start, v, budget, unit)),
{
    reveal(outer);
    assert forall|v: int| 0 <= v < g.len() && g.reaches(start, v, budget, unit) implies #[trigger] costs[v] is Some by {
        let w = choose|w: Seq<int>| g.is_walk(w) && w[0] == start && w.last() == v && #[trigger] g.walk_cost(w, unit) <= budget;
        assert(w.take(1) =~= seq![start]);
        assert(g.walk_cost(w.take(1), unit) == 0);
        lemma_frontier(g, q, costs, budget, unit, heur, goal, w, 0);
    }
    lemma_reached(g, start, costs, preds, stamps, budget, unit);
}

proof fn lemma_reached(g: GraphView, start: int, costs: Seq<Option<u32>>, preds: Seq<Option<(usize, u32)>>, stamps: Seq<nat>, budget: int, unit: bool)
    requires
        tree(g, start, costs, preds, stamps, budget, unit),
    ensures
        forall|v: int| 0 <= v < g.len() && #[trigger] costs[v] is Some ==> g.reaches(start, v, budget, unit),
{
    reveal(tree);
    assert forall|v: int| 0 <= v < g.len() && #[trigger] costs[v] is Some implies g.reaches(start, v, budget, unit) by {
        let w = choose|w: Seq<int>| g.is_walk(w) && w[0] == start && w.last() == v && #[trigger] g.walk_cost(w, unit) <= cost_of(costs[v]);
    }
}

/// Best-first search from `start`: take the cheapest entry from the queue (cost plus the
/// heuristic's estimate), stop once it is `goal`, else relax each edge out of it that
/// stays within `budget`, enqueueing every node whose cost improves.
pub(crate) fn explore(g: &Graph, start: usize, goal: Option<usize>, budget: u32, unit: bool, heur: Option<Distances>) -> (r: Explored)
    requires
        g.wf(),
        start < g@.len(),
        goal matches Some(e) ==> e < g@.len(),
        heur is Some ==> goal is Some && !unit,
    ensures
        tree(g@, start as int, r.costs@, r.preds@, r.stamps@, budget as int, unit),
        r.costs@.len() == g@.len(),
        r.preds@.len() == g@.len(),
        goal is None ==> forall|v: int|
            0 <= v < g@.len() ==> (#[trigger] r.costs@[v] is Some <==> g@.reaches(start as int, v, budget as int, unit)),
        goal is Some ==> (r.found <==> g@.reaches(start as int, goal.unwrap() as int, budget as int, unit)),
        goal is Some && r.found ==> r.costs@[goal.unwrap() as int] is Some,
        goal is Some && r.found && sound_heuristic(g@, heur, goal) ==> forall|w: Seq<int>|
            g@.is_walk(w) && w[0] == start && w.last() == goal.unwrap() && #[trigger] g@.walk_cost(w, unit) <= budget
                ==> cost_of(r.costs@[goal.unwrap() as int]) <= g@.walk_cost(w, unit),
{
    let n = g.len();
    let mut costs: Vec<Option<u32>> = Vec::new();
    let mut preds: Vec<Option<(usize, u32)>> = Vec::new();
    let mut i: usize = 0;
    while i < n
        invariant
            i <= n,
            costs.len() == i,
            preds.len() == i,
            forall|v: int| 0 <= v < i ==> costs@[v] is None && preds@[v] is None,
        decreases n - i,
    {
        costs.push(None);
        preds.push(None);
        i = i + 1;
    }
    costs.set(start, Some(0));
    let goal_pos = match goal {
        Some(e) => g.position(e),
        None => g.position(start),
    };
    let mut q: Vec<PriorityQueueItem> = Vec::new();
    q.push(PriorityQueueItem { priority: 0, id: start });
    let ghost mut stamps: Seq<nat> = Seq::new(n as nat, |v: int| 0nat);
    let ghost mut clock: nat = 1;
    let ghost cap: nat = budget as nat + 1;
    let mut found = false;
    proof {
        assert(q@ =~= seq![PriorityQueueItem { priority: 0, id: start }]);
        lemma_init(g@, start as int, costs@, preds@, q@, budget as int, unit, heur, goal);
    }
    while !found && q.len() > 0
        invariant
            g.wf(),
            n == g@.len(),
            start < n,
            goal matches Some(e) ==> e < n,
            heur is Some ==> goal is Some && !unit,
            goal matches Some(e) ==> goal_pos == g@.positions[e as int],
            cap == budget + 1,
            costs.len() == n,
            preds.len() == n,
            stamps.len() == n,
            !found ==> outer(g@, start as int, costs@, preds@, stamps, clock, q@, budget as int, unit, heur, goal),
            found ==> tree(g@, start as int, costs@, preds@, stamps, budget as int, unit),
            found ==> goal is Some && costs@[goal.unwrap() as int] is Some,
            found && sound_heuristic(g@, heur, goal) ==> goal is Some && forall|w: Seq<int>|
                g@.is_walk(w) && w[0] == start && w.last() == goal.unwrap() && #[trigger] g@.walk_cost(w, unit) <= budget
                    ==> cost_of(costs@[goal.unwrap() as int]) <= g@.walk_cost(w, unit),
        decreases potential(costs@, cap), q.len(),
    {
        let ghost q0 = q@;
        let ghost pot0 = potential(costs@, cap);
        let item = pop_min(&mut q);
        let u = item.id;
        let ghost m = choose|m: int| 0 <= m < q0.len() && item == q0[m] && q@ == q0.remove(m);
        if goal == Some(u) {
            proof {
                lemma_found(g@, start as int, costs@, preds@, stamps, clock, q0, m, budget as int, unit, heur, goal);
                lemma_pop_keeps_outer(g@, start as int, costs@, preds@, stamps, clock, q0, q@, m, budget as int, unit, heur, goal);
            }
            found = true;
        } else {
            proof {
                lemma_pop(g@, start as int, costs@, preds@, stamps, clock, q0, q@, m, budget as int, unit, heur, goal);
            }
            let cu = costs[u].unwrap();
            let deg = g.degree(u);
            let mut k: usize = 0;
            while k < deg
                invariant
                    g.wf(),
                    n == g@.len(),
                    start < n,
                    u < n,
                    goal matches Some(e) ==> e < n,
                    heur is Some ==> goal is Some && !unit,
                    goal matches Some(e) ==> goal_pos == g@.positions[e as int],
                    cap == budget + 1,
                    deg == g@.adj[u as int].len(),
                    k <= deg,
                    costs.len() == n,
                    preds.len() == n,
                    stamps.len() == n,
                    costs@[u as int] == Some(cu),
                    inner(g@, start as int, costs@, preds@, stamps, clock, q@, budget as int, unit, heur, goal, u as int, k as int),
                    potential(costs@, cap) <= pot0,
                    potential(costs@, cap) < pot0 || q.len() < q0.len(),
                decreases deg - k,
            {
                let (j, w) = g.neighbour(u, k);
                proof {
                    crate::map::lemma_weight_at(g@, u as int, k as int);
                }
                let stepc: u64 = if unit { 1 } else { w as u64 };
                let nc: u64 = cu as u64 + stepc;
                let better = nc <= budget as u64 && match costs[j] {
                    None => true,
                    Some(c) => nc < c as u64,
                };
                if better {
                    let ghost c0 = costs@;
                    let ghost p0 = preds@;
                    let ghost s0 = stamps;
                    let ghost qb = q@;
                    costs.set(j, Some(nc as u32));
                    preds.set(j, Some((u, w)));
                    let pr: u64 = match heur {
                        Some(kind) => nc + heuristic(kind, &g.position(j), &goal_pos),
                        None => nc,
                    };
                    q.push(PriorityQueueItem { priority: pr, id: j });
                    proof {
                        lemma_potential_update(c0, cap, j as int, nc as u32);
                        lemma_relax(g@, start as int, c0, p0, s0, clock, qb, budget as int, unit, heur, goal, u as int, k as int, nc as u32, pr);
                        stamps = s0.update(j as int, clock);
                        clock = clock + 1;
                        assert(costs@ == c0.update(j as int, Some(nc as u32)));
                        assert(q@ == qb.push(PriorityQueueItem { priority: pr, id: j }));
                    }
                } else {
                    proof {
                        lemma_keep(g@, start as int, costs@, preds@, stamps, clock, q@, budget as int, unit, heur, goal, u as int, k as int);
                    }
                }
                k = k + 1;
            }
            proof {
                lemma_done(g@, start as int, costs@, preds@, stamps, clock, q@, budget as int, unit, heur, goal, u as int);
            }
        }
    }
    proof {
        reveal(outer);
        if !found {
            lemma_exhausted(g@, start as int, costs@, preds@, stamps, clock, q@, budget as int, unit, heur, goal);
        } else {
            lemma_reached(g@, start as int, costs@, preds@, stamps, budget as int, unit);
        }
    }
    Explored { costs, preds, found, stamps: Ghost(stamps) }
}

/// Taking an entry from the queue keeps the tree and the clock.
proof fn lemma_pop_keeps_outer(g: GraphView, start: int, costs: Seq<Option<u32>>, preds: Seq<Option<(usize, u32)>>, stamps: Seq<nat>, clock: nat, q0: Seq<PriorityQueueItem>, q: Seq<PriorityQueueItem>, m: int, budget: int, unit: bool, heur: Option<Distances>, goal: Option<usize>)
    requires
        outer(g, start, costs, preds, stamps, clock, q0, budget, unit, heur, goal),
    ensures
        tree(g, start, costs, preds, stamps, budget, unit),
{
    reveal(outer);
}

/// The largest cost a search for a route follows: hops for a breadth-first search,
/// weight otherwise.
pub open spec fn path_limit(unit: bool) -> int {
    if unit {
        u32::MAX - 1
    } else {
        u32::MAX as int
    }
}

/// A route's cost in the units the search minimises: steps when `unit`, else weight.
pub open spec fn cost_units(cp: CostPath, unit: bool) -> int {
    if unit {
        cp.cost - 1
    } else {
        cp.cost as int
    }
}

/// `cp` names the nodes of a walk from `s` to `e`, and its cost is the walk's node count
/// when `unit`, else the walk's weight.
pub open spec fn found_path(g: GraphView, s: int, e: int, cp: CostPath, unit: bool) -> bool {
    exists|w: Seq<int>|
        g.is_walk(w) && w[0] == s && w.last() == e && #[trigger] g.names(w) == cp.names() && cp.cost == (if unit {
            w.len() as int
        } else {
            g.walk_weight(w)
        })
}

/// Walk the predecessors back from `end` to the origin, returning the node names in
/// order from the origin and the walk's weight.
fn reconstruct_path(g: &Graph, ex: &Explored, start: usize, end: usize, budget: u32, unit: bool) -> (r: (Vec<String>, u32, Ghost<Seq<int>>))
    requires
        g.wf(),
        tree(g@, start as int, ex.costs@, ex.preds@, ex.stamps@, budget as int, unit),
        end < g@.len(),
        ex.costs@[end as int] is Some,
    ensures
        g@.is_walk(r.2@),
        r.2@[0] == start,
        r.2@.last() == end,
        r.0@.map_values(|s: String| s@) == g@.names(r.2@),
        !unit ==> r.1 == g@.walk_weight(r.2@),
        g@.walk_cost(r.2@, unit) <= cost_of(ex.costs@[end as int]),
{
    let ghost costs = ex.costs@;
    let ghost stamps = ex.stamps@;
    proof {
        reveal(tree);
    }
    let mut rev: Vec<usize> = Vec::new();
    rev.push(end);
    let mut cur = end;
    let mut sum: u64 = 0;
    let ghost mut w: Seq<int> = seq![end as int];
    let mut more = ex.preds[cur].is_some();
    proof {
        assert(g@.is_walk(w));
        assert(g@.walk_cost(w, unit) == 0);
    }
    while more
        invariant
            g.wf(),
            tree(g@, start as int, ex.costs@, ex.preds@, ex.stamps@, budget as int, unit),
            costs == ex.costs@,
            stamps == ex.stamps@,
            ex.preds@.len() == g@.len(),
            cur < g@.len(),
            costs[cur as int] is Some,
            g@.is_walk(w),
            w[0] == cur,
            w.last() == end,
            rev@.len() == w.len(),
            forall|t: int| 0 <= t < w.len() ==> #[trigger] rev@[t] == w[w.len() - 1 - t],
            !unit ==> sum == g@.walk_weight(w),
            unit ==> sum == 0,
            sum <= u32::MAX,
            g@.walk_cost(w, unit) + cost_of(costs[cur as int]) <= cost_of(costs[end as int]),
            cost_of(costs[end as int]) <= u32::MAX,
            more == ex.preds@[cur as int] is Some,
        decreases cost_of(costs[cur as int]), stamps[cur as int],
    {
        let (p, wt) = ex.preds[cur].unwrap();
        let ghost w0 = w;
        let ghost c = cur as int;
        proof {
            reveal(tree);
            assert(c != start);
            lemma_walk_prepend(g@, p as int, w0);
            lemma_nonneg(g@, w0);
            lemma_nonneg(g@, seq![p as int] + w0);
            w = seq![p as int] + w0;
            assert(g@.is_walk(w)) by {
                assert forall|t: int| 0 <= t < w.len() - 1 implies #[trigger] g@.has_edge(w[t], w[t + 1]) by {
                    if t > 0 {
                        let t1 = t - 1;
                        assert(g@.has_edge(w0[t1], w0[t1 + 1]));
                    }
                }
            }
        }
        if !unit {
            sum = sum + wt as u64;
        }
        rev.push(p);
        cur = p;
        more = ex.preds[cur].is_some();
        proof {
            assert forall|t: int| 0 <= t < w.len() implies #[trigger] rev@[t] == w[w.len() - 1 - t] by {
                if t < w.len() - 1 {
                    assert(rev@[t] == w0[w0.len() - 1 - t]);
                }
            }
        }
    }
    proof {
        reveal(tree);
    }
    let mut path: Vec<String> = Vec::new();
    let mut i: usize = rev.len();
    while i > 0
        invariant
            g.wf(),
            g@.is_walk(w),
            rev@.len() == w.len(),
            forall|t: int| 0 <= t < w.len() ==> #[trigger] rev@[t] == w[w.len() - 1 - t],
            i <= rev.len(),
            path@.len() == rev.len() - i,
            forall|t: int| 0 <= t < path@.len() ==> #[trigger] path@[t]@ == g@.keys[w[t]],
        decreases i,
    {
        i = i - 1;
        assert(rev@[i as int] == w[w.len() - 1 - i]);
        let name = g.key(rev[i]).clone();
        path.push(name);
    }
    proof {
        assert(path@.map_values(|s: String| s@) =~= g@.names(w));
    }
    proof {
        lemma_nonneg(g@, w);
    }
    (path, sum as u32, Ghost(w))
}

/// The shortest route from `start` to `end` as a chosen search finds it.
fn search_path(map: &Graph, start: &str, end: &str, unit: bool, heur: Option<Distances>) -> (r: Result<CostPath, PathError>)
    requires
        map.wf(),
        heur is Some ==> !unit,
    ensures
        !map@.contains(end@) ==> r == Err::<CostPath, PathError>(PathError::UnknownNode),
        map@.contains(end@) && !map@.contains(start@) ==> r == Err::<CostPath, PathError>(PathError::NoPath),
        map@.contains(end@) && map@.contains(start@) ==> ({
            let s = map@.index_of(start@);
            let e = map@.index_of(end@);
            &&& (r is Ok <==> map@.reaches(s, e, path_limit(unit), unit))
            &&& (r is Err ==> r == Err::<CostPath, PathError>(PathError::NoPath))
            &&& (r is Ok ==> found_path(map@, s, e, r.unwrap(), unit))
            &&& (r is Ok && (heur is None || admissible(map@, heur.unwrap(), e)) ==> least_cost(map@, s, e, cost_units(r.unwrap(), unit), unit))
        }),
{
    let e = match map.find(end) {
        Some(e) => e,
        None => return Err(PathError::UnknownNode),
    };
    let s = match map.find(start) {
        Some(s) => s,
        None => return Err(PathError::NoPath),
    };
    let budget: u32 = if unit { u32::MAX - 1 } else { u32::MAX };
    let ex = explore(map, s, Some(e), budget, unit, heur);
    if !ex.found {
        return Err(PathError::NoPath);
    }
    let (path, weight, Ghost(w)) = reconstruct_path(map, &ex, s, e, budget, unit);
    let cost = if unit { path.len() as u32 } else { weight };
    let cp = CostPath { path, cost };
    proof {
        assert(map@.names(w) == cp.names());
        assert(cp.cost == (if unit { w.len() as int } else { map@.walk_weight(w) }));
        assert(found_path(map@, s as int, e as int, cp, unit));
        if heur is None || admissible(map@, heur.unwrap(), e as int) {
            assert(sound_heuristic(map@, heur, Some(e)));
            assert forall|x: Seq<int>| map@.is_walk(x) && x[0] == s && x.last() == e implies cost_units(cp, unit) <= #[trigger] map@.walk_cost(x, unit) by {
                assert(map@.walk_cost(w, unit) <= cost_of(ex.costs@[e as int]));
            }
        }
    }
    Ok(cp)
}


/// `r` names, once each, exactly the nodes a search from `start` reaches within `budget`;
/// from a start the graph lacks, it names just that start.
pub open spec fn moves_result(g: GraphView, start: Seq<char>, budget: int, unit: bool, r: Seq<String>) -> bool {
    &&& !g.contains(start) ==> r.len() == 1 && r[0]@ == start
    &&& g.contains(start) ==> {
        &&& forall|t: int| 0 <= t < r.len() ==> g.contains(#[trigger] r[t]@) && g.reaches(g.index_of(start), g.index_of(r[t]@), budget, unit)
        &&& forall|i: int| 0 <= i < g.len() && g.reaches(g.index_of(start), i, budget, unit) ==> exists|t: int| 0 <= t < r.len() && #[trigger] r[t]@ == g.keys[i]
        &&& forall|a: int, b: int| 0 <= a < b < r.len() ==> #[trigger] r[a]@ != #[trigger] r[b]@
    }
}

/// Every node a search from `start` reaches within `budget`, in the graph's order.
fn search_moves(map: &Graph, start: &str, budget: u32, unit: bool) -> (r: Vec<String>)
    requires
        map.wf(),
    ensures
        moves_result(map@, start@, budget as int, unit, r@),
{
    let s = match map.find(start) {
        Some(s) => s,
        None => {
            let mut r: Vec<String> = Vec::new();
            r.push(start.to_owned());
            return r;
        },
    };
    let ex = explore(map, s, None, budget, unit, None);
    let n = map.len();
    let mut r: Vec<String> = Vec::new();
    let ghost mut idx: Seq<int> = Seq::empty();
    let mut i: usize = 0;
    while i < n
        invariant
            map.wf(),
            n == map@.len(),
            ex.costs@.len() == n,
            i <= n,
            idx.len() == r.len(),
            forall|t: int| 0 <= t < r.len() ==> 0 <= #[trigger] idx[t] < i && ex.costs@[idx[t]] is Some && r@[t]@ == map@.keys[idx[t]],
            forall|a: int, b: int| 0 <= a < b < r.len() ==> #[trigger] idx[a] < #[trigger] idx[b],
            forall|v: int| 0 <= v < i && ex.costs@[v] is Some ==> exists|t: int| 0 <= t < idx.len() && #[trigger] idx[t] == v,
            forall|v: int| 0 <= v < n ==> (#[trigger] ex.costs@[v] is Some <==> map@.reaches(s as int, v, budget as int, unit)),
        decreases n - i,
    {
        if ex.costs[i].is_some() {
            let name = map.key(i).clone();
            let ghost idx0 = idx;
            r.push(name);
            proof {
                idx = idx.push(i as int);
                assert forall|v: int| 0 <= v < i + 1 && ex.costs@[v] is Some implies exists|t: int| 0 <= t < idx.len() && #[trigger] idx[t] == v by {
                    if v == i {
                        assert(idx[idx.len() - 1] == v);
                    } else {
                        let t = choose|t: int| 0 <= t < idx0.len() && #[trigger] idx0[t] == v;
                        assert(idx[t] == v);
                    }
                }
            }
        }
        i = i + 1;
    }
    proof {
        assert forall|t: int| 0 <= t < r.len() implies map@.contains(#[trigger] r@[t]@) && map@.reaches(s as int, map@.index_of(r@[t]@), budget as int, unit) by {
            crate::map::lemma_index_of(map@, idx[t]);
        }
        assert forall|i: int| 0 <= i < map@.len() && map@.reaches(s as int, i, budget as int, unit) implies exists|t: int| 0 <= t < r.len() && #[trigger] r@[t]@ == map@.keys[i] by {
            assert(ex.costs@[i] is Some);
            let t = choose|t: int| 0 <= t < idx.len() && #[trigger] idx[t] == i;
            assert(r@[t]@ == map@.keys[i]);
        }
        assert forall|a: int, b: int| 0 <= a < b < r.len() implies #[trigger] r@[a]@ != #[trigger] r@[b]@ by {
            assert(map@.keys[idx[a]] != map@.keys[idx[b]]);
        }
    }
    r
}

} // verus!
