use vstd::prelude::*;

use crate::map::{removed, GraphView};
use crate::{found_path, least_cost, moves_result, CostPath};

verus! {

/// Two routes between the same nodes that are each of least weight have equal costs:
/// Dijkstra's and an admissible A*'s routes cost the same.
pub proof fn lemma_least_costs_agree(g: GraphView, s: int, e: int, a: CostPath, b: CostPath)
    requires
        found_path(g, s, e, a, false),
        least_cost(g, s, e, a.cost as int, false),
        found_path(g, s, e, b, false),
        least_cost(g, s, e, b.cost as int, false),
    ensures
        a.cost == b.cost,
{
    let wa = choose|w: Seq<int>|
        g.is_walk(w) && w[0] == s && w.last() == e && #[trigger] g.names(w) == a.names() && a.cost == g.walk_weight(w);
    let wb = choose|w: Seq<int>|
        g.is_walk(w) && w[0] == s && w.last() == e && #[trigger] g.names(w) == b.names() && b.cost == g.walk_weight(w);
    assert(g.walk_cost(wa, false) == a.cost);
    assert(g.walk_cost(wb, false) == b.cost);
}

/// The nodes reachable within a budget always include the start, and a larger budget
/// reaches every node that a smaller one does.
pub proof fn lemma_moves_monotone(g: GraphView, start: Seq<char>, b1: int, b2: int, unit: bool, r1: Seq<String>, r2: Seq<String>)
    requires
        g.wf(),
        0 <= b1 <= b2,
        moves_result(g, start, b1, unit, r1),
        moves_result(g, start, b2, unit, r2),
    ensures
        exists|t: int| 0 <= t < r1.len() && #[trigger] r1[t]@ == start,
        forall|t: int| 0 <= t < r1.len() ==> exists|t2: int| 0 <= t2 < r2.len() && #[trigger] r2[t2]@ == #[trigger] r1[t]@,
{
    if g.contains(start) {
        let s = g.index_of(start);
        let w0 = seq![s];
        assert(g.is_walk(w0));
        assert(g.walk_cost(w0, unit) == 0);
        assert(g.reaches(s, s, b1, unit));
        assert(g.keys[s] == start);
        assert forall|t: int| 0 <= t < r1.len() implies exists|t2: int| 0 <= t2 < r2.len() && #[trigger] r2[t2]@ == #[trigger] r1[t]@ by {
            let v = g.index_of(r1[t]@);
            assert(g.reaches(s, v, b1, unit));
            let w = choose|w: Seq<int>| g.is_walk(w) && w[0] == s && w.last() == v && #[trigger] g.walk_cost(w, unit) <= b1;
            assert(g.walk_cost(w, unit) <= b2);
            assert(g.reaches(s, v, b2, unit));
        }
    } else {
        assert(r1[0]@ == start);
        assert forall|t: int| 0 <= t < r1.len() implies exists|t2: int| 0 <= t2 < r2.len() && #[trigger] r2[t2]@ == #[trigger] r1[t]@ by {
            assert(r2[0]@ == r1[t]@);
        }
    }
}

/// After a node is removed, no walk of the graph that is left passes through its name.
pub proof fn lemma_removed_unvisited(old: GraphView, new: GraphView, x: int, w: Seq<int>)
    requires
        old.wf(),
        0 <= x < old.len(),
        removed(old, new, x),
        new.is_walk(w),
    ensures
        forall|t: int| 0 <= t < w.len() ==> #[trigger] new.names(w)[t] != old.keys[x],
{
    assert forall|t: int| 0 <= t < w.len() implies #[trigger] new.names(w)[t] != old.keys[x] by {
        let i = w[t];
        assert(new.keys[i] == old.keys.remove(x)[i]);
        if i < x {
            assert(old.keys[i] != old.keys[x]);
        } else {
            assert(old.keys[x] != old.keys[i + 1]);
        }
    }
}

} // verus!
