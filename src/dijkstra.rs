use vstd::prelude::*;

use crate::map::Graph;
use crate::{cost_units, found_path, least_cost, moves_result, path_limit, search_moves, search_path, CostPath, PathError};

verus! {

/// Dijkstra's algorithm: least total edge weight.
pub struct Dijkstra {}

impl Dijkstra {
    pub fn new() -> (r: Self)
        ensures
            r == (Dijkstra {}),
    {
        Dijkstra {}
    }

    /// A route from `start` to `end` of least weight; its cost is that weight.
    pub fn calculate_path(&mut self, map: &Graph, start: &str, end: &str) -> (r: Result<CostPath, PathError>)
        requires
            map.wf(),
        ensures
            *final(self) == *old(self),
            !map@.contains(end@) ==> r == Err::<CostPath, PathError>(PathError::UnknownNode),
            map@.contains(end@) && !map@.contains(start@) ==> r == Err::<CostPath, PathError>(PathError::NoPath),
            map@.contains(end@) && map@.contains(start@) ==> ({
                let s = map@.index_of(start@);
                let e = map@.index_of(end@);
                &&& (r is Ok <==> map@.reaches(s, e, path_limit(false), false))
                &&& (r is Err ==> r == Err::<CostPath, PathError>(PathError::NoPath))
                &&& (r is Ok ==> found_path(map@, s, e, r.unwrap(), false))
                &&& (r is Ok ==> least_cost(map@, s, e, cost_units(r.unwrap(), false), false))
            }),
    {
        search_path(map, start, end, false, None)
    }

    /// The names of the nodes reachable from `start` at a weight of at most `moves`.
    pub fn calculate_moves(&mut self, map: &Graph, start: &str, moves: u32) -> (r: Vec<String>)
        requires
            map.wf(),
        ensures
            *final(self) == *old(self),
            moves_result(map@, start@, moves as int, false, r@),
    {
        search_moves(map, start, moves, false)
    }
}

} // verus!
