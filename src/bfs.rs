use vstd::prelude::*;

use crate::map::Graph;
use crate::{cost_units, found_path, least_cost, moves_result, path_limit, search_moves, search_path, CostPath, PathError};

verus! {

/// Breadth-first search: every step costs one, whatever its weight.
pub struct BreadthFirstSearch {}

impl BreadthFirstSearch {
    pub fn new() -> (r: Self)
        ensures
            r == (BreadthFirstSearch {}),
    {
        BreadthFirstSearch {}
    }

    /// A route from `start` to `end` of fewest steps; its cost is its number of nodes.
    pub fn calculate_path(&mut self, map: &Graph, start: &str, end: &str) -> (r: Result<CostPath, PathError>)
        requires
            map.wf(),
        ensures
            *final(self) == *old(self),
            !map@.contains(end@) ==> r == Err::<CostPath, PathError>(PathError::UnknownNode),
            map@.contains(end@) && !map@.contains(start@) ==> r == Err::<CostPath, PathError>(PathError::NoPath),
            map@.contains(end@) && map@.contains(start@) ==> ({
                let s = map@.index_of(start@);
                let e = map@.index_of(end@);
                &&& (r is Ok <==> map@.reaches(s, e, path_limit(true), true))
                &&& (r is Err ==> r == Err::<CostPath, PathError>(PathError::NoPath))
                &&& (r is Ok ==> found_path(map@, s, e, r.unwrap(), true))
                &&& (r is Ok ==> least_cost(map@, s, e, cost_units(r.unwrap(), true), true))
            }),
    {
        search_path(map, start, end, true, None)
    }

    /// The names of the nodes within `moves` steps of `start`.
    pub fn calculate_moves(&mut self, map: &Graph, start: &str, moves: u32) -> (r: Vec<String>)
        requires
            map.wf(),
        ensures
            *final(self) == *old(self),
            moves_result(map@, start@, moves as int, true, r@),
    {
        search_moves(map, start, moves, true)
    }
}

} // verus!
