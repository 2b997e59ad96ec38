use vstd::prelude::*;

use crate::distances::{distance, heuristic, Distances};
use crate::map::{Graph, Position};
use crate::{admissible, cost_units, found_path, least_cost, moves_result, path_limit, search_moves, search_path, CostPath, PathError};

verus! {

/// A*: least total edge weight, searched towards the goal by a distance heuristic.
pub struct AStar {
    heuristic: Distances,
}

impl AStar {
    pub closed spec fn kind(&self) -> Distances {
        self.heuristic
    }

    /// A search using the straight-line distance.
    pub fn new() -> (r: Self)
        ensures
            r.kind() == Distances::Euclidean,
    {
        AStar { heuristic: Distances::Euclidean }
    }

    pub fn set_heuristic(&mut self, heuristic: Distances)
        ensures
            final(self).kind() == heuristic,
    {
        self.heuristic = heuristic;
    }

    /// The estimated cost from `start` to `goal` under the chosen heuristic.
    pub fn heuristic_cost(&self, start: &Position, goal: &Position) -> (r: u64)
        ensures
            r == distance(self.kind(), *start, *goal),
    {
        heuristic(self.heuristic, start, goal)
    }

    /// A route from `start` to `end`; its cost is its weight, which is the least weight of
    /// any route when the heuristic never overestimates.
    pub fn calculate_path(&mut self, map: &Graph, start: &str, end: &str) -> (r: Result<CostPath, PathError>)
        requires
            map.wf(),
        ensures
            *final(self) == *old(self),
            !map@.contains(end@) ==> r == Err::<CostPath, PathError>(PathError::UnknownNode),
            map@.contains(end@) && !map@.contains(start@) ==> r == Err::<CostPath, PathError>(PathError::NoPath),
            map@.contains(end@) && map@.contains(start@) ==> ({
                let s = map@.index_of(start@);
                let e = map@.index_of(end@);
                &&& (r is Ok <==> map@.reaches(s, e, path_limit(false), false))
                &&& (r is Err ==> r == Err::<CostPath, PathError>(PathError::NoPath))
                &&& (r is Ok ==> found_path(map@, s, e, r.unwrap(), false))
                &&& (r is Ok && admissible(map@, old(self).kind(), e) ==> least_cost(map@, s, e, cost_units(r.unwrap(), false), false))
            }),
    {
        search_path(map, start, end, false, Some(self.heuristic))
    }

    /// The names of the nodes reachable from `start` at a weight of at most `moves`.
    pub fn calculate_moves(&mut self, map: &Graph, start: &str, moves: u32) -> (r: Vec<String>)
        requires
            map.wf(),
        ensures
            *final(self) == *old(self),
            moves_result(map@, start@, moves as int, false, r@),
    {
        search_moves(map, start, moves, false)
    }
}

} // verus!
