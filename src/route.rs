//! Requests and responses: a map with two coordinates in, a route out, with
//! every input that the search cannot take turned away first.
use vstd::prelude::*;
use crate::grid::{Cell, well_formed, in_bounds, is_open, connects, reachable, cell_is_open};
use crate::path::{is_pair_list, route_cells};
use crate::search::a_star_path_finding;

verus! {

/// A request: the map, where `1` marks a blocked cell, and the two
/// coordinates `[x, y]` to join.
#[derive(Clone, Debug, PartialEq, Eq)]
pub struct MapInfo {
    pub map: Vec<Vec<usize>>,
    pub start: Vec<usize>,
    pub end: Vec<usize>,
}

/// A response: the cells of the route as `[x, y]` pairs, empty when there is
/// no route.
#[derive(Clone, Debug, PartialEq, Eq)]
pub struct Route {
    pub route: Vec<Vec<usize>>,
}

/// Why a request cannot be searched.
#[derive(Clone, Copy, Debug, PartialEq, Eq, Structural)]
pub enum RouteError {
    /// The map has no rows, or its first row has no cells.
    EmptyMap,
    /// Not every row has the length of the first.
    IrregularMap,
    /// The start is not a pair `[x, y]`.
    MalformedStart,
    /// The end is not a pair `[x, y]`.
    MalformedEnd,
    /// The start lies outside the map.
    StartOutOfBounds,
    /// The end lies outside the map.
    EndOutOfBounds,
    /// The start is a blocked cell.
    StartBlocked,
    /// The end is a blocked cell.
    EndBlocked,
}

/// The cell that a pair `[x, y]` names.
pub open spec fn cell_of(v: Seq<usize>) -> Cell {
    (v[0], v[1])
}

/// The first thing wrong with a request, in the order in which the checks
/// are made; `None` when the request can be searched.
pub open spec fn input_error(map: Seq<Vec<usize>>, start: Seq<usize>, end: Seq<usize>) -> Option<RouteError> {
    if map.len() == 0 || map[0]@.len() == 0 {
        Some(RouteError::EmptyMap)
    } else if !well_formed(map) {
        Some(RouteError::IrregularMap)
    } else if start.len() != 2 {
        Some(RouteError::MalformedStart)
    } else if end.len() != 2 {
        Some(RouteError::MalformedEnd)
    } else if !in_bounds(map, cell_of(start)) {
        Some(RouteError::StartOutOfBounds)
    } else if !in_bounds(map, cell_of(end)) {
        Some(RouteError::EndOutOfBounds)
    } else if !is_open(map, cell_of(start)) {
        Some(RouteError::StartBlocked)
    } else if !is_open(map, cell_of(end)) {
        Some(RouteError::EndBlocked)
    } else {
        None
    }
}

/// Whether every row of a map with a first row has the length of the first.
pub fn is_rectangular(map: &Vec<Vec<usize>>) -> (r: bool)
    requires
        map@.len() > 0,
        map@[0]@.len() > 0,
    ensures
        r == well_formed(map@),
{
    let h = map[0].len();
    let mut i: usize = 0;
    while i < map.len()
        invariant
            0 <= i <= map@.len(),
            h == map@[0]@.len(),
            forall|j: int| 0 <= j < i ==> (#[trigger] map@[j]@).len() == h,
        decreases map@.len() - i,
    {
        if map[i].len() != h {
            assert(!well_formed(map@)) by {
                assert(map@[i as int]@.len() != map@[0]@.len());
            }
            return false;
        }
        i = i + 1;
    }
    true
}

/// Checks a request and returns the first thing wrong with it.
pub fn validate(map_info: &MapInfo) -> (r: Result<(), RouteError>)
    ensures
        match input_error(map_info.map@, map_info.start@, map_info.end@) {
            Some(e) => r == Err::<(), RouteError>(e),
            None => r is Ok,
        },
{
    let map = &map_info.map;
    if map.len() == 0 || map[0].len() == 0 {
        return Err(RouteError::EmptyMap);
    }
    if !is_rectangular(map) {
        return Err(RouteError::IrregularMap);
    }
    if map_info.start.len() != 2 {
        return Err(RouteError::MalformedStart);
    }
    if map_info.end.len() != 2 {
        return Err(RouteError::MalformedEnd);
    }
    let start = (map_info.start[0], map_info.start[1]);
    let end = (map_info.end[0], map_info.end[1]);
    if !(start.0 < map.len() && start.1 < map[0].len()) {
        return Err(RouteError::StartOutOfBounds);
    }
    if !(end.0 < map.len() && end.1 < map[0].len()) {
        return Err(RouteError::EndOutOfBounds);
    }
    if !cell_is_open(map, start) {
        return Err(RouteError::StartBlocked);
    }
    if !cell_is_open(map, end) {
        return Err(RouteError::EndBlocked);
    }
    Ok(())
}

/// Answers a request: the route from `start` to `end` that the search
/// finds, or the first thing wrong with the request.
pub fn a_star_routing(map_info: &MapInfo) -> (r: Result<Route, RouteError>)
    ensures
        match input_error(map_info.map@, map_info.start@, map_info.end@) {
            Some(e) => r == Err::<Route, RouteError>(e),
            None => r matches Ok(route) && {
                let map = map_info.map@;
                let s = cell_of(map_info.start@);
                let e = cell_of(map_info.end@);
                &&& is_pair_list(route.route@)
                &&& route.route@.len() > 0 <==> reachable(map, s, e)
                &&& route.route@.len() > 0 ==> connects(map, route_cells(route.route@), s, e)
                &&& s == e ==> route_cells(route.route@) == seq![s]
            },
        },
{
    match validate(map_info) {
        Err(e) => Err(e),
        Ok(()) => {
            let start = (map_info.start[0], map_info.start[1]);
            let end = (map_info.end[0], map_info.end[1]);
            let route = a_star_path_finding(&map_info.map, start, end);
            Ok(Route { route })
        },
    }
}

} // verus!
