//! Path finding on a grid of open and blocked cells, by a best-first search
//! that always ends and returns either a walk between the two cells asked for
//! or an empty route when none exists.
use vstd::prelude::*;

pub mod grid;
pub mod neighbors;
pub mod frontier;
pub mod path;
pub mod search;
pub mod route;

pub use route::{MapInfo, Route, RouteError, a_star_routing};
pub use search::a_star_path_finding;

verus! {

} // verus!
