//! Route construction and search for a travelling salesman who weighs
//! distance against travel time.
//!
//! * `nearest`: the nearest-neighbour tour, built from keys that order the
//!   travel costs;
//! * `tour`: closed tours and the 2-opt move between them;
//! * `annealing`: the routes that simulated annealing holds while it searches;
//! * `selection`: the best of a list of known cost pairs;
//! * `formats` and `text`: the city list and cost pair file formats.
use vstd::prelude::*;

pub mod annealing;
pub mod formats;
pub mod nearest;
pub mod selection;
pub mod text;
pub mod tour;

verus! {

} // verus!
