//! The routes that simulated annealing keeps while it searches: the current
//! route, the candidate proposed from it, and the best route seen.  The
//! costs of the routes, and the decisions taken on them, belong to the
//! caller; whatever it decides, every route held here is a tour of the same
//! cities from the same start.
use vstd::prelude::*;

use rand::rngs::ThreadRng;

use crate::nearest::{cost_table, is_square, nearest_neighbor, nearest_neighbor_tour};
use crate::tour::{
    generate_neighbor,
    is_tour,
    lemma_reversal_keeps_tour,
    reversed_segment,
};

verus! {

/// The state of a simulated-annealing search over tours.
pub struct Annealing {
    cities: usize,
    start: usize,
    current: Vec<usize>,
    candidate: Vec<usize>,
    best: Vec<usize>,
}

impl Annealing {
    #[verifier::type_invariant]
    spec fn holds_tours(self) -> bool {
        &&& is_tour(self.current@, self.cities as nat, self.start)
        &&& is_tour(self.candidate@, self.cities as nat, self.start)
        &&& is_tour(self.best@, self.cities as nat, self.start)
    }

    /// The number of cities.
    pub closed spec fn city_count(self) -> nat {
        self.cities as nat
    }

    /// The city every route starts and ends at.
    pub closed spec fn start_city(self) -> usize {
        self.start
    }

    /// The route the search stands at.
    pub closed spec fn current_route(self) -> Seq<usize> {
        self.current@
    }

    /// The route last proposed.
    pub closed spec fn candidate_route(self) -> Seq<usize> {
        self.candidate@
    }

    /// The best route kept so far.
    pub closed spec fn best_route(self) -> Seq<usize> {
        self.best@
    }

    /// Starts a search at the nearest-neighbour tour from `start`: it is the
    /// current, candidate and best route.  `None` where that tour does not
    /// exist.
    pub fn new(costs: &Vec<Vec<Option<u64>>>, start: usize) -> (res: Option<Self>)
        requires
            start < costs.len(),
            is_square(cost_table(costs@)),
        ensures
            res is None <==> nearest_neighbor_tour(cost_table(costs@), start) is None,
            res matches Some(a) ==> {
                &&& nearest_neighbor_tour(cost_table(costs@), start) == Some(a.current_route())
                &&& a.candidate_route() == a.current_route()
                &&& a.best_route() == a.current_route()
                &&& a.city_count() == costs.len()
                &&& a.start_city() == start
            },
    {
        match nearest_neighbor(costs, start) {
            None => None,
            Some(route) => {
                let candidate = vstd::slice::slice_to_vec(route.as_slice());
                let best = vstd::slice::slice_to_vec(route.as_slice());
                Some(Annealing { cities: costs.len(), start, current: route, candidate, best })
            },
        }
    }

    /// The current route, a tour.
    pub fn current(&self) -> (r: &Vec<usize>)
        ensures
            r@ == self.current_route(),
            is_tour(r@, self.city_count(), self.start_city()),
    {
        proof {
            use_type_invariant(self);
        }
        &self.current
    }

    /// The candidate route, a tour.
    pub fn candidate(&self) -> (r: &Vec<usize>)
        ensures
            r@ == self.candidate_route(),
            is_tour(r@, self.city_count(), self.start_city()),
    {
        proof {
            use_type_invariant(self);
        }
        &self.candidate
    }

    /// The best route kept, a tour.
    pub fn best(&self) -> (r: &Vec<usize>)
        ensures
            r@ == self.best_route(),
            is_tour(r@, self.city_count(), self.start_city()),
    {
        proof {
            use_type_invariant(self);
        }
        &self.best
    }

    /// Proposes a new candidate: a 2-opt neighbour of the current route.
    pub fn propose(&mut self, rng: &mut ThreadRng)
        ensures
            final(self).current_route() == old(self).current_route(),
            final(self).best_route() == old(self).best_route(),
            final(self).city_count() == old(self).city_count(),
            final(self).start_city() == old(self).start_city(),
            old(self).current_route().len() <= 4 ==> final(self).candidate_route()
                == old(self).current_route(),
            old(self).current_route().len() > 4 ==> exists|i: int, j: int|
                1 <= i < j <= old(self).current_route().len() - 2 && final(self).candidate_route()
                    == reversed_segment(old(self).current_route(), i, j),
    {
        proof {
            use_type_invariant(&*self);
        }
        let neighbor = generate_neighbor(&self.current, rng);
        proof {
            if self.current@.len() > 4 {
                let (i, j) = choose|i: int, j: int|
                    1 <= i < j <= self.current@.len() - 2 && neighbor@ == reversed_segment(
                        self.current@,
                        i,
                        j,
                    );
                lemma_reversal_keeps_tour(self.current@, self.cities as nat, self.start, i, j);
            }
        }
        self.candidate = neighbor;
    }

    /// Moves the search to the candidate route.
    pub fn accept(&mut self)
        ensures
            final(self).current_route() == old(self).candidate_route(),
            final(self).candidate_route() == old(self).candidate_route(),
            final(self).best_route() == old(self).best_route(),
            final(self).city_count() == old(self).city_count(),
            final(self).start_city() == old(self).start_city(),
    {
        proof {
            use_type_invariant(&*self);
        }
        self.current = vstd::slice::slice_to_vec(self.candidate.as_slice());
    }

    /// Keeps the current route as the best one.
    pub fn keep_current_as_best(&mut self)
        ensures
            final(self).current_route() == old(self).current_route(),
            final(self).candidate_route() == old(self).candidate_route(),
            final(self).best_route() == old(self).current_route(),
            final(self).city_count() == old(self).city_count(),
            final(self).start_city() == old(self).start_city(),
    {
        proof {
            use_type_invariant(&*self);
        }
        self.best = vstd::slice::slice_to_vec(self.current.as_slice());
    }

    /// Ends the search, handing out the best route kept, a tour.
    pub fn into_best(self) -> (r: Vec<usize>)
        ensures
            r@ == self.best_route(),
            is_tour(r@, self.city_count(), self.start_city()),
    {
        proof {
            use_type_invariant(&self);
        }
        self.best
    }
}

} // verus!
