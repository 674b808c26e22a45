//! The nearest-neighbour heuristic: from the start city, always travel to
//! the cheapest city not yet visited, then return to the start.
//!
//! Travel costs are given by keys that order them: `costs[i][j]` is
//! `Some(k)` where the cost of travelling from `i` to `j` has rank `k` among
//! all costs (equal costs, equal keys), and `None` where that travel can
//! never be chosen.
use vstd::prelude::*;

use crate::tour::{is_tour, lemma_tour_visits_every_city};

verus! {

/// The cost keys of each city's row.
pub open spec fn cost_table(costs: Seq<Vec<Option<u64>>>) -> Seq<Seq<Option<u64>>> {
    costs.map_values(|row: Vec<Option<u64>>| row@)
}

/// Every row has one key per city.
pub open spec fn is_square(costs: Seq<Seq<Option<u64>>>) -> bool {
    forall|i: int| 0 <= i < costs.len() ==> #[trigger] costs[i].len() == costs.len()
}

/// City `j` can be travelled to next from the city whose keys are `row`,
/// the cities of `path` being visited already.
pub open spec fn is_candidate(row: Seq<Option<u64>>, path: Seq<usize>, j: int) -> bool {
    &&& 0 <= j < row.len()
    &&& !path.contains(j as usize)
    &&& row[j] is Some
}

/// City `j` is the nearest candidate: none costs less, and each candidate
/// before it costs more.
pub open spec fn is_nearest(row: Seq<Option<u64>>, path: Seq<usize>, j: int) -> bool {
    &&& is_candidate(row, path, j)
    &&& forall|k: int| #[trigger] is_candidate(row, path, k) ==> row[j]->0 <= row[k]->0
    &&& forall|k: int| 0 <= k < j && #[trigger] is_candidate(row, path, k) ==> row[j]->0 < row[k]->0
}

/// The nearest candidate, if there is one.
pub open spec fn nearest_city(row: Seq<Option<u64>>, path: Seq<usize>) -> Option<usize> {
    if exists|j: int| is_nearest(row, path, j) {
        Some((choose|j: int| is_nearest(row, path, j)) as usize)
    } else {
        None
    }
}

/// The path that the heuristic makes out of `path`, extending it by the
/// nearest candidate of its last city until it holds every city; `None`
/// where some city on the way has no candidate.
pub open spec fn greedy_path(costs: Seq<Seq<Option<u64>>>, path: Seq<usize>) -> Option<Seq<usize>>
    decreases costs.len() - path.len(),
{
    if path.len() == 0 || path.len() >= costs.len() {
        Some(path)
    } else {
        match nearest_city(costs[path.last() as int], path) {
            None => None,
            Some(j) => greedy_path(costs, path.push(j)),
        }
    }
}

/// The tour that the heuristic builds from `start`: the greedy path from
/// `start`, closed by the return to `start`.
pub open spec fn nearest_neighbor_tour(costs: Seq<Seq<Option<u64>>>, start: usize) -> Option<
    Seq<usize>,
> {
    match greedy_path(costs, seq![start]) {
        Some(p) => Some(p.push(start)),
        None => None,
    }
}

proof fn lemma_nearest_unique(row: Seq<Option<u64>>, path: Seq<usize>, j: int, k: int)
    requires
        is_nearest(row, path, j),
        is_nearest(row, path, k),
    ensures
        j == k,
{
    if j < k {
        assert(is_candidate(row, path, j));
    } else if k < j {
        assert(is_candidate(row, path, k));
    }
}

/// A path of distinct cities below `n` from `start`.
pub open spec fn is_simple_path(path: Seq<usize>, n: nat, start: usize) -> bool {
    &&& path.len() >= 1
    &&& path[0] == start
    &&& forall|k: int| 0 <= k < path.len() ==> #[trigger] path[k] < n
    &&& forall|k: int, m: int| 0 <= k < m < path.len() ==> path[k] != path[m]
}

proof fn lemma_greedy_path_simple(costs: Seq<Seq<Option<u64>>>, path: Seq<usize>, start: usize)
    requires
        is_square(costs),
        is_simple_path(path, costs.len(), start),
        path.len() <= costs.len(),
        greedy_path(costs, path) is Some,
    ensures
        is_simple_path(greedy_path(costs, path)->0, costs.len(), start),
        greedy_path(costs, path)->0.len() == costs.len(),
    decreases costs.len() - path.len(),
{
    if path.len() < costs.len() {
        let row = costs[path.last() as int];
        let j = nearest_city(row, path)->0;
        let c = choose|c: int| is_nearest(row, path, c);
        assert(j == c as usize);
        assert(is_candidate(row, path, c));
        let next = path.push(j);
        assert forall|k: int, m: int| 0 <= k < m < next.len() implies next[k] != next[m] by {
            if m == path.len() {
                assert(path[k] == next[k]);
            }
        }
        lemma_greedy_path_simple(costs, next, start);
    }
}

/// The step from stop `k` of `route` to stop `k + 1` is as cheap as the
/// travel from stop `k` to city `c`, if `c` is not among the stops up to `k`
/// and can be travelled to; and strictly cheaper where `c` comes before the
/// city chosen.  Costs are read in the row of the city travelled from.
pub open spec fn step_beats(costs: Seq<Seq<Option<u64>>>, route: Seq<usize>, k: int, c: int) -> bool {
    (0 <= c < costs.len() && !route.take(k + 1).contains(c as usize) && costs[route[k] as int][c] is Some)
        ==> {
        &&& costs[route[k] as int][route[k + 1] as int] is Some
        &&& costs[route[k] as int][route[k + 1] as int]->0 <= costs[route[k] as int][c]->0
        &&& c < route[k + 1] ==> costs[route[k] as int][route[k + 1] as int]->0
            < costs[route[k] as int][c]->0
    }
}

/// Every step of `route` is the cheapest one from the city it leaves.
pub open spec fn steps_are_cheapest(costs: Seq<Seq<Option<u64>>>, route: Seq<usize>) -> bool {
    forall|k: int, c: int| 0 <= k < route.len() - 1 ==> #[trigger] step_beats(costs, route, k, c)
}

/// From the last city of `path`, no unvisited city can be travelled to.
pub open spec fn is_stuck(costs: Seq<Seq<Option<u64>>>, path: Seq<usize>) -> bool {
    forall|c: int|
        0 <= c < costs.len() && !path.contains(c as usize) ==> #[trigger] costs[path.last() as int][c]
            is None
}

proof fn lemma_greedy_path_steps(costs: Seq<Seq<Option<u64>>>, path: Seq<usize>, start: usize)
    requires
        costs.len() <= usize::MAX,
        is_square(costs),
        is_simple_path(path, costs.len(), start),
        path.len() <= costs.len(),
        steps_are_cheapest(costs, path),
    ensures
        greedy_path(costs, path) matches Some(p) ==> steps_are_cheapest(costs, p),
        greedy_path(costs, path) is None ==> exists|q: Seq<usize>|
            {
                &&& is_simple_path(q, costs.len(), start)
                &&& q.len() < costs.len()
                &&& steps_are_cheapest(costs, q)
                &&& is_stuck(costs, q)
            },
    decreases costs.len() - path.len(),
{
    if path.len() < costs.len() {
        let row = costs[path.last() as int];
        match nearest_city(row, path) {
            None => {
                assert forall|c: int|
                    0 <= c < costs.len() && !path.contains(c as usize) implies #[trigger] costs[path.last() as int][c]
                    is None by {
                    if costs[path.last() as int][c] is Some {
                        assert(is_candidate(row, path, c));
                        lemma_nearest_exists(row, path, c);
                    }
                }
                assert(is_stuck(costs, path));
            },
            Some(j) => {
                let jj = choose|c: int| is_nearest(row, path, c);
                assert(j == jj as usize);
                assert(is_candidate(row, path, jj));
                assert(j as int == jj);
                let next = path.push(j);
                assert forall|k: int, m: int| 0 <= k < m < next.len() implies next[k] != next[m] by {
                    if m == path.len() {
                        assert(path[k] == next[k]);
                    }
                }
                assert forall|k: int, c: int| 0 <= k < next.len() - 1 implies #[trigger] step_beats(
                    costs,
                    next,
                    k,
                    c,
                ) by {
                    if k < path.len() - 1 {
                        assert(next.take(k + 1) =~= path.take(k + 1));
                        assert(next[k] == path[k] && next[k + 1] == path[k + 1]);
                        assert(step_beats(costs, path, k, c));
                        assert(step_beats(costs, next, k, c));
                    } else {
                        assert(next.take(k + 1) =~= path);
                        assert(next[k] == path.last() && next[k + 1] == j);
                        assert(costs[next[k] as int] == row);
                        if 0 <= c < costs.len() && !path.contains(c as usize)
                            && costs[next[k] as int][c] is Some {
                            assert(is_candidate(row, path, c));
                            assert(row[jj]->0 <= row[c]->0);
                            assert(costs[next[k] as int][next[k + 1] as int] == row[jj]);
                        }
                        assert(step_beats(costs, next, k, c));
                    }
                }
                lemma_greedy_path_steps(costs, next, start);
            },
        }
    }
}

proof fn lemma_nearest_exists(row: Seq<Option<u64>>, path: Seq<usize>, c: int)
    requires
        is_candidate(row, path, c),
    ensures
        exists|j: int| is_nearest(row, path, j),
    decreases row[c]->0,
{
    if exists|k: int| #[trigger] is_candidate(row, path, k) && row[k]->0 < row[c]->0 {
        let k = choose|k: int| #[trigger] is_candidate(row, path, k) && row[k]->0 < row[c]->0;
        lemma_nearest_exists(row, path, k);
    } else {
        lemma_first_of_least(row, path, c);
    }
}

proof fn lemma_first_of_least(row: Seq<Option<u64>>, path: Seq<usize>, c: int)
    requires
        is_candidate(row, path, c),
        forall|k: int| #[trigger] is_candidate(row, path, k) ==> row[c]->0 <= row[k]->0,
    ensures
        exists|j: int| is_nearest(row, path, j),
    decreases c,
{
    if exists|k: int| 0 <= k < c && #[trigger] is_candidate(row, path, k) && row[k]->0 == row[c]->0 {
        let k = choose|k: int| 0 <= k < c && #[trigger] is_candidate(row, path, k) && row[k]->0 == row[c]->0;
        lemma_first_of_least(row, path, k);
    } else {
        assert(is_nearest(row, path, c));
    }
}

/// Each step of the nearest-neighbour tour goes from the city it leaves to
/// the cheapest unvisited city, by that city's own row of costs, and to the
/// first such city where several cost the same.
pub proof fn lemma_nearest_neighbor_takes_cheapest_steps(
    costs: Seq<Seq<Option<u64>>>,
    start: usize,
    k: int,
    c: int,
)
    requires
        costs.len() <= usize::MAX,
        is_square(costs),
        start < costs.len(),
        nearest_neighbor_tour(costs, start) is Some,
        0 <= k < costs.len() - 1,
        0 <= c < costs.len(),
        !nearest_neighbor_tour(costs, start)->0.take(k + 1).contains(c as usize),
        costs[nearest_neighbor_tour(costs, start)->0[k] as int][c] is Some,
    ensures
        ({
            let t = nearest_neighbor_tour(costs, start)->0;
            &&& costs[t[k] as int][t[k + 1] as int] is Some
            &&& costs[t[k] as int][t[k + 1] as int]->0 <= costs[t[k] as int][c]->0
            &&& c < t[k + 1] ==> costs[t[k] as int][t[k + 1] as int]->0 < costs[t[k] as int][c]->0
        }),
{
    let first = seq![start];
    assert(steps_are_cheapest(costs, first));
    lemma_greedy_path_simple(costs, first, start);
    lemma_greedy_path_steps(costs, first, start);
    let path = greedy_path(costs, first)->0;
    let t = path.push(start);
    assert(t =~= nearest_neighbor_tour(costs, start)->0);
    assert(step_beats(costs, path, k, c));
    assert(t.take(k + 1) =~= path.take(k + 1));
}

/// The nearest-neighbour tour fails to exist only where the heuristic gets
/// stuck: some path of distinct cities from `start`, each step the cheapest,
/// ends at a city from which no unvisited city can be travelled to.
pub proof fn lemma_nearest_neighbor_fails_only_when_stuck(costs: Seq<Seq<Option<u64>>>, start: usize)
    requires
        costs.len() <= usize::MAX,
        is_square(costs),
        start < costs.len(),
        nearest_neighbor_tour(costs, start) is None,
    ensures
        exists|q: Seq<usize>|
            {
                &&& q.len() < costs.len()
                &&& q[0] == start
                &&& forall|k: int, m: int| 0 <= k < m < q.len() ==> q[k] != q[m]
                &&& forall|k: int| 0 <= k < q.len() ==> #[trigger] q[k] < costs.len()
                &&& forall|k: int, c: int| 0 <= k < q.len() - 1 ==> #[trigger] step_beats(costs, q, k, c)
                &&& forall|c: int|
                    0 <= c < costs.len() && !q.contains(c as usize) ==> #[trigger] costs[q.last() as int][c]
                        is None
            },
{
    let first = seq![start];
    assert(steps_are_cheapest(costs, first));
    lemma_greedy_path_steps(costs, first, start);
    assert(greedy_path(costs, first) is None);
    let q = choose|q: Seq<usize>|
        {
            &&& is_simple_path(q, costs.len(), start)
            &&& q.len() < costs.len()
            &&& steps_are_cheapest(costs, q)
            &&& is_stuck(costs, q)
        };
    assert(q.len() >= 1);
}

/// The nearest-neighbour tour, where it exists, is a tour: it starts and
/// ends at `start` and visits every city exactly once.
pub proof fn lemma_nearest_neighbor_tour_visits_every_city(
    costs: Seq<Seq<Option<u64>>>,
    start: usize,
    city: usize,
)
    requires
        is_square(costs),
        start < costs.len(),
        city < costs.len(),
        nearest_neighbor_tour(costs, start) is Some,
    ensures
        is_tour(nearest_neighbor_tour(costs, start)->0, costs.len(), start),
        exists|k: int|
            0 <= k < costs.len() && nearest_neighbor_tour(costs, start)->0[k] == city,
{
    let first = seq![start];
    lemma_greedy_path_simple(costs, first, start);
    let path = greedy_path(costs, first)->0;
    let tour = path.push(start);
    assert(tour =~= nearest_neighbor_tour(costs, start)->0);
    assert forall|k: int| 0 <= k < costs.len() implies #[trigger] tour[k] < costs.len() by {
        assert(path[k] < costs.len());
    }
    assert forall|k: int, m: int| 0 <= k < m < costs.len() implies tour[k] != tour[m] by {
        assert(path[k] != path[m]);
    }
    lemma_tour_visits_every_city(tour, costs.len(), start, city);
}

/// The nearest-neighbour tour from `start`.  `None` where, on the way, the
/// current city has no unvisited city that can be travelled to.
pub fn nearest_neighbor(costs: &Vec<Vec<Option<u64>>>, start: usize) -> (route: Option<Vec<usize>>)
    requires
        start < costs.len(),
        is_square(cost_table(costs@)),
    ensures
        route is None <==> nearest_neighbor_tour(cost_table(costs@), start) is None,
        route matches Some(r) ==> nearest_neighbor_tour(cost_table(costs@), start) == Some(r@),
        route matches Some(r) ==> is_tour(r@, costs.len() as nat, start),
        route matches Some(r) ==> forall|k: int, c: int|
            0 <= k < costs.len() - 1 ==> #[trigger] step_beats(cost_table(costs@), r@, k, c),
{
    let ghost table = cost_table(costs@);
    let n = costs.len();
    let mut visited: Vec<bool> = vec![false; n];
    let mut route: Vec<usize> = Vec::new();
    let mut current = start;
    visited.set(current, true);
    route.push(current);
    assert(route@ =~= seq![start]);
    while route.len() < n
        invariant
            n == costs.len(),
            table == cost_table(costs@),
            is_square(table),
            start < n,
            1 <= route.len() <= n,
            route@[0] == start,
            route@.last() == current,
            visited.len() == n,
            forall|c: int| 0 <= c < n ==> (#[trigger] visited@[c] <==> route@.contains(c as usize)),
            forall|k: int| 0 <= k < route.len() ==> #[trigger] route@[k] < n,
            forall|k: int, m: int| 0 <= k < m < route.len() ==> route@[k] != route@[m],
            greedy_path(table, route@) == greedy_path(table, seq![start]),
        decreases n - route.len(),
    {
        let row = &costs[current];
        let ghost r = table[current as int];
        assert(r == row@);
        let mut nearest: Option<usize> = None;
        let mut nearest_key: u64 = 0;
        let mut j: usize = 0;
        while j < n
            invariant
                n == costs.len(),
                row@ == r,
                r.len() == n,
                visited.len() == n,
                forall|c: int| 0 <= c < n ==> (#[trigger] visited@[c] <==> route@.contains(c as usize)),
                j <= n,
                nearest is None ==> forall|k: int| 0 <= k < j ==> !is_candidate(r, route@, k),
                nearest matches Some(b) ==> {
                    &&& b < j
                    &&& is_candidate(r, route@, b as int)
                    &&& r[b as int] == Some(nearest_key)
                    &&& forall|k: int|
                        0 <= k < j && #[trigger] is_candidate(r, route@, k) ==> nearest_key <= r[k]->0
                    &&& forall|k: int|
                        0 <= k < b && #[trigger] is_candidate(r, route@, k) ==> nearest_key < r[k]->0
                },
            decreases n - j,
        {
            if !visited[j] {
                match row[j] {
                    Some(key) => {
                        let closer = match nearest {
                            None => true,
                            Some(_) => key < nearest_key,
                        };
                        if closer {
                            nearest = Some(j);
                            nearest_key = key;
                        }
                    },
                    None => {},
                }
            }
            j = j + 1;
        }
        match nearest {
            None => {
                proof {
                    assert(!exists|k: int| is_nearest(r, route@, k));
                }
                return None;
            },
            Some(b) => {
                proof {
                    assert(is_nearest(r, route@, b as int));
                    let c = choose|k: int| is_nearest(r, route@, k);
                    lemma_nearest_unique(r, route@, b as int, c);
                    assert(nearest_city(r, route@) == Some(b));
                }
                let ghost old_route = route@;
                visited.set(b, true);
                route.push(b);
                current = b;
                proof {
                    assert(route@ == old_route.push(b));
                    assert forall|c: int| 0 <= c < n implies (#[trigger] visited@[c]
                        <==> route@.contains(c as usize)) by {
                        if route@.contains(c as usize) {
                            let k = choose|k: int| 0 <= k < route@.len() && route@[k] == c as usize;
                            if k < old_route.len() {
                                assert(old_route[k] == c as usize);
                            }
                        }
                        if c != b && old_route.contains(c as usize) {
                            let k = choose|k: int| 0 <= k < old_route.len() && old_route[k] == c as usize;
                            assert(route@[k] == c as usize);
                        }
                        if c == b {
                            assert(route@[old_route.len() as int] == b);
                        }
                    }
                    assert forall|k: int, m: int| 0 <= k < m < route.len() implies route@[k] != route@[m] by {
                        if m == old_route.len() {
                            assert(old_route[k] == route@[k]);
                            assert(!old_route.contains(b));
                        }
                    }
                }
            },
        }
    }
    let ghost path = route@;
    assert(greedy_path(table, path) == Some(path));
    route.push(start);
    proof {
        assert(route@ == path.push(start));
        assert forall|k: int, m: int| 0 <= k < m < n implies route@[k] != route@[m] by {
            assert(path[k] != path[m]);
        }
        assert forall|k: int| 0 <= k < n implies #[trigger] route@[k] < n by {
            assert(path[k] < n);
        }
    }
    proof {
        assert forall|k: int, c: int| 0 <= k < n - 1 implies #[trigger] step_beats(table, route@, k, c) by {
            if 0 <= c < n && !route@.take(k + 1).contains(c as usize) && table[route@[k] as int][c] is Some {
                lemma_nearest_neighbor_takes_cheapest_steps(table, start, k, c);
            }
        }
    }
    Some(route)
}

} // verus!
