//! Closed tours over the cities `0..n` and the 2-opt move that turns one
//! tour into a neighbouring one.
use vstd::prelude::*;

use rand::rngs::ThreadRng;
use rand::Rng;

verus! {

/// `route` is a closed tour of the cities `0..n` from `start`: it has
/// `n + 1` stops, begins and ends at `start`, and its first `n` stops are
/// distinct cities below `n`.
pub open spec fn is_tour(route: Seq<usize>, n: nat, start: usize) -> bool {
    &&& n >= 1
    &&& route.len() == n + 1
    &&& route[0] == start
    &&& route[n as int] == start
    &&& forall|k: int| 0 <= k < n ==> #[trigger] route[k] < n
    &&& forall|k: int, m: int| 0 <= k < m < n ==> route[k] != route[m]
}

/// A tour visits every city: each city below `n` is one of its first `n`
/// stops.
pub proof fn lemma_tour_visits_every_city(route: Seq<usize>, n: nat, start: usize, city: usize)
    requires
        is_tour(route, n, start),
        city < n,
    ensures
        exists|k: int| 0 <= k < n && route[k] == city,
{
    let stops = route.take(n as int).map_values(|c: usize| c as int);
    assert(stops.no_duplicates()) by {
        assert forall|k: int, m: int|
            0 <= k < stops.len() && 0 <= m < stops.len() && k != m implies stops[k] != stops[m] by {
            if k < m {
                assert(route[k] != route[m]);
            } else {
                assert(route[m] != route[k]);
            }
        }
    }
    stops.unique_seq_to_set();
    vstd::set_lib::lemma_int_range(0, n as int);
    let range = vstd::set_lib::set_int_range(0, n as int);
    assert(stops.to_set().subset_of(range)) by {
        assert forall|x: int| stops.to_set().contains(x) implies range.contains(x) by {
            let k = choose|k: int| 0 <= k < stops.len() && stops[k] == x;
            assert(route[k] < n);
        }
    }
    vstd::seq_lib::seq_to_set_is_finite(stops);
    vstd::set_lib::lemma_subset_equality(stops.to_set(), range);
    assert(range.contains(city as int));
    assert(stops.to_set().contains(city as int));
    let k = choose|k: int| 0 <= k < stops.len() && stops[k] == city as int;
    assert(route[k] == city);
}

/// `route` with the stops `i..=j` in reverse order.
pub open spec fn reversed_segment(route: Seq<usize>, i: int, j: int) -> Seq<usize> {
    Seq::new(route.len(), |k: int| if i <= k <= j { route[i + j - k] } else { route[k] })
}

/// Reversing a segment inside a tour, away from its two ends, gives a tour
/// of the same cities from the same start.
pub proof fn lemma_reversal_keeps_tour(route: Seq<usize>, n: nat, start: usize, i: int, j: int)
    requires
        is_tour(route, n, start),
        1 <= i <= j < n,
    ensures
        is_tour(reversed_segment(route, i, j), n, start),
{
    let r = reversed_segment(route, i, j);
    assert forall|k: int| 0 <= k < n implies #[trigger] r[k] < n by {
        if i <= k <= j {
            assert(route[i + j - k] < n);
        }
    }
    assert forall|k: int, m: int| 0 <= k < m < n implies r[k] != r[m] by {
        let k2 = if i <= k <= j { i + j - k } else { k };
        let m2 = if i <= m <= j { i + j - m } else { m };
        assert(r[k] == route[k2] && r[m] == route[m2]);
        if k2 < m2 {
            assert(route[k2] != route[m2]);
        } else {
            assert(route[m2] != route[k2]);
        }
    }
}

proof fn lemma_reverse_to_multiset(s: Seq<usize>)
    ensures
        s.reverse().to_multiset() == s.to_multiset(),
    decreases s.len(),
{
    broadcast use vstd::seq_lib::group_to_multiset_ensures;

    if s.len() > 0 {
        let t = s.drop_first();
        lemma_reverse_to_multiset(t);
        assert(s.reverse() =~= t.reverse() + seq![s[0]]);
        assert(s =~= seq![s[0]] + t);
        vstd::seq_lib::lemma_multiset_commutative(t.reverse(), seq![s[0]]);
        vstd::seq_lib::lemma_multiset_commutative(seq![s[0]], t);
        assert(s.reverse().to_multiset() =~= s.to_multiset());
    }
}

/// Reversing a segment keeps the cities of a route, each as often as
/// before.
pub proof fn lemma_reversal_keeps_cities(route: Seq<usize>, i: int, j: int)
    requires
        0 <= i <= j < route.len(),
    ensures
        reversed_segment(route, i, j).to_multiset() == route.to_multiset(),
{
    let a = route.take(i);
    let b = route.subrange(i, j + 1);
    let c = route.skip(j + 1);
    assert(route =~= a + b + c);
    assert(reversed_segment(route, i, j) =~= a + b.reverse() + c);
    lemma_reverse_to_multiset(b);
    vstd::seq_lib::lemma_multiset_commutative(a, b);
    vstd::seq_lib::lemma_multiset_commutative(a + b, c);
    vstd::seq_lib::lemma_multiset_commutative(a, b.reverse());
    vstd::seq_lib::lemma_multiset_commutative(a + b.reverse(), c);
}

/// Reverses the stops `i..=j` of `route` in place.
pub fn reverse_segment(route: &mut Vec<usize>, i: usize, j: usize)
    requires
        i <= j < old(route).len(),
    ensures
        final(route)@ == reversed_segment(old(route)@, i as int, j as int),
{
    let ghost orig = route@;
    let mut lo = i;
    let mut hi = j;
    while lo < hi
        invariant
            i <= lo,
            hi <= j,
            j < orig.len(),
            lo + hi == i + j,
            lo <= hi + 1,
            route@.len() == orig.len(),
            forall|k: int|
                0 <= k < orig.len() ==> #[trigger] route@[k] == if (i <= k < lo || hi < k <= j) {
                    orig[i + j - k]
                } else {
                    orig[k]
                },
        decreases hi + 1 - lo,
    {
        let a = route[lo];
        let b = route[hi];
        route.set(lo, b);
        route.set(hi, a);
        lo = lo + 1;
        hi = hi - 1;
    }
    assert(route@ =~= reversed_segment(orig, i as int, j as int));
}

/// Declares `rand::rngs::ThreadRng`, the thread's random number generator,
/// so that it can be handed to `random_index`; nothing of its state is seen.
#[verifier::external_type_specification]
#[verifier::external_body]
pub struct ExThreadRng(ThreadRng);

/// Draws an index from `low..high` with `Rng::gen_range`, which returns a
/// value of the half-open range and panics only where the range is empty.
/// What the value is, beyond lying in the range, rests on chance.
#[verifier::external_body]
fn random_index(rng: &mut ThreadRng, low: usize, high: usize) -> (r: usize)
    requires
        low < high,
    ensures
        low <= r < high,
{
    rng.gen_range(low..high)
}

/// A 2-opt neighbour of `route`: a copy with a random segment reversed,
/// the segment lying strictly between the first and the last stop.  A route
/// of at most four stops is copied unchanged.
pub fn generate_neighbor(route: &Vec<usize>, rng: &mut ThreadRng) -> (neighbor: Vec<usize>)
    ensures
        route.len() <= 4 ==> neighbor@ == route@,
        route.len() > 4 ==> exists|i: int, j: int|
            1 <= i < j <= route.len() - 2 && neighbor@ == reversed_segment(route@, i, j),
        neighbor@.to_multiset() == route@.to_multiset(),
        neighbor.len() == route.len(),
        route.len() > 0 ==> neighbor@[0] == route@[0] && neighbor@.last() == route@.last(),
{
    let mut neighbor = vstd::slice::slice_to_vec(route.as_slice());
    if neighbor.len() <= 4 {
        return neighbor;
    }
    let n = neighbor.len();
    let i = random_index(rng, 1, n - 2);
    let j = random_index(rng, i + 1, n - 1);
    reverse_segment(&mut neighbor, i, j);
    proof {
        lemma_reversal_keeps_cities(route@, i as int, j as int);
    }
    neighbor
}

} // verus!
