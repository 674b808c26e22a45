use rand::Rng;
use tsp_annealing::annealing::Annealing;
use tsp_annealing::nearest::nearest_neighbor;
use tsp_annealing::tour::{generate_neighbor, reverse_segment};

/// A key that orders `x` among all numbers (`-0.0` and `0.0` alike);
/// `None` for a value that is not a number.
fn order_key(x: f64) -> Option<u64> {
    if x.is_nan() {
        return None;
    }
    let x = if x == 0.0 { 0.0 } else { x };
    let bits = x.to_bits();
    Some(if bits >> 63 == 1 { !bits } else { bits | (1u64 << 63) })
}

fn travel_cost(i: usize, j: usize, distance: &[Vec<f64>], time: &[Vec<f64>], alpha: f64, beta: f64) -> f64 {
    alpha * distance[i][j] + beta * time[i][j]
}

fn route_cost(route: &[usize], distance: &[Vec<f64>], time: &[Vec<f64>], alpha: f64, beta: f64) -> f64 {
    let mut total_cost = 0.0;
    for i in 0..route.len() - 1 {
        total_cost += travel_cost(route[i], route[i + 1], distance, time, alpha, beta)
    }
    total_cost
}

fn cost_keys(distance: &[Vec<f64>], time: &[Vec<f64>], alpha: f64, beta: f64) -> Vec<Vec<Option<u64>>> {
    let n = distance.len();
    let mut keys = Vec::new();
    for i in 0..n {
        let mut row = Vec::new();
        for j in 0..n {
            let c = travel_cost(i, j, distance, time, alpha, beta);
            row.push(if c < f64::INFINITY { order_key(c) } else { None });
        }
        keys.push(row);
    }
    keys
}

fn nearest_neighbor_with_cost(distance: &[Vec<f64>], time: &[Vec<f64>], start: usize, alpha: f64, beta: f64) -> (Vec<usize>, f64) {
    let keys = cost_keys(distance, time, alpha, beta);
    let route = nearest_neighbor(&keys, start).expect("City not found");
    let cost = route_cost(&route, distance, time, alpha, beta);
    (route, cost)
}

fn simmulated_annealing(distance: &[Vec<f64>], time: &[Vec<f64>], start: usize, alpha: f64, beta: f64,
    initial_temp: f64, min_temp: f64, cooling_rate: f64, iterations_per_temp: usize) -> (Vec<usize>, f64) {
    let mut rng = rand::thread_rng();
    let keys = cost_keys(distance, time, alpha, beta);
    let mut search = Annealing::new(&keys, start).expect("City not found");
    let mut current_cost = route_cost(search.current(), distance, time, alpha, beta);
    let mut best_cost = current_cost;
    let mut temperature = initial_temp;
    while temperature > min_temp {
        for _ in 0..iterations_per_temp {
            search.propose(&mut rng);
            let candidate_cost = route_cost(search.candidate(), distance, time, alpha, beta);
            let cost_delta = candidate_cost - current_cost;
            if cost_delta < 0.0 {
                search.accept();
                current_cost = candidate_cost;
            } else {
                let acceptance_probability = (-cost_delta / temperature).exp();
                let random_value: f64 = rng.gen();
                if random_value < acceptance_probability {
                    search.accept();
                    current_cost = candidate_cost;
                }
            }
            if current_cost < best_cost {
                search.keep_current_as_best();
                best_cost = current_cost;
            }
        }
        temperature *= cooling_rate;
    }
    (search.into_best(), best_cost)
}

fn simple_matrices() -> (Vec<Vec<f64>>, Vec<Vec<f64>>) {
    let d = vec![
        vec![0.0, 10.0, 20.0],
        vec![10.0, 0.0, 10.0],
        vec![20.0, 10.0, 0.0],
    ];
    let t = vec![
        vec![0.0, 4.0, 8.0],
        vec![4.0, 0.0, 4.0],
        vec![8.0, 4.0, 0.0],
    ];
    (d, t)
}

#[test]
fn test_nearest_neighbour_7_cities() {
    let distance = vec![
        vec![0.0, 12.0, 10.0, 19.0, 8.0, 14.0, 16.0],
        vec![12.0, 0.0, 3.0, 7.0, 2.0, 8.0, 9.0],
        vec![10.0, 3.0, 0.0, 6.0, 20.0, 4.0, 5.0],
        vec![19.0, 7.0, 6.0, 0.0, 4.0, 3.0, 2.0],
        vec![8.0, 2.0, 20.0, 4.0, 0.0, 6.0, 7.0],
        vec![14.0, 8.0, 4.0, 3.0, 6.0, 0.0, 1.0],
        vec![16.0, 9.0, 5.0, 2.0, 7.0, 1.0, 0.0],
    ];

    let time = vec![
        vec![0.0, 10.0, 8.0, 15.0, 7.0, 11.0, 13.0],
        vec![10.0, 0.0, 2.0, 6.0, 3.0, 7.0, 8.0],
        vec![8.0, 2.0, 0.0, 5.0, 17.0, 3.0, 4.0],
        vec![15.0, 6.0, 5.0, 0.0, 3.0, 2.0, 1.0],
        vec![7.0, 3.0, 17.0, 3.0, 0.0, 5.0, 6.0],
        vec![11.0, 7.0, 3.0, 2.0, 5.0, 0.0, 1.0],
        vec![13.0, 8.0, 4.0, 1.0, 6.0, 1.0, 0.0],
    ];

    let (route, cost) = nearest_neighbor_with_cost(&distance, &time, 0, 0.5, 0.5);
    let expected_cost = 35.5;
    let expected_route = vec![0, 4, 1, 2, 5, 6, 3, 0];
    assert!((cost - expected_cost).abs() < 1e-6);
    assert_eq!(route, expected_route);
}

#[test]
fn test_nearest_neighbor_starts_and_ends_at_start() {
    let (d, t) = simple_matrices();
    let (route, _) = nearest_neighbor_with_cost(&d, &t, 0, 0.5, 0.5);
    assert_eq!(route[0], 0);
    assert_eq!(*route.last().unwrap(), 0);
}

#[test]
fn test_nearest_neighbor_visits_all_cities() {
    let (d, t) = simple_matrices();
    let (route, _) = nearest_neighbor_with_cost(&d, &t, 0, 0.5, 0.5);
    let mut cities: Vec<usize> = route[..route.len() - 1].to_vec();
    cities.sort();
    assert_eq!(cities, vec![0, 1, 2]);
}

#[test]
fn test_generate_neighbor_preserves_cities() {
    let route = vec![0, 1, 2, 3, 4, 5, 0];
    let mut rng = rand::thread_rng();
    let neighbor = generate_neighbor(&route, &mut rng);
    let mut r_sorted = route.clone();
    let mut n_sorted = neighbor.clone();
    r_sorted.sort();
    n_sorted.sort();
    assert_eq!(r_sorted, n_sorted);
}

#[test]
fn test_generate_neighbor_short_route_unchanged() {
    let route = vec![0, 1, 2, 0];
    let mut rng = rand::thread_rng();
    let neighbor = generate_neighbor(&route, &mut rng);
    assert_eq!(route, neighbor);
}

#[test]
fn test_simmulated_annealing_visits_all_cities() {
    let (d, t) = simple_matrices();
    let (route, _) = simmulated_annealing(&d, &t, 0, 0.5, 0.5, 100.0, 0.1, 0.9, 10);
    let mut cities: Vec<usize> = route[..route.len() - 1].to_vec();
    cities.sort();
    assert_eq!(cities, vec![0, 1, 2]);
}

#[test]
fn test_simmulated_annealing_starts_and_ends_at_start() {
    let (d, t) = simple_matrices();
    let (route, _) = simmulated_annealing(&d, &t, 0, 0.5, 0.5, 100.0, 0.1, 0.9, 10);
    assert_eq!(route[0], 0);
    assert_eq!(*route.last().unwrap(), 0);
}

#[test]
fn reverse_segment_reverses_the_stops_between_the_bounds() {
    let mut route = vec![0, 1, 2, 3, 4, 5];
    reverse_segment(&mut route, 1, 4);
    assert_eq!(route, vec![0, 4, 3, 2, 1, 5]);
}

#[test]
fn reverse_segment_of_one_stop_changes_nothing() {
    let mut route = vec![3, 1, 2];
    reverse_segment(&mut route, 1, 1);
    assert_eq!(route, vec![3, 1, 2]);
}

#[test]
fn generate_neighbor_reverses_an_inner_segment() {
    let route = vec![0, 1, 2, 3, 4, 5, 6, 7, 0];
    let mut rng = rand::thread_rng();
    for _ in 0..50 {
        let neighbor = generate_neighbor(&route, &mut rng);
        assert_ne!(neighbor, route);
        assert_eq!(neighbor.len(), route.len());
        assert_eq!(neighbor[0], 0);
        assert_eq!(neighbor[8], 0);
        let i = (0..9).find(|&k| neighbor[k] != route[k]).unwrap();
        let j = (0..9).rev().find(|&k| neighbor[k] != route[k]).unwrap();
        assert!(1 <= i && i < j && j <= 7);
        for k in i..=j {
            assert_eq!(neighbor[k], route[i + j - k]);
        }
    }
}

#[test]
fn nearest_neighbor_takes_the_first_of_equal_costs() {
    let keys = vec![
        vec![Some(0), Some(5), Some(5)],
        vec![Some(5), Some(0), Some(1)],
        vec![Some(5), Some(1), Some(0)],
    ];
    assert_eq!(nearest_neighbor(&keys, 0), Some(vec![0, 1, 2, 0]));
}

#[test]
fn nearest_neighbor_fails_where_no_city_can_be_reached() {
    let keys = vec![
        vec![Some(0), Some(1), None],
        vec![Some(1), Some(0), None],
        vec![None, None, Some(0)],
    ];
    assert_eq!(nearest_neighbor(&keys, 0), None);
}

#[test]
fn nearest_neighbor_of_one_city_returns_at_once() {
    let keys = vec![vec![None]];
    assert_eq!(nearest_neighbor(&keys, 0), Some(vec![0, 0]));
}

#[test]
fn nearest_neighbor_from_another_start() {
    let (d, t) = simple_matrices();
    let (route, cost) = nearest_neighbor_with_cost(&d, &t, 2, 0.5, 0.5);
    assert_eq!(route, vec![2, 1, 0, 2]);
    assert!((cost - 28.0).abs() < 1e-9);
}

#[test]
fn annealing_keeps_tours_through_every_step() {
    let keys = vec![
        vec![Some(0), Some(3), Some(4), Some(2), Some(7), Some(3)],
        vec![Some(3), Some(0), Some(4), Some(6), Some(3), Some(1)],
        vec![Some(4), Some(4), Some(0), Some(5), Some(8), Some(6)],
        vec![Some(2), Some(6), Some(5), Some(0), Some(6), Some(2)],
        vec![Some(7), Some(3), Some(8), Some(6), Some(0), Some(4)],
        vec![Some(3), Some(1), Some(6), Some(2), Some(4), Some(0)],
    ];
    let mut rng = rand::thread_rng();
    let mut search = Annealing::new(&keys, 0).unwrap();
    assert_eq!(search.current(), &nearest_neighbor(&keys, 0).unwrap());
    for step in 0..100 {
        search.propose(&mut rng);
        if step % 3 == 0 {
            search.accept();
            assert_eq!(search.current(), search.candidate());
        }
        if step % 7 == 0 {
            search.keep_current_as_best();
            assert_eq!(search.best(), search.current());
        }
        for route in [search.current(), search.candidate(), search.best()] {
            assert_eq!(route.len(), 7);
            assert_eq!(route[0], 0);
            assert_eq!(route[6], 0);
            let mut cities = route[..6].to_vec();
            cities.sort();
            assert_eq!(cities, vec![0, 1, 2, 3, 4, 5]);
        }
    }
}

#[test]
fn annealing_cannot_start_without_a_tour() {
    let keys = vec![vec![Some(0), None], vec![None, Some(0)]];
    assert!(Annealing::new(&keys, 1).is_none());
}
