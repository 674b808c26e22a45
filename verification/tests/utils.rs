use tsp_annealing::formats::{coord_fields, cost_pair_fields};
use tsp_annealing::selection::find_best_pair;
use tsp_annealing::text::{is_whitespace, lines, split_whitespace};

/// A key that orders `x` among all numbers (`-0.0` and `0.0` alike);
/// `None` for a value that is not a number.
fn order_key(x: f64) -> Option<u64> {
    if x.is_nan() {
        return None;
    }
    let x = if x == 0.0 { 0.0 } else { x };
    let bits = x.to_bits();
    Some(if bits >> 63 == 1 { !bits } else { bits | (1u64 << 63) })
}

fn weighted_score(a: f64, b: f64, alpha: f64, beta: f64) -> f64 {
    alpha * a + beta * b
}

fn best_pair(pairs: &[(f64, f64)], alpha: f64, beta: f64) -> Option<((f64, f64), f64)> {
    let keys: Vec<Option<u64>> = pairs.iter().map(|&(a, b)| order_key(weighted_score(a, b, alpha, beta))).collect();
    find_best_pair(&keys).map(|i| (pairs[i], weighted_score(pairs[i].0, pairs[i].1, alpha, beta)))
}

fn to_number(field: &[char]) -> f64 {
    field.iter().collect::<String>().parse().unwrap()
}

fn read_city_coords(content: &str) -> Vec<(f64, f64)> {
    coord_fields(content).iter().map(|(x, y)| (to_number(x), to_number(y))).collect()
}

fn read_cost_pairs(content: &str) -> Vec<(f64, f64)> {
    cost_pair_fields(content).iter().map(|(a, b)| (to_number(a), to_number(b))).collect()
}

fn strings(rows: Vec<Vec<char>>) -> Vec<String> {
    rows.into_iter().map(|r| r.into_iter().collect()).collect()
}

#[test]
fn test_find_best_pair_empty() {
    assert_eq!(best_pair(&[], 0.5, 0.5), None);
}

#[test]
fn test_find_best_pair_single() {
    let result = best_pair(&[(3.0, 5.0)], 0.5, 0.5).unwrap();
    assert_eq!(result.0, (3.0, 5.0));
    assert!((result.1 - 4.0).abs() < 1e-9);
}

#[test]
fn test_find_best_pair_picks_minimum() {
    let pairs = vec![(10.0, 10.0), (2.0, 2.0), (5.0, 5.0)];
    let (best, score) = best_pair(&pairs, 0.5, 0.5).unwrap();
    assert_eq!(best, (2.0, 2.0));
    assert!((score - 2.0).abs() < 1e-9);
}

#[test]
fn test_find_best_pair_respects_weights() {
    let pairs = vec![(1.0, 10.0), (10.0, 1.0)];
    let (best, _) = best_pair(&pairs, 0.9, 0.1).unwrap();
    assert_eq!(best, (1.0, 10.0));
}

#[test]
fn find_best_pair_keeps_the_first_of_equal_scores() {
    assert_eq!(find_best_pair(&vec![Some(4), Some(2), Some(2), Some(3)]), Some(1));
}

#[test]
fn find_best_pair_keeps_a_first_score_that_is_not_a_number() {
    assert_eq!(find_best_pair(&vec![None, Some(2), Some(1)]), Some(0));
}

#[test]
fn find_best_pair_passes_over_later_scores_that_are_not_numbers() {
    assert_eq!(find_best_pair(&vec![Some(4), None, Some(1), None]), Some(2));
}

#[test]
fn test_read_city_coords() {
    let content = "SOME_HEADER\nNODE_COORD_SECTION\n1 0.0 0.0\n2 3.0 4.0\n";
    let coords = read_city_coords(content);
    assert_eq!(coords, vec![(0.0, 0.0), (3.0, 4.0)]);
}

#[test]
fn test_read_city_coords_empty_section() {
    let content = "NODE_COORD_SECTION\n";
    let coords = read_city_coords(content);
    assert!(coords.is_empty());
}

#[test]
fn test_read_cost_pairs() {
    let content = "1.5 2.5\n3.0 4.0\n";
    let pairs = read_cost_pairs(content);
    assert_eq!(pairs, vec![(1.5, 2.5), (3.0, 4.0)]);
}

#[test]
fn test_read_cost_pairs_ignores_invalid_lines() {
    let content = "1.0 2.0\ninvalid line here\n3.0 4.0\n";
    let pairs = read_cost_pairs(content);
    assert_eq!(pairs, vec![(1.0, 2.0), (3.0, 4.0)]);
}

#[test]
fn coord_fields_skip_lines_before_the_section_and_other_shapes() {
    let content = "NAME: x\n1 9 9\nNODE_COORD_SECTION extra\n1 1.5 2.5\n2 7\nEOF\n3\t-4e1   5 \r\n";
    let fields: Vec<(String, String)> = coord_fields(content)
        .into_iter()
        .map(|(x, y)| (x.into_iter().collect(), y.into_iter().collect()))
        .collect();
    assert_eq!(fields, vec![("1.5".to_string(), "2.5".to_string()), ("-4e1".to_string(), "5".to_string())]);
}

#[test]
fn coord_fields_without_a_section_are_empty() {
    assert!(coord_fields("1 0.0 0.0\n2 3.0 4.0").is_empty());
}

#[test]
fn lines_split_as_str_lines_does() {
    let text = "a\r\nb\n\n c d\r";
    assert_eq!(strings(lines(text)), vec!["a", "b", "", " c d\r"]);
    let expected: Vec<String> = text.lines().map(|l| l.to_string()).collect();
    assert_eq!(strings(lines(text)), expected);
    assert!(lines("").is_empty());
    assert_eq!(strings(lines("\n")), vec![""]);
}

#[test]
fn split_whitespace_splits_as_str_split_whitespace_does() {
    let line: Vec<char> = "  1\u{a0}2\t\u{3000}x y\u{2003} ".chars().collect();
    assert_eq!(strings(split_whitespace(&line)), vec!["1", "2", "x", "y"]);
    let text: String = line.iter().collect();
    let expected: Vec<String> = text.split_whitespace().map(|w| w.to_string()).collect();
    assert_eq!(strings(split_whitespace(&line)), expected);
    assert!(split_whitespace(&vec![' ', '\n']).is_empty());
}

#[test]
fn is_whitespace_agrees_with_char_is_whitespace() {
    for code in 0u32..0x3100 {
        if let Some(c) = char::from_u32(code) {
            assert_eq!(is_whitespace(c), c.is_whitespace(), "{:?}", c);
        }
    }
    assert!(!is_whitespace('\u{feff}'));
    assert!(!is_whitespace('\u{200b}'));
}
