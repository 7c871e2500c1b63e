use number_pairing::number_pairing::{NumberPairing, DEFAULT_SUM, TICKS_PER_UNIT};
use number_pairing::number_pairing_problem::{NumberPairingProblem, MAX_RUNS};

const U: u64 = TICKS_PER_UNIT;

fn units(ticks: u64) -> f64 {
    ticks as f64 / U as f64
}

fn score_units(score: u128) -> f64 {
    let u = U as f64;
    score as f64 / (u * u * u)
}

fn true_maximum(sum: f64) -> f64 {
    let a = sum / 2.0 - sum / (2.0 * 3.0_f64.sqrt());
    let b = sum - a;
    a * b * (b - a)
}

#[test]
fn default_search_reaches_the_analytic_maximum() {
    let problem = NumberPairingProblem::solve_default();
    assert_eq!(problem.sum, DEFAULT_SUM);
    let results = problem.results.as_ref().unwrap();
    let best = score_units(results.best);
    assert!((best - true_maximum(8.0)).abs() < 1e-6, "best {}", best);
    assert!((best - 49.2672).abs() < 1e-4);
}

#[test]
fn default_search_finds_one_best_pair() {
    let problem = NumberPairingProblem::solve_with(8 * U, true);
    let results = problem.results.as_ref().unwrap();
    assert_eq!(results.best_pairing.len(), 1);
    let pair = results.best_pairing[0];
    let first = units(pair.first());
    let second = units(pair.second());
    assert!((first - 1.6906).abs() < 1e-4 || (first - 6.3094).abs() < 1e-4, "first {}", first);
    assert!((first + second - 8.0).abs() < 1e-12);
    assert_eq!(pair.result(), results.best);
}

#[test]
fn search_ends_within_the_round_limit() {
    for sum_units in [1_u64, 2, 3, 8, 10, 100, 1234, 10000] {
        let problem = NumberPairingProblem::solve_with(sum_units * U, false);
        assert!(problem.runs_to_solve >= 1 && problem.runs_to_solve <= MAX_RUNS);
        let results = problem.results.as_ref().unwrap();
        let best = score_units(results.best);
        let expected = true_maximum(sum_units as f64);
        assert!((best - expected).abs() <= 1e-9 * expected.max(1.0), "sum {} best {}", sum_units, best);
    }
}

#[test]
fn search_on_tiny_sums_ends() {
    for sum in [1_u64, 2, 3, 4, 5, 17] {
        let problem = NumberPairingProblem::solve_with(sum, true);
        assert!(problem.runs_to_solve >= 1 && problem.runs_to_solve <= MAX_RUNS);
    }
}

#[test]
fn zero_sum_converges_at_once() {
    let problem = NumberPairingProblem::solve_with(0, true);
    assert_eq!(problem.runs_to_solve, 1);
    let results = problem.results.as_ref().unwrap();
    assert_eq!(results.best, 0);
    assert_eq!(results.best_pairing.len(), 1);
    assert_eq!(results.best_pairing[0].first(), 0);
    assert_eq!(results.best_pairing[0].second(), 0);
    assert_eq!(results.best_pairing[0].sum(), 0);
    assert_eq!(results.other.as_ref().unwrap().len(), 0);
}

#[test]
fn other_results_are_descending_and_distinct() {
    let problem = NumberPairingProblem::solve_with(8 * U, true);
    let results = problem.results.as_ref().unwrap();
    let other = results.other.as_ref().unwrap();
    assert!(!other.is_empty());
    for i in 0..other.len() {
        assert!(other[i].result() <= results.best);
        assert!(other[i] != NumberPairing::new(0, 8 * U));
        for j in 0..other.len() {
            if i < j {
                assert!(other[i].result() >= other[j].result());
            }
            if i != j {
                assert!(other[i] != other[j]);
            }
        }
    }
}

#[test]
fn other_results_lie_in_the_half_domain() {
    let problem = NumberPairingProblem::solve_with(8 * U, true);
    let other = problem.results.as_ref().unwrap().other.as_ref().unwrap();
    let firsts: Vec<u64> = other.iter().map(|p| p.first()).collect();
    assert!(firsts.contains(&(2 * U)));
    assert!(firsts.contains(&(4 * U)));
    for f in firsts {
        assert!(f > 0 && f <= 4 * U);
    }
}

#[test]
fn other_results_absent_unless_collected() {
    let problem = NumberPairingProblem::solve_with(8 * U, false);
    assert!(problem.results.as_ref().unwrap().other.is_none());
}
