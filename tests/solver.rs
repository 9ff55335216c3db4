use rand::rngs::StdRng;
use rand::Rng;
use rand::SeedableRng;
use walksat::model::{instance_ok, is_solution};
use walksat::sat_opaa;
use walksat::search::{minimizers, pick_position, position_from_draws, Policy, Search};
use walksat::simplify::{filter_clause, simplify, Filtered, Simplified};
use walksat::solver::{seed_value, solve, Challenge};
use walksat::sprintier_sat;

fn challenge(seed: u64, num_variables: usize, clauses: Vec<Vec<i32>>) -> Challenge {
    let mut bytes = [0u8; 32];
    bytes[..8].copy_from_slice(&seed.to_le_bytes());
    Challenge { seed: bytes, num_variables, clauses }
}

fn random_3sat(seed: u64, n: usize, m: usize) -> Vec<Vec<i32>> {
    let mut rng = StdRng::seed_from_u64(seed);
    let mut out = Vec::new();
    for _ in 0..m {
        let mut c = Vec::new();
        for _ in 0..3 {
            let v = rng.gen_range(1..=n as i32);
            c.push(if rng.gen_bool(0.5) { v } else { -v });
        }
        out.push(c);
    }
    out
}

fn all_assignments(n: usize) -> Vec<Vec<bool>> {
    (0..(1u32 << n)).map(|bits| (0..n).map(|i| bits & (1 << i) != 0).collect()).collect()
}

#[test]
fn unit_clause_forced_true() {
    let c = challenge(1, 1, vec![vec![1]]);
    assert_eq!(sat_opaa::solve_challenge(&c).unwrap().variables, vec![true]);
    assert_eq!(sprintier_sat::solve_challenge(&c).unwrap().variables, vec![true]);
}

#[test]
fn unit_contradiction_gives_none() {
    let c = challenge(1, 1, vec![vec![1], vec![-1]]);
    assert!(sat_opaa::solve_challenge(&c).is_none());
    assert!(sprintier_sat::solve_challenge(&c).is_none());
    assert!(matches!(simplify(&vec![vec![1], vec![-1]], 1), Simplified::Contradiction));
}

#[test]
fn two_variable_exclusive_or() {
    let clauses = vec![vec![1, 2], vec![-1, -2]];
    for seed in 0..20u64 {
        let c = challenge(seed, 2, clauses.clone());
        let s = sat_opaa::solve_challenge(&c).unwrap().variables;
        assert!(s == vec![true, false] || s == vec![false, true]);
        let s = sprintier_sat::solve_challenge(&c).unwrap().variables;
        assert!(s == vec![true, false] || s == vec![false, true]);
    }
    assert!(is_solution(&clauses, &vec![true, false]));
    assert!(is_solution(&clauses, &vec![false, true]));
    assert!(!is_solution(&clauses, &vec![true, true]));
    assert!(!is_solution(&clauses, &vec![false, false]));
}

#[test]
fn duplicate_and_negation_is_dropped() {
    match simplify(&vec![vec![1, 1, -1]], 1) {
        Simplified::Reduced { clauses, forced_true, forced_false } => {
            assert!(clauses.is_empty());
            assert_eq!(forced_true, vec![false]);
            assert_eq!(forced_false, vec![false]);
        }
        Simplified::Contradiction => panic!("tautology reported as contradiction"),
    }
    let c = challenge(3, 1, vec![vec![1, 1, -1]]);
    assert_eq!(sat_opaa::solve_challenge(&c).unwrap().variables.len(), 1);
    assert_eq!(sprintier_sat::solve_challenge(&c).unwrap().variables.len(), 1);
}

#[test]
fn empty_clause_gives_none_for_every_seed() {
    for seed in 0..10u64 {
        let c = challenge(seed, 3, vec![vec![1, 2], vec![]]);
        assert!(sat_opaa::solve_challenge(&c).is_none());
        assert!(sprintier_sat::solve_challenge(&c).is_none());
    }
    let c = challenge(0, 2, vec![vec![1], vec![-1, 2], vec![-2]]);
    assert!(sat_opaa::solve_challenge(&c).is_none());
}

#[test]
fn random_3sat_below_threshold_is_solved() {
    let n = 60;
    let clauses = random_3sat(7, n, 180);
    let mut opaa = 0;
    let mut sprintier = 0;
    for seed in 0..30u64 {
        let c = challenge(seed, n, clauses.clone());
        if let Some(s) = sat_opaa::solve_challenge(&c) {
            assert!(is_solution(&clauses, &s.variables));
            opaa += 1;
        }
        if let Some(s) = sprintier_sat::solve_challenge(&c) {
            assert!(is_solution(&clauses, &s.variables));
            sprintier += 1;
        }
    }
    assert!(opaa >= 25, "solved {} of 30", opaa);
    assert!(sprintier >= 25, "solved {} of 30", sprintier);
}

#[test]
fn returned_assignments_satisfy_the_input() {
    for inst in 0..10u64 {
        let clauses = random_3sat(100 + inst, 20, 70);
        for seed in 0..5u64 {
            let c = challenge(seed, 20, clauses.clone());
            if let Some(s) = sat_opaa::solve_challenge(&c) {
                assert_eq!(s.variables.len(), 20);
                assert!(is_solution(&clauses, &s.variables));
            }
            if let Some(s) = sprintier_sat::solve_challenge(&c) {
                assert!(is_solution(&clauses, &s.variables));
            }
        }
    }
}

#[test]
fn same_seed_same_result() {
    let clauses = random_3sat(11, 40, 160);
    for seed in 0..5u64 {
        let c = challenge(seed, 40, clauses.clone());
        let a = sat_opaa::solve_challenge(&c).map(|s| s.variables);
        let b = sat_opaa::solve_challenge(&c).map(|s| s.variables);
        assert_eq!(a, b);
        let a = sprintier_sat::solve_challenge(&c).map(|s| s.variables);
        let b = sprintier_sat::solve_challenge(&c).map(|s| s.variables);
        assert_eq!(a, b);
    }
}

#[test]
fn simplification_preserves_models() {
    for inst in 0..20u64 {
        let n = 6;
        let mut clauses = random_3sat(200 + inst, n, 10);
        clauses.push(vec![(inst % 6) as i32 + 1]);
        clauses.push(vec![-((inst % 5) as i32 + 2), 1, 1]);
        match simplify(&clauses, n) {
            Simplified::Contradiction => {
                for a in all_assignments(n) {
                    assert!(!is_solution(&clauses, &a));
                }
            }
            Simplified::Reduced { clauses: red, forced_true, forced_false } => {
                for c in &red {
                    assert!(c.len() >= 2);
                }
                for a in all_assignments(n) {
                    let agrees = (0..n).all(|v| (!forced_true[v] || a[v]) && (!forced_false[v] || !a[v]));
                    assert_eq!(is_solution(&clauses, &a), agrees && is_solution(&red, &a));
                }
            }
        }
    }
}

#[test]
fn propagation_chains_to_fixpoint() {
    match simplify(&vec![vec![-1, 2], vec![-2, 3], vec![1], vec![3, 4, -4]], 4) {
        Simplified::Reduced { clauses, forced_true, forced_false } => {
            assert!(clauses.is_empty());
            assert_eq!(forced_true, vec![true, true, true, false]);
            assert_eq!(forced_false, vec![false, false, false, false]);
        }
        Simplified::Contradiction => panic!("satisfiable instance reported as contradiction"),
    }
}

#[test]
fn filter_drops_repeats_and_false_literals() {
    match filter_clause(&vec![2, 2, -1, 3], &vec![true, false, false], &vec![false, false, false]) {
        Filtered::Kept(k) => assert_eq!(k, vec![2, 3]),
        Filtered::Satisfied => panic!("clause is not satisfied yet"),
    }
    assert!(matches!(
        filter_clause(&vec![2, 1], &vec![true, false], &vec![false, false]),
        Filtered::Satisfied
    ));
    assert!(matches!(
        filter_clause(&vec![2, -2], &vec![false, false], &vec![false, false]),
        Filtered::Satisfied
    ));
}

fn check_counters(s: &Search, clauses: &[Vec<i32>]) {
    for (j, c) in clauses.iter().enumerate() {
        let truth = c
            .iter()
            .filter(|&&l| {
                let v = (l.abs() - 1) as usize;
                if l > 0 { s.value(v) } else { !s.value(v) }
            })
            .count();
        assert_eq!(s.counter_of(j), truth);
        assert_eq!(s.is_violated(j), truth == 0);
    }
}

#[test]
fn counters_and_residual_follow_every_flip() {
    let clauses = vec![vec![1, 2, -3], vec![-1, 3], vec![2, 4], vec![-2, -4, 1], vec![3, -4]];
    let mut s = Search::new(clauses.clone(), vec![false, false, false, false]);
    check_counters(&s, &clauses);
    let mut rng = StdRng::seed_from_u64(5);
    for _ in 0..200 {
        let v = rng.gen_range(0..4);
        let before: Vec<usize> = (0..clauses.len()).map(|j| s.counter_of(j)).collect();
        s.flip(v);
        check_counters(&s, &clauses);
        for (j, c) in clauses.iter().enumerate() {
            let diff = s.counter_of(j) as i64 - before[j] as i64;
            assert!(diff.abs() <= 1);
            if !c.iter().any(|&l| (l.abs() - 1) as usize == v) {
                assert_eq!(diff, 0);
            }
        }
    }
}

#[test]
fn break_counts_match_definition() {
    let clauses = vec![vec![1, 2], vec![1, -3], vec![-1, 3]];
    let s = Search::new(clauses, vec![true, false, false]);
    assert_eq!(s.counter_of(0), 1);
    assert_eq!(s.counter_of(1), 2);
    assert_eq!(s.counter_of(2), 0);
    assert!(s.is_violated(2));
    assert_eq!(s.break_count(0), 1);
    assert_eq!(s.break_count(1), 0);
    assert_eq!(s.break_count(2), 0);
}

#[test]
fn search_stops_at_budget_on_unsatisfiable_core() {
    let clauses = vec![vec![1, 2], vec![1, -2], vec![-1, 2], vec![-1, -2]];
    let mut s = Search::new(clauses, vec![false, false]);
    let mut rng = StdRng::seed_from_u64(9);
    let policy = Policy { multiplier: 7, zero_break_shortcut: true };
    assert_eq!(s.run(&policy, &mut rng), (false, 14));
    let policy = Policy { multiplier: 7, zero_break_shortcut: false };
    assert_eq!(s.run(&policy, &mut rng), (false, 14));
    assert!(solve(&vec![vec![1, 2], vec![1, -2], vec![-1, 2], vec![-1, -2]], 2, 4, &policy).is_none());
}

#[test]
fn search_on_satisfied_start_makes_no_flip() {
    let mut s = Search::new(vec![vec![1, 2]], vec![true, false]);
    let mut rng = StdRng::seed_from_u64(0);
    let policy = Policy { multiplier: 25, zero_break_shortcut: false };
    assert_eq!(s.run(&policy, &mut rng), (true, 0));
}

#[test]
fn minimizers_lists_every_least_position() {
    assert_eq!(minimizers(&vec![3, 1, 4, 1, 5]), vec![1, 3]);
    assert_eq!(minimizers(&vec![0]), vec![0]);
    assert_eq!(minimizers(&vec![2, 2, 2]), vec![0, 1, 2]);
    assert_eq!(minimizers(&vec![9, 8, 7]), vec![2]);
}

#[test]
fn pick_position_in_range_and_shortcut_breaks_nothing() {
    let shortcut = Policy { multiplier: 35, zero_break_shortcut: true };
    let plain = Policy { multiplier: 25, zero_break_shortcut: false };
    let mut seen = [false; 4];
    for seed in 0..200u64 {
        let mut rng = StdRng::seed_from_u64(seed);
        let p = pick_position(&shortcut, &vec![2, 0, 3, 0], &mut rng);
        assert!(p == 1 || p == 3);
        let p = pick_position(&plain, &vec![2, 0, 3, 0], &mut rng);
        assert!(p < 4);
        seen[p] = true;
        let p = pick_position(&shortcut, &vec![4, 4, 1], &mut rng);
        assert!(p < 3);
    }
    assert!(seen.iter().all(|&b| b));
    let mut rng = StdRng::seed_from_u64(1);
    assert_eq!(pick_position(&shortcut, &vec![3, 0, 2], &mut rng), 1);
}

#[test]
fn seed_reads_first_eight_bytes_little_endian() {
    let mut b = [0u8; 32];
    b[0] = 1;
    b[1] = 2;
    b[7] = 0x80;
    b[8] = 0xff;
    assert_eq!(seed_value(&b), 0x8000_0000_0000_0201);
    let b = [0xffu8; 32];
    assert_eq!(seed_value(&b), u64::MAX);
}

#[test]
fn instance_check_rejects_bad_literals() {
    assert!(instance_ok(&vec![vec![1, -2], vec![2]], 2));
    assert!(!instance_ok(&vec![vec![1, 0]], 2));
    assert!(!instance_ok(&vec![vec![3]], 2));
    assert!(!instance_ok(&vec![vec![i32::MIN]], usize::MAX));
    assert!(instance_ok(&vec![], 0));
}

#[test]
fn draws_map_to_positions() {
    let shortcut = Policy { multiplier: 35, zero_break_shortcut: true };
    let plain = Policy { multiplier: 25, zero_break_shortcut: false };
    assert_eq!(position_from_draws(&shortcut, &vec![2, 0, 3, 0], &vec![1, 3], true, 1), 3);
    assert_eq!(position_from_draws(&shortcut, &vec![2, 0, 3, 0], &vec![1, 3], false, 0), 1);
    assert_eq!(position_from_draws(&plain, &vec![2, 0, 3, 0], &vec![1, 3], true, 2), 2);
    assert_eq!(position_from_draws(&plain, &vec![2, 0, 3, 0], &vec![1, 3], false, 1), 3);
    assert_eq!(position_from_draws(&shortcut, &vec![2, 1, 3], &vec![1], true, 0), 0);
    assert_eq!(position_from_draws(&shortcut, &vec![2, 1, 3], &vec![1], false, 0), 1);
}
