use std::collections::BTreeSet;

use quon_na::exact::{
    conflict_adjacency, greedy_colouring, next_permutation, schedule_exact, CzGate, ExactError,
    ExactStatePrepParams, KColourResult, ScheduleOptimality, SolverOutcome, StageColouringSolver,
};
use quon_na::ids::AtomId;
use quon_na::schedule::NeutralAtomAction;

/// Exhaustive backtracking colouring: answers exactly, never gives up.
struct Backtracking;

fn colour_from(adj: &[(usize, usize)], k: usize, v: usize, n: usize, colours: &mut Vec<i64>) -> bool {
    if v == n {
        return true;
    }
    for c in 0..k as i64 {
        let clash = adj
            .iter()
            .any(|&(i, j)| (j == v && i < v && colours[i] == c) || (i == v && j < v && colours[j] == c));
        if !clash {
            colours[v] = c;
            if colour_from(adj, k, v + 1, n, colours) {
                return true;
            }
        }
    }
    false
}

impl StageColouringSolver for Backtracking {
    fn try_k_colouring(&mut self, gates: &[CzGate], adj: &[(usize, usize)], k: usize, _timeout_ms: u64) -> KColourResult {
        let mut colours = vec![0i64; gates.len()];
        if colour_from(adj, k, 0, gates.len(), &mut colours) {
            KColourResult::Sat(colours)
        } else {
            KColourResult::Unsat
        }
    }
}

/// A solver that always gives up.
struct GivesUp;

impl StageColouringSolver for GivesUp {
    fn try_k_colouring(&mut self, _: &[CzGate], _: &[(usize, usize)], _: usize, _: u64) -> KColourResult {
        KColourResult::Unknown
    }
}

/// A solver that answers with a colouring that ignores the conflicts.
struct Careless;

impl StageColouringSolver for Careless {
    fn try_k_colouring(&mut self, gates: &[CzGate], _: &[(usize, usize)], _: usize, _: u64) -> KColourResult {
        KColourResult::Sat(vec![0; gates.len()])
    }
}

fn gate(a: u32, b: u32) -> CzGate {
    CzGate { a: AtomId(a), b: AtomId(b) }
}

fn params() -> ExactStatePrepParams {
    ExactStatePrepParams::default()
}

#[test]
fn steane_code_prep_solves_optimally() {
    // Steane [[7,1,3]] code logical-zero prep: 7 qubits, 9 CZs.
    let gates = vec![
        gate(0, 1),
        gate(0, 2),
        gate(0, 3),
        gate(1, 4),
        gate(1, 5),
        gate(2, 4),
        gate(2, 6),
        gate(3, 5),
        gate(3, 6),
    ];
    let result = schedule_exact(&gates, params(), &mut Backtracking).unwrap();
    assert_eq!(result.outcome, SolverOutcome::Proven);
    assert_eq!(result.stage_count, 3, "Steane prep should schedule in 3 stages, got {}", result.stage_count);
    for layer in &result.layers {
        let mut atoms = BTreeSet::new();
        for action in &layer.actions {
            if let NeutralAtomAction::Entangle2 { atoms: [a, b], .. } = action {
                assert!(atoms.insert(*a), "atom {:?} in two gates same stage", a);
                assert!(atoms.insert(*b), "atom {:?} in two gates same stage", b);
            }
        }
    }
}

#[test]
fn empty_gate_list() {
    let result = schedule_exact(&[], params(), &mut Backtracking).unwrap();
    assert_eq!(result.stage_count, 0);
    assert!(result.layers.is_empty());
}

#[test]
fn single_gate_one_stage() {
    let result = schedule_exact(&[gate(0, 1)], params(), &mut Backtracking).unwrap();
    assert_eq!(result.stage_count, 1);
    assert_eq!(result.layers.len(), 1);
}

#[test]
fn chain_gates_need_2_stages() {
    let result = schedule_exact(&[gate(0, 1), gate(1, 2), gate(2, 3)], params(), &mut Backtracking).unwrap();
    assert_eq!(result.stage_count, 2);
}

#[test]
fn triangle_of_gates_needs_three_stages_searching_upward() {
    // Three gates pairwise sharing an atom: start k = 2 is refused, 3 works.
    let result = schedule_exact(&[gate(0, 1), gate(1, 2), gate(0, 2)], params(), &mut Backtracking).unwrap();
    assert_eq!(result.stage_count, 3);
    assert_eq!(result.outcome, SolverOutcome::Proven);
    assert_eq!(result.layers.len(), 3);
    let cycles: Vec<u32> = result.layers.iter().map(|l| l.cycle).collect();
    assert_eq!(cycles, vec![0, 1, 2]);
}

#[test]
fn giving_up_falls_back_to_greedy_and_reports_timeout() {
    let gates = vec![gate(0, 1), gate(1, 2), gate(2, 3)];
    let result = schedule_exact(&gates, params(), &mut GivesUp).unwrap();
    assert_eq!(result.outcome, SolverOutcome::Timeout);
    // Greedy colouring of the path of conflicts: 0, 1, 0.
    assert_eq!(result.stage_count, 2);
    assert_eq!(result.layers.len(), 2);
    assert_eq!(result.layers[0].actions.len(), 2);
    assert_eq!(result.layers[1].actions.len(), 1);
}

#[test]
fn an_improper_answer_counts_as_giving_up() {
    let gates = vec![gate(0, 1), gate(1, 2)];
    let result = schedule_exact(&gates, params(), &mut Careless).unwrap();
    assert_eq!(result.outcome, SolverOutcome::Timeout);
    assert_eq!(result.stage_count, 2);
}

/// A solver that refuses every stage count.
struct Refuses;

impl StageColouringSolver for Refuses {
    fn try_k_colouring(&mut self, _: &[CzGate], _: &[(usize, usize)], _: usize, _: u64) -> KColourResult {
        KColourResult::Unsat
    }
}

#[test]
fn no_colouring_error_when_every_count_is_refused() {
    let r = schedule_exact(&[gate(0, 1)], params(), &mut Refuses);
    assert!(matches!(r, Err(ExactError::NoColouring)));
}

#[test]
fn conflict_adjacency_lists_sharing_pairs_in_order() {
    let adj = conflict_adjacency(&[gate(0, 1), gate(2, 3), gate(1, 2), gate(4, 5)]);
    assert_eq!(adj, vec![(0, 2), (1, 2)]);
}

#[test]
fn greedy_colouring_takes_least_free_colour() {
    let gates = [gate(0, 1), gate(1, 2), gate(0, 2), gate(3, 4)];
    let adj = conflict_adjacency(&gates);
    assert_eq!(greedy_colouring(&gates, &adj), vec![0, 1, 2, 0]);
}

#[test]
fn next_permutation_walks_lexicographic_order() {
    let mut v = vec![0usize, 1, 2];
    let mut seen = vec![v.clone()];
    while next_permutation(&mut v) {
        seen.push(v.clone());
    }
    assert_eq!(
        seen,
        vec![vec![0, 1, 2], vec![0, 2, 1], vec![1, 0, 2], vec![1, 2, 0], vec![2, 0, 1], vec![2, 1, 0]]
    );
    // The last permutation is left as it is.
    assert_eq!(v, vec![2, 1, 0]);
}

#[test]
fn solver_outcome_maps_to_optimality() {
    assert_eq!(SolverOutcome::Proven.to_schedule_optimality(), ScheduleOptimality::Exact);
    assert_eq!(SolverOutcome::Timeout.to_schedule_optimality(), ScheduleOptimality::Heuristic);
    assert_eq!(SolverOutcome::default(), SolverOutcome::Proven);
    assert_eq!(ExactStatePrepParams::default().timeout_ms, 5000);
}
