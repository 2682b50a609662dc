use quon_na::ids::{AtomId, SiteId};
use quon_na::movement::{pack_legs_greedy, select_duals_sortis, DualSlot, InteractionPair, LegSlot};

fn no_conflicts(n: usize) -> Vec<Vec<bool>> {
    vec![vec![false; n]; n]
}

#[test]
fn legs_of_one_dual_never_share_a_step() {
    let legs = vec![
        LegSlot { row: 0, col: 0, dual_id: 7 },
        LegSlot { row: 1, col: 1, dual_id: 7 },
        LegSlot { row: 2, col: 2, dual_id: 8 },
    ];
    assert_eq!(pack_legs_greedy(&legs, &no_conflicts(3), 10, 10), vec![0, 2]);
}

#[test]
fn legs_without_a_dual_are_not_deduplicated() {
    let legs = vec![
        LegSlot { row: 0, col: 0, dual_id: u64::MAX },
        LegSlot { row: 1, col: 1, dual_id: u64::MAX },
    ];
    assert_eq!(pack_legs_greedy(&legs, &no_conflicts(2), 10, 10), vec![0, 1]);
}

#[test]
fn conflicting_leg_waits_for_a_later_step() {
    let legs = vec![
        LegSlot { row: 0, col: 0, dual_id: 1 },
        LegSlot { row: 1, col: 1, dual_id: 2 },
        LegSlot { row: 2, col: 2, dual_id: 3 },
    ];
    let mut conflicts = no_conflicts(3);
    conflicts[0][1] = true;
    conflicts[1][0] = true;
    assert_eq!(pack_legs_greedy(&legs, &conflicts, 10, 10), vec![0, 2]);
}

#[test]
fn aod_row_and_column_capacity_is_respected() {
    let legs = vec![
        LegSlot { row: 0, col: 0, dual_id: 1 },
        LegSlot { row: 0, col: 1, dual_id: 2 },
        LegSlot { row: 1, col: 0, dual_id: 3 },
        LegSlot { row: 0, col: 2, dual_id: 4 },
    ];
    // One AOD row, two columns: legs 0 and 1 fit; leg 2 needs a second row,
    // leg 3 a third column.
    assert_eq!(pack_legs_greedy(&legs, &no_conflicts(4), 1, 2), vec![0, 1]);
    assert!(pack_legs_greedy(&legs, &no_conflicts(4), 0, 5).is_empty());
}

fn dual(distance_key: u64, gate: (u32, u32), pair: (u32, u32), dests: Vec<u32>) -> DualSlot {
    DualSlot {
        distance_key,
        gate_lhs: AtomId(gate.0),
        gate_rhs: AtomId(gate.1),
        pair: InteractionPair { left: SiteId(pair.0), right: SiteId(pair.1) },
        dests: dests.into_iter().map(SiteId).collect(),
    }
}

#[test]
fn longest_dual_of_each_gate_wins() {
    let duals = vec![
        dual(10, (0, 1), (100, 101), vec![100, 101]),
        dual(30, (1, 0), (102, 103), vec![103, 102]),
        dual(20, (2, 3), (100, 101), vec![100, 101]),
    ];
    // Longest first: dual 1 takes gate {0,1}; dual 2 takes pair 100/101;
    // dual 0 serves a gate already served.
    assert_eq!(select_duals_sortis(&duals), vec![1, 2]);
}

#[test]
fn ties_break_by_gate_then_pair_then_position() {
    let duals = vec![
        dual(5, (4, 5), (10, 11), vec![10, 11]),
        dual(5, (2, 9), (12, 13), vec![12, 13]),
        dual(5, (2, 9), (8, 9), vec![8, 9]),
        dual(5, (6, 7), (14, 15), vec![14, 15]),
    ];
    // Gate (2,9) sorts first; of its two duals the one on pair left 8 wins.
    assert_eq!(select_duals_sortis(&duals), vec![2, 0, 3]);
}

#[test]
fn destination_on_a_taken_pair_blocks_the_dual() {
    let duals = vec![
        dual(9, (0, 1), (20, 21), vec![20, 21]),
        dual(8, (2, 3), (22, 23), vec![22, 20]),
    ];
    assert_eq!(select_duals_sortis(&duals), vec![0]);
    assert!(select_duals_sortis(&Vec::new()).is_empty());
}
