use std::collections::BTreeMap;

use quon_na::dialect::{
    check_bound_trap, verify_schedule_ordering, AtomEvent, ClaimError, LayerClaims, LayerFacts, OrderingError,
};
use quon_na::extract::{densify_interactions, dense_rank, RootNumbering};
use quon_na::geometry::{ordered_pair, SpeedModelKind};
use quon_na::graph::{cubic_edges, mark_critical_path, unique_undirected_edges, Interaction};
use quon_na::ids::{AodTrapRef, AtomBinding, AtomId, InteractionId, LogicalQubitId, SiteId, TrapBinding};
use quon_na::lower::{apply_transfers, basis_name, basis_str, lower_transfer, replay_occupancy, ScheduleLowerError};
use quon_na::movement::{
    collect_entangle2, free_interaction_pairs, gate_atom_set, layers_have_entangle, max_entangle2_width,
    pairs_to_vacate, AodGrid, InteractionPair, MovementLayerError,
};
use quon_na::pipeline::{NaBackendKind, NaObjective, NaScheduleOptions, StatePrepMode};
use quon_na::placement::PlacementStrategy;
use quon_na::plan::PlacerMode;
use quon_na::qec_schedule::{lattice_surgery_feedforward_deps, round_barrier_cuts};
use quon_na::compaction::{ScheduleDependency, ScheduleDependencyKind};
use quon_na::schedule::{
    AtomMove, MeasurementBasis, MovementGroup, NeutralAtomAction, ScheduleLayer, TransferDirection, TrapTransfer,
};

fn facts(cycle: u32, has_wait: bool, events: Vec<AtomEvent>) -> LayerFacts {
    LayerFacts { cycle, has_wait, events }
}

fn cz(a: u32, b: u32) -> NeutralAtomAction {
    NeutralAtomAction::Entangle2 { atoms: [AtomId(a), AtomId(b)], duration_us: 1 }
}

fn wait() -> NeutralAtomAction {
    NeutralAtomAction::Wait { duration_us: 1 }
}

fn measure(a: u32) -> NeutralAtomAction {
    NeutralAtomAction::Measure { atom: AtomId(a), basis: MeasurementBasis::Z, duration_us: 1 }
}

fn reset(a: u32) -> NeutralAtomAction {
    NeutralAtomAction::Reset { atom: AtomId(a), duration_us: 1 }
}

fn layer(cycle: u32, actions: Vec<NeutralAtomAction>) -> ScheduleLayer {
    ScheduleLayer { cycle, actions }
}

fn mv(atom: u32, from: u32, to: u32) -> NeutralAtomAction {
    NeutralAtomAction::Move(MovementGroup {
        moves: vec![AtomMove { atom: AtomId(atom), from: SiteId(from), to: SiteId(to) }],
        duration_us: 1,
    })
}

#[test]
fn ordering_accepts_measure_reset_reuse() {
    let layers = vec![
        facts(0, false, vec![AtomEvent::Measure(0)]),
        facts(1, false, vec![AtomEvent::Reset(0)]),
        facts(2, false, vec![AtomEvent::Use(0)]),
    ];
    assert_eq!(verify_schedule_ordering(&layers), Ok(()));
}

#[test]
fn ordering_rejects_each_violation() {
    let back = vec![facts(2, false, vec![]), facts(1, false, vec![])];
    assert_eq!(
        verify_schedule_ordering(&back),
        Err(OrderingError::NonMonotonicCycles { previous_cycle: 2, cycle: 1 })
    );
    let barrier = vec![facts(1, true, vec![]), facts(1, false, vec![])];
    assert_eq!(
        verify_schedule_ordering(&barrier),
        Err(OrderingError::RoundBarrierCycleOrder { wait_cycle: 1, after_cycle: 1 })
    );
    let reuse = vec![facts(0, false, vec![AtomEvent::Measure(3)]), facts(1, false, vec![AtomEvent::Use(3)])];
    assert_eq!(
        verify_schedule_ordering(&reuse),
        Err(OrderingError::MeasureReuseWithoutReset { atom: 3, measure_cycle: 0, reuse_cycle: 1 })
    );
    let same = vec![facts(0, false, vec![AtomEvent::Measure(3), AtomEvent::Use(3)])];
    assert_eq!(verify_schedule_ordering(&same), Err(OrderingError::MeasureUseSameCycle { cycle: 0, atom: 3 }));
    let reset_use = vec![facts(0, false, vec![AtomEvent::Reset(3), AtomEvent::Use(3)])];
    assert_eq!(verify_schedule_ordering(&reset_use), Err(OrderingError::ResetUseSameCycle { cycle: 0, atom: 3 }));
    let reset_then_measure = vec![facts(4, false, vec![AtomEvent::Reset(3), AtomEvent::Measure(3)])];
    assert_eq!(
        verify_schedule_ordering(&reset_then_measure),
        Err(OrderingError::ResetBeforeMeasure { atom: 3, reset_cycle: 4, measure_cycle: 4 })
    );
}

#[test]
fn bound_trap_must_match_binding() {
    let mut bindings = BTreeMap::new();
    bindings.insert(7u32, (0u32, 1u32, 2u32));
    assert_eq!(check_bound_trap(3, 7, (0, 1, 2), &bindings), Ok(()));
    assert_eq!(check_bound_trap(3, 8, (5, 5, 5), &bindings), Ok(()));
    assert_eq!(
        check_bound_trap(3, 7, (0, 2, 2), &bindings),
        Err(OrderingError::AodRefMismatch {
            cycle: 3,
            atom: 7,
            aod_id: 0,
            row: 2,
            col: 2,
            bound_aod_id: 0,
            bound_row: 1,
            bound_col: 2
        })
    );
}

#[test]
fn barrier_cuts_and_feed_forward_edges() {
    let layers = vec![
        layer(0, vec![cz(0, 1)]),
        layer(1, vec![measure(0)]),
        layer(2, vec![wait()]),
        layer(3, vec![cz(1, 2)]),
        layer(4, vec![reset(1)]),
        layer(5, vec![wait()]),
        layer(6, vec![measure(2)]),
    ];
    // Layer 4 resets right before a Wait, so only the Waits cut.
    assert_eq!(round_barrier_cuts(&layers), vec![(2, 3), (5, 6)]);
    assert_eq!(
        lattice_surgery_feedforward_deps(&layers),
        vec![ScheduleDependency { before: 1, after: 3, kind: ScheduleDependencyKind::FeedForward }]
    );
}

#[test]
fn critical_path_marks_longest_chain() {
    let gate = |id: u32, a: u32, b: u32| Interaction {
        id: InteractionId(id),
        qubits: vec![LogicalQubitId(a), LogicalQubitId(b)],
        gate_name: "CZ".into(),
        dag_layer: 0,
        on_critical_path: false,
    };
    // (0,1) -> (1,2) -> (2,3); (5,6) is independent.
    let mut gates = vec![gate(0, 0, 1), gate(1, 1, 2), gate(2, 2, 3), gate(3, 5, 6)];
    mark_critical_path(&mut gates);
    let layers: Vec<u32> = gates.iter().map(|g| g.dag_layer).collect();
    assert_eq!(layers, vec![0, 1, 2, 0]);
    let critical: Vec<bool> = gates.iter().map(|g| g.on_critical_path).collect();
    assert_eq!(critical, vec![true, true, true, false]);
}

#[test]
fn cubic_edges_give_three_regular_graph() {
    let edges = cubic_edges(6);
    assert_eq!(edges.len(), 9);
    let mut degree = [0usize; 6];
    for &(a, b) in &edges {
        assert!(a < b);
        degree[a] += 1;
        degree[b] += 1;
    }
    assert!(degree.iter().all(|&d| d == 3));
}

#[test]
fn unique_edges_drop_loops_duplicates_and_out_of_range() {
    let edges = unique_undirected_edges(4, &[(1, 0), (0, 1), (2, 2), (3, 9), (2, 3)]);
    assert_eq!(edges, vec![(0, 1), (2, 3)]);
}

#[test]
fn movement_helpers() {
    let l = layer(0, vec![cz(3, 1), cz(2, 0), measure(5)]);
    assert!(layers_have_entangle(&[l.clone()]));
    assert!(!layers_have_entangle(&[layer(0, vec![measure(1)])]));
    assert_eq!(max_entangle2_width(&[l.clone(), layer(1, vec![cz(0, 1)])]), 2);
    let pairs = collect_entangle2(&l).unwrap();
    assert_eq!(pairs, vec![(AtomId(3), AtomId(1)), (AtomId(2), AtomId(0))]);
    assert_eq!(gate_atom_set(&pairs), vec![AtomId(0), AtomId(1), AtomId(2), AtomId(3)]);
    let n_ary = layer(4, vec![NeutralAtomAction::EntangleN { atoms: vec![AtomId(0), AtomId(1), AtomId(2)], duration_us: 1 }]);
    assert_eq!(collect_entangle2(&n_ary), Err(MovementLayerError::UnsupportedEntangleArity { cycle: 4, k: 3 }));
    assert_eq!(ordered_pair(AtomId(5), AtomId(2)), (AtomId(2), AtomId(5)));
    assert_eq!(ordered_pair(AtomId(2), AtomId(5)), (AtomId(2), AtomId(5)));
}

#[test]
fn free_pairs_skip_occupied_sites() {
    let pairs = [
        InteractionPair { left: SiteId(0), right: SiteId(1) },
        InteractionPair { left: SiteId(2), right: SiteId(3) },
    ];
    let mut occ = BTreeMap::new();
    occ.insert(1u32, 9u32);
    assert_eq!(free_interaction_pairs(&pairs, &occ), vec![pairs[1]]);
    let mut grid = AodGrid { site_row_col: BTreeMap::new() };
    grid.site_row_col.insert(4, (1, 2));
    assert_eq!(grid.indices(SiteId(4)), Ok((1, 2)));
    assert_eq!(grid.indices(SiteId(5)), Err(MovementLayerError::MissingSite(SiteId(5))));
}

#[test]
fn lowering_helpers() {
    let aod = AodTrapRef { aod_id: 0, row: 1, col: 2 };
    let load = TrapTransfer { atom: AtomId(3), direction: TransferDirection::SlmToAod, site: SiteId(4), aod, duration_us: 9 };
    let spec = lower_transfer(&load);
    assert_eq!((spec.atom, spec.site, spec.aod_id, spec.row, spec.col, spec.duration_us), (3, 4, 0, 1, 2, 9));
    let mut bound = BTreeMap::new();
    apply_transfers(&layer(0, vec![NeutralAtomAction::Transfer(load)]), &mut bound);
    assert_eq!(bound.get(&3), Some(&aod));
    let store = TrapTransfer { direction: TransferDirection::AodToSlm, ..load };
    apply_transfers(&layer(1, vec![NeutralAtomAction::Transfer(store)]), &mut bound);
    assert!(bound.is_empty());
    assert_eq!(basis_name(MeasurementBasis::X), "x");
    assert_eq!(basis_str(MeasurementBasis::Z), "Z");
}

#[test]
fn replay_walks_moves_back_from_final_bindings() {
    let layers = vec![layer(0, vec![mv(0, 1, 2)]), layer(1, vec![mv(0, 2, 3)])];
    let fin = vec![AtomBinding { atom: AtomId(0), trap: TrapBinding::Slm { site: SiteId(3) } }];
    let occ = replay_occupancy(&layers, &fin).unwrap();
    assert_eq!(occ.len(), 2);
    assert_eq!(occ[1].get(&0), Some(&3));
    assert_eq!(occ[0].get(&0), Some(&2));
    let wrong = vec![AtomBinding { atom: AtomId(0), trap: TrapBinding::Slm { site: SiteId(5) } }];
    assert_eq!(
        replay_occupancy(&layers, &wrong).unwrap_err(),
        ScheduleLowerError::InconsistentMove { cycle: 1, atom: 0, to: 3, found: 5 }
    );
    assert_eq!(
        replay_occupancy(&layers, &Vec::new()).unwrap_err(),
        ScheduleLowerError::UnboundAtom { cycle: 1, atom: 0 }
    );
}

#[test]
fn root_numbering_is_first_appearance_order() {
    let mut numbering = RootNumbering::new();
    assert_eq!(numbering.id(0xdead), LogicalQubitId(0));
    assert_eq!(numbering.id(7), LogicalQubitId(1));
    assert_eq!(numbering.id(0xdead), LogicalQubitId(0));
    assert_eq!(numbering.id(3), LogicalQubitId(2));
}

#[test]
fn densify_renumbers_sorts_and_dedups() {
    let used = vec![LogicalQubitId(4), LogicalQubitId(9), LogicalQubitId(20)];
    assert_eq!(dense_rank(&used, LogicalQubitId(9)), Some(1));
    assert_eq!(dense_rank(&used, LogicalQubitId(5)), None);
    let mut interactions = vec![Interaction {
        id: InteractionId(0),
        qubits: vec![LogicalQubitId(20), LogicalQubitId(4), LogicalQubitId(20)],
        gate_name: "CCZ".into(),
        dag_layer: 2,
        on_critical_path: true,
    }];
    let dense = densify_interactions(&used, &mut interactions);
    assert_eq!(dense, vec![LogicalQubitId(0), LogicalQubitId(1), LogicalQubitId(2)]);
    assert_eq!(interactions[0].qubits, vec![LogicalQubitId(0), LogicalQubitId(2)]);
    assert_eq!(interactions[0].dag_layer, 2);
}

#[test]
fn pipeline_defaults() {
    let opts = NaScheduleOptions::default();
    assert_eq!(opts.backend, NaBackendKind::Zoned);
    assert_eq!(opts.placer, PlacerMode::RoutingAgnostic);
    assert!(opts.compact);
    assert_eq!(opts.placement, PlacementStrategy::RowMajor);
    assert!(!opts.dump_ir);
    assert_eq!(opts.state_prep, StatePrepMode::Heuristic);
    assert_eq!(opts.objective, NaObjective::Time);
    assert_eq!(SpeedModelKind::default(), SpeedModelKind::Sqrt);
}

#[test]
fn layer_claims_refuse_second_claims() {
    let mut claims = LayerClaims::new();
    assert_eq!(claims.claim_occupancy(2, 1, 10), Ok(()));
    assert_eq!(claims.claim_occupancy(2, 1, 11), Err(ClaimError::DuplicateOccupancyAtom { cycle: 2, atom: 1 }));
    assert_eq!(claims.claim_occupancy(2, 3, 10), Err(ClaimError::DuplicateOccupancySite { cycle: 2, site: 10 }));
    assert_eq!(claims.record_entangle(2, &vec![(4, 5), (6, 7)]), Ok(()));
    assert_eq!(
        claims.record_entangle(2, &vec![(8, 9), (9, 10)]),
        Err(ClaimError::DuplicateEntanglingAtom { cycle: 2, atom: 9 })
    );
    assert_eq!(
        claims.record_entangle(2, &vec![(4, 11)]),
        Err(ClaimError::DuplicateEntanglingAtom { cycle: 2, atom: 4 })
    );
}

#[test]
fn vacate_pairs_not_reused_next() {
    let pairs = [
        InteractionPair { left: SiteId(0), right: SiteId(1) },
        InteractionPair { left: SiteId(2), right: SiteId(3) },
        InteractionPair { left: SiteId(4), right: SiteId(5) },
        InteractionPair { left: SiteId(6), right: SiteId(7) },
    ];
    let mut occ = BTreeMap::new();
    // Pair 0 holds atoms 1, 2 (their gate comes next); pair 1 holds 3, 4
    // (neither needed); pair 2 holds 5, 6 (only 5 needed); pair 3 is half empty.
    occ.insert(0u32, 2u32);
    occ.insert(1, 1);
    occ.insert(2, 3);
    occ.insert(3, 4);
    occ.insert(4, 5);
    occ.insert(5, 6);
    occ.insert(6, 7);
    let next_atoms: std::collections::BTreeSet<u32> = [1u32, 2, 5, 9].into_iter().collect();
    let next_gates = vec![(AtomId(1), AtomId(2)), (AtomId(5), AtomId(9))];
    let vacate = pairs_to_vacate(&pairs, &occ, &next_atoms, &next_gates);
    assert_eq!(vacate, vec![pairs[1], pairs[2]]);
}

#[test]
fn critical_marking_is_idempotent_and_matches_segment_scheduling() {
    let gate = |id: u32, a: u32, b: u32| Interaction {
        id: InteractionId(id),
        qubits: vec![LogicalQubitId(a), LogicalQubitId(b)],
        gate_name: "CZ".into(),
        dag_layer: 0,
        on_critical_path: false,
    };
    let base = vec![gate(0, 0, 1), gate(1, 1, 2), gate(2, 4, 5), gate(3, 2, 4), gate(4, 7, 8)];
    let mut once = base.clone();
    mark_critical_path(&mut once);
    let mut twice = once.clone();
    mark_critical_path(&mut twice);
    let key = |v: &Vec<Interaction>| -> Vec<(u32, u32, bool)> {
        v.iter().map(|g| (g.id.0, g.dag_layer, g.on_critical_path)).collect()
    };
    assert_eq!(key(&once), key(&twice));
    let mut seg = base.clone();
    quon_na::graph::schedule_dependency_segment(&mut seg);
    assert_eq!(key(&once), key(&seg));
    assert_eq!(key(&once), vec![(0, 0, true), (1, 1, true), (2, 0, false), (3, 2, true), (4, 0, false)]);
    let mut empty: Vec<Interaction> = Vec::new();
    mark_critical_path(&mut empty);
    assert!(empty.is_empty());
}
