use quon_na::compaction::{
    asap_schedule_layers, compact_schedule, feed_forward_dependencies, force_merge_layers,
    infer_atom_dependencies, CompactionError, CompactionOptions, ScheduleDependency, ScheduleDependencyKind,
};
use quon_na::ids::AtomId;
use quon_na::schedule::{MeasurementBasis, NeutralAtomAction, ScheduleLayer};

fn cz(a: u32, b: u32) -> NeutralAtomAction {
    NeutralAtomAction::Entangle2 { atoms: [AtomId(a), AtomId(b)], duration_us: 1 }
}

fn layer(cycle: u32, actions: Vec<NeutralAtomAction>) -> ScheduleLayer {
    ScheduleLayer { cycle, actions }
}

/// L0 = CZ(0,1), L1 = CZ(2,3), L2 = CZ(1,2): L2 depends on both.
fn three_layers() -> Vec<ScheduleLayer> {
    vec![layer(0, vec![cz(0, 1)]), layer(1, vec![cz(2, 3)]), layer(2, vec![cz(1, 2)])]
}

fn greedy() -> CompactionOptions {
    CompactionOptions { greedy: true }
}

#[test]
fn infers_last_use_hazards() {
    let deps = infer_atom_dependencies(&three_layers());
    assert_eq!(deps.len(), 2);
    assert!(deps.iter().all(|d| d.kind == ScheduleDependencyKind::AtomHazard));
    assert!(deps.iter().any(|d| d.before == 0 && d.after == 2));
    assert!(deps.iter().any(|d| d.before == 1 && d.after == 2));
}

#[test]
fn feed_forward_edges_from_the_measurement() {
    let deps = feed_forward_dependencies(3, &[5, 7]);
    assert_eq!(
        deps,
        vec![
            ScheduleDependency { before: 3, after: 5, kind: ScheduleDependencyKind::FeedForward },
            ScheduleDependency { before: 3, after: 7, kind: ScheduleDependencyKind::FeedForward },
        ]
    );
}

#[test]
fn asap_gives_each_layer_its_own_cycle() {
    let res = asap_schedule_layers(three_layers(), &[]).unwrap();
    let cycles: Vec<u32> = res.layers.iter().map(|l| l.cycle).collect();
    assert_eq!(cycles, vec![0, 1, 2]);
    assert_eq!(res.lineage, vec![vec![0], vec![1], vec![2]]);
    assert_eq!(res.asap_makespan_cycles, 3);
    assert_eq!(res.compacted_makespan_cycles, 3);
    assert!(!res.compacted);
    assert_eq!(res.critical_path.makespan_cycles, 3);
    assert_eq!(res.critical_path.critical_path_length, 2);
}

#[test]
fn greedy_merges_disjoint_entangles() {
    let res = compact_schedule(three_layers(), &[], &greedy()).unwrap();
    assert!(res.compacted);
    assert_eq!(res.asap_makespan_cycles, 3);
    assert_eq!(res.compacted_makespan_cycles, 2);
    assert_eq!(res.layers.len(), 2);
    assert_eq!(res.layers[0].actions.len(), 2);
    assert_eq!(res.lineage[0], vec![0, 1]);
    assert_eq!(res.lineage[1], vec![2]);
    let cycles: Vec<u32> = res.layers.iter().map(|l| l.cycle).collect();
    assert_eq!(cycles, vec![0, 1]);
}

#[test]
fn without_greedy_compaction_is_asap() {
    let res = compact_schedule(three_layers(), &[], &CompactionOptions::default()).unwrap();
    assert!(!res.compacted);
    assert_eq!(res.layers.len(), 3);
    assert_eq!(res.compacted_makespan_cycles, 3);
}

#[test]
fn measurement_layers_are_never_merged() {
    let layers = vec![
        layer(0, vec![cz(0, 1)]),
        layer(1, vec![NeutralAtomAction::Measure { atom: AtomId(5), basis: MeasurementBasis::Z, duration_us: 1 }]),
    ];
    let res = compact_schedule(layers, &[], &greedy()).unwrap();
    assert!(!res.compacted);
    assert_eq!(res.layers.len(), 2);
}

#[test]
fn empty_schedule_is_refused() {
    assert_eq!(compact_schedule(Vec::new(), &[], &greedy()).unwrap_err(), CompactionError::EmptySchedule);
    assert_eq!(asap_schedule_layers(Vec::new(), &[]).unwrap_err(), CompactionError::EmptySchedule);
}

#[test]
fn out_of_range_dependency_is_refused() {
    let dep = ScheduleDependency { before: 0, after: 9, kind: ScheduleDependencyKind::Barrier };
    assert_eq!(
        compact_schedule(three_layers(), &[dep], &greedy()).unwrap_err(),
        CompactionError::InvalidDependency(0, 9)
    );
    let self_edge = ScheduleDependency { before: 1, after: 1, kind: ScheduleDependencyKind::Measurement };
    assert_eq!(
        asap_schedule_layers(three_layers(), &[self_edge]).unwrap_err(),
        CompactionError::InvalidDependency(1, 1)
    );
}

#[test]
fn conflicting_input_layer_is_reported() {
    let layers = vec![layer(0, vec![cz(0, 1), cz(1, 2)])];
    assert_eq!(compact_schedule(layers, &[], &greedy()).unwrap_err(), CompactionError::Conflict(0, 1));
}

#[test]
fn feed_forward_keeps_layers_apart() {
    let ff = ScheduleDependency { before: 0, after: 1, kind: ScheduleDependencyKind::FeedForward };
    let layers = vec![layer(0, vec![cz(0, 1)]), layer(1, vec![cz(2, 3)])];
    let res = compact_schedule(layers, &[ff], &greedy()).unwrap();
    assert!(!res.compacted);
    assert_eq!(res.layers.len(), 2);
}

#[test]
fn forced_merge_of_dependent_layers_is_refused() {
    let r = force_merge_layers(three_layers(), &[], 0, 2, &greedy());
    assert!(r.is_err());
    let ok = force_merge_layers(three_layers(), &[], 0, 1, &greedy()).unwrap();
    assert_eq!(ok.layers.len(), 2);
}

fn wait_between_pairs() -> Vec<ScheduleLayer> {
    vec![
        layer(0, vec![cz(0, 1)]),
        layer(1, vec![NeutralAtomAction::Wait { duration_us: 1 }]),
        layer(2, vec![cz(2, 3)]),
    ]
}

#[test]
fn round_barriers_constrain_compaction() {
    let syn_cuts = quon_na::qec_schedule::round_barrier_cuts(&wait_between_pairs());
    assert_eq!(syn_cuts, vec![(1, 2)]);
    let without = compact_schedule(wait_between_pairs(), &[], &greedy()).expect("without cuts");
    assert_eq!(without.layers.len(), 2, "without Wait cuts, atom-disjoint E2∥E2 across Wait must merge");
    assert!(without.compacted);
    assert_eq!(without.asap_makespan_cycles, 3);
    assert_eq!(without.compacted_makespan_cycles, 2);
    let with_deps: Vec<ScheduleDependency> = syn_cuts
        .iter()
        .map(|&(before, after)| ScheduleDependency { before, after, kind: ScheduleDependencyKind::Barrier })
        .collect();
    let with = compact_schedule(wait_between_pairs(), &with_deps, &greedy()).expect("with cuts");
    assert_eq!(with.layers.len(), 3, "with Wait cuts, cross-Wait E2∥E2 must not merge");
}

#[test]
fn merged_layer_holds_its_inputs_actions() {
    let res = compact_schedule(wait_between_pairs(), &[], &greedy()).expect("compact");
    let total: usize = res.layers.iter().map(|l| l.actions.len()).sum();
    assert_eq!(total, 3);
    for (k, l) in res.layers.iter().enumerate() {
        assert_eq!(l.cycle, k as u32);
        let inputs: usize = res.lineage[k].iter().map(|&x| wait_between_pairs()[x as usize].actions.len()).sum();
        assert_eq!(l.actions.len(), inputs);
    }
}

#[test]
fn qec_compaction_keeps_round_cuts() {
    let res = quon_na::qec_schedule::compact_qec_schedule(wait_between_pairs(), 1).expect("compact");
    assert_eq!(res.layers.len(), 3);
    let no_cut = vec![layer(0, vec![cz(0, 1)]), layer(1, vec![cz(2, 3)])];
    assert!(matches!(
        quon_na::qec_schedule::compact_qec_schedule(no_cut.clone(), 1),
        Err(CompactionError::MissingBarrierCuts)
    ));
    let merged = quon_na::qec_schedule::compact_qec_schedule(no_cut, 0).expect("no barrier rounds");
    assert_eq!(merged.layers.len(), 1);
}
