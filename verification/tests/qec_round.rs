use quon_na::ids::{AtomId, InteractionId, LogicalQubitId};
use quon_na::qec_schedule::{
    append_local_gate_layers, append_terminal_layers, cnots_to_interactions, concat_round_layers, map_basis,
    round_segment, split_round_cnots, LogicalBasis, PhysicalCnot, QecScheduleError, RoundTerminal,
};
use quon_na::graph::SegmentKind;
use quon_na::schedule::{MeasurementBasis, NeutralAtomAction, ScheduleLayer};

#[test]
fn terminal_layers_measure_then_reset() {
    let mut layers = vec![ScheduleLayer { cycle: 4, actions: vec![NeutralAtomAction::Wait { duration_us: 1 }] }];
    let terminal = vec![
        RoundTerminal::Reset { atom: 2 },
        RoundTerminal::Measure { atom: 1, basis: LogicalBasis::X },
        RoundTerminal::Measure { atom: 3, basis: LogicalBasis::Z },
    ];
    append_terminal_layers(&mut layers, &terminal);
    assert_eq!(layers.len(), 3);
    assert_eq!(layers[1].cycle, 5);
    assert_eq!(layers[1].actions.len(), 2);
    assert!(matches!(
        layers[1].actions[0],
        NeutralAtomAction::Measure { atom: AtomId(1), basis: MeasurementBasis::X, duration_us: 1 }
    ));
    assert_eq!(layers[2].cycle, 6);
    assert!(matches!(layers[2].actions[0], NeutralAtomAction::Reset { atom: AtomId(2), duration_us: 1 }));
}

#[test]
fn terminal_layers_on_empty_schedule_start_at_zero() {
    let mut layers = Vec::new();
    append_terminal_layers(&mut layers, &vec![RoundTerminal::Reset { atom: 0 }]);
    assert_eq!(layers.len(), 1);
    assert_eq!(layers[0].cycle, 0);
    append_terminal_layers(&mut layers, &Vec::new());
    assert_eq!(layers.len(), 1);
}

#[test]
fn local_gate_layer_follows_last_cycle() {
    let mut layers = vec![ScheduleLayer { cycle: 2, actions: Vec::new() }];
    append_local_gate_layers(&mut layers, &vec![5, 6]);
    assert_eq!(layers.len(), 2);
    assert_eq!(layers[1].cycle, 3);
    assert_eq!(layers[1].actions.len(), 2);
    append_local_gate_layers(&mut layers, &Vec::new());
    assert_eq!(layers.len(), 2);
}

#[test]
fn cnots_become_sorted_pair_interactions() {
    let mut next = 10u32;
    let (its, ids) = cnots_to_interactions(
        &vec![PhysicalCnot { control: 7, target: 3 }, PhysicalCnot { control: 1, target: 2 }],
        &mut next,
    )
    .unwrap();
    assert_eq!(next, 12);
    assert_eq!(ids, vec![InteractionId(10), InteractionId(11)]);
    assert_eq!(its[0].qubits, vec![LogicalQubitId(3), LogicalQubitId(7)]);
    assert_eq!(its[1].qubits, vec![LogicalQubitId(1), LogicalQubitId(2)]);
    assert_eq!(its[0].gate_name, "cx");
    assert_eq!(its[1].dag_layer, 0);
}

#[test]
fn cnot_ids_past_the_maximum_are_refused() {
    let mut next = u32::MAX;
    let r = cnots_to_interactions(&vec![PhysicalCnot { control: 0, target: 1 }], &mut next);
    assert_eq!(r.unwrap_err(), QecScheduleError::InteractionIdOverflow);
    let mut next = u32::MAX - 1;
    assert!(cnots_to_interactions(&vec![PhysicalCnot { control: 0, target: 1 }], &mut next).is_ok());
    assert_eq!(next, u32::MAX);
}

#[test]
fn logical_basis_maps_to_measurement_basis() {
    assert_eq!(map_basis(LogicalBasis::X), MeasurementBasis::X);
    assert_eq!(map_basis(LogicalBasis::Z), MeasurementBasis::Z);
}

#[test]
fn round_cnots_split_into_z_then_x_phase() {
    let cnots = vec![
        PhysicalCnot { control: 0, target: 1 },
        PhysicalCnot { control: 2, target: 3 },
        PhysicalCnot { control: 4, target: 5 },
    ];
    let (z, x) = split_round_cnots(&cnots, 2).unwrap();
    assert_eq!(z, vec![cnots[0], cnots[1]]);
    assert_eq!(x, vec![cnots[2]]);
    let (z, x) = split_round_cnots(&cnots, 3).unwrap();
    assert_eq!(z.len(), 3);
    assert!(x.is_empty());
    assert_eq!(
        split_round_cnots(&cnots, 4),
        Err(QecScheduleError::InvalidZCnotCount { z_cnot_count: 4, entangling_len: 3 })
    );
}

#[test]
fn round_segment_only_for_rounds_with_cnots() {
    assert!(round_segment(Vec::new()).is_none());
    let seg = round_segment(vec![InteractionId(3), InteractionId(4)]).unwrap();
    assert_eq!(seg.kind, SegmentKind::CommutationGroup);
    assert_eq!(seg.interactions, vec![InteractionId(3), InteractionId(4)]);
}

#[test]
fn rounds_join_with_wait_barriers_and_renumbered_cycles() {
    let first = vec![
        ScheduleLayer { cycle: 7, actions: vec![NeutralAtomAction::Reset { atom: AtomId(0), duration_us: 1 }] },
        ScheduleLayer { cycle: 8, actions: vec![NeutralAtomAction::Reset { atom: AtomId(1), duration_us: 1 }] },
    ];
    let second = vec![ScheduleLayer { cycle: 0, actions: vec![NeutralAtomAction::Reset { atom: AtomId(2), duration_us: 1 }] }];
    let out = concat_round_layers(vec![(first, true), (Vec::new(), false), (second, false), (Vec::new(), true)]);
    assert_eq!(out.len(), 5);
    for (i, l) in out.iter().enumerate() {
        assert_eq!(l.cycle, i as u32);
        assert_eq!(l.actions.len(), 1);
    }
    assert!(matches!(out[0].actions[0], NeutralAtomAction::Reset { atom: AtomId(0), .. }));
    assert!(matches!(out[1].actions[0], NeutralAtomAction::Reset { atom: AtomId(1), .. }));
    assert!(matches!(out[2].actions[0], NeutralAtomAction::Wait { duration_us: 1 }));
    assert!(matches!(out[3].actions[0], NeutralAtomAction::Reset { atom: AtomId(2), .. }));
    assert!(matches!(out[4].actions[0], NeutralAtomAction::Wait { duration_us: 1 }));
    assert!(concat_round_layers(Vec::new()).is_empty());
}
