use std::collections::BTreeMap;

use quon_na::ids::InteractionId;
use quon_na::ids::AtomId;
use quon_na::pipeline::{
    interleave_local_gates, push_global_ry_with_refocus, AnchoredGate, NaPipelineError, SpliceSlot, NEG_PI_BITS, PI_BITS,
};
use quon_na::schedule::{LocalGateKind, NeutralAtomAction};

#[test]
fn interleave_local_gates_errors_on_unresolved_anchor() {
    let gates = vec![AnchoredGate { after: Some(InteractionId(999)), steps: 1 }];
    let interaction_cycle = BTreeMap::new();
    let result = interleave_local_gates(&Vec::new(), &interaction_cycle, &gates);
    assert!(matches!(
        result,
        Err(NaPipelineError::LocalGateAnchorMissing { interaction: InteractionId(999) })
    ));
}

#[test]
fn first_unresolved_anchor_is_reported() {
    let mut interaction_cycle = BTreeMap::new();
    interaction_cycle.insert(1u32, 0u32);
    let gates = vec![
        AnchoredGate { after: Some(InteractionId(1)), steps: 1 },
        AnchoredGate { after: Some(InteractionId(7)), steps: 1 },
        AnchoredGate { after: Some(InteractionId(8)), steps: 1 },
    ];
    assert_eq!(
        interleave_local_gates(&vec![0], &interaction_cycle, &gates),
        Err(NaPipelineError::LocalGateAnchorMissing { interaction: InteractionId(7) })
    );
}

#[test]
fn local_gates_follow_their_anchor_layer() {
    // Interactions 10 and 11 ran in cycle 0, interaction 12 in cycle 1.
    let mut interaction_cycle = BTreeMap::new();
    interaction_cycle.insert(10u32, 0u32);
    interaction_cycle.insert(11u32, 0u32);
    interaction_cycle.insert(12u32, 1u32);
    let gates = vec![
        AnchoredGate { after: Some(InteractionId(12)), steps: 1 },
        AnchoredGate { after: None, steps: 2 },
        AnchoredGate { after: Some(InteractionId(10)), steps: 1 },
        AnchoredGate { after: Some(InteractionId(11)), steps: 0 },
    ];
    let slots = interleave_local_gates(&vec![0, 1], &interaction_cycle, &gates).unwrap();
    assert_eq!(
        slots,
        vec![
            SpliceSlot::Step { gate: 1, op: 0 },
            SpliceSlot::Step { gate: 1, op: 1 },
            SpliceSlot::Layer(0),
            SpliceSlot::Step { gate: 2, op: 0 },
            SpliceSlot::Layer(1),
            SpliceSlot::Step { gate: 0, op: 0 },
        ]
    );
}

#[test]
fn repeated_cycle_takes_its_gates_once() {
    let mut interaction_cycle = BTreeMap::new();
    interaction_cycle.insert(0u32, 3u32);
    let gates = vec![AnchoredGate { after: Some(InteractionId(0)), steps: 1 }];
    let slots = interleave_local_gates(&vec![3, 3], &interaction_cycle, &gates).unwrap();
    assert_eq!(slots, vec![SpliceSlot::Layer(0), SpliceSlot::Step { gate: 0, op: 0 }, SpliceSlot::Layer(1)]);
}

#[test]
fn gates_on_unknown_cycles_come_last_by_cycle() {
    let mut interaction_cycle = BTreeMap::new();
    interaction_cycle.insert(0u32, 9u32);
    interaction_cycle.insert(1u32, 5u32);
    interaction_cycle.insert(2u32, 9u32);
    let gates = vec![
        AnchoredGate { after: Some(InteractionId(0)), steps: 1 },
        AnchoredGate { after: Some(InteractionId(1)), steps: 1 },
        AnchoredGate { after: Some(InteractionId(2)), steps: 1 },
    ];
    let slots = interleave_local_gates(&vec![0], &interaction_cycle, &gates).unwrap();
    assert_eq!(
        slots,
        vec![
            SpliceSlot::Layer(0),
            SpliceSlot::Step { gate: 1, op: 0 },
            SpliceSlot::Step { gate: 0, op: 0 },
            SpliceSlot::Step { gate: 2, op: 0 },
        ]
    );
}

fn rz_target(action: &NeutralAtomAction) -> Option<(u32, u64)> {
    match action {
        NeutralAtomAction::LocalGate { atom, gate: LocalGateKind::Rz(angle), .. } => Some((atom.0, *angle)),
        _ => None,
    }
}

fn global_ry_angle(action: &NeutralAtomAction) -> Option<u64> {
    match action {
        NeutralAtomAction::GlobalRy { theta_rad, duration_us } => {
            assert_eq!(*duration_us, 7);
            Some(*theta_rad)
        }
        _ => None,
    }
}

#[test]
fn lone_atom_takes_one_plain_global_ry() {
    let theta = 1.5f64.to_bits();
    let half = 0.75f64.to_bits();
    let mut bucket: Vec<NeutralAtomAction> = Vec::new();
    push_global_ry_with_refocus(&mut bucket, AtomId(0), theta, half, &vec![AtomId(0)], 7);
    assert_eq!(bucket.len(), 1);
    assert_eq!(global_ry_angle(&bucket[0]), Some(theta));
}

#[test]
fn bystanders_are_refocused_around_split_global_ry() {
    let theta = 1.5f64.to_bits();
    let half = 0.75f64.to_bits();
    let pi = std::f64::consts::PI.to_bits();
    let neg_pi = (-std::f64::consts::PI).to_bits();
    assert_eq!(PI_BITS, pi);
    assert_eq!(NEG_PI_BITS, neg_pi);
    let mut bucket: Vec<NeutralAtomAction> = Vec::new();
    let atoms = vec![AtomId(0), AtomId(1), AtomId(2)];
    push_global_ry_with_refocus(&mut bucket, AtomId(1), theta, half, &atoms, 7);
    assert_eq!(bucket.len(), 6);
    assert_eq!(global_ry_angle(&bucket[0]), Some(half));
    assert_eq!(rz_target(&bucket[1]), Some((0, pi)));
    assert_eq!(rz_target(&bucket[2]), Some((2, pi)));
    assert_eq!(global_ry_angle(&bucket[3]), Some(half));
    assert_eq!(rz_target(&bucket[4]), Some((0, neg_pi)));
    assert_eq!(rz_target(&bucket[5]), Some((2, neg_pi)));
}
