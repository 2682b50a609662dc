use std::collections::BTreeSet;

use quon_na::entangling_schedule::{
    capacity_layer_count, color_commutation_group, count_entangling_actions, misra_gries_color,
    schedule_entangling_layers, EntanglingScheduleError,
};
use quon_na::graph::{
    commutation_interactions, commutation_segments, cubic_edges, schedule_dependency_segment, Interaction,
    InteractionSegment, SegmentKind,
};
use quon_na::ids::{InteractionId, LogicalQubitId};
use quon_na::schedule::{NeutralAtomAction, ScheduleLayer};

fn pair(id: u32, a: u32, b: u32) -> Interaction {
    let mut qubits = vec![LogicalQubitId(a), LogicalQubitId(b)];
    qubits.sort();
    Interaction {
        id: InteractionId(id),
        qubits,
        gate_name: "CZ".into(),
        dag_layer: 0,
        on_critical_path: false,
    }
}

fn commutation(interactions: &[Interaction]) -> Vec<InteractionSegment> {
    vec![InteractionSegment {
        kind: SegmentKind::CommutationGroup,
        interactions: interactions.iter().map(|i| i.id).collect(),
    }]
}

fn cubic(n: usize) -> (Vec<Interaction>, Vec<InteractionSegment>) {
    let edges: Vec<(u32, u32)> = cubic_edges(n).iter().map(|&(a, b)| (a as u32, b as u32)).collect();
    let interactions = commutation_interactions(&edges);
    let segments = commutation_segments(edges.len() as u32);
    (interactions, segments)
}

fn assert_conflict_free(layer: &ScheduleLayer) {
    let mut atoms = BTreeSet::new();
    for action in &layer.actions {
        if let NeutralAtomAction::Entangle2 { atoms: [a, b], .. } = action {
            assert!(atoms.insert(*a), "atom {a:?} twice");
            assert!(atoms.insert(*b), "atom {b:?} twice");
        }
    }
}

#[test]
fn capacity_layer_count_ceil_divides() {
    assert_eq!(capacity_layer_count(0, 5), 0);
    assert_eq!(capacity_layer_count(1, 5), 1);
    assert_eq!(capacity_layer_count(5, 5), 1);
    assert_eq!(capacity_layer_count(6, 5), 2);
    assert_eq!(capacity_layer_count(10, 3), 4);
}

#[test]
fn path_of_three_edges_at_most_delta_plus_one() {
    let interactions = vec![pair(0, 0, 1), pair(1, 1, 2), pair(2, 2, 3)];
    let segments = commutation(&interactions);
    let result = schedule_entangling_layers(&interactions, &segments, 340).expect("schedule");
    assert!(result.misra_gries_applied);
    assert!(result.max_degree <= 2);
    assert!(result.layers.len() <= (result.max_degree as usize) + 1);
    for layer in &result.layers {
        assert_conflict_free(layer);
    }
}

#[test]
fn cubic_n12_at_most_four_layers_pre_capacity() {
    let (interactions, segments) = cubic(12);
    let result = schedule_entangling_layers(&interactions, &segments, 340).expect("schedule");
    assert_eq!(result.max_degree, 3);
    assert!(result.misra_gries_applied);
    assert!(result.layers.len() <= 4, "got {} layers", result.layers.len());
    for layer in &result.layers {
        assert_conflict_free(layer);
    }
}

#[test]
fn cubic_n8_validate_conflicts() {
    let (interactions, segments) = cubic(8);
    let result = schedule_entangling_layers(&interactions, &segments, 340).expect("schedule");
    for layer in &result.layers {
        assert_conflict_free(layer);
    }
}

#[test]
fn capacity_one_splits_matching() {
    let interactions = vec![pair(0, 0, 1), pair(1, 2, 3), pair(2, 4, 5)];
    let segments = commutation(&interactions);
    let result = schedule_entangling_layers(&interactions, &segments, 1).expect("schedule");
    assert_eq!(result.layers.len(), 3);
    assert_eq!(capacity_layer_count(3, 1), 3);
    let capacity: u32 = 1;
    for layer in &result.layers {
        let entangling_pairs = count_entangling_actions(&layer.actions);
        assert_eq!(entangling_pairs, 1);
        assert_eq!(capacity, 1);
        let utilization = f64::from(entangling_pairs) / f64::from(capacity);
        assert!((utilization - 1.0).abs() < 1e-9);
    }
}

#[test]
fn dependency_dag_asap_not_edge_color() {
    let mut interactions = vec![pair(0, 0, 1), pair(1, 1, 2), pair(2, 2, 3)];
    schedule_dependency_segment(&mut interactions);
    let segments = vec![InteractionSegment {
        kind: SegmentKind::DependencyDag,
        interactions: interactions.iter().map(|i| i.id).collect(),
    }];
    let result = schedule_entangling_layers(&interactions, &segments, 340).expect("schedule");
    assert!(!result.misra_gries_applied);
    assert_eq!(result.layers.len(), 3);
}

#[test]
fn graph_only_preserves_absent_layout() {
    let (interactions, segments) = cubic(6);
    let result = schedule_entangling_layers(&interactions, &segments, 340).expect("schedule");
    assert!(!result.layers.is_empty());
}

#[test]
fn rejects_zero_capacity() {
    let (interactions, segments) = cubic(4);
    assert!(matches!(
        schedule_entangling_layers(&interactions, &segments, 0),
        Err(EntanglingScheduleError::InvalidCapacity(0))
    ));
}

#[test]
fn rejects_multi_qubit_in_commutation_group() {
    let interactions = vec![Interaction {
        id: InteractionId(0),
        qubits: vec![LogicalQubitId(0), LogicalQubitId(1), LogicalQubitId(2)],
        gate_name: "CCZ".into(),
        dag_layer: 0,
        on_critical_path: false,
    }];
    let segments = commutation(&interactions);
    assert!(matches!(
        schedule_entangling_layers(&interactions, &segments, 10),
        Err(EntanglingScheduleError::MultiQubitCommutation(_))
    ));
}

#[test]
fn misra_gries_respects_delta_plus_one_on_complete_graph() {
    let mut interactions = Vec::new();
    let mut id = 0u32;
    for a in 0..4 {
        for b in (a + 1)..4 {
            interactions.push(pair(id, a, b));
            id += 1;
        }
    }
    let segments = commutation(&interactions);
    let result = schedule_entangling_layers(&interactions, &segments, 340).expect("schedule");
    assert_eq!(result.max_degree, 3);
    assert!(result.layers.len() <= 4);
}

#[test]
fn duplicate_pair_is_refused() {
    let interactions = vec![pair(0, 0, 1), pair(1, 1, 0)];
    let segments = commutation(&interactions);
    assert_eq!(
        schedule_entangling_layers(&interactions, &segments, 10).unwrap_err(),
        EntanglingScheduleError::DuplicatePair(LogicalQubitId(0), LogicalQubitId(1))
    );
}

#[test]
fn unknown_interaction_is_refused() {
    let interactions = vec![pair(0, 0, 1)];
    let segments = vec![InteractionSegment { kind: SegmentKind::DependencyDag, interactions: vec![InteractionId(7)] }];
    assert_eq!(
        schedule_entangling_layers(&interactions, &segments, 10).unwrap_err(),
        EntanglingScheduleError::UnknownInteraction(InteractionId(7))
    );
}

#[test]
fn cycles_are_consecutive_and_record_each_interaction() {
    let interactions = vec![pair(0, 0, 1), pair(1, 1, 2)];
    let segments = commutation(&interactions);
    let result = schedule_entangling_layers(&interactions, &segments, 10).expect("schedule");
    assert_eq!(result.layers.len(), 2);
    assert_eq!(result.layers[0].cycle, 0);
    assert_eq!(result.layers[1].cycle, 1);
    assert_eq!(result.interaction_cycle.len(), 2);
    assert_ne!(result.interaction_cycle[&0], result.interaction_cycle[&1]);
}

#[test]
fn misra_gries_colours_a_star_with_delta_colours() {
    // Star with three leaves: Δ = 3, every edge its own colour.
    let edges = vec![(0usize, 1usize, InteractionId(0)), (0, 2, InteractionId(1)), (0, 3, InteractionId(2))];
    let (colors, delta) = misra_gries_color(4, &edges).expect("colouring");
    assert_eq!(delta, 3);
    let distinct: BTreeSet<u32> = colors.iter().copied().collect();
    assert_eq!(distinct.len(), 3);
    assert!(colors.iter().all(|&c| c <= delta));
    let (none, zero) = misra_gries_color(0, &Vec::new()).expect("empty");
    assert!(none.is_empty());
    assert_eq!(zero, 0);
}

#[test]
fn every_interaction_is_scheduled_exactly_once() {
    let (interactions, segments) = cubic(10);
    let result = schedule_entangling_layers(&interactions, &segments, 2).expect("schedule");
    let mut seen = Vec::new();
    for layer in &result.layers {
        assert!(layer.actions.len() <= 2);
        for action in &layer.actions {
            if let NeutralAtomAction::Entangle2 { atoms: [a, b], .. } = action {
                seen.push((a.0, b.0));
            }
        }
    }
    let mut expected: Vec<(u32, u32)> = interactions.iter().map(|i| (i.qubits[0].0, i.qubits[1].0)).collect();
    seen.sort();
    expected.sort();
    assert_eq!(seen, expected);
}

#[test]
fn colour_classes_are_id_sorted_matchings() {
    // A 5-cycle with a chord, ids deliberately out of order.
    let all = vec![pair(9, 0, 1), pair(3, 1, 2), pair(7, 2, 3), pair(1, 3, 4), pair(5, 4, 0), pair(2, 0, 2)];
    let group: Vec<usize> = (0..all.len()).collect();
    let (classes, delta) = color_commutation_group(&all, &group).unwrap();
    assert_eq!(delta, 3);
    let mut seen: Vec<usize> = classes.iter().flatten().copied().collect();
    seen.sort();
    assert_eq!(seen, group);
    for class in &classes {
        assert!(!class.is_empty());
        for w in class.windows(2) {
            assert!(all[w[0]].id.0 <= all[w[1]].id.0);
        }
        let mut qubits = BTreeSet::new();
        for &i in class {
            for q in &all[i].qubits {
                assert!(qubits.insert(q.0), "qubit {} used twice in one class", q.0);
            }
        }
    }
}

#[test]
fn interaction_cycle_names_the_layer_of_each_interaction() {
    let interactions = vec![pair(10, 0, 1), pair(11, 1, 2), pair(12, 2, 3), pair(13, 0, 3)];
    let segments = commutation(&interactions);
    let result = schedule_entangling_layers(&interactions, &segments, 1).expect("schedule");
    assert_eq!(result.interaction_cycle.len(), 4);
    for layer in &result.layers {
        for action in &layer.actions {
            if let NeutralAtomAction::Entangle2 { atoms: [a, b], .. } = action {
                let it = interactions
                    .iter()
                    .find(|i| {
                        let (x, y) = (i.qubits[0].0, i.qubits[1].0);
                        (x == a.0 && y == b.0) || (x == b.0 && y == a.0)
                    })
                    .expect("interaction of the action");
                assert_eq!(result.interaction_cycle[&it.id.0], layer.cycle);
            }
        }
    }
    assert_eq!(result.max_degree, 2);
}

#[test]
fn commutation_classes_at_most_delta_plus_one_on_k4() {
    let all = vec![pair(0, 0, 1), pair(1, 0, 2), pair(2, 0, 3), pair(3, 1, 2), pair(4, 1, 3), pair(5, 2, 3)];
    let group: Vec<usize> = (0..all.len()).collect();
    let (classes, delta) = color_commutation_group(&all, &group).expect("colouring");
    assert_eq!(delta, 3);
    assert!(classes.len() <= delta as usize + 1);
    assert_eq!(classes.iter().map(|c| c.len()).sum::<usize>(), 6);
}

#[test]
fn commutation_member_with_three_qubits_is_refused_first() {
    let mut three = pair(7, 0, 1);
    three.qubits.push(LogicalQubitId(5));
    let all = vec![pair(0, 2, 3), three, pair(1, 2, 3)];
    let group: Vec<usize> = vec![0, 1, 2];
    match color_commutation_group(&all, &group) {
        Err(EntanglingScheduleError::MultiQubitCommutation(id)) => assert_eq!(id, InteractionId(7)),
        other => panic!("unexpected {other:?}"),
    }
}
