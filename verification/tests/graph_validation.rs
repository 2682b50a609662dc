use quon_na::graph::{Interaction, InteractionSegment, SegmentKind};
use quon_na::graph_check::{validate_graph, EdgeFacts, GraphError};
use quon_na::ids::{InteractionId, LogicalQubitId};

fn q(i: u32) -> LogicalQubitId {
    LogicalQubitId(i)
}

fn cz(id: u32, a: u32, b: u32) -> Interaction {
    Interaction { id: InteractionId(id), qubits: vec![q(a), q(b)], gate_name: "CZ".into(), dag_layer: 0, on_critical_path: false }
}

fn edge(a: u32, b: u32, ids: &[u32]) -> EdgeFacts {
    EdgeFacts { a: q(a), b: q(b), weight_ok: true, interactions: ids.iter().map(|&i| InteractionId(i)).collect() }
}

fn seg(ids: &[u32]) -> InteractionSegment {
    InteractionSegment { kind: SegmentKind::CommutationGroup, interactions: ids.iter().map(|&i| InteractionId(i)).collect() }
}

#[test]
fn valid_graph_passes() {
    let vertices = vec![q(0), q(1), q(2)];
    let interactions = vec![cz(0, 0, 1), cz(1, 1, 2)];
    let edges = vec![edge(0, 1, &[0]), edge(1, 2, &[1])];
    assert_eq!(validate_graph(&vertices, &interactions, &edges, &vec![seg(&[0, 1])], true), Ok(()));
}

#[test]
fn each_violation_is_reported() {
    let vertices = vec![q(0), q(1), q(2)];
    let interactions = vec![cz(0, 0, 1), cz(1, 1, 2)];
    let edges = vec![edge(0, 1, &[0])];
    let segs = vec![seg(&[0, 1])];
    assert_eq!(validate_graph(&vertices, &interactions, &edges, &segs, false), Err(GraphError::InvalidGamma));
    assert_eq!(
        validate_graph(&vec![q(0), q(1), q(0)], &interactions, &edges, &segs, true),
        Err(GraphError::DuplicateVertex(q(0)))
    );
    assert_eq!(
        validate_graph(&vertices, &vec![cz(0, 0, 1), cz(0, 1, 2)], &edges, &segs, true),
        Err(GraphError::DuplicateInteraction(InteractionId(0)))
    );
    assert_eq!(
        validate_graph(&vertices, &vec![cz(0, 1, 0)], &edges, &vec![seg(&[0])], true),
        Err(GraphError::UncanonicalQubits(InteractionId(0)))
    );
    assert_eq!(
        validate_graph(&vertices, &vec![cz(0, 0, 7)], &edges, &vec![seg(&[0])], true),
        Err(GraphError::UnknownQubit(InteractionId(0), q(7)))
    );
    let single = Interaction { qubits: vec![q(0)], ..cz(0, 0, 1) };
    assert_eq!(validate_graph(&vertices, &vec![single], &edges, &segs, true), Err(GraphError::Arity(InteractionId(0))));
    assert_eq!(
        validate_graph(&vertices, &interactions, &vec![edge(1, 1, &[])], &segs, true),
        Err(GraphError::SelfLoop(q(1)))
    );
    assert_eq!(
        validate_graph(&vertices, &interactions, &vec![edge(2, 1, &[])], &segs, true),
        Err(GraphError::UnorderedEdge(q(2), q(1)))
    );
    assert_eq!(
        validate_graph(&vertices, &interactions, &vec![edge(1, 9, &[])], &segs, true),
        Err(GraphError::UnknownEndpoint(q(1), q(9)))
    );
    let heavy = EdgeFacts { weight_ok: false, ..edge(0, 1, &[0]) };
    assert_eq!(validate_graph(&vertices, &interactions, &vec![heavy], &segs, true), Err(GraphError::InvalidWeight(0)));
    assert_eq!(
        validate_graph(&vertices, &interactions, &vec![edge(0, 1, &[5])], &segs, true),
        Err(GraphError::UnknownInteraction(InteractionId(5)))
    );
    assert_eq!(
        validate_graph(&vertices, &interactions, &edges, &vec![seg(&[0, 1, 4])], true),
        Err(GraphError::UnknownInteraction(InteractionId(4)))
    );
    assert_eq!(
        validate_graph(&vertices, &interactions, &edges, &vec![seg(&[1]), seg(&[1])], true),
        Err(GraphError::UnpartitionedInteraction(InteractionId(0)))
    );
}
