//! Structural validation of an interaction graph: distinct vertices and
//! interaction ids, canonical qubit lists over known vertices, ordered edges
//! between known vertices, and segments that cover every interaction exactly
//! once. Floating-point facts (the decay base and the edge weights) arrive as
//! booleans.

use vstd::prelude::*;

use crate::graph::{Interaction, InteractionSegment};
use crate::ids::{InteractionId, LogicalQubitId};

verus! {

/// The facts of an edge that validation reads: its endpoints, whether its
/// weight is finite and non-negative, and the interactions behind it.
#[derive(Clone, Debug)]
pub struct EdgeFacts {
    pub a: LogicalQubitId,
    pub b: LogicalQubitId,
    pub weight_ok: bool,
    pub interactions: Vec<InteractionId>,
}

/// Structural problems of an interaction graph.
#[derive(Clone, Copy, Debug, PartialEq, Eq, Structural)]
pub enum GraphError {
    /// The decay base is outside `(0, 1]`.
    InvalidGamma,
    /// A vertex is listed twice.
    DuplicateVertex(LogicalQubitId),
    /// Two interactions share an id.
    DuplicateInteraction(InteractionId),
    /// An interaction has fewer than two qubits.
    Arity(InteractionId),
    /// An interaction's qubits are not sorted and distinct.
    UncanonicalQubits(InteractionId),
    /// An interaction acts on a qubit that is not a vertex.
    UnknownQubit(InteractionId, LogicalQubitId),
    /// An edge joins a vertex to itself.
    SelfLoop(LogicalQubitId),
    /// An edge's endpoints are not in increasing order.
    UnorderedEdge(LogicalQubitId, LogicalQubitId),
    /// An edge has an endpoint that is not a vertex.
    UnknownEndpoint(LogicalQubitId, LogicalQubitId),
    /// The weight of edge number `.0` is not finite and non-negative.
    InvalidWeight(usize),
    /// An edge or segment names an unknown interaction.
    UnknownInteraction(InteractionId),
    /// An interaction is not in exactly one segment.
    UnpartitionedInteraction(InteractionId),
}

/// How often `id` occurs in `ids`.
pub open spec fn id_count(ids: Seq<InteractionId>, id: InteractionId) -> nat
    decreases ids.len(),
{
    if ids.len() == 0 {
        0
    } else {
        id_count(ids.drop_last(), id) + (if ids.last() == id { 1nat } else { 0nat })
    }
}

/// How often `id` occurs over all segments.
pub open spec fn segment_count(segments: Seq<InteractionSegment>, id: InteractionId) -> nat
    decreases segments.len(),
{
    if segments.len() == 0 {
        0
    } else {
        segment_count(segments.drop_last(), id) + id_count(segments.last().interactions@, id)
    }
}

/// Some vertex is `q`.
pub open spec fn is_vertex(vertices: Seq<LogicalQubitId>, q: LogicalQubitId) -> bool {
    vertices.contains(q)
}

/// Some interaction has id `id`.
pub open spec fn is_interaction(interactions: Seq<Interaction>, id: InteractionId) -> bool {
    exists|i: int| 0 <= i < interactions.len() && (#[trigger] interactions[i]).id == id
}

/// Qubits sorted strictly increasing (sorted and without duplicates).
pub open spec fn canonical_qubits(q: Seq<LogicalQubitId>) -> bool {
    forall|i: int, j: int| 0 <= i < j < q.len() ==> (#[trigger] q[i]).0 < (#[trigger] q[j]).0
}

/// One interaction is well formed over the vertices.
pub open spec fn interaction_ok(vertices: Seq<LogicalQubitId>, it: Interaction) -> bool {
    &&& it.qubits@.len() >= 2
    &&& canonical_qubits(it.qubits@)
    &&& forall|k: int| 0 <= k < it.qubits@.len() ==> is_vertex(vertices, #[trigger] it.qubits@[k])
}

/// One edge is well formed.
pub open spec fn edge_ok(vertices: Seq<LogicalQubitId>, interactions: Seq<Interaction>, e: EdgeFacts) -> bool {
    &&& e.a.0 < e.b.0
    &&& is_vertex(vertices, e.a)
    &&& is_vertex(vertices, e.b)
    &&& e.weight_ok
    &&& forall|k: int| 0 <= k < e.interactions@.len() ==> is_interaction(interactions, #[trigger] e.interactions@[k])
}

/// The structural invariants of an interaction graph.
pub open spec fn graph_valid(vertices: Seq<LogicalQubitId>, interactions: Seq<Interaction>, edges: Seq<EdgeFacts>,
    segments: Seq<InteractionSegment>, gamma_ok: bool) -> bool {
    &&& gamma_ok
    &&& vertices.no_duplicates()
    &&& forall|i: int, j: int| 0 <= i < j < interactions.len() ==> (#[trigger] interactions[i]).id != (#[trigger] interactions[j]).id
    &&& forall|i: int| 0 <= i < interactions.len() ==> interaction_ok(vertices, #[trigger] interactions[i])
    &&& forall|k: int| 0 <= k < edges.len() ==> edge_ok(vertices, interactions, #[trigger] edges[k])
    &&& forall|s: int, k: int| 0 <= s < segments.len() && 0 <= k < segments[s].interactions@.len()
        ==> is_interaction(interactions, #[trigger] segments[s].interactions@[k])
    &&& forall|i: int| 0 <= i < interactions.len() ==> segment_count(segments, (#[trigger] interactions[i]).id) == 1
}

fn vertex_known(vertices: &Vec<LogicalQubitId>, q: LogicalQubitId) -> (r: bool)
    ensures
        r == is_vertex(vertices@, q),
{
    let mut k: usize = 0;
    while k < vertices.len()
        invariant
            k <= vertices@.len(),
            forall|j: int| 0 <= j < k ==> vertices@[j] != q,
        decreases vertices.len() - k,
    {
        if vertices[k].0 == q.0 {
            proof {
                assert(vertices@[k as int] == q);
            }
            return true;
        }
        k += 1;
    }
    false
}

fn interaction_known(interactions: &Vec<Interaction>, id: InteractionId) -> (r: bool)
    ensures
        r == is_interaction(interactions@, id),
{
    let mut k: usize = 0;
    while k < interactions.len()
        invariant
            k <= interactions@.len(),
            forall|j: int| 0 <= j < k ==> (#[trigger] interactions@[j]).id != id,
        decreases interactions.len() - k,
    {
        if interactions[k].id.0 == id.0 {
            proof {
                assert(interactions@[k as int].id == id);
            }
            return true;
        }
        k += 1;
    }
    false
}

/// How often `id` occurs in `ids`, counting no further than 2.
fn count_capped(ids: &Vec<InteractionId>, id: InteractionId) -> (r: u32)
    ensures
        r == (if id_count(ids@, id) < 2 { id_count(ids@, id) } else { 2 }),
{
    let mut c: u32 = 0;
    let mut k: usize = 0;
    while k < ids.len()
        invariant
            k <= ids@.len(),
            c == (if id_count(ids@.take(k as int), id) < 2 { id_count(ids@.take(k as int), id) } else { 2 }),
        decreases ids.len() - k,
    {
        proof {
            assert(ids@.take(k + 1).drop_last() =~= ids@.take(k as int));
        }
        if ids[k].0 == id.0 && c < 2 {
            c += 1;
        }
        proof {
            if ids@[k as int] == id {
                assert(ids@[k as int].0 == id.0);
            }
        }
        k += 1;
    }
    proof {
        assert(ids@.take(ids@.len() as int) =~= ids@);
    }
    c
}

/// How often `id` occurs over the segments, counting no further than 2.
fn segment_count_capped(segments: &Vec<InteractionSegment>, id: InteractionId) -> (r: u32)
    ensures
        r == (if segment_count(segments@, id) < 2 { segment_count(segments@, id) } else { 2 }),
{
    let mut c: u32 = 0;
    let mut s: usize = 0;
    while s < segments.len()
        invariant
            s <= segments@.len(),
            c == (if segment_count(segments@.take(s as int), id) < 2 { segment_count(segments@.take(s as int), id) } else { 2 }),
        decreases segments.len() - s,
    {
        proof {
            assert(segments@.take(s + 1).drop_last() =~= segments@.take(s as int));
        }
        let here = count_capped(&segments[s].interactions, id);
        c = if c + here < 2 { c + here } else { 2 };
        s += 1;
    }
    proof {
        assert(segments@.take(segments@.len() as int) =~= segments@);
    }
    c
}

/// Check the structural invariants of an interaction graph, in this order:
/// the decay base, distinct vertices, each interaction (distinct id, at least
/// two qubits, canonical qubit list, known qubits), each edge (no loop,
/// ordered, known endpoints, valid weight, known interactions), each segment
/// entry (a known interaction), and that each interaction, by increasing id,
/// is in exactly one segment. The first violation is reported.
pub fn validate_graph(vertices: &Vec<LogicalQubitId>, interactions: &Vec<Interaction>, edges: &Vec<EdgeFacts>,
    segments: &Vec<InteractionSegment>, gamma_ok: bool) -> (r: Result<(), GraphError>)
    ensures
        r is Ok <==> graph_valid(vertices@, interactions@, edges@, segments@, gamma_ok),
        r == Err::<(), GraphError>(GraphError::InvalidGamma) <==> !gamma_ok,
        r matches Err(GraphError::DuplicateVertex(v)) ==> exists|i: int, j: int| 0 <= i < j < vertices@.len()
            && vertices@[i] == v && vertices@[j] == v,
        r matches Err(GraphError::UnpartitionedInteraction(id)) ==> is_interaction(interactions@, id)
            && segment_count(segments@, id) != 1,
{
    if !gamma_ok {
        return Err(GraphError::InvalidGamma);
    }
    // Distinct vertices.
    let mut v: usize = 0;
    while v < vertices.len()
        invariant
            gamma_ok,
            v <= vertices@.len(),
            forall|i: int, j: int| 0 <= i < j < v ==> vertices@[i] != vertices@[j],
        decreases vertices.len() - v,
    {
        let mut w: usize = 0;
        while w < v
            invariant
                gamma_ok,
                w <= v < vertices@.len(),
                forall|i: int| 0 <= i < w ==> vertices@[i] != vertices@[v as int],
            decreases v - w,
        {
            if vertices[w].0 == vertices[v].0 {
                proof {
                    assert(vertices@[w as int] == vertices@[v as int]);
                    assert(!vertices@.no_duplicates());
                }
                return Err(GraphError::DuplicateVertex(vertices[v]));
            }
            w += 1;
        }
        v += 1;
    }
    // Interactions.
    let mut i: usize = 0;
    while i < interactions.len()
        invariant
            gamma_ok,
            i <= interactions@.len(),
            vertices@.no_duplicates(),
            forall|a: int, b: int| 0 <= a < b < i ==> (#[trigger] interactions@[a]).id != (#[trigger] interactions@[b]).id,
            forall|a: int| 0 <= a < i ==> interaction_ok(vertices@, #[trigger] interactions@[a]),
        decreases interactions.len() - i,
    {
        let it = &interactions[i];
        let mut j: usize = 0;
        while j < i
            invariant
                gamma_ok,
                j <= i < interactions@.len(),
                *it == interactions@[i as int],
                forall|a: int| 0 <= a < j ==> (#[trigger] interactions@[a]).id != it.id,
            decreases i - j,
        {
            if interactions[j].id.0 == it.id.0 {
                proof {
                    assert(interactions@[j as int].id == interactions@[i as int].id);
                }
                return Err(GraphError::DuplicateInteraction(it.id));
            }
            j += 1;
        }
        let q = &it.qubits;
        if q.len() < 2 {
            return Err(GraphError::Arity(it.id));
        }
        let mut k: usize = 1;
        while k < q.len()
            invariant
                gamma_ok,
                i < interactions@.len(),
                q@ == interactions@[i as int].qubits@,
                1 <= k <= q@.len(),
                forall|a: int, b: int| 0 <= a < b < k ==> (#[trigger] q@[a]).0 < (#[trigger] q@[b]).0,
            decreases q.len() - k,
        {
            if q[k - 1].0 >= q[k].0 {
                proof {
                    assert(!canonical_qubits(q@)) by {
                        assert(!(q@[k - 1].0 < q@[k as int].0));
                    }
                    assert(!interaction_ok(vertices@, interactions@[i as int]));
                }
                return Err(GraphError::UncanonicalQubits(it.id));
            }
            proof {
                assert forall|a: int, b: int| 0 <= a < b < k + 1 implies (#[trigger] q@[a]).0 < (#[trigger] q@[b]).0 by {
                    if b == k && a < k - 1 {
                        assert(q@[a].0 < q@[k - 1].0);
                    }
                }
            }
            k += 1;
        }
        let mut k: usize = 0;
        while k < q.len()
            invariant
                gamma_ok,
                i < interactions@.len(),
                q@ == interactions@[i as int].qubits@,
                k <= q@.len(),
                forall|a: int| 0 <= a < k ==> is_vertex(vertices@, #[trigger] q@[a]),
            decreases q.len() - k,
        {
            if !vertex_known(vertices, q[k]) {
                proof {
                    assert(!is_vertex(vertices@, q@[k as int]));
                    assert(!interaction_ok(vertices@, interactions@[i as int]));
                }
                return Err(GraphError::UnknownQubit(it.id, q[k]));
            }
            k += 1;
        }
        i += 1;
    }
    // Edges.
    let mut e: usize = 0;
    while e < edges.len()
        invariant
            gamma_ok,
            e <= edges@.len(),
            vertices@.no_duplicates(),
            forall|a: int, b: int| 0 <= a < b < interactions@.len() ==> (#[trigger] interactions@[a]).id != (#[trigger] interactions@[b]).id,
            forall|a: int| 0 <= a < interactions@.len() ==> interaction_ok(vertices@, #[trigger] interactions@[a]),
            forall|k: int| 0 <= k < e ==> edge_ok(vertices@, interactions@, #[trigger] edges@[k]),
        decreases edges.len() - e,
    {
        let ed = &edges[e];
        if ed.a.0 == ed.b.0 {
            return Err(GraphError::SelfLoop(ed.a));
        }
        if ed.a.0 >= ed.b.0 {
            return Err(GraphError::UnorderedEdge(ed.a, ed.b));
        }
        if !vertex_known(vertices, ed.a) || !vertex_known(vertices, ed.b) {
            return Err(GraphError::UnknownEndpoint(ed.a, ed.b));
        }
        if !ed.weight_ok {
            return Err(GraphError::InvalidWeight(e));
        }
        let mut k: usize = 0;
        while k < ed.interactions.len()
            invariant
                gamma_ok,
                e < edges@.len(),
                *ed == edges@[e as int],
                k <= ed.interactions@.len(),
                forall|a: int| 0 <= a < k ==> is_interaction(interactions@, #[trigger] ed.interactions@[a]),
            decreases ed.interactions.len() - k,
        {
            if !interaction_known(interactions, ed.interactions[k]) {
                proof {
                    assert(!edge_ok(vertices@, interactions@, edges@[e as int]));
                }
                return Err(GraphError::UnknownInteraction(ed.interactions[k]));
            }
            k += 1;
        }
        e += 1;
    }
    // Segment entries name known interactions.
    let mut s: usize = 0;
    while s < segments.len()
        invariant
            gamma_ok,
            s <= segments@.len(),
            forall|t: int, k: int| 0 <= t < s && 0 <= k < segments@[t].interactions@.len()
                ==> is_interaction(interactions@, #[trigger] segments@[t].interactions@[k]),
        decreases segments.len() - s,
    {
        let ids = &segments[s].interactions;
        let mut k: usize = 0;
        while k < ids.len()
            invariant
                gamma_ok,
                s < segments@.len(),
                *ids == segments@[s as int].interactions,
                k <= ids@.len(),
                forall|t: int, k2: int| 0 <= t < s && 0 <= k2 < segments@[t].interactions@.len()
                    ==> is_interaction(interactions@, #[trigger] segments@[t].interactions@[k2]),
                forall|a: int| 0 <= a < k ==> is_interaction(interactions@, #[trigger] ids@[a]),
            decreases ids.len() - k,
        {
            if !interaction_known(interactions, ids[k]) {
                return Err(GraphError::UnknownInteraction(ids[k]));
            }
            k += 1;
        }
        s += 1;
    }
    // Each interaction in exactly one segment; report the smallest id that is not.
    let mut worst: Option<InteractionId> = None;
    let mut i: usize = 0;
    while i < interactions.len()
        invariant
            gamma_ok,
            i <= interactions@.len(),
            worst is None <==> forall|a: int| 0 <= a < i ==> segment_count(segments@, (#[trigger] interactions@[a]).id) == 1,
            worst matches Some(id) ==> is_interaction(interactions@, id) && segment_count(segments@, id) != 1,
        decreases interactions.len() - i,
    {
        let id = interactions[i].id;
        if segment_count_capped(segments, id) != 1 {
            worst = match worst {
                Some(w) => if id.0 < w.0 { Some(id) } else { Some(w) },
                None => Some(id),
            };
            proof {
                assert(interactions@[i as int].id == id);
            }
        }
        i += 1;
    }
    match worst {
        Some(id) => Err(GraphError::UnpartitionedInteraction(id)),
        None => Ok(()),
    }
}

} // verus!
