//! QEC round helpers: the barrier cuts and lattice-surgery feed-forward
//! edges of a hybrid schedule (which layer pairs compaction must keep apart),
//! the terminal and local-gate layers of a round, and its CNOT interactions.

use vstd::prelude::*;

use crate::compaction::{
    CompactionError, CompactionOptions, CompactionResult, ScheduleDependency, ScheduleDependencyKind, actions_from_inputs,
    compact_schedule, compaction_result_ok, feed_forward_dependencies, infer_atom_dependencies, is_hazard, layer_legal,
    merged_deps_of,
};
use crate::graph::{Interaction, InteractionSegment, SegmentKind};
use crate::ids::{AtomId, InteractionId, LogicalQubitId};
use crate::schedule::{LocalGateKind, MeasurementBasis, NeutralAtomAction, ScheduleLayer};

verus! {

/// Properties of a layer that the barrier and feed-forward scans look for.
#[derive(Clone, Copy, Debug, PartialEq, Eq, Structural)]
pub enum LayerProbe {
    /// Has a `Wait`.
    Wait,
    /// Has a `Reset`.
    Reset,
    /// Has a `Measure`.
    Measure,
    /// Has an entangle or a `Measure`.
    Active,
    /// Has an entangle, a `Measure` or a `LocalGate`.
    FeedForwardTarget,
}

/// The action is of the kind the probe looks for.
pub open spec fn action_matches(probe: LayerProbe, a: NeutralAtomAction) -> bool {
    match probe {
        LayerProbe::Wait => a is Wait,
        LayerProbe::Reset => a is Reset,
        LayerProbe::Measure => a is Measure,
        LayerProbe::Active => a is Entangle2 || a is EntangleN || a is Measure,
        LayerProbe::FeedForwardTarget => a is Entangle2 || a is EntangleN || a is Measure || a is LocalGate,
    }
}

/// Some action of the layer matches `probe`.
pub open spec fn layer_matches(probe: LayerProbe, l: ScheduleLayer) -> bool {
    exists|k: int| 0 <= k < l.actions@.len() && action_matches(probe, #[trigger] l.actions@[k])
}

/// `j` is the first layer at or after `start` that matches `probe`.
pub open spec fn first_match_from(layers: Seq<ScheduleLayer>, probe: LayerProbe, start: int, j: int) -> bool {
    &&& start <= j < layers.len()
    &&& layer_matches(probe, layers[j])
    &&& forall|k: int| start <= k < j ==> !layer_matches(probe, #[trigger] layers[k])
}

/// Whether some action of `layer` matches `probe`.
pub fn probe_layer(layer: &ScheduleLayer, probe: LayerProbe) -> (b: bool)
    ensures
        b == layer_matches(probe, *layer),
{
    let mut k: usize = 0;
    while k < layer.actions.len()
        invariant
            k <= layer.actions@.len(),
            forall|q: int| 0 <= q < k ==> !action_matches(probe, #[trigger] layer.actions@[q]),
        decreases layer.actions.len() - k,
    {
        let hit = match (probe, &layer.actions[k]) {
            (LayerProbe::Wait, NeutralAtomAction::Wait { .. }) => true,
            (LayerProbe::Reset, NeutralAtomAction::Reset { .. }) => true,
            (LayerProbe::Measure, NeutralAtomAction::Measure { .. }) => true,
            (LayerProbe::Active, NeutralAtomAction::Entangle2 { .. }) => true,
            (LayerProbe::Active, NeutralAtomAction::EntangleN { .. }) => true,
            (LayerProbe::Active, NeutralAtomAction::Measure { .. }) => true,
            (LayerProbe::FeedForwardTarget, NeutralAtomAction::Entangle2 { .. }) => true,
            (LayerProbe::FeedForwardTarget, NeutralAtomAction::EntangleN { .. }) => true,
            (LayerProbe::FeedForwardTarget, NeutralAtomAction::Measure { .. }) => true,
            (LayerProbe::FeedForwardTarget, NeutralAtomAction::LocalGate { .. }) => true,
            _ => false,
        };
        if hit {
            return true;
        }
        k += 1;
    }
    false
}

/// The first layer at or after `start` that matches `probe`.
pub fn next_matching(layers: &[ScheduleLayer], start: usize, probe: LayerProbe) -> (r: Option<usize>)
    ensures
        match r {
            Some(j) => first_match_from(layers@, probe, start as int, j as int),
            None => forall|k: int| start <= k < layers@.len() ==> !layer_matches(probe, #[trigger] layers@[k]),
        },
{
    let mut j: usize = start;
    while j < layers.len()
        invariant
            start <= j,
            forall|k: int| start <= k < j ==> !layer_matches(probe, #[trigger] layers@[k]),
        decreases layers.len() - j,
    {
        if probe_layer(&layers[j], probe) {
            return Some(j);
        }
        j += 1;
    }
    None
}

/// Layer `i` opens a round barrier: it waits, or it resets and the next
/// layer does not wait (the wait would open the barrier itself).
pub open spec fn barrier_source(layers: Seq<ScheduleLayer>, i: int) -> bool {
    let w = layer_matches(LayerProbe::Wait, layers[i]);
    let r = layer_matches(LayerProbe::Reset, layers[i]);
    &&& w || r
    &&& !(r && !w && i + 1 < layers.len() && layer_matches(LayerProbe::Wait, layers[i + 1]))
}

/// Barrier cuts `(i, j)`: from each round-barrier layer `i` (a wait, or a
/// reset not followed by a wait) to the first later layer `j` that entangles
/// or measures. Cuts come in increasing order of `i`.
pub fn round_barrier_cuts(layers: &[ScheduleLayer]) -> (cuts: Vec<(u32, u32)>)
    requires
        layers@.len() <= u32::MAX,
    ensures
        forall|a: int, b: int| 0 <= a < b < cuts@.len() ==> cuts@[a].0 < cuts@[b].0,
        forall|c: (u32, u32)| #[trigger] cuts@.contains(c) <==> 0 <= c.0 < layers@.len() && barrier_source(layers@, c.0 as int)
            && first_match_from(layers@, LayerProbe::Active, c.0 + 1, c.1 as int),
{
    let mut cuts: Vec<(u32, u32)> = Vec::new();
    let mut i: usize = 0;
    while i < layers.len()
        invariant
            i <= layers@.len(),
            layers@.len() <= u32::MAX,
            forall|a: int, b: int| 0 <= a < b < cuts@.len() ==> cuts@[a].0 < cuts@[b].0,
            forall|a: int| 0 <= a < cuts@.len() ==> (#[trigger] cuts@[a]).0 < i,
            forall|c: (u32, u32)| #[trigger] cuts@.contains(c) <==> c.0 < i && barrier_source(layers@, c.0 as int)
                && first_match_from(layers@, LayerProbe::Active, c.0 + 1, c.1 as int),
        decreases layers.len() - i,
    {
        let ghost old_cuts = cuts@;
        let is_wait = probe_layer(&layers[i], LayerProbe::Wait);
        let is_reset = probe_layer(&layers[i], LayerProbe::Reset);
        let mut source = is_wait || is_reset;
        if source && is_reset && !is_wait && i + 1 < layers.len() && probe_layer(&layers[i + 1], LayerProbe::Wait) {
            source = false;
        }
        if source {
            match next_matching(layers, i + 1, LayerProbe::Active) {
                Some(j) => {
                    cuts.push((i as u32, j as u32));
                },
                None => {},
            }
        }
        proof {
            assert(source == barrier_source(layers@, i as int));
            assert forall|c: (u32, u32)| #[trigger] cuts@.contains(c) <==> c.0 < i + 1 && barrier_source(layers@, c.0 as int)
                && first_match_from(layers@, LayerProbe::Active, c.0 + 1, c.1 as int) by {
                if cuts@.len() > old_cuts.len() {
                    assert(cuts@ == old_cuts.push(cuts@.last()));
                    if cuts@.contains(c) {
                        let t = choose|t: int| 0 <= t < cuts@.len() && cuts@[t] == c;
                        if t < old_cuts.len() {
                            assert(old_cuts.contains(c));
                        }
                    }
                    if old_cuts.contains(c) {
                        let t = choose|t: int| 0 <= t < old_cuts.len() && old_cuts[t] == c;
                        assert(cuts@[t] == c);
                    }
                    if c.0 == i && barrier_source(layers@, c.0 as int) && first_match_from(layers@, LayerProbe::Active, c.0 + 1, c.1 as int) {
                        assert(cuts@.last().1 == c.1) by {
                            let j = cuts@.last().1 as int;
                            if j < c.1 {
                                assert(!layer_matches(LayerProbe::Active, layers@[j]));
                            } else if c.1 < j {
                                assert(!layer_matches(LayerProbe::Active, layers@[c.1 as int]));
                            }
                        }
                        assert(cuts@[old_cuts.len() as int] == c);
                    }
                } else {
                    if c.0 == i && barrier_source(layers@, c.0 as int) && first_match_from(layers@, LayerProbe::Active, c.0 + 1, c.1 as int) {
                        assert(layer_matches(LayerProbe::Active, layers@[c.1 as int]));
                    }
                }
            }
        }
        i += 1;
    }
    cuts
}

/// Lattice-surgery feed-forward: from measure layer `i`, through the first
/// wait `w` after it, to the first layer `a` after `w` that entangles,
/// measures or applies a local gate.
pub open spec fn surgery_ff(layers: Seq<ScheduleLayer>, i: int, a: int) -> bool {
    &&& 0 <= i < layers.len()
    &&& layer_matches(LayerProbe::Measure, layers[i])
    &&& exists|w: int| first_match_from(layers, LayerProbe::Wait, i + 1, w)
        && #[trigger] first_match_from(layers, LayerProbe::FeedForwardTarget, w + 1, a)
}

/// Explicit feed-forward edges from each measure layer to the next active
/// layer after the following wait, in increasing order of the measure layer.
pub fn lattice_surgery_feedforward_deps(layers: &[ScheduleLayer]) -> (deps: Vec<ScheduleDependency>)
    requires
        layers@.len() <= u32::MAX,
    ensures
        forall|a: int, b: int| 0 <= a < b < deps@.len() ==> deps@[a].before < deps@[b].before,
        forall|d: ScheduleDependency| #[trigger] deps@.contains(d) <==> d.kind == ScheduleDependencyKind::FeedForward
            && surgery_ff(layers@, d.before as int, d.after as int),
{
    let mut deps: Vec<ScheduleDependency> = Vec::new();
    let mut i: usize = 0;
    while i < layers.len()
        invariant
            i <= layers@.len(),
            layers@.len() <= u32::MAX,
            forall|a: int, b: int| 0 <= a < b < deps@.len() ==> deps@[a].before < deps@[b].before,
            forall|a: int| 0 <= a < deps@.len() ==> (#[trigger] deps@[a]).before < i,
            forall|d: ScheduleDependency| #[trigger] deps@.contains(d) <==> d.before < i
                && d.kind == ScheduleDependencyKind::FeedForward && surgery_ff(layers@, d.before as int, d.after as int),
        decreases layers.len() - i,
    {
        let ghost old_deps = deps@;
        if probe_layer(&layers[i], LayerProbe::Measure) {
            match next_matching(layers, i + 1, LayerProbe::Wait) {
                Some(w) => {
                    match next_matching(layers, w + 1, LayerProbe::FeedForwardTarget) {
                        Some(after) => {
                            let mut targets: Vec<u32> = Vec::new();
                            targets.push(after as u32);
                            let mut new_deps = feed_forward_dependencies(i as u32, &targets);
                            deps.append(&mut new_deps);
                            proof {
                                let d0 = ScheduleDependency {
                                    before: i as u32,
                                    after: after as u32,
                                    kind: ScheduleDependencyKind::FeedForward,
                                };
                                assert(deps@ == old_deps.push(d0));
                                assert(surgery_ff(layers@, i as int, after as int));
                                assert forall|d: ScheduleDependency| #[trigger] deps@.contains(d) <==> d.before < i + 1
                                    && d.kind == ScheduleDependencyKind::FeedForward && surgery_ff(layers@, d.before as int, d.after as int) by {
                                    if deps@.contains(d) {
                                        let t = choose|t: int| 0 <= t < deps@.len() && deps@[t] == d;
                                        if t < old_deps.len() {
                                            assert(old_deps.contains(d));
                                        }
                                    }
                                    if old_deps.contains(d) {
                                        let t = choose|t: int| 0 <= t < old_deps.len() && old_deps[t] == d;
                                        assert(deps@[t] == d);
                                    }
                                    if d.before == i && d.kind == ScheduleDependencyKind::FeedForward
                                        && surgery_ff(layers@, d.before as int, d.after as int) {
                                        let w2 = choose|w2: int| first_match_from(layers@, LayerProbe::Wait, i + 1, w2)
                                            && #[trigger] first_match_from(layers@, LayerProbe::FeedForwardTarget, w2 + 1, d.after as int);
                                        if w2 < w {
                                            assert(!layer_matches(LayerProbe::Wait, layers@[w2]));
                                        } else if w < w2 {
                                            assert(!layer_matches(LayerProbe::Wait, layers@[w as int]));
                                        }
                                        if d.after < after {
                                            assert(!layer_matches(LayerProbe::FeedForwardTarget, layers@[d.after as int]));
                                        } else if after < d.after {
                                            assert(!layer_matches(LayerProbe::FeedForwardTarget, layers@[after as int]));
                                        }
                                        assert(d == d0);
                                        assert(deps@[old_deps.len() as int] == d);
                                    }
                                }
                            }
                        },
                        None => {
                            proof {
                                assert forall|a: int| !surgery_ff(layers@, i as int, a) by {
                                    if surgery_ff(layers@, i as int, a) {
                                        let w2 = choose|w2: int| first_match_from(layers@, LayerProbe::Wait, i + 1, w2)
                                            && #[trigger] first_match_from(layers@, LayerProbe::FeedForwardTarget, w2 + 1, a);
                                        if w2 < w {
                                            assert(!layer_matches(LayerProbe::Wait, layers@[w2]));
                                        } else if w < w2 {
                                            assert(!layer_matches(LayerProbe::Wait, layers@[w as int]));
                                        }
                                        assert(!layer_matches(LayerProbe::FeedForwardTarget, layers@[a]));
                                    }
                                }
                            }
                        },
                    }
                },
                None => {
                    proof {
                        assert forall|a: int| !surgery_ff(layers@, i as int, a) by {
                            if surgery_ff(layers@, i as int, a) {
                                let w2 = choose|w2: int| first_match_from(layers@, LayerProbe::Wait, i + 1, w2)
                                    && #[trigger] first_match_from(layers@, LayerProbe::FeedForwardTarget, w2 + 1, a);
                                assert(!layer_matches(LayerProbe::Wait, layers@[w2]));
                            }
                        }
                    }
                },
            }
        }
        i += 1;
    }
    deps
}

/// `w` is the first layer after `i` that holds a `Wait`.
pub open spec fn first_wait_after(layers: Seq<ScheduleLayer>, i: int, w: int) -> bool {
    &&& i < w < layers.len()
    &&& exists|k: int| 0 <= k < layers[w].actions@.len() && (#[trigger] layers[w].actions@[k]) is Wait
    &&& forall|x: int, k: int| i < x < w && 0 <= k < layers[x].actions@.len()
        ==> !((#[trigger] layers[x].actions@[k]) is Wait)
}

/// The action entangles, measures or applies a local gate.
pub open spec fn is_correction_kind(act: NeutralAtomAction) -> bool {
    act is Entangle2 || act is EntangleN || act is Measure || act is LocalGate
}

/// `a` is the first layer after `w` that holds an entangle, a measurement or
/// a local gate.
pub open spec fn first_correction_after(layers: Seq<ScheduleLayer>, w: int, a: int) -> bool {
    &&& w < a < layers.len()
    &&& exists|k: int| 0 <= k < layers[a].actions@.len() && is_correction_kind(#[trigger] layers[a].actions@[k])
    &&& forall|x: int, k: int| w < x < a && 0 <= k < layers[x].actions@.len()
        ==> !is_correction_kind(#[trigger] layers[x].actions@[k])
}

/// A feed-forward edge runs from layer `i` to layer `a` exactly when `i`
/// measures, and `a` is the first layer after the first waiting layer after
/// `i` that holds a two-atom or many-atom entangle, a measurement or a local
/// gate.
pub proof fn lemma_feedforward_edge_kinds(layers: Seq<ScheduleLayer>, i: int, a: int)
    ensures
        surgery_ff(layers, i, a) <==> {
            &&& 0 <= i < layers.len()
            &&& exists|k: int| 0 <= k < layers[i].actions@.len() && (#[trigger] layers[i].actions@[k]) is Measure
            &&& exists|w: int| #[trigger] first_wait_after(layers, i, w) && first_correction_after(layers, w, a)
        },
{
    if surgery_ff(layers, i, a) {
        let w = choose|w: int| first_match_from(layers, LayerProbe::Wait, i + 1, w)
            && #[trigger] first_match_from(layers, LayerProbe::FeedForwardTarget, w + 1, a);
        assert forall|x: int, k: int| i < x < w && 0 <= k < layers[x].actions@.len()
            implies !((#[trigger] layers[x].actions@[k]) is Wait) by {
            assert(!layer_matches(LayerProbe::Wait, layers[x]));
            assert(!action_matches(LayerProbe::Wait, layers[x].actions@[k]));
        }
        assert forall|x: int, k: int| w < x < a && 0 <= k < layers[x].actions@.len()
            implies !is_correction_kind(#[trigger] layers[x].actions@[k]) by {
            assert(!layer_matches(LayerProbe::FeedForwardTarget, layers[x]));
            assert(!action_matches(LayerProbe::FeedForwardTarget, layers[x].actions@[k]));
        }
        let kw = choose|k: int| 0 <= k < layers[w].actions@.len() && action_matches(LayerProbe::Wait, #[trigger] layers[w].actions@[k]);
        assert(layers[w].actions@[kw] is Wait);
        let ka = choose|k: int| 0 <= k < layers[a].actions@.len()
            && action_matches(LayerProbe::FeedForwardTarget, #[trigger] layers[a].actions@[k]);
        assert(is_correction_kind(layers[a].actions@[ka]));
        let ki = choose|k: int| 0 <= k < layers[i].actions@.len() && action_matches(LayerProbe::Measure, #[trigger] layers[i].actions@[k]);
        assert(layers[i].actions@[ki] is Measure);
        assert(first_wait_after(layers, i, w));
        assert(first_correction_after(layers, w, a));
    }
    if 0 <= i < layers.len()
        && (exists|k: int| 0 <= k < layers[i].actions@.len() && (#[trigger] layers[i].actions@[k]) is Measure)
        && exists|w: int| #[trigger] first_wait_after(layers, i, w) && first_correction_after(layers, w, a) {
        let w = choose|w: int| #[trigger] first_wait_after(layers, i, w) && first_correction_after(layers, w, a);
        assert forall|x: int| i + 1 <= x < w implies !layer_matches(LayerProbe::Wait, #[trigger] layers[x]) by {
            if layer_matches(LayerProbe::Wait, layers[x]) {
                let k = choose|k: int| 0 <= k < layers[x].actions@.len() && action_matches(LayerProbe::Wait, #[trigger] layers[x].actions@[k]);
                assert(layers[x].actions@[k] is Wait);
            }
        }
        assert forall|x: int| w + 1 <= x < a implies !layer_matches(LayerProbe::FeedForwardTarget, #[trigger] layers[x]) by {
            if layer_matches(LayerProbe::FeedForwardTarget, layers[x]) {
                let k = choose|k: int| 0 <= k < layers[x].actions@.len()
                    && action_matches(LayerProbe::FeedForwardTarget, #[trigger] layers[x].actions@[k]);
                assert(is_correction_kind(layers[x].actions@[k]));
            }
        }
        let kw = choose|k: int| 0 <= k < layers[w].actions@.len() && (#[trigger] layers[w].actions@[k]) is Wait;
        assert(action_matches(LayerProbe::Wait, layers[w].actions@[kw]));
        let ka = choose|k: int| 0 <= k < layers[a].actions@.len() && is_correction_kind(#[trigger] layers[a].actions@[k]);
        assert(action_matches(LayerProbe::FeedForwardTarget, layers[a].actions@[ka]));
        let ki = choose|k: int| 0 <= k < layers[i].actions@.len() && (#[trigger] layers[i].actions@[k]) is Measure;
        assert(action_matches(LayerProbe::Measure, layers[i].actions@[ki]));
        assert(first_match_from(layers, LayerProbe::Wait, i + 1, w));
        assert(first_match_from(layers, LayerProbe::FeedForwardTarget, w + 1, a));
    }
}

/// Layer `i` opens a round barrier exactly when it holds a `Wait`, or it
/// holds a `Reset` and the next layer, if any, holds no `Wait`.
pub proof fn lemma_barrier_source_kinds(layers: Seq<ScheduleLayer>, i: int)
    requires
        0 <= i < layers.len(),
    ensures
        barrier_source(layers, i) <==> {
            let waits = exists|k: int| 0 <= k < layers[i].actions@.len() && (#[trigger] layers[i].actions@[k]) is Wait;
            let resets = exists|k: int| 0 <= k < layers[i].actions@.len() && (#[trigger] layers[i].actions@[k]) is Reset;
            let next_waits = i + 1 < layers.len() && exists|k: int| 0 <= k < layers[i + 1].actions@.len()
                && (#[trigger] layers[i + 1].actions@[k]) is Wait;
            waits || (resets && !next_waits)
        },
{
    assert(layer_matches(LayerProbe::Wait, layers[i]) <==> exists|k: int| 0 <= k < layers[i].actions@.len()
        && (#[trigger] layers[i].actions@[k]) is Wait) by {
        if layer_matches(LayerProbe::Wait, layers[i]) {
            let k = choose|k: int| 0 <= k < layers[i].actions@.len() && action_matches(LayerProbe::Wait, #[trigger] layers[i].actions@[k]);
            assert(layers[i].actions@[k] is Wait);
        }
        if exists|k: int| 0 <= k < layers[i].actions@.len() && (#[trigger] layers[i].actions@[k]) is Wait {
            let k = choose|k: int| 0 <= k < layers[i].actions@.len() && (#[trigger] layers[i].actions@[k]) is Wait;
            assert(action_matches(LayerProbe::Wait, layers[i].actions@[k]));
        }
    }
    assert(layer_matches(LayerProbe::Reset, layers[i]) <==> exists|k: int| 0 <= k < layers[i].actions@.len()
        && (#[trigger] layers[i].actions@[k]) is Reset) by {
        if layer_matches(LayerProbe::Reset, layers[i]) {
            let k = choose|k: int| 0 <= k < layers[i].actions@.len() && action_matches(LayerProbe::Reset, #[trigger] layers[i].actions@[k]);
            assert(layers[i].actions@[k] is Reset);
        }
        if exists|k: int| 0 <= k < layers[i].actions@.len() && (#[trigger] layers[i].actions@[k]) is Reset {
            let k = choose|k: int| 0 <= k < layers[i].actions@.len() && (#[trigger] layers[i].actions@[k]) is Reset;
            assert(action_matches(LayerProbe::Reset, layers[i].actions@[k]));
        }
    }
    if i + 1 < layers.len() {
        assert(layer_matches(LayerProbe::Wait, layers[i + 1]) <==> exists|k: int| 0 <= k < layers[i + 1].actions@.len()
            && (#[trigger] layers[i + 1].actions@[k]) is Wait) by {
            if layer_matches(LayerProbe::Wait, layers[i + 1]) {
                let k = choose|k: int| 0 <= k < layers[i + 1].actions@.len()
                    && action_matches(LayerProbe::Wait, #[trigger] layers[i + 1].actions@[k]);
                assert(layers[i + 1].actions@[k] is Wait);
            }
            if exists|k: int| 0 <= k < layers[i + 1].actions@.len() && (#[trigger] layers[i + 1].actions@[k]) is Wait {
                let k = choose|k: int| 0 <= k < layers[i + 1].actions@.len() && (#[trigger] layers[i + 1].actions@[k]) is Wait;
                assert(action_matches(LayerProbe::Wait, layers[i + 1].actions@[k]));
            }
        }
    }
}

/// Compacting a hybrid QEC schedule keeps every lattice-surgery correction
/// after its measurement: where layer `i` measures and `a` is the first layer
/// after the first waiting layer `w` after `i` that entangles, measures or
/// applies a local gate, the output layer holding `a` comes at a strictly
/// later cycle than the one holding `i`.
pub proof fn lemma_qec_compaction_orders_feedforward(layers: Seq<ScheduleLayer>, deps: Seq<ScheduleDependency>,
    md: Seq<ScheduleDependency>, res: CompactionResult, i: int, w: int, a: int, u: int, v: int)
    requires
        qec_deps_of(layers, deps),
        merged_deps_of(layers, deps, md),
        compaction_result_ok(layers, md, true, res),
        layers.len() <= u32::MAX,
        0 <= i < layers.len(),
        exists|k: int| 0 <= k < layers[i].actions@.len() && (#[trigger] layers[i].actions@[k]) is Measure,
        first_wait_after(layers, i, w),
        first_correction_after(layers, w, a),
        0 <= u < res.layers@.len(),
        0 <= v < res.layers@.len(),
        crate::compaction::lview(res.lineage@)[u].contains(i as u32),
        crate::compaction::lview(res.lineage@)[v].contains(a as u32),
    ensures
        res.layers@[u].cycle < res.layers@[v].cycle,
{
    lemma_feedforward_edge_kinds(layers, i, a);
    let d = ScheduleDependency { before: i as u32, after: a as u32, kind: ScheduleDependencyKind::FeedForward };
    assert(qec_dep(layers, d));
    assert(deps.contains(d));
    assert(md.contains(d));
    let k = choose|k: int| 0 <= k < md.len() && md[k] == d;
    crate::compaction::lemma_compaction_orders_forward_deps(layers, md, true, res, k, u, v);
}

/// Compacting a hybrid QEC schedule never moves work across a round
/// barrier: where layer `c` holds a `Wait` and `j` is the first later layer
/// that entangles or measures, the output layer holding `j` comes at a
/// strictly later cycle than the one holding `c`.
pub proof fn lemma_qec_compaction_keeps_wait_barriers(layers: Seq<ScheduleLayer>, deps: Seq<ScheduleDependency>,
    md: Seq<ScheduleDependency>, res: CompactionResult, c: int, j: int, u: int, v: int)
    requires
        qec_deps_of(layers, deps),
        merged_deps_of(layers, deps, md),
        compaction_result_ok(layers, md, true, res),
        layers.len() <= u32::MAX,
        0 <= c < j < layers.len(),
        exists|k: int| 0 <= k < layers[c].actions@.len() && (#[trigger] layers[c].actions@[k]) is Wait,
        exists|k: int| 0 <= k < layers[j].actions@.len() && {
            let act = #[trigger] layers[j].actions@[k];
            act is Entangle2 || act is EntangleN || act is Measure
        },
        forall|x: int, k: int| c < x < j && 0 <= k < layers[x].actions@.len() ==> {
            let act = #[trigger] layers[x].actions@[k];
            !(act is Entangle2 || act is EntangleN || act is Measure)
        },
        0 <= u < res.layers@.len(),
        0 <= v < res.layers@.len(),
        crate::compaction::lview(res.lineage@)[u].contains(c as u32),
        crate::compaction::lview(res.lineage@)[v].contains(j as u32),
    ensures
        res.layers@[u].cycle < res.layers@[v].cycle,
{
    lemma_barrier_source_kinds(layers, c);
    lemma_barrier_cut_target_kinds(layers, c, j);
    let d = ScheduleDependency { before: c as u32, after: j as u32, kind: ScheduleDependencyKind::Barrier };
    assert(qec_dep(layers, d));
    assert(deps.contains(d));
    assert(md.contains(d));
    let k = choose|k: int| 0 <= k < md.len() && md[k] == d;
    crate::compaction::lemma_compaction_orders_forward_deps(layers, md, true, res, k, u, v);
}

/// A barrier cut from layer `i` ends at `j` exactly when `j` is the first
/// layer after `i` that holds a two-atom or many-atom entangle or a
/// measurement.
pub proof fn lemma_barrier_cut_target_kinds(layers: Seq<ScheduleLayer>, i: int, j: int)
    ensures
        first_match_from(layers, LayerProbe::Active, i + 1, j) <==> {
            &&& i < j < layers.len()
            &&& exists|k: int| 0 <= k < layers[j].actions@.len() && {
                let act = #[trigger] layers[j].actions@[k];
                act is Entangle2 || act is EntangleN || act is Measure
            }
            &&& forall|x: int, k: int| i < x < j && 0 <= k < layers[x].actions@.len() ==> {
                let act = #[trigger] layers[x].actions@[k];
                !(act is Entangle2 || act is EntangleN || act is Measure)
            }
        },
{
    if first_match_from(layers, LayerProbe::Active, i + 1, j) {
        assert forall|x: int, k: int| i < x < j && 0 <= k < layers[x].actions@.len() implies {
            let act = #[trigger] layers[x].actions@[k];
            !(act is Entangle2 || act is EntangleN || act is Measure)
        } by {
            assert(!layer_matches(LayerProbe::Active, layers[x]));
            assert(!action_matches(LayerProbe::Active, layers[x].actions@[k]));
        }
    }
    if i < j < layers.len()
        && (exists|k: int| 0 <= k < layers[j].actions@.len() && {
            let act = #[trigger] layers[j].actions@[k];
            act is Entangle2 || act is EntangleN || act is Measure
        })
        && forall|x: int, k: int| i < x < j && 0 <= k < layers[x].actions@.len() ==> {
            let act = #[trigger] layers[x].actions@[k];
            !(act is Entangle2 || act is EntangleN || act is Measure)
        } {
        assert forall|x: int| i + 1 <= x < j implies !layer_matches(LayerProbe::Active, #[trigger] layers[x]) by {
            if layer_matches(LayerProbe::Active, layers[x]) {
                let k = choose|k: int| 0 <= k < layers[x].actions@.len() && action_matches(LayerProbe::Active, #[trigger] layers[x].actions@[k]);
                let act = layers[x].actions@[k];
                assert(act is Entangle2 || act is EntangleN || act is Measure);
            }
        }
        let kj = choose|k: int| 0 <= k < layers[j].actions@.len() && {
            let act = #[trigger] layers[j].actions@[k];
            act is Entangle2 || act is EntangleN || act is Measure
        };
        assert(action_matches(LayerProbe::Active, layers[j].actions@[kj]));
    }
}

/// Basis of a logical measurement.
#[derive(Clone, Copy, Debug, PartialEq, Eq, Structural)]
pub enum LogicalBasis {
    X,
    Z,
}

/// The physical measurement basis of a logical basis.
pub open spec fn map_basis_spec(basis: LogicalBasis) -> MeasurementBasis {
    match basis {
        LogicalBasis::X => MeasurementBasis::X,
        LogicalBasis::Z => MeasurementBasis::Z,
    }
}

/// The physical measurement basis of a logical basis.
pub fn map_basis(basis: LogicalBasis) -> (r: MeasurementBasis)
    ensures
        r == map_basis_spec(basis),
{
    match basis {
        LogicalBasis::X => MeasurementBasis::X,
        LogicalBasis::Z => MeasurementBasis::Z,
    }
}

/// A terminal operation of a QEC round on one atom.
#[derive(Clone, Copy, Debug, PartialEq, Eq, Structural)]
pub enum RoundTerminal {
    Measure { atom: u32, basis: LogicalBasis },
    Reset { atom: u32 },
}

/// A CNOT between two physical atoms.
#[derive(Clone, Copy, Debug, PartialEq, Eq, Structural)]
pub struct PhysicalCnot {
    pub control: u32,
    pub target: u32,
}

/// Why a QEC round could not be scheduled.
#[derive(Clone, Copy, Debug, PartialEq, Eq, Structural)]
pub enum QecScheduleError {
    /// Interaction ids ran past `u32::MAX`.
    InteractionIdOverflow,
    /// A round claims more Z-check CNOTs than it has CNOTs.
    InvalidZCnotCount { z_cnot_count: usize, entangling_len: usize },
}

/// The cycle after the last layer (saturating), or 0 for no layers.
pub open spec fn next_layer_cycle(layers: Seq<ScheduleLayer>) -> u32 {
    if layers.len() == 0 {
        0
    } else if layers.last().cycle == u32::MAX {
        u32::MAX
    } else {
        (layers.last().cycle + 1) as u32
    }
}

fn next_cycle_after(layers: &Vec<ScheduleLayer>) -> (c: u32)
    ensures
        c == next_layer_cycle(layers@),
{
    if layers.len() == 0 {
        0
    } else {
        layers[layers.len() - 1].cycle.saturating_add(1)
    }
}

/// The measurements among the terminal operations, in order.
pub open spec fn terminal_measures(t: Seq<RoundTerminal>) -> Seq<NeutralAtomAction>
    decreases t.len(),
{
    if t.len() == 0 {
        seq![]
    } else {
        terminal_measures(t.drop_last()) + match t.last() {
            RoundTerminal::Measure { atom, basis } => seq![
                NeutralAtomAction::Measure { atom: AtomId(atom), basis: map_basis_spec(basis), duration_us: 1 },
            ],
            RoundTerminal::Reset { .. } => seq![],
        }
    }
}

/// The resets among the terminal operations, in order.
pub open spec fn terminal_resets(t: Seq<RoundTerminal>) -> Seq<NeutralAtomAction>
    decreases t.len(),
{
    if t.len() == 0 {
        seq![]
    } else {
        terminal_resets(t.drop_last()) + match t.last() {
            RoundTerminal::Reset { atom } => seq![NeutralAtomAction::Reset { atom: AtomId(atom), duration_us: 1 }],
            RoundTerminal::Measure { .. } => seq![],
        }
    }
}

/// Append the terminal operations of a round: one layer with every
/// measurement at the next cycle, then one with every reset at the cycle
/// after (each only if there is something to put in it).
pub fn append_terminal_layers(layers: &mut Vec<ScheduleLayer>, terminal: &Vec<RoundTerminal>)
    ensures
        ({
            let m = terminal_measures(terminal@);
            let r = terminal_resets(terminal@);
            let n = old(layers)@.len();
            let c0 = next_layer_cycle(old(layers)@);
            let c1 = if m.len() > 0 { if c0 == u32::MAX { u32::MAX } else { (c0 + 1) as u32 } } else { c0 };
            let at: int = if m.len() > 0 { n + 1int } else { n as int };
            &&& final(layers)@.len() == at + (if r.len() > 0 { 1int } else { 0int })
            &&& forall|i: int| 0 <= i < n ==> #[trigger] final(layers)@[i] == old(layers)@[i]
            &&& m.len() > 0 ==> final(layers)@[n as int].cycle == c0 && final(layers)@[n as int].actions@ == m
            &&& r.len() > 0 ==> final(layers)@[at].cycle == c1 && final(layers)@[at].actions@ == r
        }),
{
    let mut measures: Vec<NeutralAtomAction> = Vec::new();
    let mut resets: Vec<NeutralAtomAction> = Vec::new();
    let mut k: usize = 0;
    while k < terminal.len()
        invariant
            k <= terminal@.len(),
            measures@ == terminal_measures(terminal@.take(k as int)),
            resets@ == terminal_resets(terminal@.take(k as int)),
        decreases terminal.len() - k,
    {
        proof {
            assert(terminal@.take(k + 1).drop_last() =~= terminal@.take(k as int));
        }
        match terminal[k] {
            RoundTerminal::Measure { atom, basis } => {
                measures.push(NeutralAtomAction::Measure { atom: AtomId(atom), basis: map_basis(basis), duration_us: 1 });
            },
            RoundTerminal::Reset { atom } => {
                resets.push(NeutralAtomAction::Reset { atom: AtomId(atom), duration_us: 1 });
            },
        }
        proof {
            assert(measures@ =~= terminal_measures(terminal@.take(k + 1)));
            assert(resets@ =~= terminal_resets(terminal@.take(k + 1)));
        }
        k += 1;
    }
    proof {
        assert(terminal@.take(terminal@.len() as int) =~= terminal@);
    }
    let mut cycle = next_cycle_after(layers);
    if measures.len() > 0 {
        layers.push(ScheduleLayer { cycle, actions: measures });
        cycle = cycle.saturating_add(1);
    }
    if resets.len() > 0 {
        layers.push(ScheduleLayer { cycle, actions: resets });
    }
}

/// Append one layer of Hadamards (single-qubit local gates) on `atoms` at the
/// next cycle, if there are any.
pub fn append_local_gate_layers(layers: &mut Vec<ScheduleLayer>, atoms: &Vec<u32>)
    ensures
        atoms@.len() == 0 ==> final(layers)@ == old(layers)@,
        atoms@.len() > 0 ==> {
            &&& final(layers)@.len() == old(layers)@.len() + 1
            &&& forall|i: int| 0 <= i < old(layers)@.len() ==> #[trigger] final(layers)@[i] == old(layers)@[i]
            &&& final(layers)@.last().cycle == next_layer_cycle(old(layers)@)
            &&& final(layers)@.last().actions@ == atoms@.map_values(
                |a: u32| NeutralAtomAction::LocalGate { atom: AtomId(a), gate: LocalGateKind::H, duration_us: 1 })
        },
{
    if atoms.len() == 0 {
        return;
    }
    let mut hs: Vec<NeutralAtomAction> = Vec::new();
    let mut k: usize = 0;
    while k < atoms.len()
        invariant
            k <= atoms@.len(),
            hs@ == atoms@.take(k as int).map_values(|a: u32| NeutralAtomAction::LocalGate { atom: AtomId(a), gate: LocalGateKind::H, duration_us: 1 }),
        decreases atoms.len() - k,
    {
        hs.push(NeutralAtomAction::LocalGate { atom: AtomId(atoms[k]), gate: LocalGateKind::H, duration_us: 1 });
        proof {
            assert(hs@ =~= atoms@.take(k + 1).map_values(|a: u32| NeutralAtomAction::LocalGate { atom: AtomId(a), gate: LocalGateKind::H, duration_us: 1 }));
        }
        k += 1;
    }
    proof {
        assert(atoms@.take(atoms@.len() as int) =~= atoms@);
    }
    let cycle = next_cycle_after(layers);
    layers.push(ScheduleLayer { cycle, actions: hs });
}

/// The interaction of the `i`-th CNOT: id `first + i`, the two atoms as
/// sorted qubits, gate "cx", layer 0, off the critical path.
pub open spec fn cnot_interaction_ok(it: Interaction, c: PhysicalCnot, id: int) -> bool {
    &&& it.id == InteractionId(id as u32)
    &&& it.qubits@ == (if c.control <= c.target {
            seq![LogicalQubitId(c.control), LogicalQubitId(c.target)]
        } else {
            seq![LogicalQubitId(c.target), LogicalQubitId(c.control)]
        })
    &&& it.gate_name@ == "cx"@
    &&& it.dag_layer == 0
    &&& !it.on_critical_path
}

/// One interaction per CNOT, with consecutive ids from `*next_interaction_id`,
/// which moves past them; an id past `u32::MAX` is an error.
pub fn cnots_to_interactions(cnots: &Vec<PhysicalCnot>, next_interaction_id: &mut u32)
    -> (r: Result<(Vec<Interaction>, Vec<InteractionId>), QecScheduleError>)
    ensures
        r is Err <==> cnots@.len() > 0 && *old(next_interaction_id) + cnots@.len() > u32::MAX,
        r matches Ok((its, ids)) ==> {
            &&& *final(next_interaction_id) == *old(next_interaction_id) + cnots@.len()
            &&& its@.len() == cnots@.len()
            &&& ids@.len() == cnots@.len()
            &&& forall|i: int| 0 <= i < cnots@.len() ==> #[trigger] ids@[i] == InteractionId((*old(next_interaction_id) + i) as u32)
                && cnot_interaction_ok(its@[i], cnots@[i], *old(next_interaction_id) + i)
        },
{
    let ghost first = *next_interaction_id as int;
    let mut interactions: Vec<Interaction> = Vec::new();
    let mut ids: Vec<InteractionId> = Vec::new();
    let mut k: usize = 0;
    while k < cnots.len()
        invariant
            k <= cnots@.len(),
            first == *old(next_interaction_id),
            *next_interaction_id == first + k,
            first + k <= u32::MAX,
            interactions@.len() == k,
            ids@.len() == k,
            forall|i: int| 0 <= i < k ==> #[trigger] ids@[i] == InteractionId((first + i) as u32)
                && cnot_interaction_ok(interactions@[i], cnots@[i], first + i),
        decreases cnots.len() - k,
    {
        let id = InteractionId(*next_interaction_id);
        if *next_interaction_id == u32::MAX {
            return Err(QecScheduleError::InteractionIdOverflow);
        }
        *next_interaction_id = *next_interaction_id + 1;
        let c = cnots[k];
        let qubits = if c.control <= c.target {
            vec![LogicalQubitId(c.control), LogicalQubitId(c.target)]
        } else {
            vec![LogicalQubitId(c.target), LogicalQubitId(c.control)]
        };
        let it = Interaction { id, qubits, gate_name: "cx".to_owned(), dag_layer: 0, on_critical_path: false };
        proof {
            reveal_strlit("cx");
        }
        interactions.push(it);
        ids.push(id);
        k += 1;
    }
    Ok((interactions, ids))
}


/// Split the CNOTs of a round into its Z-check phase (the first
/// `z_cnot_count`) and its X-check phase (the rest).
pub fn split_round_cnots(entangling: &Vec<PhysicalCnot>, z_cnot_count: usize)
    -> (r: Result<(Vec<PhysicalCnot>, Vec<PhysicalCnot>), QecScheduleError>)
    ensures
        z_cnot_count > entangling@.len() <==> r == Err::<(Vec<PhysicalCnot>, Vec<PhysicalCnot>), QecScheduleError>(
            QecScheduleError::InvalidZCnotCount { z_cnot_count, entangling_len: entangling@.len() as usize }),
        r matches Ok((z, x)) ==> z@ == entangling@.take(z_cnot_count as int)
            && x@ == entangling@.skip(z_cnot_count as int),
{
    if z_cnot_count > entangling.len() {
        return Err(QecScheduleError::InvalidZCnotCount { z_cnot_count, entangling_len: entangling.len() });
    }
    let mut z: Vec<PhysicalCnot> = Vec::new();
    let mut x: Vec<PhysicalCnot> = Vec::new();
    let mut k: usize = 0;
    while k < entangling.len()
        invariant
            k <= entangling@.len(),
            z_cnot_count <= entangling@.len(),
            z@ == entangling@.take(if k < z_cnot_count { k as int } else { z_cnot_count as int }),
            x@ == (if k < z_cnot_count { seq![] } else { entangling@.subrange(z_cnot_count as int, k as int) }),
        decreases entangling.len() - k,
    {
        if k < z_cnot_count {
            z.push(entangling[k]);
            proof {
                assert(z@ =~= entangling@.take(if k + 1 < z_cnot_count { k + 1 } else { z_cnot_count as int }));
                assert(x@ =~= (if k + 1 < z_cnot_count { seq![] } else { entangling@.subrange(z_cnot_count as int, k + 1) }));
            }
        } else {
            x.push(entangling[k]);
            proof {
                assert(x@ =~= entangling@.subrange(z_cnot_count as int, k + 1));
            }
        }
        k += 1;
    }
    proof {
        assert(x@ =~= entangling@.skip(z_cnot_count as int));
    }
    Ok((z, x))
}

/// The commutation-group segment of a round's interactions, or none for a
/// round without CNOTs.
pub fn round_segment(interaction_ids: Vec<InteractionId>) -> (r: Option<InteractionSegment>)
    ensures
        interaction_ids@.len() == 0 <==> r is None,
        r matches Some(seg) ==> seg.kind == SegmentKind::CommutationGroup && seg.interactions@ == interaction_ids@,
{
    if interaction_ids.len() == 0 {
        None
    } else {
        Some(InteractionSegment { kind: SegmentKind::CommutationGroup, interactions: interaction_ids })
    }
}

/// The actions of each layer, in order.
pub open spec fn layer_actions(l: Seq<ScheduleLayer>) -> Seq<Seq<NeutralAtomAction>> {
    l.map_values(|x: ScheduleLayer| x.actions@)
}

/// The layers a round contributes to the whole schedule: its own, then a
/// one-microsecond Wait when the round ends at a barrier.
pub open spec fn round_actions(round: (Vec<ScheduleLayer>, bool)) -> Seq<Seq<NeutralAtomAction>> {
    layer_actions(round.0@) + if round.1 {
        seq![seq![NeutralAtomAction::Wait { duration_us: 1 }]]
    } else {
        Seq::<Seq<NeutralAtomAction>>::empty()
    }
}

/// The layers of all rounds, one round after the other.
pub open spec fn rounds_actions(rounds: Seq<(Vec<ScheduleLayer>, bool)>) -> Seq<Seq<NeutralAtomAction>>
    decreases rounds.len(),
{
    if rounds.len() == 0 {
        seq![]
    } else {
        rounds_actions(rounds.drop_last()) + round_actions(rounds.last())
    }
}

proof fn lemma_layer_actions_concat(a: Seq<ScheduleLayer>, b: Seq<ScheduleLayer>)
    ensures
        layer_actions(a + b) == layer_actions(a) + layer_actions(b),
{
    assert(layer_actions(a + b) =~= layer_actions(a) + layer_actions(b));
}

/// Set the cycle of every layer to its position (truncated to 32 bits).
fn renumber_cycles(layers: &mut Vec<ScheduleLayer>)
    ensures
        layer_actions(final(layers)@) == layer_actions(old(layers)@),
        forall|i: int| 0 <= i < final(layers)@.len() ==> #[trigger] final(layers)@[i].cycle == i as u32,
{
    let mut i: usize = 0;
    while i < layers.len()
        invariant
            i <= layers@.len(),
            layer_actions(layers@) == layer_actions(old(layers)@),
            forall|j: int| 0 <= j < i ==> #[trigger] layers@[j].cycle == j as u32,
        decreases layers.len() - i,
    {
        let ghost prev = layers@;
        {
            let l = &mut layers[i];
            l.cycle = i as u32;
        }
        proof {
            assert(layer_actions(layers@) =~= layer_actions(prev));
        }
        i += 1;
    }
}

/// Join the scheduled rounds of a workload into one schedule: each round's
/// layers in order, a Wait layer after every round that needs a barrier
/// (flag `true`), and then every layer renumbered to its position.
pub fn concat_round_layers(rounds: Vec<(Vec<ScheduleLayer>, bool)>) -> (r: Vec<ScheduleLayer>)
    ensures
        layer_actions(r@) == rounds_actions(rounds@),
        forall|i: int| 0 <= i < r@.len() ==> #[trigger] r@[i].cycle == i as u32,
{
    let ghost all_rounds = rounds@;
    let ghost n = rounds@.len();
    let mut pending = rounds;
    let mut stack: Vec<(Vec<ScheduleLayer>, bool)> = Vec::new();
    // Reverse the rounds onto a stack so that each can be moved out in order.
    while pending.len() > 0
        invariant
            pending@ + stack@.reverse() == all_rounds,
        decreases pending.len(),
    {
        let ghost before = pending@;
        let last = pending.pop().unwrap();
        proof {
            assert(before == pending@.push(last));
            assert(stack@.push(last).reverse() =~= seq![last] + stack@.reverse());
        }
        stack.push(last);
        proof {
            assert(pending@ + stack@.reverse() =~= all_rounds);
        }
    }
    proof {
        assert(pending@ + stack@.reverse() == all_rounds);
        assert(stack@.reverse() =~= all_rounds);
        assert(all_rounds.take(0) =~= Seq::<(Vec<ScheduleLayer>, bool)>::empty());
        assert(layer_actions(Seq::<ScheduleLayer>::empty()) =~= Seq::<Seq<NeutralAtomAction>>::empty());
    }
    let mut all: Vec<ScheduleLayer> = Vec::new();
    while stack.len() > 0
        invariant
            n == all_rounds.len(),
            stack@.len() <= n,
            stack@.reverse() == all_rounds.skip(n - stack@.len()),
            layer_actions(all@) == rounds_actions(all_rounds.take(n - stack@.len())),
        decreases stack.len(),
    {
        let ghost done = n - stack@.len();
        let ghost st = stack@;
        let (mut layers, barrier) = stack.pop().unwrap();
        proof {
            assert(st.reverse()[0] == st.last());
            assert(all_rounds.skip(done)[0] == all_rounds[done]);
            assert((layers, barrier) == all_rounds[done]);
            assert(stack@.reverse() =~= all_rounds.skip(done + 1)) by {
                assert(st == stack@.push((layers, barrier)));
                assert(stack@.reverse() =~= st.reverse().drop_first());
            }
            assert(all_rounds.take(done + 1).drop_last() =~= all_rounds.take(done));
        }
        let ghost original = layers@;
        if barrier {
            let cycle = next_cycle_after(&layers);
            let mut wait: Vec<NeutralAtomAction> = Vec::new();
            wait.push(NeutralAtomAction::Wait { duration_us: 1 });
            layers.push(ScheduleLayer { cycle, actions: wait });
            proof {
                lemma_layer_actions_concat(original, seq![layers@.last()]);
                assert(original + seq![layers@.last()] =~= layers@);
                assert(layer_actions(seq![layers@.last()]) =~= seq![seq![NeutralAtomAction::Wait { duration_us: 1 }]]);
            }
        } else {
            proof {
                assert(layer_actions(original) + Seq::<Seq<NeutralAtomAction>>::empty() =~= layer_actions(original));
            }
        }
        let ghost prev = all@;
        let ghost added = layers@;
        all.append(&mut layers);
        proof {
            lemma_layer_actions_concat(prev, added);
        }
    }
    proof {
        assert(all_rounds.take(n as int) =~= all_rounds);
    }
    renumber_cycles(&mut all);
    all
}


/// Some round-barrier layer is followed by an active layer: the schedule
/// has a round cut.
pub open spec fn has_round_cut(layers: Seq<ScheduleLayer>) -> bool {
    exists|c: int, j: int| 0 <= c < layers.len() && barrier_source(layers, c)
        && #[trigger] first_match_from(layers, LayerProbe::Active, c + 1, j)
}

/// The hard-ordering edges of a hybrid QEC schedule: atom hazards,
/// lattice-surgery feed-forward edges, and a barrier edge for each round cut.
pub open spec fn qec_dep(layers: Seq<ScheduleLayer>, d: ScheduleDependency) -> bool {
    ||| d.kind == ScheduleDependencyKind::AtomHazard && is_hazard(layers, d.before as int, d.after as int)
    ||| d.kind == ScheduleDependencyKind::FeedForward && surgery_ff(layers, d.before as int, d.after as int)
    ||| d.kind == ScheduleDependencyKind::Barrier && 0 <= d.before < layers.len() && barrier_source(layers, d.before as int)
        && first_match_from(layers, LayerProbe::Active, d.before + 1, d.after as int)
}

/// `deps` holds exactly the hard-ordering edges of the schedule.
pub open spec fn qec_deps_of(layers: Seq<ScheduleLayer>, deps: Seq<ScheduleDependency>) -> bool {
    forall|d: ScheduleDependency| #[trigger] deps.contains(d) <==> qec_dep(layers, d)
}

/// Greedy compaction of a hybrid QEC schedule under its atom hazards,
/// lattice-surgery feed-forward edges and round-barrier cuts. A schedule
/// with `barrier_rounds > 0` but no round cut is refused, since compacting
/// it would merge across rounds.
pub fn compact_qec_schedule(layers: Vec<ScheduleLayer>, barrier_rounds: usize) -> (r: Result<CompactionResult, CompactionError>)
    requires
        0 < layers@.len() < u32::MAX - 2,
    ensures
        (r == Err::<CompactionResult, CompactionError>(CompactionError::MissingBarrierCuts))
            <==> (!has_round_cut(layers@) && barrier_rounds > 0),
        (has_round_cut(layers@) || barrier_rounds == 0) ==> {
            &&& r is Err <==> exists|x: int| 0 <= x < layers@.len() && !layer_legal(#[trigger] layers@[x])
            &&& r matches Err(e) ==> e is Conflict || e is Occupancy
        },
        r matches Ok(res) ==> exists|deps: Seq<ScheduleDependency>| #[trigger] qec_deps_of(layers@, deps)
            && exists|md: Seq<ScheduleDependency>| #[trigger] merged_deps_of(layers@, deps, md)
                && compaction_result_ok(layers@, md, true, res),
        r matches Ok(res) ==> exists|order: Seq<Seq<u32>>| #[trigger] actions_from_inputs(layers@, res.layers@,
            crate::compaction::lview(res.lineage@), order),
{
    let ghost input = layers@;
    let n = layers.len();
    let hz = infer_atom_dependencies(&layers);
    let ff = lattice_surgery_feedforward_deps(&layers);
    let cuts = round_barrier_cuts(&layers);
    if cuts.len() == 0 && barrier_rounds > 0 {
        proof {
            if has_round_cut(input) {
                let (c, j) = choose|c: int, j: int| 0 <= c < input.len() && barrier_source(input, c)
                    && #[trigger] first_match_from(input, LayerProbe::Active, c + 1, j);
                assert(cuts@.contains((c as u32, j as u32)));
            }
        }
        return Err(CompactionError::MissingBarrierCuts);
    }
    proof {
        if cuts@.len() > 0 {
            let c = cuts@[0];
            assert(cuts@.contains(c));
            assert(first_match_from(input, LayerProbe::Active, c.0 + 1, c.1 as int));
        }
    }
    let mut deps: Vec<ScheduleDependency> = Vec::new();
    let mut k: usize = 0;
    while k < hz.len()
        invariant
            k <= hz@.len(),
            deps@ == hz@.take(k as int),
        decreases hz.len() - k,
    {
        deps.push(hz[k]);
        proof {
            assert(hz@.take(k + 1) =~= hz@.take(k as int).push(hz@[k as int]));
        }
        k += 1;
    }
    let mut k: usize = 0;
    while k < ff.len()
        invariant
            k <= ff@.len(),
            deps@ == hz@ + ff@.take(k as int),
        decreases ff.len() - k,
    {
        proof {
            assert(hz@.take(hz@.len() as int) =~= hz@);
        }
        deps.push(ff[k]);
        proof {
            assert(hz@ + ff@.take(k + 1) =~= (hz@ + ff@.take(k as int)).push(ff@[k as int]));
        }
        k += 1;
    }
    let ghost base = deps@;
    proof {
        assert(ff@.take(ff@.len() as int) =~= ff@);
        assert(hz@.take(hz@.len() as int) =~= hz@);
    }
    let mut k: usize = 0;
    while k < cuts.len()
        invariant
            k <= cuts@.len(),
            base == hz@ + ff@,
            deps@.len() == base.len() + k,
            forall|i: int| 0 <= i < base.len() ==> #[trigger] deps@[i] == base[i],
            forall|i: int| 0 <= i < k ==> #[trigger] deps@[base.len() + i] == (ScheduleDependency {
                before: cuts@[i].0, after: cuts@[i].1, kind: ScheduleDependencyKind::Barrier }),
        decreases cuts.len() - k,
    {
        let (b, a) = cuts[k];
        deps.push(ScheduleDependency { before: b, after: a, kind: ScheduleDependencyKind::Barrier });
        k += 1;
    }
    proof {
        let dd = deps@;
        let nb = base.len() as int;
        assert forall|d: ScheduleDependency| #[trigger] dd.contains(d) implies qec_dep(input, d) by {
            let i = choose|i: int| 0 <= i < dd.len() && dd[i] == d;
            if i < hz@.len() {
                assert(dd[i] == base[i]);
                assert(base[i] == hz@[i]);
                assert(hz@[i].kind == ScheduleDependencyKind::AtomHazard);
            } else if i < nb {
                assert(dd[i] == base[i]);
                assert(base[i] == ff@[i - hz@.len()]);
                assert(ff@.contains(ff@[i - hz@.len()]));
            } else {
                let c = cuts@[i - nb];
                assert(dd[nb + (i - nb)] == (ScheduleDependency { before: c.0, after: c.1, kind: ScheduleDependencyKind::Barrier }));
                assert(cuts@.contains(c));
            }
        }
        assert forall|d: ScheduleDependency| qec_dep(input, d) implies #[trigger] dd.contains(d) by {
            if d.kind == ScheduleDependencyKind::AtomHazard && is_hazard(input, d.before as int, d.after as int) {
                let k2 = choose|k2: int| 0 <= k2 < hz@.len() && hz@[k2].before == d.before && hz@[k2].after == d.after;
                assert(hz@[k2].kind == ScheduleDependencyKind::AtomHazard);
                assert(hz@[k2] == d);
                assert(base[k2] == hz@[k2]);
                assert(dd[k2] == d);
            } else if d.kind == ScheduleDependencyKind::FeedForward && surgery_ff(input, d.before as int, d.after as int) {
                assert(ff@.contains(d));
                let k2 = choose|k2: int| 0 <= k2 < ff@.len() && ff@[k2] == d;
                assert(base[hz@.len() + k2] == ff@[k2]);
                assert(dd[hz@.len() + k2] == d);
            } else {
                assert(d.kind == ScheduleDependencyKind::Barrier);
                assert(cuts@.contains((d.before, d.after)));
                let k2 = choose|k2: int| 0 <= k2 < cuts@.len() && cuts@[k2] == (d.before, d.after);
                assert(dd[nb + k2] == d);
            }
        }
        assert forall|q: int| 0 <= q < dd.len() implies crate::compaction::valid_dep(#[trigger] dd[q], n as int) by {
            let d = dd[q];
            assert(dd.contains(d));
            if d.kind == ScheduleDependencyKind::AtomHazard && is_hazard(input, d.before as int, d.after as int) {
                let x = choose|x: u32| crate::schedule::layer_uses_atom(input[d.after as int], x)
                    && #[trigger] crate::compaction::last_use(input, x, d.after as int) == Some(d.before as int);
                crate::compaction::lemma_last_use(input, x, d.after as int);
            } else if d.kind == ScheduleDependencyKind::FeedForward && surgery_ff(input, d.before as int, d.after as int) {
                let w = choose|w: int| first_match_from(input, LayerProbe::Wait, d.before + 1, w)
                    && #[trigger] first_match_from(input, LayerProbe::FeedForwardTarget, w + 1, d.after as int);
            }
        }
    }
    let opts = CompactionOptions { greedy: true };
    let ghost dd = deps@;
    proof {
        assert(qec_deps_of(input, dd));
    }
    let r = compact_schedule(layers, deps.as_slice(), &opts);
    proof {
        if r is Ok {
            let md = choose|md: Seq<ScheduleDependency>| merged_deps_of(input, dd, md)
                && compaction_result_ok(input, md, true, r->Ok_0);
            assert(merged_deps_of(input, dd, md));
        }
    }
    r
}

} // verus!
