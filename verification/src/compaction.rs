//! Schedule compaction: dependency inference, exclusive-cycle ASAP layering,
//! greedy merging of entangle-only layers and critical-path analysis.
//!
//! Exclusive-cycle ASAP gives each input layer the earliest cycle after all
//! of its predecessors and bumps it so that no two layers share a cycle; it
//! never merges action content. Greedy compaction then merges pairs of layers
//! in allowed merge classes (entangle-only with entangle-only) whenever that
//! shortens the schedule and keeps every dependency strictly ordered.

use vstd::prelude::*;

use crate::ids::{AtomId, InteractionId};
use crate::schedule::{
    NeutralAtomAction, ScheduleLayer, action_atoms, actions_use_atom, conflict_free, find_atom_conflict,
    find_occupancy_conflict, insert_sorted_unique, is_entangle, layer_uses_atom, occupancy_free,
    strictly_sorted, copy_vec, lemma_concat_legal_parts,
};

verus! {

broadcast use vstd::std_specs::btree::group_btree_axioms, vstd::laws_cmp::group_laws_cmp;

/// Why one layer must complete before another.
#[derive(Clone, Copy, Debug, PartialEq, Eq, PartialOrd, Ord, Structural)]
pub enum ScheduleDependencyKind {
    /// The same atom appears in both layers (data dependence).
    AtomHazard,
    /// Explicit barrier / segment boundary.
    Barrier,
    /// Mid-circuit measurement must complete before a dependent correction.
    Measurement,
    /// Classical feed-forward: measure, then conditional correction.
    FeedForward,
}

/// Hard ordering constraint between two input layers (pre-compaction indices).
#[derive(Clone, Copy, Debug, PartialEq, Eq, Structural)]
pub struct ScheduleDependency {
    /// Predecessor layer index.
    pub before: u32,
    /// Successor layer index that may not run before `before` completes.
    pub after: u32,
    pub kind: ScheduleDependencyKind,
}

/// Errors from schedule compaction.
#[derive(Clone, Debug, PartialEq, Eq, Structural)]
pub enum CompactionError {
    /// The input schedule has no layers.
    EmptySchedule,
    /// A layer touches the same atom from two actions (`cycle`, `atom`).
    Conflict(u32, u32),
    /// Two moves or transfers of one layer claim the same site (`cycle`, `site`).
    Occupancy(u32, u32),
    /// The pair of layers is in a merge class that v0 forbids.
    ForbiddenMergeClass,
    /// A feed-forward / measurement / barrier / hazard order would be violated.
    DependencyViolation,
    /// A caller dependency names a layer out of range or a self-edge.
    InvalidDependency(u32, u32),
    /// A merge was asked for with indices that do not name two distinct layers.
    InvalidMergeIndices,
    /// The requested merge was legal to attempt but skipped (conflicting union).
    MergeSkipped,
    /// A schedule with barrier rounds shows no round-barrier cut to order by.
    MissingBarrierCuts,
}

/// The layer that last touched atom `a` strictly before layer `i`.
pub open spec fn last_use(layers: Seq<ScheduleLayer>, a: u32, i: int) -> Option<int>
    decreases i,
{
    if i <= 0 {
        None
    } else if layer_uses_atom(layers[i - 1], a) {
        Some(i - 1)
    } else {
        last_use(layers, a, i - 1)
    }
}

/// Layer `a` uses some atom whose previous use was in layer `b`.
pub open spec fn is_hazard(layers: Seq<ScheduleLayer>, b: int, a: int) -> bool {
    0 <= a < layers.len() && exists|x: u32|
        layer_uses_atom(layers[a], x) && #[trigger] last_use(layers, x, a) == Some(b)
}

/// What `last_use` finds: the latest earlier layer touching the atom, if any.
pub proof fn lemma_last_use(layers: Seq<ScheduleLayer>, a: u32, i: int)
    requires
        0 <= i <= layers.len(),
    ensures
        match last_use(layers, a, i) {
            Some(j) => 0 <= j < i && layer_uses_atom(layers[j], a) && forall|k: int|
                j < k < i ==> !layer_uses_atom(#[trigger] layers[k], a),
            None => forall|k: int| 0 <= k < i ==> !layer_uses_atom(#[trigger] layers[k], a),
        },
    decreases i,
{
    if i > 0 {
        lemma_last_use(layers, a, i - 1);
    }
}

/// Sorted unique atoms touched by a layer.
pub fn layer_atoms(layer: &ScheduleLayer) -> (atoms: Vec<AtomId>)
    ensures
        strictly_sorted(atoms@),
        forall|x: AtomId| #[trigger] atoms@.contains(x) <==> layer_uses_atom(*layer, x.0),
{
    let mut atoms: Vec<AtomId> = Vec::new();
    let mut k: usize = 0;
    while k < layer.actions.len()
        invariant
            k <= layer.actions.len(),
            strictly_sorted(atoms@),
            forall|x: AtomId| #[trigger] atoms@.contains(x) <==> actions_use_atom(
                layer.actions@.take(k as int),
                x.0,
            ),
        decreases layer.actions.len() - k,
    {
        let ghost before = atoms@;
        let action = &layer.actions[k];
        match action {
            NeutralAtomAction::Move(group) => {
                let mut m: usize = 0;
                while m < group.moves.len()
                    invariant
                        m <= group.moves.len(),
                        strictly_sorted(atoms@),
                        forall|x: AtomId| #[trigger] atoms@.contains(x) <==> (before.contains(x)
                            || exists|t: int| 0 <= t < m && group.moves@[t].atom == x),
                    decreases group.moves.len() - m,
                {
                    insert_sorted_unique(&mut atoms, group.moves[m].atom);
                    proof {
                        assert forall|x: AtomId| #[trigger] atoms@.contains(x) <==> (before.contains(x)
                            || exists|t: int| 0 <= t < m + 1 && group.moves@[t].atom == x) by {
                            if exists|t: int| 0 <= t < m + 1 && group.moves@[t].atom == x {
                                let t = choose|t: int| 0 <= t < m + 1 && group.moves@[t].atom == x;
                                if t < m {
                                    assert(exists|t: int| 0 <= t < m && group.moves@[t].atom == x);
                                }
                            }
                        }
                    }
                    m += 1;
                }
            },
            NeutralAtomAction::Transfer(t) => {
                insert_sorted_unique(&mut atoms, t.atom);
            },
            NeutralAtomAction::Entangle2 { atoms: a, .. } => {
                insert_sorted_unique(&mut atoms, a[0]);
                insert_sorted_unique(&mut atoms, a[1]);
            },
            NeutralAtomAction::EntangleN { atoms: a, .. } => {
                let mut m: usize = 0;
                while m < a.len()
                    invariant
                        m <= a.len(),
                        strictly_sorted(atoms@),
                        forall|x: AtomId| #[trigger] atoms@.contains(x) <==> (before.contains(x)
                            || exists|t: int| 0 <= t < m && a@[t] == x),
                    decreases a.len() - m,
                {
                    insert_sorted_unique(&mut atoms, a[m]);
                    proof {
                        assert forall|x: AtomId| #[trigger] atoms@.contains(x) <==> (before.contains(x)
                            || exists|t: int| 0 <= t < m + 1 && a@[t] == x) by {
                            if exists|t: int| 0 <= t < m + 1 && a@[t] == x {
                                let t = choose|t: int| 0 <= t < m + 1 && a@[t] == x;
                                if t < m {
                                    assert(exists|t: int| 0 <= t < m && a@[t] == x);
                                }
                            }
                        }
                    }
                    m += 1;
                }
            },
            NeutralAtomAction::LocalGate { atom, .. } => {
                insert_sorted_unique(&mut atoms, *atom);
            },
            NeutralAtomAction::Measure { atom, .. } => {
                insert_sorted_unique(&mut atoms, *atom);
            },
            NeutralAtomAction::Reset { atom, .. } => {
                insert_sorted_unique(&mut atoms, *atom);
            },
            NeutralAtomAction::GlobalRy { .. } => {},
            NeutralAtomAction::Wait { .. } => {},
        }
        proof {
            let acts = layer.actions@;
            assert(acts.take(k + 1).take(k as int) =~= acts.take(k as int));
            assert forall|x: AtomId| #[trigger] atoms@.contains(x) <==> actions_use_atom(
                acts.take(k + 1),
                x.0,
            ) by {
                let cur = action_atoms(acts[k as int]);
                if cur.contains(x.0) {
                    let j = choose|j: int| 0 <= j < cur.len() && cur[j] == x.0;
                    assert(acts.take(k + 1)[k as int] == acts[k as int]);
                    match acts[k as int] {
                        NeutralAtomAction::Move(g) => {
                            assert(g.moves@[j].atom == x);
                        },
                        NeutralAtomAction::EntangleN { atoms: aa, .. } => {
                            assert(aa@[j] == x);
                        },
                        NeutralAtomAction::Entangle2 { atoms: aa, .. } => {
                            assert(aa@[j] == x);
                        },
                        _ => {},
                    }
                }
                if atoms@.contains(x) && !before.contains(x) {
                    match acts[k as int] {
                        NeutralAtomAction::Move(g) => {
                            let t = choose|t: int| 0 <= t < g.moves@.len() && g.moves@[t].atom == x;
                            assert(cur[t] == x.0);
                        },
                        NeutralAtomAction::EntangleN { atoms: aa, .. } => {
                            let t = choose|t: int| 0 <= t < aa@.len() && aa@[t] == x;
                            assert(cur[t] == x.0);
                        },
                        NeutralAtomAction::Entangle2 { atoms: aa, .. } => {
                            assert(cur[0] == aa@[0].0);
                            assert(cur[1] == aa@[1].0);
                        },
                        _ => {
                            assert(cur[0] == x.0);
                        },
                    }
                    assert(acts.take(k + 1)[k as int] == acts[k as int]);
                }
                if actions_use_atom(acts.take(k + 1), x.0) {
                    let q = choose|q: int|
                        0 <= q < k + 1 && #[trigger] action_atoms(acts.take(k + 1)[q]).contains(x.0);
                    if q < k {
                        assert(acts.take(k as int)[q] == acts.take(k + 1)[q]);
                    }
                }
                if before.contains(x) {
                    let q = choose|q: int|
                        0 <= q < k && #[trigger] action_atoms(acts.take(k as int)[q]).contains(x.0);
                    assert(acts.take(k + 1)[q] == acts.take(k as int)[q]);
                }
            }
        }
        k += 1;
    }
    proof {
        assert(layer.actions@.take(layer.actions.len() as int) =~= layer.actions@);
    }
    atoms
}


/// The dependency list has no two entries with the same endpoints and kind.
pub open spec fn deps_unique(deps: Seq<ScheduleDependency>) -> bool {
    forall|i: int, j: int| 0 <= i < j < deps.len() ==> deps[i] != deps[j]
}

/// Infer atom-hazard dependencies: layer `a` depends on `b` when some atom of
/// `a` was last touched by `b`. Never invents feed-forward edges.
pub fn infer_atom_dependencies(layers: &[ScheduleLayer]) -> (deps: Vec<ScheduleDependency>)
    requires
        layers@.len() <= u32::MAX,
    ensures
        deps_unique(deps@),
        forall|k: int| 0 <= k < deps@.len() ==> {
            &&& (#[trigger] deps@[k]).kind == ScheduleDependencyKind::AtomHazard
            &&& is_hazard(layers@, deps@[k].before as int, deps@[k].after as int)
        },
        forall|b: int, a: int| #[trigger] is_hazard(layers@, b, a) ==> exists|k: int|
            0 <= k < deps@.len() && deps@[k].before == b && deps@[k].after == a,
        forall|k1: int, k2: int| 0 <= k1 < k2 < deps@.len() ==> deps@[k1].after <= deps@[k2].after,
{
    let ghost ls = layers@;
    let mut last: std::collections::BTreeMap<u32, u32> = std::collections::BTreeMap::new();
    let mut deps: Vec<ScheduleDependency> = Vec::new();
    let mut idx: usize = 0;
    while idx < layers.len()
        invariant
            ls == layers@,
            idx <= layers.len(),
            layers@.len() <= u32::MAX,
            forall|x: u32| #[trigger] last@.contains_key(x) <==> last_use(ls, x, idx as int) is Some,
            forall|x: u32| #[trigger] last@.contains_key(x) ==> last@[x] as int == last_use(ls, x, idx as int)->0,
            deps_unique(deps@),
            forall|k: int| 0 <= k < deps@.len() ==> {
                &&& (#[trigger] deps@[k]).kind == ScheduleDependencyKind::AtomHazard
                &&& is_hazard(ls, deps@[k].before as int, deps@[k].after as int)
                &&& deps@[k].after < idx
            },
            forall|b: int, a: int| #[trigger] is_hazard(ls, b, a) && a < idx ==> exists|k: int|
                0 <= k < deps@.len() && deps@[k].before == b && deps@[k].after == a,
            forall|k1: int, k2: int| 0 <= k1 < k2 < deps@.len() ==> deps@[k1].after <= deps@[k2].after,
        decreases layers.len() - idx,
    {
        let i = idx as u32;
        let atoms = layer_atoms(&layers[idx]);
        let start = deps.len();
        let mut t: usize = 0;
        while t < atoms.len()
            invariant
                ls == layers@,
                idx < layers.len(),
                i == idx,
                start <= deps@.len(),
                t <= atoms.len(),
                strictly_sorted(atoms@),
                forall|x: AtomId| #[trigger] atoms@.contains(x) <==> layer_uses_atom(ls[idx as int], x.0),
                forall|x: u32| #[trigger] last@.contains_key(x) <==> (last_use(ls, x, idx as int) is Some
                    || exists|q: int| 0 <= q < t && atoms@[q].0 == x),
                forall|x: u32| #[trigger] last@.contains_key(x) ==> {
                    if exists|q: int| 0 <= q < t && atoms@[q].0 == x {
                        last@[x] == i
                    } else {
                        last@[x] as int == last_use(ls, x, idx as int)->0
                    }
                },
                deps_unique(deps@),
                forall|k: int| 0 <= k < deps@.len() ==> {
                    &&& (#[trigger] deps@[k]).kind == ScheduleDependencyKind::AtomHazard
                    &&& is_hazard(ls, deps@[k].before as int, deps@[k].after as int)
                    &&& (k < start ==> deps@[k].after < idx)
                    &&& (k >= start ==> deps@[k].after == idx)
                },
                forall|b: int, a: int| #[trigger] is_hazard(ls, b, a) && a < idx ==> exists|k: int|
                    0 <= k < start && deps@[k].before == b && deps@[k].after == a,
                forall|q: int| 0 <= q < t && (#[trigger] last_use(ls, atoms@[q].0, idx as int)) is Some ==> exists|k: int|
                    start <= k < deps@.len() && deps@[k].before == last_use(ls, atoms@[q].0, idx as int)->0
                        && deps@[k].after == idx,
                forall|k1: int, k2: int| 0 <= k1 < k2 < deps@.len() ==> deps@[k1].after <= deps@[k2].after,
            decreases atoms.len() - t,
        {
            let atom = atoms[t].0;
            let ghost d0 = deps@;
            proof {
                assert(atoms@.contains(atoms@[t as int]));
                lemma_last_use(ls, atom, idx as int);
                assert forall|q: int| 0 <= q < t implies atoms@[q].0 != atom by {}
            }
            match last.get(&atom) {
                Some(pred_ref) => {
                    let pred = *pred_ref;
                    let ghost b = last_use(ls, atom, idx as int)->0;
                    assert(is_hazard(ls, b, idx as int));
                    let mut found = false;
                    let mut s = start;
                    while s < deps.len()
                        invariant
                            start <= s <= deps@.len(),
                            found == exists|k: int| start <= k < s && deps@[k].before == pred && deps@[k].after == i,
                        decreases deps.len() - s,
                    {
                        if deps[s].before == pred && deps[s].after == i {
                            found = true;
                        }
                        s += 1;
                    }
                    if !found {
                        let ghost old_deps = deps@;
                        deps.push(ScheduleDependency { before: pred, after: i, kind: ScheduleDependencyKind::AtomHazard });
                        proof {
                            assert forall|k1: int, k2: int| 0 <= k1 < k2 < deps@.len() implies deps@[k1] != deps@[k2] by {
                                if k2 == deps@.len() - 1 && k1 >= start {
                                    assert(old_deps[k1] == deps@[k1]);
                                }
                                if k2 == deps@.len() - 1 && k1 < start {
                                    assert(deps@[k1].after < idx);
                                }
                            }
                            assert(deps@[deps@.len() - 1].before == pred);
                        }
                    }
                },
                None => {},
            }
            let ghost old_last = last@;
            last.insert(atom, i);
            proof {
                assert(d0.len() <= deps@.len());
                assert(forall|k: int| 0 <= k < d0.len() ==> deps@[k] == d0[k]);
                assert forall|b: int, a: int| #[trigger] is_hazard(ls, b, a) && a < idx implies exists|k: int|
                    0 <= k < start && deps@[k].before == b && deps@[k].after == a by {
                    let k = choose|k: int| 0 <= k < start && d0[k].before == b && d0[k].after == a;
                    assert(deps@[k] == d0[k]);
                }
                assert forall|q: int| 0 <= q < t + 1 && (#[trigger] last_use(ls, atoms@[q].0, idx as int)) is Some implies exists|k: int|
                    start <= k < deps@.len() && deps@[k].before == last_use(ls, atoms@[q].0, idx as int)->0
                        && deps@[k].after == idx by {
                    if q == t {
                        assert(old_last.contains_key(atom));
                        if exists|k: int| start <= k < d0.len() && d0[k].before == old_last[atom] && d0[k].after == i {
                            let k = choose|k: int| start <= k < d0.len() && d0[k].before == old_last[atom] && d0[k].after == i;
                            assert(deps@[k] == d0[k]);
                        } else {
                            assert(deps@[deps@.len() - 1].before == old_last[atom]);
                        }
                    } else {
                        let k = choose|k: int| start <= k < d0.len() && d0[k].before == last_use(ls, atoms@[q].0, idx as int)->0
                            && d0[k].after == idx;
                        assert(deps@[k] == d0[k]);
                    }
                }
                assert forall|x: u32| #[trigger] last@.contains_key(x) <==> (last_use(ls, x, idx as int) is Some
                    || exists|q: int| 0 <= q < t + 1 && atoms@[q].0 == x) by {
                    if x == atom {
                        assert(atoms@[t as int].0 == x);
                    } else if exists|q: int| 0 <= q < t + 1 && atoms@[q].0 == x {
                        let q = choose|q: int| 0 <= q < t + 1 && atoms@[q].0 == x;
                        assert(q != t);
                    }
                }
                assert forall|x: u32| #[trigger] last@.contains_key(x) implies {
                    if exists|q: int| 0 <= q < t + 1 && atoms@[q].0 == x {
                        last@[x] == i
                    } else {
                        last@[x] as int == last_use(ls, x, idx as int)->0
                    }
                } by {
                    if exists|q: int| 0 <= q < t + 1 && atoms@[q].0 == x {
                        let q = choose|q: int| 0 <= q < t + 1 && atoms@[q].0 == x;
                        if x != atom {
                            assert(q != t);
                            assert(exists|q: int| 0 <= q < t && atoms@[q].0 == x);
                        }
                    } else {
                        assert(x != atoms@[t as int].0);
                        if exists|q: int| 0 <= q < t && atoms@[q].0 == x {
                            assert(false);
                        }
                    }
                }
            }
            t += 1;
        }
        proof {
            assert forall|x: u32| #[trigger] last@.contains_key(x) <==> last_use(ls, x, idx + 1) is Some by {
                assert(last_use(ls, x, idx + 1) == if layer_uses_atom(ls[idx as int], x) { Some(idx as int) } else { last_use(ls, x, idx as int) });
                if layer_uses_atom(ls[idx as int], x) {
                    assert(atoms@.contains(AtomId(x)));
                    let q = choose|q: int| 0 <= q < atoms@.len() && atoms@[q] == AtomId(x);
                    assert(atoms@[q].0 == x);
                }
                if exists|q: int| 0 <= q < t && atoms@[q].0 == x {
                    let q = choose|q: int| 0 <= q < t && atoms@[q].0 == x;
                    assert(atoms@.contains(atoms@[q]));
                    assert(atoms@[q] == AtomId(x));
                }
            }
            assert forall|x: u32| #[trigger] last@.contains_key(x) implies last@[x] as int == last_use(ls, x, idx + 1)->0 by {
                assert(last_use(ls, x, idx + 1) == if layer_uses_atom(ls[idx as int], x) { Some(idx as int) } else { last_use(ls, x, idx as int) });
                if layer_uses_atom(ls[idx as int], x) {
                    assert(atoms@.contains(AtomId(x)));
                    let q = choose|q: int| 0 <= q < atoms@.len() && atoms@[q] == AtomId(x);
                    assert(atoms@[q].0 == x);
                } else if exists|q: int| 0 <= q < t && atoms@[q].0 == x {
                    let q = choose|q: int| 0 <= q < t && atoms@[q].0 == x;
                    assert(atoms@.contains(atoms@[q]));
                    assert(atoms@[q] == AtomId(x));
                }
            }
            assert forall|b: int, a: int| #[trigger] is_hazard(ls, b, a) && a < idx + 1 implies exists|k: int|
                0 <= k < deps@.len() && deps@[k].before == b && deps@[k].after == a by {
                if a == idx {
                    let x = choose|x: u32| layer_uses_atom(ls[a], x) && #[trigger] last_use(ls, x, a) == Some(b);
                    assert(atoms@.contains(AtomId(x)));
                    let q = choose|q: int| 0 <= q < atoms@.len() && atoms@[q] == AtomId(x);
                    assert(last_use(ls, atoms@[q].0, idx as int) is Some);
                } else {
                    let k = choose|k: int| 0 <= k < start && deps@[k].before == b && deps@[k].after == a;
                }
            }
        }
        idx += 1;
    }
    deps
}

/// Feed-forward edges from one measurement layer to each correction layer.
pub fn feed_forward_dependencies(measure_layer: u32, correction_layers: &[u32]) -> (deps: Vec<ScheduleDependency>)
    ensures
        deps@.len() == correction_layers@.len(),
        forall|k: int| 0 <= k < deps@.len() ==> #[trigger] deps@[k] == (ScheduleDependency {
            before: measure_layer,
            after: correction_layers@[k],
            kind: ScheduleDependencyKind::FeedForward,
        }),
{
    let mut deps: Vec<ScheduleDependency> = Vec::new();
    let mut k: usize = 0;
    while k < correction_layers.len()
        invariant
            k <= correction_layers.len(),
            deps@.len() == k,
            forall|j: int| 0 <= j < k ==> #[trigger] deps@[j] == (ScheduleDependency {
                before: measure_layer,
                after: correction_layers@[j],
                kind: ScheduleDependencyKind::FeedForward,
            }),
        decreases correction_layers.len() - k,
    {
        deps.push(ScheduleDependency {
            before: measure_layer,
            after: correction_layers[k],
            kind: ScheduleDependencyKind::FeedForward,
        });
        k += 1;
    }
    deps
}

/// A number for each dependency kind, in declaration order.
pub open spec fn kind_code_spec(k: ScheduleDependencyKind) -> u8 {
    match k {
        ScheduleDependencyKind::AtomHazard => 0,
        ScheduleDependencyKind::Barrier => 1,
        ScheduleDependencyKind::Measurement => 2,
        ScheduleDependencyKind::FeedForward => 3,
    }
}

/// The number of a dependency kind.
fn kind_code(k: ScheduleDependencyKind) -> (c: u8)
    ensures
        c == kind_code_spec(k),
{
    match k {
        ScheduleDependencyKind::AtomHazard => 0,
        ScheduleDependencyKind::Barrier => 1,
        ScheduleDependencyKind::Measurement => 2,
        ScheduleDependencyKind::FeedForward => 3,
    }
}

/// The key that identifies a dependency: endpoints and kind.
pub open spec fn dep_key(d: ScheduleDependency) -> (u32, u32, u8) {
    (d.before, d.after, kind_code_spec(d.kind))
}

/// `seen` holds exactly the keys of `deps`.
pub open spec fn keys_match(seen: Set<(u32, u32, u8)>, deps: Seq<ScheduleDependency>) -> bool {
    forall|key: (u32, u32, u8)| #[trigger] seen.contains(key) <==> exists|k: int|
        0 <= k < deps.len() && dep_key(deps[k]) == key
}

/// Append `d` unless an identical dependency is already present.
fn push_unique(
    deps: &mut Vec<ScheduleDependency>,
    seen: &mut std::collections::BTreeSet<(u32, u32, u8)>,
    d: ScheduleDependency,
)
    requires
        deps_unique(old(deps)@),
        keys_match(old(seen)@, old(deps)@),
    ensures
        deps_unique(final(deps)@),
        keys_match(final(seen)@, final(deps)@),
        forall|t: ScheduleDependency| #[trigger] final(deps)@.contains(t) <==> (old(deps)@.contains(t) || t == d),
        final(deps)@.len() >= old(deps)@.len(),
        forall|k: int| 0 <= k < old(deps)@.len() ==> final(deps)@[k] == old(deps)@[k],
{
    let key = (d.before, d.after, kind_code(d.kind));
    let ghost d0 = deps@;
    if seen.insert(key) {
        deps.push(d);
        proof {
            assert(deps@[deps@.len() - 1] == d);
            assert forall|i: int, j: int| 0 <= i < j < deps@.len() implies deps@[i] != deps@[j] by {
                if j == deps@.len() - 1 {
                    assert(d0[i] == deps@[i]);
                    if deps@[i] == d {
                        assert(dep_key(d0[i]) == key);
                    }
                }
            }
            assert forall|kk: (u32, u32, u8)| #[trigger] seen@.contains(kk) <==> exists|k: int|
                0 <= k < deps@.len() && dep_key(deps@[k]) == kk by {
                if seen@.contains(kk) && kk != key {
                    let k = choose|k: int| 0 <= k < d0.len() && dep_key(d0[k]) == kk;
                    assert(deps@[k] == d0[k]);
                }
                if kk == key {
                    assert(dep_key(deps@[deps@.len() - 1]) == kk);
                }
                if exists|k: int| 0 <= k < deps@.len() && dep_key(deps@[k]) == kk {
                    let k = choose|k: int| 0 <= k < deps@.len() && dep_key(deps@[k]) == kk;
                    if k < d0.len() {
                        assert(d0[k] == deps@[k]);
                    }
                }
            }
            assert forall|t: ScheduleDependency| #[trigger] deps@.contains(t) <==> (d0.contains(t) || t == d) by {
                if deps@.contains(t) {
                    let k = choose|k: int| 0 <= k < deps@.len() && deps@[k] == t;
                    if k < d0.len() {
                        assert(d0[k] == t);
                    }
                }
                if d0.contains(t) {
                    let k = choose|k: int| 0 <= k < d0.len() && d0[k] == t;
                    assert(deps@[k] == t);
                }
            }
        }
    } else {
        proof {
            let k = choose|k: int| 0 <= k < d0.len() && dep_key(d0[k]) == key;
            assert(d0[k].kind == d.kind) by {
                assert(kind_code_spec(d0[k].kind) == kind_code_spec(d.kind));
            }
            assert(d0[k] == d);
            assert forall|t: ScheduleDependency| #[trigger] deps@.contains(t) <==> (d0.contains(t) || t == d) by {
                if t == d {
                    assert(deps@[k] == t);
                }
            }
        }
    }
}

/// A caller dependency names two distinct layers of a schedule with `n` layers.
pub open spec fn valid_dep(d: ScheduleDependency, n: int) -> bool {
    d.before < n && d.after < n && d.before != d.after
}

/// The ordered pairs that a barrier at layer `m` adds: every earlier layer
/// before the barrier, the barrier before every later layer, and every
/// earlier layer before every later layer.
pub open spec fn barrier_pair(m: int, n: int, b: int, a: int) -> bool {
    ||| (a == m && 0 <= b < m)
    ||| (b == m && m < a < n)
    ||| (0 <= b < m && m < a < n)
}

/// The full dependency set: inferred atom hazards, caller edges and the
/// cut closure of every caller barrier.
pub open spec fn merged_dep(layers: Seq<ScheduleLayer>, caller: Seq<ScheduleDependency>, t: ScheduleDependency) -> bool {
    ||| (t.kind == ScheduleDependencyKind::AtomHazard && is_hazard(layers, t.before as int, t.after as int))
    ||| caller.contains(t)
    ||| (t.kind == ScheduleDependencyKind::Barrier && exists|k: int|
        0 <= k < caller.len() && (#[trigger] caller[k]).kind == ScheduleDependencyKind::Barrier
            && barrier_pair(caller[k].before as int, layers.len() as int, t.before as int, t.after as int))
}

/// Merge inferred atom hazards with caller dependencies and barrier cuts.
///
/// Fails on the first caller dependency that names a layer out of range or
/// an edge from a layer to itself.
pub fn merge_deps(layers: &[ScheduleLayer], caller: &[ScheduleDependency]) -> (res: Result<Vec<ScheduleDependency>, CompactionError>)
    requires
        layers@.len() <= u32::MAX,
    ensures
        match res {
            Ok(deps) => {
                &&& forall|k: int| 0 <= k < caller@.len() ==> valid_dep(#[trigger] caller@[k], layers@.len() as int)
                &&& deps_unique(deps@)
                &&& forall|t: ScheduleDependency| #[trigger] deps@.contains(t) <==> merged_dep(layers@, caller@, t)
            },
            Err(e) => exists|k: int| {
                &&& 0 <= k < caller@.len()
                &&& !valid_dep(#[trigger] caller@[k], layers@.len() as int)
                &&& forall|j: int| 0 <= j < k ==> valid_dep(#[trigger] caller@[j], layers@.len() as int)
                &&& e == CompactionError::InvalidDependency(caller@[k].before, caller@[k].after)
            },
        },
{
    let n = layers.len() as u32;
    let ghost ls = layers@;
    let inferred = infer_atom_dependencies(layers);
    let mut deps: Vec<ScheduleDependency> = Vec::new();
    let mut seen: std::collections::BTreeSet<(u32, u32, u8)> = std::collections::BTreeSet::new();
    let mut q: usize = 0;
    while q < inferred.len()
        invariant
            q <= inferred.len(),
            deps_unique(deps@),
            keys_match(seen@, deps@),
            forall|t: ScheduleDependency| #[trigger] deps@.contains(t) <==> exists|j: int| 0 <= j < q && inferred@[j] == t,
        decreases inferred.len() - q,
    {
        push_unique(&mut deps, &mut seen, inferred[q]);
        proof {
            assert forall|t: ScheduleDependency| #[trigger] deps@.contains(t) <==> exists|j: int| 0 <= j < q + 1 && inferred@[j] == t by {
                if t == inferred@[q as int] {
                    assert(exists|j: int| 0 <= j < q + 1 && inferred@[j] == t);
                }
                if exists|j: int| 0 <= j < q + 1 && inferred@[j] == t {
                    let j = choose|j: int| 0 <= j < q + 1 && inferred@[j] == t;
                    if j < q {
                        assert(exists|j: int| 0 <= j < q && inferred@[j] == t);
                    }
                }
            }
        }
        q += 1;
    }
    proof {
        assert forall|t: ScheduleDependency| #[trigger] deps@.contains(t) <==> merged_dep(ls, caller@.take(0), t) by {
            if deps@.contains(t) {
                let j = choose|j: int| 0 <= j < inferred@.len() && inferred@[j] == t;
                assert(inferred@[j].kind == ScheduleDependencyKind::AtomHazard);
            }
            if t.kind == ScheduleDependencyKind::AtomHazard && is_hazard(ls, t.before as int, t.after as int) {
                let j = choose|j: int| 0 <= j < inferred@.len() && inferred@[j].before == t.before && inferred@[j].after == t.after;
                assert(inferred@[j] == t);
            }
        }
    }
    let mut k: usize = 0;
    while k < caller.len()
        invariant
            ls == layers@,
            n as int == ls.len(),
            k <= caller.len(),
            forall|j: int| 0 <= j < k ==> valid_dep(#[trigger] caller@[j], n as int),
            deps_unique(deps@),
            keys_match(seen@, deps@),
            forall|t: ScheduleDependency| #[trigger] deps@.contains(t) <==> merged_dep(ls, caller@.take(k as int), t),
        decreases caller.len() - k,
    {
        let d = caller[k];
        if d.before >= n || d.after >= n || d.before == d.after {
            return Err(CompactionError::InvalidDependency(d.before, d.after));
        }
        let ghost pre = caller@.take(k as int);
        let ghost post = caller@.take(k + 1);
        proof {
            assert(post =~= pre.push(d));
            assert forall|t: ScheduleDependency| merged_dep(ls, post, t) <==> (merged_dep(ls, pre, t) || t == d
                || (d.kind == ScheduleDependencyKind::Barrier && t.kind == ScheduleDependencyKind::Barrier
                    && barrier_pair(d.before as int, n as int, t.before as int, t.after as int))) by {
                if t.kind == ScheduleDependencyKind::Barrier && exists|kk: int|
                    0 <= kk < post.len() && (#[trigger] post[kk]).kind == ScheduleDependencyKind::Barrier
                        && barrier_pair(post[kk].before as int, n as int, t.before as int, t.after as int) {
                    let kk = choose|kk: int|
                        0 <= kk < post.len() && (#[trigger] post[kk]).kind == ScheduleDependencyKind::Barrier
                            && barrier_pair(post[kk].before as int, n as int, t.before as int, t.after as int);
                    if kk < pre.len() {
                        assert(pre[kk] == post[kk]);
                    }
                }
                if merged_dep(ls, pre, t) && t.kind == ScheduleDependencyKind::Barrier && exists|kk: int|
                    0 <= kk < pre.len() && (#[trigger] pre[kk]).kind == ScheduleDependencyKind::Barrier
                        && barrier_pair(pre[kk].before as int, n as int, t.before as int, t.after as int) {
                    let kk = choose|kk: int|
                        0 <= kk < pre.len() && (#[trigger] pre[kk]).kind == ScheduleDependencyKind::Barrier
                            && barrier_pair(pre[kk].before as int, n as int, t.before as int, t.after as int);
                    assert(post[kk] == pre[kk]);
                }
                if pre.contains(t) {
                    let kk = choose|kk: int| 0 <= kk < pre.len() && pre[kk] == t;
                    assert(post[kk] == t);
                }
                if post.contains(t) {
                    let kk = choose|kk: int| 0 <= kk < post.len() && post[kk] == t;
                    if kk < pre.len() {
                        assert(pre[kk] == t);
                    }
                }
                if d.kind == ScheduleDependencyKind::Barrier && t.kind == ScheduleDependencyKind::Barrier
                    && barrier_pair(d.before as int, n as int, t.before as int, t.after as int) {
                    assert(post[pre.len() as int] == d);
                }
                if t == d {
                    assert(post[pre.len() as int] == d);
                }
            }
        }
        push_unique(&mut deps, &mut seen, d);
        if d.kind == ScheduleDependencyKind::Barrier {
            let m = d.before;
            let mut i: u32 = 0;
            while i < m
                invariant
                    m == d.before,
                    m < n,
                    i <= m,
                    deps_unique(deps@),
                    keys_match(seen@, deps@),
                    forall|t: ScheduleDependency| #[trigger] deps@.contains(t) <==> (merged_dep(ls, pre, t) || t == d
                        || (t.kind == ScheduleDependencyKind::Barrier && t.after == m && t.before < i)),
                decreases m - i,
            {
                push_unique(&mut deps, &mut seen, ScheduleDependency { before: i, after: m, kind: ScheduleDependencyKind::Barrier });
                i += 1;
            }
            let mut j: u32 = m + 1;
            while j < n
                invariant
                    m == d.before,
                    m < n,
                    m < j <= n,
                    deps_unique(deps@),
                    keys_match(seen@, deps@),
                    forall|t: ScheduleDependency| #[trigger] deps@.contains(t) <==> (merged_dep(ls, pre, t) || t == d
                        || (t.kind == ScheduleDependencyKind::Barrier && t.after == m && t.before < m)
                        || (t.kind == ScheduleDependencyKind::Barrier && t.before == m && m < t.after < j)),
                decreases n - j,
            {
                push_unique(&mut deps, &mut seen, ScheduleDependency { before: m, after: j, kind: ScheduleDependencyKind::Barrier });
                j += 1;
            }
            let mut i: u32 = 0;
            while i < m
                invariant
                    m == d.before,
                    m < n,
                    i <= m,
                    deps_unique(deps@),
                    keys_match(seen@, deps@),
                    forall|t: ScheduleDependency| #[trigger] deps@.contains(t) <==> (merged_dep(ls, pre, t) || t == d
                        || (t.kind == ScheduleDependencyKind::Barrier && t.after == m && t.before < m)
                        || (t.kind == ScheduleDependencyKind::Barrier && t.before == m && m < t.after < n)
                        || (t.kind == ScheduleDependencyKind::Barrier && t.before < i && m < t.after < n)),
                decreases m - i,
            {
                let mut j: u32 = m + 1;
                while j < n
                    invariant
                        m == d.before,
                        m < n,
                        i < m,
                        m < j <= n,
                        deps_unique(deps@),
                        keys_match(seen@, deps@),
                        forall|t: ScheduleDependency| #[trigger] deps@.contains(t) <==> (merged_dep(ls, pre, t) || t == d
                            || (t.kind == ScheduleDependencyKind::Barrier && t.after == m && t.before < m)
                            || (t.kind == ScheduleDependencyKind::Barrier && t.before == m && m < t.after < n)
                            || (t.kind == ScheduleDependencyKind::Barrier && t.before < i && m < t.after < n)
                            || (t.kind == ScheduleDependencyKind::Barrier && t.before == i && m < t.after < j)),
                    decreases n - j,
                {
                    push_unique(&mut deps, &mut seen, ScheduleDependency { before: i, after: j, kind: ScheduleDependencyKind::Barrier });
                    j += 1;
                }
                i += 1;
            }
        }
        k += 1;
    }
    proof {
        assert(caller@.take(caller@.len() as int) =~= caller@);
    }
    Ok(deps)
}

/// `b → a` is an edge of the dependency list restricted to `n` layers.
pub open spec fn dep_edge(deps: Seq<ScheduleDependency>, n: int, b: int, a: int) -> bool {
    0 <= b < n && 0 <= a < n && exists|k: int|
        0 <= k < deps.len() && (#[trigger] deps[k]).before == b && deps[k].after == a
}

/// Sorted strictly increasing.
pub open spec fn sorted_usize(s: Seq<usize>) -> bool {
    forall|i: int, j: int| 0 <= i < j < s.len() ==> s[i] < s[j]
}

/// Insert `x` into a strictly increasing list unless present.
fn insert_sorted_usize(v: &mut Vec<usize>, x: usize)
    requires
        sorted_usize(old(v)@),
    ensures
        sorted_usize(final(v)@),
        forall|y: usize| #[trigger] final(v)@.contains(y) <==> (old(v)@.contains(y) || y == x),
{
    let mut i: usize = 0;
    while i < v.len() && v[i] < x
        invariant
            i <= v.len(),
            sorted_usize(v@),
            forall|k: int| 0 <= k < i ==> v@[k] < x,
        decreases v.len() - i,
    {
        i += 1;
    }
    if i < v.len() && v[i] == x {
        return;
    }
    let ghost old_v = v@;
    v.insert(i, x);
    proof {
        assert forall|y: usize| #[trigger] v@.contains(y) <==> (old_v.contains(y) || y == x) by {
            if v@.contains(y) {
                let k = choose|k: int| 0 <= k < v@.len() && v@[k] == y;
                if k < i {
                    assert(old_v[k] == y);
                } else if k > i {
                    assert(old_v[k - 1] == y);
                }
            }
            if old_v.contains(y) {
                let k = choose|k: int| 0 <= k < old_v.len() && old_v[k] == y;
                if k < i {
                    assert(v@[k] == y);
                } else {
                    assert(v@[k + 1] == y);
                }
            }
            if y == x {
                assert(v@[i as int] == y);
            }
        }
    }
}

/// Predecessor lists: `preds[a]` is the sorted set of `b` with an edge `b → a`.
pub fn preds_map(n: usize, deps: &[ScheduleDependency]) -> (preds: Vec<Vec<usize>>)
    ensures
        preds@.len() == n,
        forall|a: int| 0 <= a < n ==> sorted_usize(#[trigger] preds@[a]@),
        forall|a: int, b: usize| 0 <= a < n ==> (#[trigger] preds@[a]@.contains(b) <==> dep_edge(deps@, n as int, b as int, a)),
{
    let mut preds: Vec<Vec<usize>> = Vec::new();
    let mut i: usize = 0;
    while i < n
        invariant
            i <= n,
            preds@.len() == i,
            forall|a: int| 0 <= a < i ==> preds@[a]@.len() == 0,
        decreases n - i,
    {
        preds.push(Vec::new());
        i += 1;
    }
    let mut k: usize = 0;
    while k < deps.len()
        invariant
            k <= deps.len(),
            preds@.len() == n,
            forall|a: int| 0 <= a < n ==> sorted_usize(#[trigger] preds@[a]@),
            forall|a: int, b: usize| 0 <= a < n ==> (#[trigger] preds@[a]@.contains(b) <==> (0 <= b < n
                && exists|j: int| 0 <= j < k && (#[trigger] deps@[j]).before == b && deps@[j].after == a)),
        decreases deps.len() - k,
    {
        let b = deps[k].before as usize;
        let a = deps[k].after as usize;
        if b < n && a < n {
            let ghost before_preds = preds@;
            let mut row = Vec::new();
            std::mem::swap(&mut row, &mut preds[a]);
            insert_sorted_usize(&mut row, b);
            std::mem::swap(&mut row, &mut preds[a]);
            proof {
                assert forall|aa: int, bb: usize| 0 <= aa < n implies (#[trigger] preds@[aa]@.contains(bb) <==> (0 <= bb < n
                    && exists|j: int| 0 <= j < k + 1 && (#[trigger] deps@[j]).before == bb && deps@[j].after == aa)) by {
                    if aa != a {
                        assert(preds@[aa] == before_preds[aa]);
                    }
                    if exists|j: int| 0 <= j < k + 1 && (#[trigger] deps@[j]).before == bb && deps@[j].after == aa {
                        let j = choose|j: int| 0 <= j < k + 1 && (#[trigger] deps@[j]).before == bb && deps@[j].after == aa;
                        if j < k {
                            assert(exists|j: int| 0 <= j < k && (#[trigger] deps@[j]).before == bb && deps@[j].after == aa);
                        }
                    }
                }
            }
        } else {
            proof {
                assert forall|aa: int, bb: usize| 0 <= aa < n implies (#[trigger] preds@[aa]@.contains(bb) <==> (0 <= bb < n
                    && exists|j: int| 0 <= j < k + 1 && (#[trigger] deps@[j]).before == bb && deps@[j].after == aa)) by {
                    if exists|j: int| 0 <= j < k + 1 && (#[trigger] deps@[j]).before == bb && deps@[j].after == aa {
                        let j = choose|j: int| 0 <= j < k + 1 && (#[trigger] deps@[j]).before == bb && deps@[j].after == aa;
                        if j < k {
                            assert(exists|j: int| 0 <= j < k && (#[trigger] deps@[j]).before == bb && deps@[j].after == aa);
                        }
                    }
                }
            }
        }
        k += 1;
    }
    preds
}

/// Lower bound that predecessor `p` puts on the cycle of layer `i` when the
/// layers are processed in index order: one past the predecessor's cycle if
/// it was already placed, else one past cycle 0.
pub open spec fn pred_bound(cyc: Seq<int>, p: int, i: int) -> int {
    if p < i { cyc[p] + 1 } else { 1 }
}

/// `cyc` is the exclusive-cycle ASAP assignment for `n` layers under the edge
/// relation of `deps`: every layer sits at the least cycle that is at least
/// every predecessor bound and that no earlier layer already occupies.
pub open spec fn asap_ok(deps: Seq<ScheduleDependency>, n: int, cyc: Seq<int>) -> bool {
    &&& cyc.len() == n
    &&& forall|i: int| 0 <= i < n ==> 0 <= #[trigger] cyc[i] <= i + 1
    &&& forall|p: int, i: int| #[trigger] dep_edge(deps, n, p, i) ==> cyc[i] >= pred_bound(cyc, p, i)
    &&& forall|j: int, i: int| 0 <= j < i < n ==> cyc[j] != cyc[i]
    &&& forall|i: int, t: int| 0 <= i < n && 0 <= t < cyc[i] ==> #[trigger] cycle_blocked(deps, n, cyc, i, t)
}

/// Cycle `t` is unavailable to layer `i`: a predecessor forces a later cycle
/// or an earlier layer already occupies it.
pub open spec fn cycle_blocked(deps: Seq<ScheduleDependency>, n: int, cyc: Seq<int>, i: int, t: int) -> bool {
    (exists|p: int| dep_edge(deps, n, p, i) && pred_bound(cyc, p, i) > t)
    || (exists|j: int| 0 <= j < i && cyc[j] == t)
}

/// Cycle `t` is ruled out for layer `i`: a dependency needs a later cycle, or an earlier layer holds `t`.
pub open spec fn cycle_blocked_u32(deps: Seq<ScheduleDependency>, n: int, asap: Seq<u32>, i: int, t: int) -> bool {
    (exists|p: int| dep_edge(deps, n, p, i) && (if p < i { asap[p] + 1 } else { 1 }) > t)
    || (exists|j: int| 0 <= j < i && asap[j] == t)
}

/// `order` lists every index below `n` exactly once.
pub open spec fn is_permutation(order: Seq<int>, n: int) -> bool {
    &&& order.len() == n
    &&& forall|k: int| 0 <= k < n ==> 0 <= #[trigger] order[k] < n
    &&& forall|k1: int, k2: int| 0 <= k1 < k2 < n ==> order[k1] != order[k2]
}

/// The single input index that each output layer carries.
pub open spec fn lineage_heads(lineage: Seq<Vec<u32>>) -> Seq<int> {
    Seq::new(lineage.len(), |k: int| lineage[k]@[0] as int)
}

/// Output of exclusive-cycle ASAP: layers sorted by cycle, the makespan and
/// the input indices carried by each output layer.
pub struct AsapSchedule {
    pub layers: Vec<ScheduleLayer>,
    pub makespan: u32,
    pub lineage: Vec<Vec<u32>>,
}

/// Exclusive-cycle ASAP: earliest cycle after every predecessor, at most one
/// layer per cycle; never merges action content. Output is sorted by cycle.
pub fn exclusive_cycle_asap(layers: Vec<ScheduleLayer>, deps: &[ScheduleDependency]) -> (out: AsapSchedule)
    requires
        0 < layers@.len() < u32::MAX - 2,
    ensures
        out.layers@.len() == layers@.len(),
        out.lineage@.len() == layers@.len(),
        forall|k: int| 0 <= k < out.lineage@.len() ==> (#[trigger] out.lineage@[k])@.len() == 1,
        is_permutation(lineage_heads(out.lineage@), layers@.len() as int),
        forall|k: int| 0 <= k < out.layers@.len() ==> (#[trigger] out.layers@[k]).actions
            == layers@[out.lineage@[k]@[0] as int].actions,
        forall|k1: int, k2: int| 0 <= k1 < k2 < out.layers@.len() ==> out.layers@[k1].cycle < out.layers@[k2].cycle,
        exists|cyc: Seq<int>| {
            &&& asap_ok(deps@, layers@.len() as int, cyc)
            &&& forall|k: int| 0 <= k < out.layers@.len() ==> (#[trigger] out.layers@[k]).cycle == cyc[out.lineage@[k]@[0] as int]
        },
        out.makespan == out.layers@[out.layers@.len() - 1].cycle + 1,
{
    let n = layers.len();
    let ghost input = layers@;
    let preds = preds_map(n, deps);
    assert(n + 2 < u32::MAX);
    let mut asap: Vec<u32> = Vec::new();
    let mut occupied: Vec<bool> = Vec::new();
    let mut z: usize = 0;
    while z < n + 2
        invariant
            z <= n + 2,
            asap@.len() == if z < n { z as int } else { n as int },
            occupied@.len() == z,
            n + 2 < u32::MAX,
            forall|q: int| 0 <= q < asap@.len() ==> asap@[q] == 0,
            forall|q: int| 0 <= q < z ==> !occupied@[q],
        decreases n + 2 - z,
    {
        if z < n {
            asap.push(0);
        }
        occupied.push(false);
        z += 1;
    }
    let mut i: usize = 0;
    while i < n
        invariant
            n == input.len(),
            n < u32::MAX,
            preds@.len() == n,
            forall|a: int, b: usize| 0 <= a < n ==> (#[trigger] preds@[a]@.contains(b) <==> dep_edge(deps@, n as int, b as int, a)),
            i <= n,
            asap@.len() == n,
            occupied@.len() == n + 2,
            forall|q: int| i <= q < n ==> asap@[q] == 0,
            forall|t: int| 0 <= t < n + 2 ==> (occupied@[t] <==> exists|j: int| 0 <= j < i && asap@[j] == t),
            forall|p: int, q: int| #[trigger] dep_edge(deps@, n as int, p, q) && q < i ==> asap@[q] >= (if p < q { asap@[p] + 1 } else { 1 }),
            forall|q: int, t: int| 0 <= q < i && 0 <= t < asap@[q] ==> #[trigger] cycle_blocked_u32(deps@, n as int, asap@, q, t),
            forall|q: int| 0 <= q < i ==> asap@[q] <= q + 1,
            forall|j: int, q: int| 0 <= j < q < i ==> asap@[j] != asap@[q],
        decreases n - i,
    {
        let row = &preds[i];
        let mut t: u32 = 0;
        let mut r: usize = 0;
        proof {
            assert forall|m: int| 0 <= m < row@.len() implies row@[m] < n by {
                assert(preds@[i as int]@.contains(row@[m]));
            }
        }
        while r < row.len()
            invariant
                i < n,
                n < u32::MAX,
                asap@.len() == n,
                r <= row@.len(),
                forall|q: int| 0 <= q < i ==> asap@[q] <= q + 1,
                forall|q: int| i <= q < n ==> asap@[q] == 0,
                t <= i + 1,
                forall|m: int| 0 <= m < r ==> t >= asap@[row@[m] as int] + 1,
                t == 0 || exists|m: int| 0 <= m < r && t == asap@[row@[m] as int] + 1,
                forall|m: int| 0 <= m < row@.len() ==> row@[m] < n,
            decreases row.len() - r,
        {
            let p = row[r];
            let c = asap[p] + 1;
            if c > t {
                t = c;
            }
            r += 1;
        }
        let ghost t0 = t as int;
        proof {
            assert forall|p: int| #[trigger] dep_edge(deps@, n as int, p, i as int) implies t0 >= (if p < i { asap@[p] + 1 } else { 1 }) by {
                assert(preds@[i as int]@.contains(p as usize));
                let m = choose|m: int| 0 <= m < row@.len() && row@[m] == p as usize;
            }
        }
        while occupied[t as usize]
            invariant
                i < n,
                n < u32::MAX,
                occupied@.len() == n + 2,
                t0 <= t <= i + 1,
                forall|q: int| 0 <= q < i ==> asap@[q] <= q + 1,
                forall|tt: int| 0 <= tt < n + 2 ==> (occupied@[tt] <==> exists|j: int| 0 <= j < i && asap@[j] == tt),
                forall|tt: int| t0 <= tt < t ==> occupied@[tt],
            decreases n + 2 - t,
        {
            proof {
                let j = choose|j: int| 0 <= j < i && asap@[j] == t;
            }
            t += 1;
        }
        let ghost old_asap = asap@;
        let ghost old_occ = occupied@;
        asap.set(i, t);
        occupied.set(t as usize, true);
        proof {
            assert forall|tt: int| 0 <= tt < n + 2 implies (occupied@[tt] <==> exists|j: int| 0 <= j < i + 1 && asap@[j] == tt) by {
                if tt == t {
                    assert(asap@[i as int] == tt);
                } else if occupied@[tt] {
                    assert(old_occ[tt]);
                    let j = choose|j: int| 0 <= j < i && old_asap[j] == tt;
                    assert(asap@[j] == tt);
                } else if exists|j: int| 0 <= j < i + 1 && asap@[j] == tt {
                    let j = choose|j: int| 0 <= j < i + 1 && asap@[j] == tt;
                    assert(old_asap[j] == tt);
                }
            }
            assert forall|p: int, q: int| #[trigger] dep_edge(deps@, n as int, p, q) && q < i + 1 implies asap@[q] >= (if p < q { asap@[p] + 1 } else { 1 }) by {
                if q < i {
                    assert(old_asap[q] >= (if p < q { old_asap[p] + 1 } else { 1 }));
                }
            }
            assert forall|q: int, tt: int| 0 <= q < i + 1 && 0 <= tt < asap@[q] implies #[trigger] cycle_blocked_u32(deps@, n as int, asap@, q, tt) by {
                if q < i {
                    assert(old_asap[q] == asap@[q]);
                    assert(cycle_blocked_u32(deps@, n as int, old_asap, q, tt));
                    if exists|p: int| dep_edge(deps@, n as int, p, q) && (if p < q { old_asap[p] + 1 } else { 1 }) > tt {
                        let p = choose|p: int| dep_edge(deps@, n as int, p, q) && (if p < q { old_asap[p] + 1 } else { 1 }) > tt;
                        assert(dep_edge(deps@, n as int, p, q) && (if p < q { asap@[p] + 1 } else { 1 }) > tt);
                    } else {
                        let j = choose|j: int| 0 <= j < q && old_asap[j] == tt;
                        assert(asap@[j] == tt);
                    }
                } else {
                    if tt >= t0 {
                        assert(old_occ[tt]);
                        let j = choose|j: int| 0 <= j < i && old_asap[j] == tt;
                        assert(asap@[j] == tt);
                    } else {
                        let m = choose|m: int| 0 <= m < row@.len() && t0 == old_asap[row@[m] as int] + 1;
                        let p = row@[m] as int;
                        assert(preds@[i as int]@.contains(row@[m]));
                        assert(dep_edge(deps@, n as int, p, q));
                        if p < q {
                            assert(asap@[p] == old_asap[p]);
                        } else {
                            assert(old_asap[p] == 0);
                        }
                    }
                }
            }
            assert forall|j: int, q: int| 0 <= j < q < i + 1 implies asap@[j] != asap@[q] by {
                if q == i {
                    if asap@[j] == t {
                        assert(old_occ[t as int]);
                    }
                }
            }
        }
        i += 1;
    }
    // Order input indices by their (distinct) cycles.
    let mut slot: Vec<Option<usize>> = Vec::new();
    let mut z: usize = 0;
    while z < n + 1
        invariant
            n + 2 < u32::MAX,
            z <= n + 1,
            slot@.len() == z,
            forall|c: int| 0 <= c < z ==> slot@[c] is None,
        decreases n + 1 - z,
    {
        slot.push(None);
        z += 1;
    }
    let mut i: usize = 0;
    while i < n
        invariant
            i <= n,
            asap@.len() == n,
            slot@.len() == n + 1,
            forall|q: int| 0 <= q < n ==> asap@[q] <= q + 1,
            forall|j: int, q: int| 0 <= j < q < n ==> asap@[j] != asap@[q],
            forall|c: int| 0 <= c <= n ==> (#[trigger] slot@[c] matches Some(q) ==> 0 <= q < i && asap@[q as int] == c),
            forall|q: int| 0 <= q < i ==> slot@[asap@[q] as int] == Some(q as usize),
        decreases n - i,
    {
        slot.set(asap[i] as usize, Some(i));
        i += 1;
    }
    let mut order: Vec<usize> = Vec::new();
    let mut c: usize = 0;
    while c < n + 1
        invariant
            c <= n + 1,
            asap@.len() == n,
            slot@.len() == n + 1,
            forall|q: int| 0 <= q < n ==> asap@[q] <= q + 1,
            forall|cc: int| 0 <= cc <= n ==> (#[trigger] slot@[cc] matches Some(q) ==> 0 <= q < n && asap@[q as int] == cc),
            forall|q: int| 0 <= q < n ==> slot@[asap@[q] as int] == Some(q as usize),
            forall|k: int| 0 <= k < order@.len() ==> 0 <= #[trigger] order@[k] < n && asap@[order@[k] as int] < c,
            forall|k1: int, k2: int| 0 <= k1 < k2 < order@.len() ==> asap@[order@[k1] as int] < asap@[order@[k2] as int],
            forall|q: int| 0 <= q < n && asap@[q] < c ==> order@.contains(q as usize),
        decreases n + 1 - c,
    {
        let ghost old_order = order@;
        match slot[c] {
            Some(q) => {
                order.push(q);
            },
            None => {},
        }
        proof {
            assert forall|q: int| 0 <= q < n && asap@[q] < c + 1 implies order@.contains(q as usize) by {
                if asap@[q] == c {
                    assert(slot@[asap@[q] as int] == Some(q as usize));
                    assert(order@[order@.len() - 1] == q as usize);
                } else {
                    assert(old_order.contains(q as usize));
                    let k = choose|k: int| 0 <= k < old_order.len() && old_order[k] == q as usize;
                    assert(order@[k] == q as usize);
                }
            }
        }
        c += 1;
    }
    proof {
        assert forall|k1: int, k2: int| 0 <= k1 < k2 < order@.len() implies order@[k1] != order@[k2] by {}
        // every index appears, so the length is n
        let ints = order@.map_values(|q: usize| q as int);
        assert forall|q: int| 0 <= q < n implies ints.contains(q) by {
            assert(asap@[q] <= q + 1);
            assert(order@.contains(q as usize));
            let k = choose|k: int| 0 <= k < order@.len() && order@[k] == q as usize;
            assert(ints[k] == q);
        }
        lemma_perm_len(ints, n as int);
    }
    // Move every layer into a slot addressed by its input index.
    let mut layers = layers;
    let mut rev: Vec<ScheduleLayer> = Vec::new();
    while layers.len() > 0
        invariant
            layers@.len() + rev@.len() == n,
            forall|j: int| 0 <= j < layers@.len() ==> layers@[j] == input[j],
            forall|j: int| 0 <= j < rev@.len() ==> rev@[j] == input[n - 1 - j],
        decreases layers@.len(),
    {
        let l = layers.pop().unwrap();
        rev.push(l);
    }
    let mut src: Vec<Option<ScheduleLayer>> = Vec::new();
    while rev.len() > 0
        invariant
            rev@.len() + src@.len() == n,
            forall|j: int| 0 <= j < rev@.len() ==> rev@[j] == input[n - 1 - j],
            forall|j: int| 0 <= j < src@.len() ==> src@[j] == Some(input[j]),
        decreases rev@.len(),
    {
        let l = rev.pop().unwrap();
        src.push(Some(l));
    }
    let mut out_layers: Vec<ScheduleLayer> = Vec::new();
    let mut lineage: Vec<Vec<u32>> = Vec::new();
    let mut k: usize = 0;
    while k < n
        invariant
            n == input.len(),
            n < u32::MAX,
            asap@.len() == n,
            order@.len() == n,
            src@.len() == n,
            forall|kk: int| 0 <= kk < n ==> 0 <= #[trigger] order@[kk] < n,
            forall|k1: int, k2: int| 0 <= k1 < k2 < n ==> order@[k1] != order@[k2],
            forall|k1: int, k2: int| 0 <= k1 < k2 < n ==> asap@[order@[k1] as int] < asap@[order@[k2] as int],
            k <= n,
            out_layers@.len() == k,
            lineage@.len() == k,
            forall|j: int| 0 <= j < n ==> (src@[j] is None <==> exists|kk: int| 0 <= kk < k && order@[kk] == j),
            forall|j: int| 0 <= j < n && src@[j] is Some ==> src@[j] == Some(input[j]),
            forall|kk: int| 0 <= kk < k ==> (#[trigger] lineage@[kk])@ == seq![order@[kk] as u32],
            forall|kk: int| 0 <= kk < k ==> (#[trigger] out_layers@[kk]).actions == input[order@[kk] as int].actions
                && out_layers@[kk].cycle == asap@[order@[kk] as int],
        decreases n - k,
    {
        let q = order[k];
        let mut tmp: Option<ScheduleLayer> = None;
        proof {
            if src@[q as int] is None {
                let kk = choose|kk: int| 0 <= kk < k && order@[kk] == q;
                assert(false);
            }
        }
        std::mem::swap(&mut tmp, &mut src[q]);
        let mut layer = tmp.unwrap();
        layer.cycle = asap[q];
        out_layers.push(layer);
        let mut line: Vec<u32> = Vec::new();
        line.push(q as u32);
        lineage.push(line);
        proof {
            assert forall|j: int| 0 <= j < n implies (src@[j] is None <==> exists|kk: int| 0 <= kk < k + 1 && order@[kk] == j) by {
                if j == q {
                    assert(order@[k as int] == j);
                } else if exists|kk: int| 0 <= kk < k + 1 && order@[kk] == j {
                    let kk = choose|kk: int| 0 <= kk < k + 1 && order@[kk] == j;
                    assert(kk != k);
                }
            }
        }
        k += 1;
    }
    let makespan = out_layers[n - 1].cycle + 1;
    proof {
        let cyc = asap@.map_values(|c: u32| c as int);
        let heads = lineage_heads(lineage@);
        assert forall|kk: int| 0 <= kk < n implies heads[kk] == order@[kk] as int by {
            assert(lineage@[kk]@[0] == order@[kk] as u32);
        }
        assert(asap_ok(deps@, n as int, cyc)) by {
            assert forall|ii: int, tt: int| 0 <= ii < n && 0 <= tt < cyc[ii] implies #[trigger] cycle_blocked(deps@, n as int, cyc, ii, tt) by {
                assert(cyc[ii] == asap@[ii] as int);
                assert(cycle_blocked_u32(deps@, n as int, asap@, ii, tt));
                if exists|p: int| dep_edge(deps@, n as int, p, ii) && (if p < ii { asap@[p] + 1 } else { 1 }) > tt {
                    let p = choose|p: int| dep_edge(deps@, n as int, p, ii) && (if p < ii { asap@[p] + 1 } else { 1 }) > tt;
                    assert(dep_edge(deps@, n as int, p, ii) && pred_bound(cyc, p, ii) > tt);
                } else {
                    let j = choose|j: int| 0 <= j < ii && asap@[j] == tt;
                    assert(cyc[j] == tt);
                }
            }
            assert forall|p: int, ii: int| #[trigger] dep_edge(deps@, n as int, p, ii) implies cyc[ii] >= pred_bound(cyc, p, ii) by {
                assert(asap@[ii] >= (if p < ii { asap@[p] + 1 } else { 1 }));
            }
        }
        assert(forall|kk: int| 0 <= kk < out_layers@.len() ==> (#[trigger] out_layers@[kk]).cycle == cyc[lineage@[kk]@[0] as int]);
    }
    AsapSchedule { layers: out_layers, makespan, lineage }
}

/// A duplicate-free list of indices below `n` that contains every index below
/// `n` has length `n`.
pub proof fn lemma_perm_len(order: Seq<int>, n: int)
    requires
        0 <= n,
        forall|k: int| 0 <= k < order.len() ==> 0 <= #[trigger] order[k] < n,
        forall|k1: int, k2: int| 0 <= k1 < k2 < order.len() ==> order[k1] != order[k2],
        forall|q: int| 0 <= q < n ==> order.contains(q),
    ensures
        order.len() == n,
{
    assert(order.no_duplicates());
    order.unique_seq_to_set();
    assert(order.to_set() =~= vstd::set_lib::set_int_range(0, n));
    vstd::set_lib::lemma_int_range(0, n);
}


/// Cycles strictly increase along the layer list.
pub open spec fn cycles_increasing(layers: Seq<ScheduleLayer>) -> bool {
    forall|i: int, j: int| 0 <= i < j < layers.len() ==> layers[i].cycle < layers[j].cycle
}

/// `max(cycle) + 1`, or 0 for no layers.
pub open spec fn makespan_spec(layers: Seq<ScheduleLayer>) -> int
    decreases layers.len(),
{
    if layers.len() == 0 {
        0
    } else {
        let rest = makespan_spec(layers.drop_last());
        let here = layers.last().cycle + 1;
        if here > rest { here } else { rest }
    }
}

/// For layers sorted by cycle, the makespan is the last cycle plus one.
pub proof fn lemma_makespan_sorted(layers: Seq<ScheduleLayer>)
    requires
        layers.len() > 0,
        cycles_increasing(layers),
    ensures
        makespan_spec(layers) == layers.last().cycle + 1,
    decreases layers.len(),
{
    if layers.len() > 1 {
        assert(cycles_increasing(layers.drop_last()));
        lemma_makespan_sorted(layers.drop_last());
        assert(layers.drop_last().last() == layers[layers.len() - 2]);
        assert(layers[layers.len() - 2].cycle < layers.last().cycle);
    } else {
        assert(makespan_spec(layers.drop_last()) == 0);
    }
}

/// Number of cycles spanned: `max(cycle) + 1`, or 0 for no layers.
pub fn makespan(layers: &[ScheduleLayer]) -> (m: u32)
    requires
        forall|k: int| 0 <= k < layers@.len() ==> (#[trigger] layers@[k]).cycle < u32::MAX,
    ensures
        m == makespan_spec(layers@),
{
    let mut m: u32 = 0;
    let mut k: usize = 0;
    while k < layers.len()
        invariant
            k <= layers@.len(),
            forall|q: int| 0 <= q < layers@.len() ==> (#[trigger] layers@[q]).cycle < u32::MAX,
            m == makespan_spec(layers@.take(k as int)),
        decreases layers.len() - k,
    {
        proof {
            assert(layers@.take(k + 1).drop_last() =~= layers@.take(k as int));
        }
        let c = layers[k].cycle + 1;
        if c > m {
            m = c;
        }
        k += 1;
    }
    proof {
        assert(layers@.take(layers@.len() as int) =~= layers@);
    }
    m
}

/// How many entries of `cs` lie strictly below `c`.
pub open spec fn count_below(cs: Seq<u32>, c: u32) -> nat
    decreases cs.len(),
{
    if cs.len() == 0 {
        0
    } else {
        count_below(cs.drop_last(), c) + if cs.last() < c { 1nat } else { 0nat }
    }
}

/// The cycle of each layer.
pub open spec fn layer_cycles(layers: Seq<ScheduleLayer>) -> Seq<u32> {
    layers.map_values(|l: ScheduleLayer| l.cycle)
}

/// No value occurs twice.
pub open spec fn distinct_u32(cs: Seq<u32>) -> bool {
    forall|i: int, j: int| 0 <= i < j < cs.len() ==> cs[i] != cs[j]
}

/// The count of values below `c` is at most the length.
pub proof fn lemma_count_below_le(cs: Seq<u32>, c: u32)
    ensures
        count_below(cs, c) <= cs.len(),
    decreases cs.len(),
{
    if cs.len() > 0 {
        lemma_count_below_le(cs.drop_last(), c);
    }
}

/// Counting below a larger value counts at least as much, and strictly more
/// when the smaller value itself occurs.
pub proof fn lemma_count_below_mono(cs: Seq<u32>, c1: u32, c2: u32)
    requires
        c1 <= c2,
    ensures
        count_below(cs, c1) <= count_below(cs, c2),
        c1 < c2 && cs.contains(c1) ==> count_below(cs, c1) < count_below(cs, c2),
    decreases cs.len(),
{
    if cs.len() > 0 {
        lemma_count_below_mono(cs.drop_last(), c1, c2);
        if c1 < c2 && cs.contains(c1) && cs.last() != c1 {
            let k = choose|k: int| 0 <= k < cs.len() && cs[k] == c1;
            assert(cs.drop_last()[k] == c1);
        }
    }
}

/// A distinct value's count strictly below itself is less than the length.
pub proof fn lemma_count_below_own(cs: Seq<u32>, k: int)
    requires
        0 <= k < cs.len(),
    ensures
        count_below(cs, cs[k]) < cs.len(),
    decreases cs.len(),
{
    if k < cs.len() - 1 {
        lemma_count_below_own(cs.drop_last(), k);
    } else {
        lemma_count_below_le(cs.drop_last(), cs[k]);
    }
}

/// In a strictly increasing sequence the count below the `k`-th entry is `k`.
pub proof fn lemma_count_below_sorted(cs: Seq<u32>, k: int)
    requires
        0 <= k < cs.len(),
        sorted_u32(cs),
    ensures
        count_below(cs, cs[k]) == k,
    decreases cs.len(),
{
    if k < cs.len() - 1 {
        assert(sorted_u32(cs.drop_last()));
        lemma_count_below_sorted(cs.drop_last(), k);
    } else {
        lemma_count_all_below(cs.drop_last(), cs[k]);
    }
}

/// When every value is below `c`, all of them are counted.
proof fn lemma_count_all_below(cs: Seq<u32>, c: u32)
    requires
        forall|i: int| 0 <= i < cs.len() ==> cs[i] < c,
    ensures
        count_below(cs, c) == cs.len(),
    decreases cs.len(),
{
    if cs.len() > 0 {
        lemma_count_all_below(cs.drop_last(), c);
    }
}

/// Ranks of distinct cycles: entry `k` is the number of cycles below cycle `k`.
pub fn rank_cycles(cs: &Vec<u32>) -> (r: Vec<u32>)
    requires
        cs@.len() <= u32::MAX,
    ensures
        r@.len() == cs@.len(),
        forall|k: int| 0 <= k < r@.len() ==> r@[k] == count_below(cs@, #[trigger] cs@[k]),
{
    let mut r: Vec<u32> = Vec::new();
    let mut k: usize = 0;
    while k < cs.len()
        invariant
            k <= cs@.len(),
            cs@.len() <= u32::MAX,
            r@.len() == k,
            forall|q: int| 0 <= q < k ==> r@[q] == count_below(cs@, #[trigger] cs@[q]),
        decreases cs.len() - k,
    {
        let c = cs[k];
        let mut cnt: u32 = 0;
        let mut j: usize = 0;
        while j < cs.len()
            invariant
                j <= cs@.len(),
                cs@.len() <= u32::MAX,
                cnt == count_below(cs@.take(j as int), c),
            decreases cs.len() - j,
        {
            proof {
                assert(cs@.take(j + 1).drop_last() =~= cs@.take(j as int));
                lemma_count_below_le(cs@.take(j as int), c);
            }
            if cs[j] < c {
                cnt += 1;
            }
            j += 1;
        }
        proof {
            assert(cs@.take(cs@.len() as int) =~= cs@);
        }
        r.push(cnt);
        k += 1;
    }
    r
}

/// Renumber layer cycles densely: each layer gets the rank of its cycle among
/// the (distinct) cycles present.
pub fn renumber_dense(layers: &mut Vec<ScheduleLayer>)
    requires
        old(layers)@.len() <= u32::MAX,
    ensures
        final(layers)@.len() == old(layers)@.len(),
        forall|k: int| 0 <= k < final(layers)@.len() ==> (#[trigger] final(layers)@[k]).cycle
            == count_below(layer_cycles(old(layers)@), old(layers)@[k].cycle)
            && final(layers)@[k].actions == old(layers)@[k].actions,
{
    let n = layers.len();
    let mut cs: Vec<u32> = Vec::new();
    let mut k: usize = 0;
    while k < n
        invariant
            n == layers@.len(),
            k <= n,
            cs@ == layer_cycles(layers@).take(k as int),
        decreases n - k,
    {
        cs.push(layers[k].cycle);
        proof {
            assert(layer_cycles(layers@).take(k + 1) =~= layer_cycles(layers@).take(k as int).push(layers@[k as int].cycle));
        }
        k += 1;
    }
    proof {
        assert(layer_cycles(layers@).take(n as int) =~= layer_cycles(layers@));
    }
    let ranks = rank_cycles(&cs);
    let mut k: usize = 0;
    while k < n
        invariant
            n == layers@.len(),
            n == old(layers)@.len(),
            ranks@.len() == n,
            cs@ == layer_cycles(old(layers)@),
            forall|q: int| 0 <= q < n ==> ranks@[q] == count_below(cs@, #[trigger] cs@[q]),
            k <= n,
            forall|q: int| 0 <= q < n ==> (#[trigger] layers@[q]).actions == old(layers)@[q].actions,
            forall|q: int| k <= q < n ==> (#[trigger] layers@[q]).cycle == old(layers)@[q].cycle,
            forall|q: int| 0 <= q < k ==> (#[trigger] layers@[q]).cycle == ranks@[q],
        decreases n - k,
    {
        let mut l = ScheduleLayer { cycle: 0, actions: Vec::new() };
        std::mem::swap(&mut l, &mut layers[k]);
        l.cycle = ranks[k];
        std::mem::swap(&mut l, &mut layers[k]);
        k += 1;
    }
    proof {
        assert forall|q: int| 0 <= q < n implies (#[trigger] layers@[q]).cycle
            == count_below(layer_cycles(old(layers)@), old(layers)@[q].cycle) by {
            assert(cs@[q] == old(layers)@[q].cycle);
        }
    }
}

/// The layer holds an entangle.
pub open spec fn layer_has_entangle_spec(l: ScheduleLayer) -> bool {
    exists|k: int| 0 <= k < l.actions@.len() && is_entangle(#[trigger] l.actions@[k])
}

/// The layer holds a trap transfer.
pub open spec fn layer_has_transfer_spec(l: ScheduleLayer) -> bool {
    exists|k: int| 0 <= k < l.actions@.len() && (#[trigger] l.actions@[k]) is Transfer
}

/// The layer holds a move.
pub open spec fn layer_has_move_spec(l: ScheduleLayer) -> bool {
    exists|k: int| 0 <= k < l.actions@.len() && (#[trigger] l.actions@[k]) is Move
}

/// The layer holds a measurement or a reset.
pub open spec fn layer_has_measure_or_reset_spec(l: ScheduleLayer) -> bool {
    exists|k: int| 0 <= k < l.actions@.len() && ((#[trigger] l.actions@[k]) is Measure || l.actions@[k] is Reset)
}

/// Non-empty, only entangles and waits, and at least one entangle.
pub open spec fn is_entangle_only_spec(l: ScheduleLayer) -> bool {
    &&& l.actions@.len() > 0
    &&& forall|k: int| 0 <= k < l.actions@.len() ==> (is_entangle(#[trigger] l.actions@[k]) || l.actions@[k] is Wait)
    &&& layer_has_entangle_spec(l)
}

/// Non-empty, only moves and waits, and at least one move.
pub open spec fn is_move_only_spec(l: ScheduleLayer) -> bool {
    &&& l.actions@.len() > 0
    &&& forall|k: int| 0 <= k < l.actions@.len() ==> ((#[trigger] l.actions@[k]) is Move || l.actions@[k] is Wait)
    &&& layer_has_move_spec(l)
}

/// Whether the layer holds an entangle.
pub fn layer_has_entangle(layer: &ScheduleLayer) -> (b: bool)
    ensures
        b == layer_has_entangle_spec(*layer),
{
    let mut k: usize = 0;
    while k < layer.actions.len()
        invariant
            k <= layer.actions@.len(),
            forall|q: int| 0 <= q < k ==> !is_entangle(#[trigger] layer.actions@[q]),
        decreases layer.actions.len() - k,
    {
        match &layer.actions[k] {
            NeutralAtomAction::Entangle2 { .. } | NeutralAtomAction::EntangleN { .. } => {
                return true;
            },
            _ => {},
        }
        k += 1;
    }
    false
}

/// Whether the layer holds a trap transfer.
pub fn layer_has_transfer(layer: &ScheduleLayer) -> (b: bool)
    ensures
        b == layer_has_transfer_spec(*layer),
{
    let mut k: usize = 0;
    while k < layer.actions.len()
        invariant
            k <= layer.actions@.len(),
            forall|q: int| 0 <= q < k ==> !((#[trigger] layer.actions@[q]) is Transfer),
        decreases layer.actions.len() - k,
    {
        match &layer.actions[k] {
            NeutralAtomAction::Transfer(_) => {
                return true;
            },
            _ => {},
        }
        k += 1;
    }
    false
}

/// Whether the layer holds a move.
pub fn layer_has_move(layer: &ScheduleLayer) -> (b: bool)
    ensures
        b == layer_has_move_spec(*layer),
{
    let mut k: usize = 0;
    while k < layer.actions.len()
        invariant
            k <= layer.actions@.len(),
            forall|q: int| 0 <= q < k ==> !((#[trigger] layer.actions@[q]) is Move),
        decreases layer.actions.len() - k,
    {
        match &layer.actions[k] {
            NeutralAtomAction::Move(_) => {
                return true;
            },
            _ => {},
        }
        k += 1;
    }
    false
}

/// Whether the layer holds a measurement or a reset.
pub fn layer_has_measure_or_reset(layer: &ScheduleLayer) -> (b: bool)
    ensures
        b == layer_has_measure_or_reset_spec(*layer),
{
    let mut k: usize = 0;
    while k < layer.actions.len()
        invariant
            k <= layer.actions@.len(),
            forall|q: int| 0 <= q < k ==> !((#[trigger] layer.actions@[q]) is Measure || layer.actions@[q] is Reset),
        decreases layer.actions.len() - k,
    {
        match &layer.actions[k] {
            NeutralAtomAction::Measure { .. } | NeutralAtomAction::Reset { .. } => {
                return true;
            },
            _ => {},
        }
        k += 1;
    }
    false
}

/// Whether the layer holds only entangles and waits, and at least one entangle.
pub fn is_entangle_only(layer: &ScheduleLayer) -> (b: bool)
    ensures
        b == is_entangle_only_spec(*layer),
{
    if layer.actions.len() == 0 {
        return false;
    }
    let mut k: usize = 0;
    while k < layer.actions.len()
        invariant
            k <= layer.actions@.len(),
            forall|q: int| 0 <= q < k ==> (is_entangle(#[trigger] layer.actions@[q]) || layer.actions@[q] is Wait),
        decreases layer.actions.len() - k,
    {
        match &layer.actions[k] {
            NeutralAtomAction::Entangle2 { .. } | NeutralAtomAction::EntangleN { .. } | NeutralAtomAction::Wait { .. } => {},
            _ => {
                return false;
            },
        }
        k += 1;
    }
    layer_has_entangle(layer)
}

/// Whether the layer holds only moves and waits, and at least one move.
pub fn is_move_only(layer: &ScheduleLayer) -> (b: bool)
    ensures
        b == is_move_only_spec(*layer),
{
    if layer.actions.len() == 0 {
        return false;
    }
    let mut k: usize = 0;
    while k < layer.actions.len()
        invariant
            k <= layer.actions@.len(),
            forall|q: int| 0 <= q < k ==> ((#[trigger] layer.actions@[q]) is Move || layer.actions@[q] is Wait),
        decreases layer.actions.len() - k,
    {
        match &layer.actions[k] {
            NeutralAtomAction::Move(_) | NeutralAtomAction::Wait { .. } => {},
            _ => {
                return false;
            },
        }
        k += 1;
    }
    layer_has_move(layer)
}

/// The AOD reference that zoned scheduling stamps on every transfer.
pub open spec fn is_placeholder_aod(r: crate::ids::AodTrapRef) -> bool {
    r.aod_id == 0 && r.row == 0 && r.col == 0
}

/// The layer has a transfer and every transfer uses the placeholder AOD.
pub open spec fn uses_placeholder_aod_spec(l: ScheduleLayer) -> bool {
    &&& layer_has_transfer_spec(l)
    &&& forall|k: int| 0 <= k < l.actions@.len() ==> ((#[trigger] l.actions@[k]) matches NeutralAtomAction::Transfer(t)
        ==> is_placeholder_aod(t.aod))
}

/// Whether the layer holds transfers and every one of them names the placeholder AOD trap.
pub fn uses_placeholder_aod(layer: &ScheduleLayer) -> (b: bool)
    ensures
        b == uses_placeholder_aod_spec(*layer),
{
    let mut saw_transfer = false;
    let mut k: usize = 0;
    while k < layer.actions.len()
        invariant
            k <= layer.actions@.len(),
            saw_transfer == exists|q: int| 0 <= q < k && (#[trigger] layer.actions@[q]) is Transfer,
            forall|q: int| 0 <= q < k ==> ((#[trigger] layer.actions@[q]) matches NeutralAtomAction::Transfer(t)
                ==> is_placeholder_aod(t.aod)),
        decreases layer.actions.len() - k,
    {
        match &layer.actions[k] {
            NeutralAtomAction::Transfer(t) => {
                saw_transfer = true;
                if !(t.aod.aod_id == 0 && t.aod.row == 0 && t.aod.col == 0) {
                    return false;
                }
            },
            _ => {},
        }
        k += 1;
    }
    saw_transfer
}

/// Merge classes for two layers.
#[derive(Clone, Copy, Debug, PartialEq, Eq, Structural)]
pub enum MergeClass {
    /// Entangle-only with entangle-only.
    E0,
    /// Move-only with entangle-only (needs non-placeholder AOD metadata).
    M0,
    Forbidden,
}

/// The merge class of two layers.
pub open spec fn classify_merge_spec(a: ScheduleLayer, b: ScheduleLayer) -> MergeClass {
    if layer_has_transfer_spec(a) || layer_has_transfer_spec(b) {
        MergeClass::Forbidden
    } else if is_entangle_only_spec(a) && is_entangle_only_spec(b) {
        MergeClass::E0
    } else if (is_move_only_spec(a) && is_entangle_only_spec(b)) || (is_entangle_only_spec(a) && is_move_only_spec(b)) {
        MergeClass::M0
    } else {
        MergeClass::Forbidden
    }
}

/// The merge class of two layers.
pub fn classify_merge(a: &ScheduleLayer, b: &ScheduleLayer) -> (c: MergeClass)
    ensures
        c == classify_merge_spec(*a, *b),
{
    if layer_has_transfer(a) || layer_has_transfer(b) {
        return MergeClass::Forbidden;
    }
    if is_entangle_only(a) && is_entangle_only(b) {
        return MergeClass::E0;
    }
    if (is_move_only(a) && is_entangle_only(b)) || (is_entangle_only(a) && is_move_only(b)) {
        return MergeClass::M0;
    }
    // Measure / reset / mixed layers are forbidden too.
    MergeClass::Forbidden
}

/// Dependency kinds whose layers must stay in distinct, ordered cycles.
pub open spec fn is_hard_order_dep_spec(k: ScheduleDependencyKind) -> bool {
    k == ScheduleDependencyKind::Barrier || k == ScheduleDependencyKind::Measurement
        || k == ScheduleDependencyKind::FeedForward
}

/// Barrier, measurement and feed-forward edges are hard ordering edges.
pub fn is_hard_order_dep(kind: ScheduleDependencyKind) -> (b: bool)
    ensures
        b == is_hard_order_dep_spec(kind),
{
    match kind {
        ScheduleDependencyKind::Barrier | ScheduleDependencyKind::Measurement | ScheduleDependencyKind::FeedForward => true,
        ScheduleDependencyKind::AtomHazard => false,
    }
}

/// Software legality of one layer: no atom touched twice, no two moves to
/// the same site.
pub fn validate_layer_software(layer: &ScheduleLayer) -> (r: Result<(), CompactionError>)
    ensures
        r is Ok <==> conflict_free(layer.actions@) && occupancy_free(layer.actions@),
        r matches Err(e) ==> (e matches CompactionError::Conflict(c, _) && c == layer.cycle && !conflict_free(layer.actions@))
            || (e matches CompactionError::Occupancy(c, _) && c == layer.cycle && conflict_free(layer.actions@)),
{
    let empty: Vec<NeutralAtomAction> = Vec::new();
    proof {
        assert(layer.actions@ + empty@ =~= layer.actions@);
    }
    match find_atom_conflict(&layer.actions, &empty) {
        Some(atom) => {
            return Err(CompactionError::Conflict(layer.cycle, atom));
        },
        None => {},
    }
    match find_occupancy_conflict(&layer.actions, &empty) {
        Some(site) => Err(CompactionError::Occupancy(layer.cycle, site)),
        None => Ok(()),
    }
}

/// Strictly increasing, hence duplicate-free.
pub open spec fn sorted_u32(s: Seq<u32>) -> bool {
    forall|i: int, j: int| 0 <= i < j < s.len() ==> s[i] < s[j]
}

/// Insert `x` into a strictly increasing list unless present.
fn insert_sorted_u32(v: &mut Vec<u32>, x: u32)
    requires
        sorted_u32(old(v)@),
    ensures
        sorted_u32(final(v)@),
        forall|y: u32| #[trigger] final(v)@.contains(y) <==> (old(v)@.contains(y) || y == x),
{
    let mut i: usize = 0;
    while i < v.len() && v[i] < x
        invariant
            i <= v.len(),
            sorted_u32(v@),
            forall|k: int| 0 <= k < i ==> v@[k] < x,
        decreases v.len() - i,
    {
        i += 1;
    }
    if i < v.len() && v[i] == x {
        return;
    }
    let ghost old_v = v@;
    v.insert(i, x);
    proof {
        assert forall|y: u32| #[trigger] v@.contains(y) <==> (old_v.contains(y) || y == x) by {
            if v@.contains(y) {
                let k = choose|k: int| 0 <= k < v@.len() && v@[k] == y;
                if k < i {
                    assert(old_v[k] == y);
                } else if k > i {
                    assert(old_v[k - 1] == y);
                }
            }
            if old_v.contains(y) {
                let k = choose|k: int| 0 <= k < old_v.len() && old_v[k] == y;
                if k < i {
                    assert(v@[k] == y);
                } else {
                    assert(v@[k + 1] == y);
                }
            }
            if y == x {
                assert(v@[i as int] == y);
            }
        }
    }
}

/// Sorted, duplicate-free union of two id lists.
pub fn sorted_union(a: &Vec<u32>, b: &Vec<u32>) -> (r: Vec<u32>)
    ensures
        sorted_u32(r@),
        forall|y: u32| #[trigger] r@.contains(y) <==> (a@.contains(y) || b@.contains(y)),
{
    let mut r: Vec<u32> = Vec::new();
    let mut k: usize = 0;
    while k < a.len()
        invariant
            k <= a@.len(),
            sorted_u32(r@),
            forall|y: u32| #[trigger] r@.contains(y) <==> a@.take(k as int).contains(y),
        decreases a.len() - k,
    {
        insert_sorted_u32(&mut r, a[k]);
        proof {
            assert(a@.take(k + 1) =~= a@.take(k as int).push(a@[k as int]));
            a@.take(k as int).lemma_push_to_set_commute(a@[k as int]);
            assert forall|y: u32| #[trigger] r@.contains(y) <==> a@.take(k + 1).contains(y) by {
                assert(a@.take(k as int).contains(y) <==> a@.take(k as int).to_set().contains(y));
                assert(a@.take(k + 1).contains(y) <==> a@.take(k + 1).to_set().contains(y));
            }
        }
        k += 1;
    }
    proof {
        assert(a@.take(a@.len() as int) =~= a@);
        assert(b@.take(0) =~= Seq::<u32>::empty());
    }
    let mut k: usize = 0;
    while k < b.len()
        invariant
            k <= b@.len(),
            sorted_u32(r@),
            forall|y: u32| #[trigger] r@.contains(y) <==> (a@.contains(y) || b@.take(k as int).contains(y)),
        decreases b.len() - k,
    {
        insert_sorted_u32(&mut r, b[k]);
        proof {
            assert(b@.take(k + 1) =~= b@.take(k as int).push(b@[k as int]));
            b@.take(k as int).lemma_push_to_set_commute(b@[k as int]);
            assert forall|y: u32| #[trigger] r@.contains(y) <==> (a@.contains(y) || b@.take(k + 1).contains(y)) by {
                assert(b@.take(k as int).contains(y) <==> b@.take(k as int).to_set().contains(y));
                assert(b@.take(k + 1).contains(y) <==> b@.take(k + 1).to_set().contains(y));
            }
        }
        k += 1;
    }
    proof {
        assert(a@.take(a@.len() as int) =~= a@);
        assert(b@.take(b@.len() as int) =~= b@);
    }
    r
}

/// The id lists of a lineage vector.
pub open spec fn lview(lineage: Seq<Vec<u32>>) -> Seq<Seq<u32>> {
    lineage.map_values(|v: Vec<u32>| v@)
}

/// Some lineage entry carries input index `x`.
pub open spec fn lineage_covers(lv: Seq<Seq<u32>>, x: u32) -> bool {
    exists|v: int| 0 <= v < lv.len() && #[trigger] lv[v].contains(x)
}

/// Each of the `n0` input layer indices lies in exactly one lineage entry,
/// every entry holds only such indices, and each entry is sorted.
pub open spec fn lineage_partition(lv: Seq<Seq<u32>>, n0: int) -> bool {
    &&& forall|v: int| 0 <= v < lv.len() ==> sorted_u32(#[trigger] lv[v])
    &&& forall|v: int, x: u32| 0 <= v < lv.len() && #[trigger] lv[v].contains(x) ==> x < n0
    &&& forall|x: u32| x < n0 ==> #[trigger] lineage_covers(lv, x)
    &&& forall|v1: int, v2: int, x: u32| 0 <= v1 < lv.len() && 0 <= v2 < lv.len() && v1 != v2
        && #[trigger] lv[v1].contains(x) ==> !(#[trigger] lv[v2].contains(x))
}

/// A hard-ordered dependency has its endpoints split across the two lineages.
pub open spec fn hard_dep_crosses(li: Seq<u32>, lj: Seq<u32>, deps: Seq<ScheduleDependency>) -> bool {
    exists|k: int| 0 <= k < deps.len() && is_hard_order_dep_spec((#[trigger] deps[k]).kind) && (
        (li.contains(deps[k].before) && lj.contains(deps[k].after))
        || (lj.contains(deps[k].before) && li.contains(deps[k].after)))
}

/// Whether the list holds `x`.
fn vec_contains_u32(v: &Vec<u32>, x: u32) -> (b: bool)
    ensures
        b == v@.contains(x),
{
    let mut k: usize = 0;
    while k < v.len()
        invariant
            k <= v@.len(),
            forall|q: int| 0 <= q < k ==> v@[q] != x,
        decreases v.len() - k,
    {
        if v[k] == x {
            return true;
        }
        k += 1;
    }
    false
}

/// Same-cycle merge of two layers is illegal when a barrier, measurement or
/// feed-forward edge runs between them.
pub fn hard_dep_forbids_same_cycle(lineage_i: &Vec<u32>, lineage_j: &Vec<u32>, deps: &[ScheduleDependency]) -> (b: bool)
    ensures
        b == hard_dep_crosses(lineage_i@, lineage_j@, deps@),
{
    let mut k: usize = 0;
    while k < deps.len()
        invariant
            k <= deps@.len(),
            forall|q: int| 0 <= q < k ==> !(is_hard_order_dep_spec((#[trigger] deps@[q]).kind) && (
                (lineage_i@.contains(deps@[q].before) && lineage_j@.contains(deps@[q].after))
                || (lineage_j@.contains(deps@[q].before) && lineage_i@.contains(deps@[q].after)))),
        decreases deps.len() - k,
    {
        let d = deps[k];
        if is_hard_order_dep(d.kind) {
            let crosses = (vec_contains_u32(lineage_i, d.before) && vec_contains_u32(lineage_j, d.after))
                || (vec_contains_u32(lineage_j, d.before) && vec_contains_u32(lineage_i, d.after));
            if crosses {
                return true;
            }
        }
        k += 1;
    }
    false
}

/// Every dependency whose endpoints lie in vertices `u` and `v` (of `nv`
/// vertices, membership `mem`) runs from a strictly earlier cycle to a
/// strictly later one.
pub open spec fn deps_ordered(nv: int, mem: spec_fn(int, u32) -> bool, cyc: spec_fn(int) -> int, deps: Seq<ScheduleDependency>) -> bool {
    forall|k: int, u: int, v: int| 0 <= k < deps.len() && 0 <= u < nv && 0 <= v < nv
        && #[trigger] mem(u, (#[trigger] deps[k]).before) && #[trigger] mem(v, deps[k].after)
        ==> cyc(u) < cyc(v)
}

/// Check that every barrier / measurement / feed-forward and every atom-hazard
/// edge runs from a strictly earlier cycle to a strictly later one.
pub fn hard_dep_cycle_order_ok(cycles: &Vec<u32>, lineage: &Vec<Vec<u32>>, deps: &[ScheduleDependency], Ghost(n0): Ghost<int>) -> (b: bool)
    requires
        cycles@.len() == lineage@.len(),
        lineage_partition(lview(lineage@), n0),
    ensures
        b == deps_ordered(lineage@.len() as int, |v: int, x: u32| lineage@[v]@.contains(x), |v: int| cycles@[v] as int, deps@),
{
    let ghost mem = |v: int, x: u32| lineage@[v]@.contains(x);
    let ghost cyc = |v: int| cycles@[v] as int;
    let mut where_is: std::collections::BTreeMap<u32, usize> = std::collections::BTreeMap::new();
    let mut v: usize = 0;
    while v < lineage.len()
        invariant
            v <= lineage@.len(),
            lineage_partition(lview(lineage@), n0),
            forall|x: u32| #[trigger] where_is@.contains_key(x) <==> exists|u: int| 0 <= u < v && lineage@[u]@.contains(x),
            forall|x: u32| #[trigger] where_is@.contains_key(x) ==> where_is@[x] < v && lineage@[where_is@[x] as int]@.contains(x),
        decreases lineage.len() - v,
    {
        let ids = &lineage[v];
        let mut m: usize = 0;
        while m < ids.len()
            invariant
                v < lineage@.len(),
                ids == lineage@[v as int],
                m <= ids@.len(),
                forall|x: u32| #[trigger] where_is@.contains_key(x) <==> (exists|u: int| 0 <= u < v && lineage@[u]@.contains(x))
                    || ids@.take(m as int).contains(x),
                forall|x: u32| #[trigger] where_is@.contains_key(x) ==> where_is@[x] <= v && lineage@[where_is@[x] as int]@.contains(x),
            decreases ids.len() - m,
        {
            where_is.insert(ids[m], v);
            proof {
                assert(ids@.take(m + 1) =~= ids@.take(m as int).push(ids@[m as int]));
                assert forall|x: u32| #[trigger] where_is@.contains_key(x) <==> (exists|u: int| 0 <= u < v && lineage@[u]@.contains(x))
                    || ids@.take(m + 1).contains(x) by {
                    ids@.take(m as int).lemma_push_to_set_commute(ids@[m as int]);
                    assert(ids@.take(m + 1).contains(x) <==> ids@.take(m + 1).to_set().contains(x));
                    assert(ids@.take(m as int).contains(x) <==> ids@.take(m as int).to_set().contains(x));
                }
                assert(lineage@[v as int]@.contains(ids@[m as int]));
            }
            m += 1;
        }
        proof {
            assert(ids@.take(ids@.len() as int) =~= ids@);
            assert forall|x: u32| #[trigger] where_is@.contains_key(x) <==> exists|u: int| 0 <= u < v + 1 && lineage@[u]@.contains(x) by {
                if exists|u: int| 0 <= u < v + 1 && lineage@[u]@.contains(x) {
                    let u = choose|u: int| 0 <= u < v + 1 && lineage@[u]@.contains(x);
                    if u < v {
                        assert(exists|u: int| 0 <= u < v && lineage@[u]@.contains(x));
                    }
                }
            }
        }
        v += 1;
    }
    let mut k: usize = 0;
    while k < deps.len()
        invariant
            k <= deps@.len(),
            mem == (|v: int, x: u32| lineage@[v]@.contains(x)),
            cyc == (|v: int| cycles@[v] as int),
            cycles@.len() == lineage@.len(),
            lineage_partition(lview(lineage@), n0),
            forall|x: u32| #[trigger] where_is@.contains_key(x) <==> exists|u: int| 0 <= u < lineage@.len() && lineage@[u]@.contains(x),
            forall|x: u32| #[trigger] where_is@.contains_key(x) ==> where_is@[x] < lineage@.len() && lineage@[where_is@[x] as int]@.contains(x),
            forall|q: int, u: int, w: int| 0 <= q < k && 0 <= u < lineage@.len() && 0 <= w < lineage@.len()
                && #[trigger] lineage@[u]@.contains((#[trigger] deps@[q]).before) && #[trigger] lineage@[w]@.contains(deps@[q].after)
                ==> cycles@[u] < cycles@[w],
        decreases deps.len() - k,
    {
        let d = deps[k];
        match (where_is.get(&d.before), where_is.get(&d.after)) {
            (Some(u), Some(w)) => {
                let u = *u;
                let w = *w;
                if cycles[u] >= cycles[w] {
                    proof {
                        assert(lineage@[u as int]@.contains(deps@[k as int].before));
                        assert(lineage@[w as int]@.contains(deps@[k as int].after));
                        assert(mem(u as int, deps@[k as int].before));
                        assert(mem(w as int, deps@[k as int].after));
                        assert(!(cyc(u as int) < cyc(w as int)));
                    }
                    return false;
                }
                proof {
                    assert forall|uu: int, ww: int| 0 <= uu < lineage@.len() && 0 <= ww < lineage@.len()
                        && lineage@[uu]@.contains(d.before) && lineage@[ww]@.contains(d.after) implies cycles@[uu] < cycles@[ww] by {
                        let lv = lview(lineage@);
                        assert(lv[u as int] == lineage@[u as int]@);
                        assert(lv[uu] == lineage@[uu]@);
                        assert(lv[w as int] == lineage@[w as int]@);
                        assert(lv[ww] == lineage@[ww]@);
                        if uu != u {
                            assert(lv[u as int].contains(d.before));
                            assert(lv[uu].contains(d.before));
                        }
                        if ww != w {
                            assert(lv[w as int].contains(d.after));
                            assert(lv[ww].contains(d.after));
                        }
                    }
                }
            },
            _ => {
                proof {
                    assert forall|uu: int, ww: int| 0 <= uu < lineage@.len() && 0 <= ww < lineage@.len()
                        && lineage@[uu]@.contains(d.before) && lineage@[ww]@.contains(d.after) implies cycles@[uu] < cycles@[ww] by {
                        assert(where_is@.contains_key(d.before));
                        assert(where_is@.contains_key(d.after));
                    }
                }
            },
        }
        k += 1;
    }
    proof {
        assert forall|kk: int, u: int, v: int| 0 <= kk < deps@.len() && 0 <= u < lineage@.len() && 0 <= v < lineage@.len()
            && #[trigger] mem(u, (#[trigger] deps@[kk]).before) && #[trigger] mem(v, deps@[kk].after)
            implies cyc(u) < cyc(v) by {
            assert(lineage@[u]@.contains(deps@[kk].before));
            assert(lineage@[v]@.contains(deps@[kk].after));
        }
    }
    true
}

/// Index that the kept layer has once the dropped one is removed.
pub open spec fn merged_index(keep: int, drop: int) -> int {
    if drop < keep { keep - 1 } else { keep }
}

/// Membership of input index `x` in vertex `v` after merging `drop` into `keep`.
pub open spec fn merged_mem(lv: Seq<Seq<u32>>, keep: int, drop: int, v: int, x: u32) -> bool {
    if v == merged_index(keep, drop) {
        lv[keep].contains(x) || lv[drop].contains(x)
    } else {
        lv.remove(drop)[v].contains(x)
    }
}

/// `lv2` is `lv` with entry `drop` merged into entry `keep` (sorted union).
pub open spec fn is_merged_view(lv: Seq<Seq<u32>>, lv2: Seq<Seq<u32>>, keep: int, drop: int) -> bool {
    &&& lv2.len() == lv.len() - 1
    &&& forall|v: int| 0 <= v < lv2.len() && v != merged_index(keep, drop) ==> #[trigger] lv2[v] == lv.remove(drop)[v]
    &&& sorted_u32(lv2[merged_index(keep, drop)])
    &&& forall|x: u32| #[trigger] lv2[merged_index(keep, drop)].contains(x) <==> (lv[keep].contains(x) || lv[drop].contains(x))
}

/// Membership in the lineage after a merge.
pub proof fn lemma_merged_view_mem(lv: Seq<Seq<u32>>, lv2: Seq<Seq<u32>>, keep: int, drop: int)
    requires
        0 <= keep < lv.len(),
        0 <= drop < lv.len(),
        keep != drop,
        is_merged_view(lv, lv2, keep, drop),
    ensures
        forall|v: int, x: u32| 0 <= v < lv2.len() ==> (#[trigger] lv2[v].contains(x) <==> merged_mem(lv, keep, drop, v, x)),
{
}

/// A merge keeps the lineage a partition of the input layers.
pub proof fn lemma_merged_partition(lv: Seq<Seq<u32>>, lv2: Seq<Seq<u32>>, keep: int, drop: int, n0: int)
    requires
        0 <= keep < lv.len(),
        0 <= drop < lv.len(),
        keep != drop,
        is_merged_view(lv, lv2, keep, drop),
        lineage_partition(lv, n0),
    ensures
        lineage_partition(lv2, n0),
{
    let m = merged_index(keep, drop);
    let rm = lv.remove(drop);
    // index in lv of the entry at position v of lv2 (other than the merged one)
    assert forall|v: int, x: u32| 0 <= v < lv2.len() && #[trigger] lv2[v].contains(x) implies x < n0 by {
        if v == m {
            if lv[keep].contains(x) {
                assert(lv[keep].contains(x));
            } else {
                assert(lv[drop].contains(x));
            }
        } else {
            let w = if v < drop { v } else { v + 1 };
            assert(rm[v] == lv[w]);
        }
    }
    assert forall|x: u32| x < n0 implies #[trigger] lineage_covers(lv2, x) by {
        assert(lineage_covers(lv, x));
        let w = choose|w: int| 0 <= w < lv.len() && #[trigger] lv[w].contains(x);
        if w == keep || w == drop {
            assert(lv2[m].contains(x));
        } else {
            let v = if w < drop { w } else { w - 1 };
            assert(rm[v] == lv[w]);
            if v == m {
                assert(false);
            }
            assert(lv2[v].contains(x));
        }
    }
    assert forall|v1: int, v2: int, x: u32| 0 <= v1 < lv2.len() && 0 <= v2 < lv2.len() && v1 != v2
        && #[trigger] lv2[v1].contains(x) implies !(#[trigger] lv2[v2].contains(x)) by {
        let w1 = if v1 == m { if lv[keep].contains(x) { keep } else { drop } } else if v1 < drop { v1 } else { v1 + 1 };
        let w2 = if v2 == m { if lv[keep].contains(x) { keep } else { drop } } else if v2 < drop { v2 } else { v2 + 1 };
        if v1 != m {
            assert(rm[v1] == lv[w1]);
        }
        if v2 != m {
            assert(rm[v2] == lv[w2]);
        }
        if lv2[v2].contains(x) {
            assert(lv[w1].contains(x));
            assert(lv[w2].contains(x));
            if v1 != m && v2 != m {
                assert(w1 != w2);
            } else if v1 == m {
                assert(w2 != keep && w2 != drop);
            } else {
                assert(w1 != keep && w1 != drop);
            }
        }
    }
    assert forall|v: int| 0 <= v < lv2.len() implies sorted_u32(#[trigger] lv2[v]) by {
        if v != m {
            let w = if v < drop { v } else { v + 1 };
            assert(rm[v] == lv[w]);
        }
    }
}

/// Merge layer `drop` into layer `keep`: the kept layer takes the earlier
/// cycle, the dropped layer's actions are appended, lineages are united
/// (sorted), and the dropped layer is removed.
pub fn apply_merge(layers: &mut Vec<ScheduleLayer>, lineage: &mut Vec<Vec<u32>>, keep: usize, drop: usize) -> (r: Result<(), CompactionError>)
    requires
        old(layers)@.len() == old(lineage)@.len(),
    ensures
        (r is Err) == (keep == drop || keep >= old(layers)@.len() || drop >= old(layers)@.len()),
        r matches Err(e) ==> e == CompactionError::InvalidMergeIndices && final(layers)@ == old(layers)@
            && final(lineage)@ == old(lineage)@,
        r is Ok ==> {
            let m = merged_index(keep as int, drop as int);
            &&& final(layers)@.len() == old(layers)@.len() - 1
            &&& final(lineage)@.len() == old(lineage)@.len() - 1
            &&& forall|k: int| 0 <= k < final(layers)@.len() && k != m ==> #[trigger] final(layers)@[k] == old(layers)@.remove(drop as int)[k]
            &&& final(layers)@[m].cycle == if old(layers)@[keep as int].cycle <= old(layers)@[drop as int].cycle {
                old(layers)@[keep as int].cycle
            } else {
                old(layers)@[drop as int].cycle
            }
            &&& final(layers)@[m].actions@ == old(layers)@[keep as int].actions@ + old(layers)@[drop as int].actions@
            &&& is_merged_view(lview(old(lineage)@), lview(final(lineage)@), keep as int, drop as int)
        },
{
    if keep == drop || keep >= layers.len() || drop >= layers.len() {
        return Err(CompactionError::InvalidMergeIndices);
    }
    let ghost ol = layers@;
    let ghost oln = lineage@;
    let mut dropped = layers.remove(drop);
    let dropped_line = lineage.remove(drop);
    let m = if drop < keep { keep - 1 } else { keep };
    let mut kl = ScheduleLayer { cycle: 0, actions: Vec::new() };
    std::mem::swap(&mut kl, &mut layers[m]);
    assert(kl == ol[keep as int]);
    if dropped.cycle < kl.cycle {
        kl.cycle = dropped.cycle;
    }
    kl.actions.append(&mut dropped.actions);
    std::mem::swap(&mut kl, &mut layers[m]);
    let merged = sorted_union(&lineage[m], &dropped_line);
    let ghost before_set = lineage@;
    lineage.set(m, merged);
    proof {
        let lv = lview(oln);
        let lv2 = lview(lineage@);
        assert(before_set == oln.remove(drop as int));
        assert(before_set[m as int] == oln[keep as int]);
        assert forall|v: int| 0 <= v < lv2.len() && v != m implies #[trigger] lv2[v] == lv.remove(drop as int)[v] by {
            assert(lineage@[v] == before_set[v]);
            let w = if v < drop { v } else { v + 1 };
            assert(before_set[v] == oln[w]);
            assert(lv.remove(drop as int)[v] == lv[w]);
        }
        assert(lv2[m as int] == lineage@[m as int]@);
        assert(lv[keep as int] == oln[keep as int]@);
        assert(lv[drop as int] == oln[drop as int]@);
        assert(dropped_line@ == oln[drop as int]@);
        assert forall|k: int| 0 <= k < layers@.len() && k != m implies #[trigger] layers@[k] == ol.remove(drop as int)[k] by {}
    }
    Ok(())
}

/// Cycles after merging `drop` into `keep` (earlier cycle kept), before renumbering.
pub open spec fn merged_cycles(cs: Seq<u32>, keep: int, drop: int) -> Seq<u32> {
    cs.update(keep, if cs[keep] <= cs[drop] { cs[keep] } else { cs[drop] }).remove(drop)
}

/// Simulate merging `drop` into `keep` and renumbering densely; report whether
/// every dependency still runs from an earlier cycle to a strictly later one.
pub fn merge_keeps_order(
    cycles: &Vec<u32>,
    lineage: &Vec<Vec<u32>>,
    deps: &[ScheduleDependency],
    keep: usize,
    drop: usize,
    Ghost(n0): Ghost<int>,
) -> (b: bool)
    requires
        cycles@.len() == lineage@.len(),
        cycles@.len() <= u32::MAX,
        keep != drop,
        keep < cycles@.len(),
        drop < cycles@.len(),
        lineage_partition(lview(lineage@), n0),
    ensures
        b == deps_ordered(
            lineage@.len() - 1,
            |v: int, x: u32| merged_mem(lview(lineage@), keep as int, drop as int, v, x),
            |v: int| count_below(merged_cycles(cycles@, keep as int, drop as int), merged_cycles(cycles@, keep as int, drop as int)[v]) as int,
            deps@,
        ),
{
    let n = cycles.len();
    let m = if drop < keep { keep - 1 } else { keep };
    let ck = cycles[keep];
    let cd = cycles[drop];
    let mc = if ck <= cd { ck } else { cd };
    let merged = sorted_union(&lineage[keep], &lineage[drop]);
    let mut sim_cycles: Vec<u32> = Vec::new();
    let mut sim_lineage: Vec<Vec<u32>> = Vec::new();
    let ghost mcs = merged_cycles(cycles@, keep as int, drop as int);
    let ghost lv = lview(lineage@);
    let mut k: usize = 0;
    while k < n
        invariant
            n == cycles@.len(),
            n == lineage@.len(),
            keep != drop,
            keep < n,
            drop < n,
            m == merged_index(keep as int, drop as int),
            mcs == merged_cycles(cycles@, keep as int, drop as int),
            lv == lview(lineage@),
            mc == (if cycles@[keep as int] <= cycles@[drop as int] { cycles@[keep as int] } else { cycles@[drop as int] }),
            sorted_u32(merged@),
            forall|x: u32| #[trigger] merged@.contains(x) <==> (lineage@[keep as int]@.contains(x) || lineage@[drop as int]@.contains(x)),
            k <= n,
            sim_cycles@.len() == sim_lineage@.len(),
            sim_cycles@.len() == if k <= drop { k as int } else { k - 1 },
            forall|v: int| 0 <= v < sim_cycles@.len() ==> sim_cycles@[v] == mcs[v],
            forall|v: int| 0 <= v < sim_lineage@.len() && v != m ==> (#[trigger] sim_lineage@[v])@ == lv.remove(drop as int)[v],
            m < sim_lineage@.len() ==> sim_lineage@[m as int]@ == merged@,
        decreases n - k,
    {
        if k != drop {
            if k == keep {
                sim_cycles.push(mc);
                sim_lineage.push(copy_vec(&merged));
            } else {
                sim_cycles.push(cycles[k]);
                sim_lineage.push(copy_vec(&lineage[k]));
            }
            proof {
                let v = sim_cycles@.len() - 1;
                assert(v == if k < drop { k as int } else { k - 1 });
                assert(lv.remove(drop as int)[v] == lv[k as int]);
                assert(lv[k as int] == lineage@[k as int]@);
            }
        }
        k += 1;
    }
    let ghost lv2 = lview(sim_lineage@);
    proof {
        assert(sim_cycles@ =~= mcs);
        assert(is_merged_view(lv, lv2, keep as int, drop as int)) by {
            assert forall|v: int| 0 <= v < lv2.len() && v != m implies #[trigger] lv2[v] == lv.remove(drop as int)[v] by {
                assert(lv2[v] == sim_lineage@[v]@);
            }
            assert(lv2[m as int] == merged@);
            assert(lv[keep as int] == lineage@[keep as int]@);
            assert(lv[drop as int] == lineage@[drop as int]@);
        }
        lemma_merged_partition(lv, lv2, keep as int, drop as int, n0);
        lemma_merged_view_mem(lv, lv2, keep as int, drop as int);
    }
    let ranks = rank_cycles(&sim_cycles);
    let b = hard_dep_cycle_order_ok(&ranks, &sim_lineage, deps, Ghost(n0));
    proof {
        let mem1 = |v: int, x: u32| sim_lineage@[v]@.contains(x);
        let mem2 = |v: int, x: u32| merged_mem(lv, keep as int, drop as int, v, x);
        let cyc1 = |v: int| ranks@[v] as int;
        let cyc2 = |v: int| count_below(mcs, mcs[v]) as int;
        let nv = sim_lineage@.len() as int;
        assert forall|v: int, x: u32| 0 <= v < nv implies #[trigger] mem1(v, x) == mem2(v, x) by {
            assert(lv2[v] == sim_lineage@[v]@);
        }
        assert forall|v: int| 0 <= v < nv implies #[trigger] cyc1(v) == cyc2(v) by {}
        if b {
            assert forall|kk: int, u: int, v: int| 0 <= kk < deps@.len() && 0 <= u < nv && 0 <= v < nv
                && #[trigger] mem2(u, (#[trigger] deps@[kk]).before) && #[trigger] mem2(v, deps@[kk].after)
                implies cyc2(u) < cyc2(v) by {
                assert(mem1(u, deps@[kk].before));
                assert(mem1(v, deps@[kk].after));
            }
        } else {
            let (kk, u, v) = choose|kk: int, u: int, v: int| 0 <= kk < deps@.len() && 0 <= u < nv && 0 <= v < nv
                && #[trigger] mem1(u, (#[trigger] deps@[kk]).before) && #[trigger] mem1(v, deps@[kk].after)
                && !(cyc1(u) < cyc1(v));
            assert(mem2(u, deps@[kk].before));
            assert(mem2(v, deps@[kk].after));
        }
    }
    b
}

/// Critical-path metadata over the post-compaction layer DAG.
#[derive(Clone, Debug)]
pub struct CriticalPathReport {
    /// Number of cycles (`max(cycle) + 1`).
    pub makespan_cycles: u32,
    /// Longest dependency-chain length, counted in post-merge vertices.
    pub critical_path_length: u32,
    /// Pre-merge input layer indices of the vertices on some longest chain.
    pub critical_layer_indices: Vec<u32>,
    /// Interaction ids of critical layers; schedule layers carry none, so empty.
    pub critical_interaction_ids: Vec<InteractionId>,
}

/// Vertex `u` must precede vertex `v`: some dependency runs from an input
/// layer merged into `u` to one merged into `v`.
pub open spec fn post_edge(lv: Seq<Seq<u32>>, deps: Seq<ScheduleDependency>, u: int, v: int) -> bool {
    &&& 0 <= u < lv.len()
    &&& 0 <= v < lv.len()
    &&& u != v
    &&& exists|k: int| 0 <= k < deps.len() && #[trigger] lv[u].contains(deps[k].before) && lv[v].contains(deps[k].after)
}

/// Longest-chain lengths computed visiting vertices by increasing cycle
/// (`cs` holds the vertices' cycles): `lf[i]` counts vertices on the longest
/// chain ending at `i`, where a predecessor not yet visited counts 1; `ls[i]`
/// counts vertices on the longest chain starting at `i`, visiting by
/// decreasing cycle, where a successor not yet visited counts 0. When every
/// edge runs from a lower to a higher cycle these are the exact lengths.
pub open spec fn longest_ok(lv: Seq<Seq<u32>>, deps: Seq<ScheduleDependency>, cs: Seq<u32>, lf: Seq<int>, ls: Seq<int>) -> bool {
    let n = lv.len();
    &&& lf.len() == n
    &&& ls.len() == n
    &&& forall|p: int, i: int| #[trigger] post_edge(lv, deps, p, i) ==> lf[i] >= 1 + (if cs[p] < cs[i] { lf[p] } else { 1 })
    &&& forall|i: int| 0 <= i < n ==> (#[trigger] lf[i] == 1 && !exists|p: int| post_edge(lv, deps, p, i))
        || exists|p: int| post_edge(lv, deps, p, i) && lf[i] == 1 + (if cs[p] < cs[i] { lf[p] } else { 1 })
    &&& forall|i: int, q: int| #[trigger] post_edge(lv, deps, i, q) ==> ls[i] >= 1 + (if cs[q] > cs[i] { ls[q] } else { 0 })
    &&& forall|i: int| 0 <= i < n ==> (#[trigger] ls[i] == 1 && !exists|q: int| post_edge(lv, deps, i, q))
        || exists|q: int| post_edge(lv, deps, i, q) && ls[i] == 1 + (if cs[q] > cs[i] { ls[q] } else { 0 })
}

/// Vertex `q` has been visited before the `v`-th vertex of rank `t`, in
/// increasing rank order.
pub open spec fn visited_before(ranks: Seq<u32>, t: int, v: int, q: int) -> bool {
    ranks[q] < t || (ranks[q] == t && q < v)
}

/// Vertex `q` has been visited before the `v`-th vertex of rank `t`, in
/// decreasing rank order.
pub open spec fn visited_after(ranks: Seq<u32>, t: int, v: int, q: int) -> bool {
    ranks[q] > t || (ranks[q] == t && q < v)
}

/// Over distinct cycles, ranks order vertices as their cycles do.
pub proof fn lemma_rank_order(cs: Seq<u32>, p: int, q: int)
    requires
        distinct_u32(cs),
        0 <= p < cs.len(),
        0 <= q < cs.len(),
    ensures
        count_below(cs, cs[p]) < count_below(cs, cs[q]) <==> cs[p] < cs[q],
        count_below(cs, cs[p]) == count_below(cs, cs[q]) <==> p == q,
        count_below(cs, cs[p]) < cs.len(),
{
    assert(cs.contains(cs[p]));
    assert(cs.contains(cs[q]));
    if cs[p] < cs[q] {
        lemma_count_below_mono(cs, cs[p], cs[q]);
    } else if cs[q] < cs[p] {
        lemma_count_below_mono(cs, cs[q], cs[p]);
    } else if p != q {
        if p < q {
            assert(cs[p] != cs[q]);
        } else {
            assert(cs[q] != cs[p]);
        }
    }
    lemma_count_below_own(cs, p);
}

/// Longest chain ending at each vertex, visiting vertices by increasing cycle
/// (`ranks` orders the vertices as their cycles `cs` do).
fn chain_lengths_to(preds: &Vec<Vec<usize>>, ranks: &Vec<u32>, cs: &Vec<u32>, Ghost(lv): Ghost<Seq<Seq<u32>>>,
    Ghost(deps): Ghost<Seq<ScheduleDependency>>, n: usize) -> (lf: Vec<u32>)
    requires
        n == preds@.len(),
        n == ranks@.len(),
        n == cs@.len(),
        n == lv.len(),
        n + 2 < u32::MAX,
        forall|p: int, q: int| 0 <= p < n && 0 <= q < n ==>
            ((#[trigger] ranks@[p] < #[trigger] ranks@[q] <==> cs@[p] < cs@[q]) && (ranks@[p] == ranks@[q] <==> p == q)),
        forall|q: int| 0 <= q < n ==> #[trigger] ranks@[q] < n,
        forall|a: int, b: usize| 0 <= a < n ==> (#[trigger] preds@[a]@.contains(b) <==> post_edge(lv, deps, b as int, a)),
    ensures
        lf@.len() == n,
        forall|q: int| 0 <= q < n ==> 1 <= #[trigger] lf@[q] <= ranks@[q] + 2,
        forall|p: int, q: int| #[trigger] post_edge(lv, deps, p, q) ==> lf@[q] >= 1 + (if cs@[p] < cs@[q] { lf@[p] as int } else { 1 }),
        forall|q: int| 0 <= q < n ==> (#[trigger] lf@[q] == 1 && !exists|p: int| post_edge(lv, deps, p, q))
            || exists|p: int| post_edge(lv, deps, p, q) && lf@[q] == 1 + (if cs@[p] < cs@[q] { lf@[p] as int } else { 1 }),
{
    // Longest chain ending at each vertex, visiting vertices by increasing cycle.
    let mut lf: Vec<u32> = Vec::new();
    let mut z: usize = 0;
    while z < n
        invariant
            z <= n,
            lf@.len() == z,
            forall|a: int| 0 <= a < z ==> lf@[a] == 1,
        decreases n - z,
    {
        lf.push(1);
        z += 1;
    }
    let mut t: usize = 0;
    while t < n
        invariant
            n == preds@.len(),
            n + 2 < u32::MAX,
            n == lv.len(),
            cs@.len() == n,
            ranks@.len() == n,
            forall|p: int, q: int| 0 <= p < n && 0 <= q < n ==>
                ((#[trigger] ranks@[p] < #[trigger] ranks@[q] <==> cs@[p] < cs@[q]) && (ranks@[p] == ranks@[q] <==> p == q)),
            forall|q: int| 0 <= q < n ==> #[trigger] ranks@[q] < n,
            preds@.len() == n,
            forall|a: int, b: usize| 0 <= a < n ==> (#[trigger] preds@[a]@.contains(b) <==> post_edge(lv, deps, b as int, a)),
            t <= n,
            lf@.len() == n,
            forall|q: int| 0 <= q < n && t <= ranks@[q] ==> #[trigger] lf@[q] == 1,
            forall|q: int| 0 <= q < n && ranks@[q] < t ==> 1 <= #[trigger] lf@[q] <= ranks@[q] + 2,
            forall|p: int, q: int| #[trigger] post_edge(lv, deps, p, q) && ranks@[q] < t
                ==> lf@[q] >= 1 + (if cs@[p] < cs@[q] { lf@[p] as int } else { 1 }),
            forall|q: int| 0 <= q < n && ranks@[q] < t ==> (#[trigger] lf@[q] == 1 && !exists|p: int| post_edge(lv, deps, p, q))
                || exists|p: int| post_edge(lv, deps, p, q) && lf@[q] == 1 + (if cs@[p] < cs@[q] { lf@[p] as int } else { 1 }),
        decreases n - t,
    {
        let mut v: usize = 0;
        while v < n
            invariant
                n == preds@.len(),
                n + 2 < u32::MAX,
                n == lv.len(),
                cs@.len() == n,
                ranks@.len() == n,
                forall|p: int, q: int| 0 <= p < n && 0 <= q < n ==>
                    ((#[trigger] ranks@[p] < #[trigger] ranks@[q] <==> cs@[p] < cs@[q]) && (ranks@[p] == ranks@[q] <==> p == q)),
                forall|q: int| 0 <= q < n ==> #[trigger] ranks@[q] < n,
                preds@.len() == n,
                forall|a: int, b: usize| 0 <= a < n ==> (#[trigger] preds@[a]@.contains(b) <==> post_edge(lv, deps, b as int, a)),
                t < n,
                v <= n,
                lf@.len() == n,
                forall|q: int| 0 <= q < n && !visited_before(ranks@, t as int, v as int, q) ==> #[trigger] lf@[q] == 1,
                forall|q: int| 0 <= q < n && visited_before(ranks@, t as int, v as int, q) ==> 1 <= #[trigger] lf@[q] <= ranks@[q] + 2,
                forall|p: int, q: int| #[trigger] post_edge(lv, deps, p, q) && visited_before(ranks@, t as int, v as int, q)
                    ==> lf@[q] >= 1 + (if cs@[p] < cs@[q] { lf@[p] as int } else { 1 }),
                forall|q: int| 0 <= q < n && visited_before(ranks@, t as int, v as int, q)
                    ==> (#[trigger] lf@[q] == 1 && !exists|p: int| post_edge(lv, deps, p, q))
                    || exists|p: int| post_edge(lv, deps, p, q) && lf@[q] == 1 + (if cs@[p] < cs@[q] { lf@[p] as int } else { 1 }),
            decreases n - v,
        {
            if ranks[v] as usize == t {
                let row = &preds[v];
                let mut best: u32 = 0;
                let mut r: usize = 0;
                proof {
                    assert forall|m: int| 0 <= m < row@.len() implies row@[m] < n && post_edge(lv, deps, row@[m] as int, v as int) by {
                        assert(preds@[v as int]@.contains(row@[m]));
                    }
                }
                while r < row.len()
                    invariant
                        v < n,
                        t < n,
                        n + 2 < u32::MAX,
                        ranks@.len() == n,
                        cs@.len() == n,
                        ranks@[v as int] == t,
                        forall|p: int, q: int| 0 <= p < n && 0 <= q < n ==>
                            ((#[trigger] ranks@[p] < #[trigger] ranks@[q] <==> cs@[p] < cs@[q]) && (ranks@[p] == ranks@[q] <==> p == q)),
                        lf@.len() == n,
                        r <= row@.len(),
                        forall|q: int| 0 <= q < n && !visited_before(ranks@, t as int, v as int, q) ==> #[trigger] lf@[q] == 1,
                        forall|q: int| 0 <= q < n && visited_before(ranks@, t as int, v as int, q) ==> 1 <= #[trigger] lf@[q] <= ranks@[q] + 2,
                        forall|m: int| 0 <= m < row@.len() ==> row@[m] < n && post_edge(lv, deps, row@[m] as int, v as int),
                        best <= t + 1,
                        forall|m: int| 0 <= m < r ==> best >= lf@[row@[m] as int],
                        best == 0 || exists|m: int| 0 <= m < r && best == lf@[row@[m] as int],
                    decreases row.len() - r,
                {
                    let p = row[r];
                    proof {
                        if visited_before(ranks@, t as int, v as int, p as int) {
                            assert(ranks@[p as int] != ranks@[v as int]);
                        }
                    }
                    if lf[p] > best {
                        best = lf[p];
                    }
                    r += 1;
                }
                let ghost old_lf = lf@;
                lf.set(v, best + 1);
                proof {
                    let vi = v as int;
                    assert forall|p: int, q: int| #[trigger] post_edge(lv, deps, p, q) && visited_before(ranks@, t as int, vi + 1, q)
                        implies lf@[q] >= 1 + (if cs@[p] < cs@[q] { lf@[p] as int } else { 1 }) by {
                        if q == vi {
                            assert(preds@[vi]@.contains(p as usize));
                            let m = choose|m: int| 0 <= m < row@.len() && row@[m] == p as usize;
                            if cs@[p] < cs@[q] {
                                assert(ranks@[p] < ranks@[q]);
                            }
                        } else {
                            assert(ranks@[q] != ranks@[vi]);
                            if cs@[p] < cs@[q] {
                                assert(ranks@[p] < ranks@[q]);
                            }
                        }
                    }
                    assert forall|q: int| 0 <= q < n && visited_before(ranks@, t as int, vi + 1, q)
                        implies (#[trigger] lf@[q] == 1 && !exists|p: int| post_edge(lv, deps, p, q))
                        || exists|p: int| post_edge(lv, deps, p, q) && lf@[q] == 1 + (if cs@[p] < cs@[q] { lf@[p] as int } else { 1 }) by {
                        if q == vi {
                            if best == 0 {
                                if exists|p: int| post_edge(lv, deps, p, q) {
                                    let p = choose|p: int| post_edge(lv, deps, p, q);
                                    assert(preds@[vi]@.contains(p as usize));
                                    let m = choose|m: int| 0 <= m < row@.len() && row@[m] == p as usize;
                                    if visited_before(ranks@, t as int, vi, p) {
                                        assert(old_lf[p] >= 1);
                                    } else {
                                        assert(old_lf[p] == 1);
                                    }
                                }
                            } else {
                                let m = choose|m: int| 0 <= m < row@.len() && best == old_lf[row@[m] as int];
                                let p = row@[m] as int;
                                assert(post_edge(lv, deps, p, q));
                                if cs@[p] < cs@[q] {
                                    assert(ranks@[p] < ranks@[q]);
                                } else {
                                    assert(ranks@[p] != ranks@[q]);
                                    assert(!visited_before(ranks@, t as int, vi, p));
                                    assert(old_lf[p] == 1);
                                }
                                assert(post_edge(lv, deps, p, q) && lf@[q] == 1 + (if cs@[p] < cs@[q] { lf@[p] as int } else { 1 }));
                            }
                        } else {
                            assert(ranks@[q] != ranks@[vi]);
                            if exists|p: int| post_edge(lv, deps, p, q) && old_lf[q] == 1 + (if cs@[p] < cs@[q] { old_lf[p] as int } else { 1 }) {
                                let p = choose|p: int| post_edge(lv, deps, p, q) && old_lf[q] == 1 + (if cs@[p] < cs@[q] { old_lf[p] as int } else { 1 });
                                if cs@[p] < cs@[q] {
                                    assert(ranks@[p] < ranks@[q]);
                                }
                                assert(post_edge(lv, deps, p, q) && lf@[q] == 1 + (if cs@[p] < cs@[q] { lf@[p] as int } else { 1 }));
                            }
                        }
                    }
                    assert forall|q: int| 0 <= q < n && visited_before(ranks@, t as int, vi + 1, q) implies 1 <= #[trigger] lf@[q] <= ranks@[q] + 2 by {
                        if q == vi {
                            if best > 0 {
                                let m = choose|m: int| 0 <= m < row@.len() && best == old_lf[row@[m] as int];
                                let p = row@[m] as int;
                                if visited_before(ranks@, t as int, vi, p) {
                                    assert(ranks@[p] != ranks@[q]);
                                }
                            }
                        }
                    }
                }
            }
            v += 1;
        }
        t += 1;
    }
    lf
}

/// Longest chain starting at each vertex, visiting vertices by decreasing cycle.
fn chain_lengths_from(succs: &Vec<Vec<usize>>, ranks: &Vec<u32>, cs: &Vec<u32>, Ghost(lv): Ghost<Seq<Seq<u32>>>,
    Ghost(deps): Ghost<Seq<ScheduleDependency>>, n: usize) -> (ls: Vec<u32>)
    requires
        n == succs@.len(),
        n == ranks@.len(),
        n == cs@.len(),
        n == lv.len(),
        n + 2 < u32::MAX,
        forall|p: int, q: int| 0 <= p < n && 0 <= q < n ==>
            ((#[trigger] ranks@[p] < #[trigger] ranks@[q] <==> cs@[p] < cs@[q]) && (ranks@[p] == ranks@[q] <==> p == q)),
        forall|q: int| 0 <= q < n ==> #[trigger] ranks@[q] < n,
        forall|a: int, b: usize| 0 <= a < n ==> (#[trigger] succs@[a]@.contains(b) <==> post_edge(lv, deps, a, b as int)),
    ensures
        ls@.len() == n,
        forall|q: int| 0 <= q < n ==> 1 <= #[trigger] ls@[q] <= n - ranks@[q],
        forall|q: int, s: int| #[trigger] post_edge(lv, deps, q, s) ==> ls@[q] >= 1 + (if cs@[s] > cs@[q] { ls@[s] as int } else { 0 }),
        forall|q: int| 0 <= q < n ==> (#[trigger] ls@[q] == 1 && !exists|s: int| post_edge(lv, deps, q, s))
            || exists|s: int| post_edge(lv, deps, q, s) && ls@[q] == 1 + (if cs@[s] > cs@[q] { ls@[s] as int } else { 0 }),
{
    // Longest chain starting at each vertex, visiting vertices by decreasing cycle.
    let mut ls: Vec<u32> = Vec::new();
    let mut z: usize = 0;
    while z < n
        invariant
            z <= n,
            ls@.len() == z,
            forall|a: int| 0 <= a < z ==> ls@[a] == 0,
        decreases n - z,
    {
        ls.push(0);
        z += 1;
    }
    let mut t: usize = n;
    while t > 0
        invariant
            n == succs@.len(),
            n + 2 < u32::MAX,
            n == lv.len(),
            cs@.len() == n,
            ranks@.len() == n,
            forall|p: int, q: int| 0 <= p < n && 0 <= q < n ==>
                ((#[trigger] ranks@[p] < #[trigger] ranks@[q] <==> cs@[p] < cs@[q]) && (ranks@[p] == ranks@[q] <==> p == q)),
            forall|q: int| 0 <= q < n ==> #[trigger] ranks@[q] < n,
            succs@.len() == n,
            forall|a: int, b: usize| 0 <= a < n ==> (#[trigger] succs@[a]@.contains(b) <==> post_edge(lv, deps, a, b as int)),
            t <= n,
            ls@.len() == n,
            forall|q: int| 0 <= q < n && ranks@[q] < t ==> #[trigger] ls@[q] == 0,
            forall|q: int| 0 <= q < n && t <= ranks@[q] ==> 1 <= #[trigger] ls@[q] <= n - ranks@[q],
            forall|q: int, s: int| #[trigger] post_edge(lv, deps, q, s) && t <= ranks@[q]
                ==> ls@[q] >= 1 + (if cs@[s] > cs@[q] { ls@[s] as int } else { 0 }),
            forall|q: int| 0 <= q < n && t <= ranks@[q] ==> (#[trigger] ls@[q] == 1 && !exists|s: int| post_edge(lv, deps, q, s))
                || exists|s: int| post_edge(lv, deps, q, s) && ls@[q] == 1 + (if cs@[s] > cs@[q] { ls@[s] as int } else { 0 }),
        decreases t,
    {
        t -= 1;
        let mut v: usize = 0;
        while v < n
            invariant
                n == succs@.len(),
                n + 2 < u32::MAX,
                n == lv.len(),
                cs@.len() == n,
                ranks@.len() == n,
                forall|p: int, q: int| 0 <= p < n && 0 <= q < n ==>
                    ((#[trigger] ranks@[p] < #[trigger] ranks@[q] <==> cs@[p] < cs@[q]) && (ranks@[p] == ranks@[q] <==> p == q)),
                forall|q: int| 0 <= q < n ==> #[trigger] ranks@[q] < n,
                succs@.len() == n,
                forall|a: int, b: usize| 0 <= a < n ==> (#[trigger] succs@[a]@.contains(b) <==> post_edge(lv, deps, a, b as int)),
                t < n,
                v <= n,
                ls@.len() == n,
                forall|q: int| 0 <= q < n && !visited_after(ranks@, t as int, v as int, q) ==> #[trigger] ls@[q] == 0,
                forall|q: int| 0 <= q < n && visited_after(ranks@, t as int, v as int, q) ==> 1 <= #[trigger] ls@[q] <= n - ranks@[q],
                forall|q: int, s: int| #[trigger] post_edge(lv, deps, q, s) && visited_after(ranks@, t as int, v as int, q)
                    ==> ls@[q] >= 1 + (if cs@[s] > cs@[q] { ls@[s] as int } else { 0 }),
                forall|q: int| 0 <= q < n && visited_after(ranks@, t as int, v as int, q)
                    ==> (#[trigger] ls@[q] == 1 && !exists|s: int| post_edge(lv, deps, q, s))
                    || exists|s: int| post_edge(lv, deps, q, s) && ls@[q] == 1 + (if cs@[s] > cs@[q] { ls@[s] as int } else { 0 }),
            decreases n - v,
        {
            if ranks[v] as usize == t {
                let row = &succs[v];
                let mut best: u32 = 0;
                let mut r: usize = 0;
                proof {
                    assert forall|m: int| 0 <= m < row@.len() implies row@[m] < n && post_edge(lv, deps, v as int, row@[m] as int) by {
                        assert(succs@[v as int]@.contains(row@[m]));
                    }
                }
                while r < row.len()
                    invariant
                        v < n,
                        t < n,
                        n + 2 < u32::MAX,
                        ranks@.len() == n,
                        cs@.len() == n,
                        ranks@[v as int] == t,
                        forall|p: int, q: int| 0 <= p < n && 0 <= q < n ==>
                            ((#[trigger] ranks@[p] < #[trigger] ranks@[q] <==> cs@[p] < cs@[q]) && (ranks@[p] == ranks@[q] <==> p == q)),
                        ls@.len() == n,
                        r <= row@.len(),
                        forall|q: int| 0 <= q < n && !visited_after(ranks@, t as int, v as int, q) ==> #[trigger] ls@[q] == 0,
                        forall|q: int| 0 <= q < n && visited_after(ranks@, t as int, v as int, q) ==> 1 <= #[trigger] ls@[q] <= n - ranks@[q],
                        forall|m: int| 0 <= m < row@.len() ==> row@[m] < n && post_edge(lv, deps, v as int, row@[m] as int),
                        best < n - t,
                        forall|m: int| 0 <= m < r ==> best >= ls@[row@[m] as int],
                        best == 0 || exists|m: int| 0 <= m < r && best == ls@[row@[m] as int],
                    decreases row.len() - r,
                {
                    let s = row[r];
                    proof {
                        if visited_after(ranks@, t as int, v as int, s as int) {
                            assert(ranks@[s as int] != ranks@[v as int]);
                        }
                    }
                    if ls[s] > best {
                        best = ls[s];
                    }
                    r += 1;
                }
                let ghost old_ls = ls@;
                ls.set(v, best + 1);
                proof {
                    let vi = v as int;
                    assert forall|q: int, s: int| #[trigger] post_edge(lv, deps, q, s) && visited_after(ranks@, t as int, vi + 1, q)
                        implies ls@[q] >= 1 + (if cs@[s] > cs@[q] { ls@[s] as int } else { 0 }) by {
                        if q == vi {
                            assert(succs@[vi]@.contains(s as usize));
                            let m = choose|m: int| 0 <= m < row@.len() && row@[m] == s as usize;
                            if cs@[s] > cs@[q] {
                                assert(ranks@[q] < ranks@[s]);
                            }
                        } else {
                            assert(ranks@[q] != ranks@[vi]);
                            if cs@[s] > cs@[q] {
                                assert(ranks@[q] < ranks@[s]);
                            }
                        }
                    }
                    assert forall|q: int| 0 <= q < n && visited_after(ranks@, t as int, vi + 1, q)
                        implies (#[trigger] ls@[q] == 1 && !exists|s: int| post_edge(lv, deps, q, s))
                        || exists|s: int| post_edge(lv, deps, q, s) && ls@[q] == 1 + (if cs@[s] > cs@[q] { ls@[s] as int } else { 0 }) by {
                        if q == vi {
                            if best == 0 {
                                if exists|s: int| post_edge(lv, deps, q, s) {
                                    let s = choose|s: int| post_edge(lv, deps, q, s);
                                    assert(succs@[vi]@.contains(s as usize));
                                    let m = choose|m: int| 0 <= m < row@.len() && row@[m] == s as usize;
                                    if cs@[s] > cs@[q] {
                                        assert(ranks@[q] < ranks@[s]);
                                        assert(visited_after(ranks@, t as int, vi, s));
                                    }
                                    assert(post_edge(lv, deps, q, s) && ls@[q] == 1 + (if cs@[s] > cs@[q] { ls@[s] as int } else { 0 }));
                                }
                            } else {
                                let m = choose|m: int| 0 <= m < row@.len() && best == old_ls[row@[m] as int];
                                let s = row@[m] as int;
                                assert(post_edge(lv, deps, q, s));
                                if cs@[s] > cs@[q] {
                                    assert(ranks@[q] < ranks@[s]);
                                } else {
                                    assert(ranks@[s] != ranks@[q]);
                                    assert(!visited_after(ranks@, t as int, vi, s));
                                    assert(old_ls[s] == 0);
                                }
                                assert(post_edge(lv, deps, q, s) && ls@[q] == 1 + (if cs@[s] > cs@[q] { ls@[s] as int } else { 0 }));
                            }
                        } else {
                            assert(ranks@[q] != ranks@[vi]);
                            if exists|s: int| post_edge(lv, deps, q, s) && old_ls[q] == 1 + (if cs@[s] > cs@[q] { old_ls[s] as int } else { 0 }) {
                                let s = choose|s: int| post_edge(lv, deps, q, s) && old_ls[q] == 1 + (if cs@[s] > cs@[q] { old_ls[s] as int } else { 0 });
                                if cs@[s] > cs@[q] {
                                    assert(ranks@[q] < ranks@[s]);
                                }
                                assert(post_edge(lv, deps, q, s) && ls@[q] == 1 + (if cs@[s] > cs@[q] { ls@[s] as int } else { 0 }));
                            }
                        }
                    }
                    assert forall|q: int| 0 <= q < n && visited_after(ranks@, t as int, vi + 1, q) implies 1 <= #[trigger] ls@[q] <= n - ranks@[q] by {
                        if q == vi {
                            if best > 0 {
                                let m = choose|m: int| 0 <= m < row@.len() && best == old_ls[row@[m] as int];
                                let s = row@[m] as int;
                                if visited_after(ranks@, t as int, vi, s) {
                                    assert(ranks@[s] != ranks@[q]);
                                }
                            }
                        }
                    }
                }
            }
            v += 1;
        }
    }
    ls
}

/// The post-merge dependency graph: for each vertex its predecessors and
/// successors, in increasing order.
fn post_dag(lineage: &Vec<Vec<u32>>, deps: &[ScheduleDependency], Ghost(n0): Ghost<int>) -> (res: (Vec<Vec<usize>>, Vec<Vec<usize>>))
    requires
        lineage_partition(lview(lineage@), n0),
    ensures
        res.0@.len() == lineage@.len(),
        res.1@.len() == lineage@.len(),
        forall|a: int, b: usize| 0 <= a < lineage@.len() ==> (#[trigger] res.0@[a]@.contains(b) <==> post_edge(lview(lineage@), deps@, b as int, a)),
        forall|a: int, b: usize| 0 <= a < lineage@.len() ==> (#[trigger] res.1@[a]@.contains(b) <==> post_edge(lview(lineage@), deps@, a, b as int)),
{
    let n = lineage.len();
    let ghost lv = lview(lineage@);
    // Map pre-merge index → current vertex.
    let mut where_is: std::collections::BTreeMap<u32, usize> = std::collections::BTreeMap::new();
    let mut v: usize = 0;
    while v < n
        invariant
            n == lineage@.len(),
            lv == lview(lineage@),
            v <= n,
            lineage_partition(lv, n0),
            forall|x: u32| #[trigger] where_is@.contains_key(x) <==> exists|u: int| 0 <= u < v && lineage@[u]@.contains(x),
            forall|x: u32| #[trigger] where_is@.contains_key(x) ==> where_is@[x] < v && lineage@[where_is@[x] as int]@.contains(x),
        decreases n - v,
    {
        let ids = &lineage[v];
        let mut m: usize = 0;
        while m < ids.len()
            invariant
                v < lineage@.len(),
                ids == lineage@[v as int],
                m <= ids@.len(),
                forall|x: u32| #[trigger] where_is@.contains_key(x) <==> (exists|u: int| 0 <= u < v && lineage@[u]@.contains(x))
                    || ids@.take(m as int).contains(x),
                forall|x: u32| #[trigger] where_is@.contains_key(x) ==> where_is@[x] <= v && lineage@[where_is@[x] as int]@.contains(x),
            decreases ids.len() - m,
        {
            where_is.insert(ids[m], v);
            proof {
                assert(ids@.take(m + 1) =~= ids@.take(m as int).push(ids@[m as int]));
                assert forall|x: u32| #[trigger] where_is@.contains_key(x) <==> (exists|u: int| 0 <= u < v && lineage@[u]@.contains(x))
                    || ids@.take(m + 1).contains(x) by {
                    ids@.take(m as int).lemma_push_to_set_commute(ids@[m as int]);
                    assert(ids@.take(m + 1).contains(x) <==> ids@.take(m + 1).to_set().contains(x));
                    assert(ids@.take(m as int).contains(x) <==> ids@.take(m as int).to_set().contains(x));
                }
                assert(lineage@[v as int]@.contains(ids@[m as int]));
            }
            m += 1;
        }
        proof {
            assert(ids@.take(ids@.len() as int) =~= ids@);
            assert forall|x: u32| #[trigger] where_is@.contains_key(x) <==> exists|u: int| 0 <= u < v + 1 && lineage@[u]@.contains(x) by {
                if exists|u: int| 0 <= u < v + 1 && lineage@[u]@.contains(x) {
                    let u = choose|u: int| 0 <= u < v + 1 && lineage@[u]@.contains(x);
                    if u < v {
                        assert(exists|u: int| 0 <= u < v && lineage@[u]@.contains(x));
                    }
                }
            }
        }
        v += 1;
    }
    // Post-merge DAG: preds / succs lists.
    let mut preds: Vec<Vec<usize>> = Vec::new();
    let mut succs: Vec<Vec<usize>> = Vec::new();
    let mut z: usize = 0;
    while z < n
        invariant
            z <= n,
            preds@.len() == z,
            succs@.len() == z,
            forall|a: int| 0 <= a < z ==> preds@[a]@.len() == 0 && succs@[a]@.len() == 0,
        decreases n - z,
    {
        preds.push(Vec::new());
        succs.push(Vec::new());
        z += 1;
    }
    let mut k: usize = 0;
    while k < deps.len()
        invariant
            n == lineage@.len(),
            lv == lview(lineage@),
            lineage_partition(lv, n0),
            forall|x: u32| #[trigger] where_is@.contains_key(x) <==> exists|u: int| 0 <= u < n && lineage@[u]@.contains(x),
            forall|x: u32| #[trigger] where_is@.contains_key(x) ==> where_is@[x] < n && lineage@[where_is@[x] as int]@.contains(x),
            k <= deps@.len(),
            preds@.len() == n,
            succs@.len() == n,
            forall|a: int| 0 <= a < n ==> sorted_usize(#[trigger] preds@[a]@),
            forall|a: int| 0 <= a < n ==> sorted_usize(#[trigger] succs@[a]@),
            forall|a: int, b: usize| 0 <= a < n ==> (#[trigger] preds@[a]@.contains(b) <==> (b < n && b != a && exists|j: int|
                0 <= j < k && #[trigger] lv[b as int].contains(deps@[j].before) && lv[a].contains(deps@[j].after))),
            forall|a: int, b: usize| 0 <= a < n ==> (#[trigger] succs@[a]@.contains(b) <==> (b < n && b != a && exists|j: int|
                0 <= j < k && #[trigger] lv[a].contains(deps@[j].before) && lv[b as int].contains(deps@[j].after))),
        decreases deps.len() - k,
    {
        let d = deps[k];
        let ghost old_preds = preds@;
        let ghost old_succs = succs@;
        match (where_is.get(&d.before), where_is.get(&d.after)) {
            (Some(u), Some(w)) => {
                let u = *u;
                let w = *w;
                if u != w {
                    let mut row = Vec::new();
                    std::mem::swap(&mut row, &mut preds[w]);
                    insert_sorted_usize(&mut row, u);
                    std::mem::swap(&mut row, &mut preds[w]);
                    let mut row = Vec::new();
                    std::mem::swap(&mut row, &mut succs[u]);
                    insert_sorted_usize(&mut row, w);
                    std::mem::swap(&mut row, &mut succs[u]);
                }
            },
            _ => {},
        }
        proof {
            assert forall|a: int, b: usize| 0 <= a < n implies (#[trigger] preds@[a]@.contains(b) <==> (b < n && b != a && exists|j: int|
                0 <= j < k + 1 && #[trigger] lv[b as int].contains(deps@[j].before) && lv[a].contains(deps@[j].after))) by {
                lemma_where_unique(lineage@, lv, n0, d.before);
                lemma_where_unique(lineage@, lv, n0, d.after);
                if exists|j: int| 0 <= j < k + 1 && #[trigger] lv[b as int].contains(deps@[j].before) && lv[a].contains(deps@[j].after) {
                    let j = choose|j: int| 0 <= j < k + 1 && #[trigger] lv[b as int].contains(deps@[j].before) && lv[a].contains(deps@[j].after);
                    if j < k {
                        assert(exists|j: int| 0 <= j < k && #[trigger] lv[b as int].contains(deps@[j].before) && lv[a].contains(deps@[j].after));
                    }
                }
                if b < n {
                    assert(lv[b as int] == lineage@[b as int]@);
                }
                assert(lv[a] == lineage@[a]@);
            }
            assert forall|a: int, b: usize| 0 <= a < n implies (#[trigger] succs@[a]@.contains(b) <==> (b < n && b != a && exists|j: int|
                0 <= j < k + 1 && #[trigger] lv[a].contains(deps@[j].before) && lv[b as int].contains(deps@[j].after))) by {
                lemma_where_unique(lineage@, lv, n0, d.before);
                lemma_where_unique(lineage@, lv, n0, d.after);
                if exists|j: int| 0 <= j < k + 1 && #[trigger] lv[a].contains(deps@[j].before) && lv[b as int].contains(deps@[j].after) {
                    let j = choose|j: int| 0 <= j < k + 1 && #[trigger] lv[a].contains(deps@[j].before) && lv[b as int].contains(deps@[j].after);
                    if j < k {
                        assert(exists|j: int| 0 <= j < k && #[trigger] lv[a].contains(deps@[j].before) && lv[b as int].contains(deps@[j].after));
                    }
                }
                if b < n {
                    assert(lv[b as int] == lineage@[b as int]@);
                }
                assert(lv[a] == lineage@[a]@);
            }
        }
        k += 1;
    }
    proof {
        assert forall|a: int, b: usize| 0 <= a < n implies (#[trigger] preds@[a]@.contains(b) <==> post_edge(lv, deps@, b as int, a)) by {}
        assert forall|a: int, b: usize| 0 <= a < n implies (#[trigger] succs@[a]@.contains(b) <==> post_edge(lv, deps@, a, b as int)) by {}
    }
    (preds, succs)
}

/// The layers' cycles and the rank of each among them.
fn cycle_ranks(layers: &Vec<ScheduleLayer>) -> (res: (Vec<u32>, Vec<u32>))
    requires
        layers@.len() < u32::MAX,
        distinct_u32(layer_cycles(layers@)),
    ensures
        res.0@ == layer_cycles(layers@),
        res.1@.len() == layers@.len(),
        forall|p: int, q: int| 0 <= p < layers@.len() && 0 <= q < layers@.len() ==>
            ((#[trigger] res.1@[p] < #[trigger] res.1@[q] <==> res.0@[p] < res.0@[q]) && (res.1@[p] == res.1@[q] <==> p == q)),
        forall|q: int| 0 <= q < layers@.len() ==> #[trigger] res.1@[q] < layers@.len(),
{
    let n = layers.len();
    // Cycles and their ranks fix the visiting order.
    let mut cs: Vec<u32> = Vec::new();
    let mut z: usize = 0;
    while z < n
        invariant
            n == layers@.len(),
            z <= n,
            cs@ == layer_cycles(layers@).take(z as int),
        decreases n - z,
    {
        cs.push(layers[z].cycle);
        proof {
            assert(layer_cycles(layers@).take(z + 1) =~= layer_cycles(layers@).take(z as int).push(layers@[z as int].cycle));
        }
        z += 1;
    }
    proof {
        assert(layer_cycles(layers@).take(n as int) =~= layer_cycles(layers@));
    }
    let ranks = rank_cycles(&cs);
    proof {
        assert forall|p: int, q: int| 0 <= p < n && 0 <= q < n implies
            (#[trigger] ranks@[p] < #[trigger] ranks@[q] <==> cs@[p] < cs@[q]) && (ranks@[p] == ranks@[q] <==> p == q) by {
            lemma_rank_order(cs@, p, q);
        }
        assert forall|q: int| 0 <= q < n implies #[trigger] ranks@[q] < n by {
            lemma_rank_order(cs@, q, q);
        }
    }
    (cs, ranks)
}

/// The report records `makespan_cycles`, the longest chain length over the
/// post-merge dependency graph, and, sorted, the input indices of the layers
/// on some longest chain; interaction ids are never known for schedule layers.
pub open spec fn critical_report_ok(layers: Seq<ScheduleLayer>, lv: Seq<Seq<u32>>, deps: Seq<ScheduleDependency>,
    makespan_cycles: u32, r: CriticalPathReport) -> bool {
    &&& r.makespan_cycles == makespan_cycles
    &&& r.critical_interaction_ids@.len() == 0
    &&& sorted_u32(r.critical_layer_indices@)
    &&& exists|lf: Seq<int>, ls: Seq<int>| {
        &&& longest_ok(lv, deps, layer_cycles(layers), lf, ls)
        &&& (forall|i: int| 0 <= i < layers.len() ==> #[trigger] lf[i] <= r.critical_path_length)
        &&& (exists|i: int| 0 <= i < layers.len() && lf[i] == r.critical_path_length)
        &&& forall|x: u32| #[trigger] r.critical_layer_indices@.contains(x) <==> exists|v: int|
            0 <= v < layers.len() && lv[v].contains(x) && lf[v] + ls[v] - 1 == r.critical_path_length
    }
}

/// The lengths computed by the two chain passes satisfy `longest_ok`.
pub proof fn lemma_longest_ok(lv: Seq<Seq<u32>>, deps: Seq<ScheduleDependency>, cs: Seq<u32>, lf: Seq<u32>, ls: Seq<u32>)
    requires
        lf.len() == lv.len(),
        ls.len() == lv.len(),
        forall|p: int, q: int| #[trigger] post_edge(lv, deps, p, q) ==> lf[q] >= 1 + (if cs[p] < cs[q] { lf[p] as int } else { 1 }),
        forall|q: int| 0 <= q < lv.len() ==> (#[trigger] lf[q] == 1 && !exists|p: int| post_edge(lv, deps, p, q))
            || exists|p: int| post_edge(lv, deps, p, q) && lf[q] == 1 + (if cs[p] < cs[q] { lf[p] as int } else { 1 }),
        forall|q: int, s: int| #[trigger] post_edge(lv, deps, q, s) ==> ls[q] >= 1 + (if cs[s] > cs[q] { ls[s] as int } else { 0 }),
        forall|q: int| 0 <= q < lv.len() ==> (#[trigger] ls[q] == 1 && !exists|s: int| post_edge(lv, deps, q, s))
            || exists|s: int| post_edge(lv, deps, q, s) && ls[q] == 1 + (if cs[s] > cs[q] { ls[s] as int } else { 0 }),
    ensures
        longest_ok(lv, deps, cs, lf.map_values(|c: u32| c as int), ls.map_values(|c: u32| c as int)),
{
    let n = lv.len();
    let lfi = lf.map_values(|c: u32| c as int);
    let lsi = ls.map_values(|c: u32| c as int);
    assert forall|p: int, q: int| #[trigger] post_edge(lv, deps, p, q) implies lfi[q] >= 1 + (if cs[p] < cs[q] { lfi[p] } else { 1 }) by {
        assert(lf[q] >= 1 + (if cs[p] < cs[q] { lf[p] as int } else { 1 }));
    }
    assert forall|q: int| 0 <= q < n implies (#[trigger] lfi[q] == 1 && !exists|p: int| post_edge(lv, deps, p, q))
        || exists|p: int| post_edge(lv, deps, p, q) && lfi[q] == 1 + (if cs[p] < cs[q] { lfi[p] } else { 1 }) by {
        if exists|p: int| post_edge(lv, deps, p, q) && lf[q] == 1 + (if cs[p] < cs[q] { lf[p] as int } else { 1 }) {
            let p = choose|p: int| post_edge(lv, deps, p, q) && lf[q] == 1 + (if cs[p] < cs[q] { lf[p] as int } else { 1 });
            assert(post_edge(lv, deps, p, q) && lfi[q] == 1 + (if cs[p] < cs[q] { lfi[p] } else { 1 }));
        }
    }
    assert forall|q: int, s: int| #[trigger] post_edge(lv, deps, q, s) implies lsi[q] >= 1 + (if cs[s] > cs[q] { lsi[s] } else { 0 }) by {
        assert(ls[q] >= 1 + (if cs[s] > cs[q] { ls[s] as int } else { 0 }));
    }
    assert forall|q: int| 0 <= q < n implies (#[trigger] lsi[q] == 1 && !exists|s: int| post_edge(lv, deps, q, s))
        || exists|s: int| post_edge(lv, deps, q, s) && lsi[q] == 1 + (if cs[s] > cs[q] { lsi[s] } else { 0 }) by {
        if exists|s: int| post_edge(lv, deps, q, s) && ls[q] == 1 + (if cs[s] > cs[q] { ls[s] as int } else { 0 }) {
            let s = choose|s: int| post_edge(lv, deps, q, s) && ls[q] == 1 + (if cs[s] > cs[q] { ls[s] as int } else { 0 });
            assert(post_edge(lv, deps, q, s) && lsi[q] == 1 + (if cs[s] > cs[q] { lsi[s] } else { 0 }));
        }
    }
}

/// Longest chain lengths and the vertices on a longest chain, over layers
/// processed in cycle order.
pub fn critical_path_report(
    layers: &Vec<ScheduleLayer>,
    lineage: &Vec<Vec<u32>>,
    deps: &[ScheduleDependency],
    makespan_cycles: u32,
    Ghost(n0): Ghost<int>,
) -> (r: CriticalPathReport)
    requires
        0 < layers@.len() == lineage@.len(),
        layers@.len() + 2 < u32::MAX,
        distinct_u32(layer_cycles(layers@)),
        lineage_partition(lview(lineage@), n0),
    ensures
        critical_report_ok(layers@, lview(lineage@), deps@, makespan_cycles, r),
{
    let n = layers.len();
    let ghost lv = lview(lineage@);
    let (preds, succs) = post_dag(lineage, deps, Ghost(n0));
    let (cs, ranks) = cycle_ranks(layers);
    let lf = chain_lengths_to(&preds, &ranks, &cs, Ghost(lv), Ghost(deps@), n);
    let mut critical_path_length: u32 = 0;
    let mut i: usize = 0;
    while i < n
        invariant
            i <= n,
            lf@.len() == n,
            forall|q: int| 0 <= q < i ==> lf@[q] <= critical_path_length,
            (i == 0 && critical_path_length == 0) || exists|q: int| 0 <= q < i && lf@[q] == critical_path_length,
        decreases n - i,
    {
        if lf[i] > critical_path_length {
            critical_path_length = lf[i];
        }
        i += 1;
    }
    let ls = chain_lengths_from(&succs, &ranks, &cs, Ghost(lv), Ghost(deps@), n);
    proof {
        assert forall|q: int| 0 <= q < n implies 1 <= #[trigger] lf@[q] && 1 <= ls@[q] && lf@[q] + ls@[q] <= n + 2 by {
            assert(ranks@[q] < n);
        }
    }
    // Collect input indices of critical vertices.
    let mut critical: Vec<u32> = Vec::new();
    let mut v: usize = 0;
    while v < n
        invariant
            n == lineage@.len(),
            v <= n,
            lf@.len() == n,
            ls@.len() == n,
            forall|q: int| 0 <= q < n ==> 1 <= #[trigger] lf@[q] && 1 <= ls@[q] && lf@[q] + ls@[q] <= n + 2,
            n + 2 < u32::MAX,
            sorted_u32(critical@),
            forall|x: u32| #[trigger] critical@.contains(x) <==> exists|u: int|
                0 <= u < v && lineage@[u]@.contains(x) && lf@[u] + ls@[u] - 1 == critical_path_length,
        decreases n - v,
    {
        if lf[v] + ls[v] - 1 == critical_path_length {
            let ids = &lineage[v];
            let mut m: usize = 0;
            while m < ids.len()
                invariant
                    v < n,
                    n == lineage@.len(),
                    ids == lineage@[v as int],
                    m <= ids@.len(),
                    sorted_u32(critical@),
                    lf@[v as int] + ls@[v as int] - 1 == critical_path_length,
                    forall|x: u32| #[trigger] critical@.contains(x) <==> (exists|u: int|
                        0 <= u < v && lineage@[u]@.contains(x) && lf@[u] + ls@[u] - 1 == critical_path_length)
                        || ids@.take(m as int).contains(x),
                decreases ids.len() - m,
            {
                insert_sorted_u32(&mut critical, ids[m]);
                proof {
                    assert(ids@.take(m + 1) =~= ids@.take(m as int).push(ids@[m as int]));
                    ids@.take(m as int).lemma_push_to_set_commute(ids@[m as int]);
                    assert forall|x: u32| #[trigger] critical@.contains(x) <==> (exists|u: int|
                        0 <= u < v && lineage@[u]@.contains(x) && lf@[u] + ls@[u] - 1 == critical_path_length)
                        || ids@.take(m + 1).contains(x) by {
                        assert(ids@.take(m + 1).contains(x) <==> ids@.take(m + 1).to_set().contains(x));
                        assert(ids@.take(m as int).contains(x) <==> ids@.take(m as int).to_set().contains(x));
                    }
                }
                m += 1;
            }
            proof {
                assert(ids@.take(ids@.len() as int) =~= ids@);
            }
        }
        proof {
            assert forall|x: u32| #[trigger] critical@.contains(x) <==> exists|u: int|
                0 <= u < v + 1 && lineage@[u]@.contains(x) && lf@[u] + ls@[u] - 1 == critical_path_length by {
                if exists|u: int| 0 <= u < v + 1 && lineage@[u]@.contains(x) && lf@[u] + ls@[u] - 1 == critical_path_length {
                    let u = choose|u: int| 0 <= u < v + 1 && lineage@[u]@.contains(x) && lf@[u] + ls@[u] - 1 == critical_path_length;
                    if u < v {
                        assert(exists|u: int| 0 <= u < v && lineage@[u]@.contains(x) && lf@[u] + ls@[u] - 1 == critical_path_length);
                    }
                }
            }
        }
        v += 1;
    }
    proof {
        let lfi = lf@.map_values(|c: u32| c as int);
        let lsi = ls@.map_values(|c: u32| c as int);
        lemma_longest_ok(lv, deps@, cs@, lf@, ls@);
        assert(forall|q: int| 0 <= q < n ==> #[trigger] lfi[q] <= critical_path_length);
        assert(cs@ == layer_cycles(layers@));
        let q0 = choose|q: int| 0 <= q < n && lf@[q] == critical_path_length;
        assert(lfi[q0] == critical_path_length);
        assert forall|x: u32| #[trigger] critical@.contains(x) <==> exists|u: int|
            0 <= u < n && lineage@[u]@.contains(x) && lfi[u] + lsi[u] - 1 == critical_path_length by {
            if critical@.contains(x) {
                let u = choose|u: int| 0 <= u < n && lineage@[u]@.contains(x) && lf@[u] + ls@[u] - 1 == critical_path_length;
                assert(lfi[u] + lsi[u] - 1 == critical_path_length);
            }
            if exists|u: int| 0 <= u < n && lineage@[u]@.contains(x) && lfi[u] + lsi[u] - 1 == critical_path_length {
                let u = choose|u: int| 0 <= u < n && lineage@[u]@.contains(x) && lfi[u] + lsi[u] - 1 == critical_path_length;
                assert(lf@[u] + ls@[u] - 1 == critical_path_length);
            }
        }
    }
    CriticalPathReport {
        makespan_cycles,
        critical_path_length,
        critical_layer_indices: critical,
        critical_interaction_ids: Vec::new(),
    }
}

/// Under a partition, an input index lies in at most one lineage entry.
pub proof fn lemma_where_unique(lineage: Seq<Vec<u32>>, lv: Seq<Seq<u32>>, n0: int, x: u32)
    requires
        lv == lview(lineage),
        lineage_partition(lv, n0),
    ensures
        forall|u: int, w: int| 0 <= u < lineage.len() && 0 <= w < lineage.len() && lineage[u]@.contains(x)
            && lineage[w]@.contains(x) ==> u == w,
{
    assert forall|u: int, w: int| 0 <= u < lineage.len() && 0 <= w < lineage.len() && lineage[u]@.contains(x)
        && lineage[w]@.contains(x) implies u == w by {
        assert(lv[u] == lineage[u]@);
        assert(lv[w] == lineage[w]@);
    }
}

/// Outcome of trying to merge two layers.
#[derive(Clone, Debug)]
pub enum MergeAttempt {
    /// The merge is legal.
    Legal,
    /// The union is not a legal layer (shared atom or site); try another pair.
    Skip,
    /// The pair is structurally illegal to merge.
    HardFail(CompactionError),
}

/// The simulated post-merge order check: every dependency runs forward in the
/// densely renumbered cycles after merging `drop` into `keep`.
pub open spec fn merge_order_ok(layers: Seq<ScheduleLayer>, lv: Seq<Seq<u32>>, deps: Seq<ScheduleDependency>, keep: int, drop: int) -> bool {
    deps_ordered(
        lv.len() - 1,
        |v: int, x: u32| merged_mem(lv, keep, drop, v, x),
        |v: int| count_below(merged_cycles(layer_cycles(layers), keep, drop), merged_cycles(layer_cycles(layers), keep, drop)[v]) as int,
        deps,
    )
}

/// What trying to merge layers `i` and `j` yields.
pub open spec fn merge_attempt_spec(layers: Seq<ScheduleLayer>, lv: Seq<Seq<u32>>, deps: Seq<ScheduleDependency>, i: int, j: int) -> Result<MergeAttempt, CompactionError> {
    if hard_dep_crosses(lv[i], lv[j], deps) {
        Ok(MergeAttempt::HardFail(CompactionError::DependencyViolation))
    } else {
        match classify_merge_spec(layers[i], layers[j]) {
            MergeClass::Forbidden => if layer_has_transfer_spec(layers[i]) || layer_has_transfer_spec(layers[j]) {
                Ok(MergeAttempt::HardFail(CompactionError::ForbiddenMergeClass))
            } else {
                Ok(MergeAttempt::Skip)
            },
            MergeClass::M0 => Ok(MergeAttempt::HardFail(CompactionError::ForbiddenMergeClass)),
            MergeClass::E0 => if uses_placeholder_aod_spec(layers[i]) || uses_placeholder_aod_spec(layers[j]) {
                Ok(MergeAttempt::HardFail(CompactionError::ForbiddenMergeClass))
            } else if !conflict_free(layers[i].actions@ + layers[j].actions@) {
                Ok(MergeAttempt::Skip)
            } else if !occupancy_free(layers[i].actions@ + layers[j].actions@) {
                Ok(MergeAttempt::Skip)
            } else if i == j {
                Err(CompactionError::InvalidMergeIndices)
            } else if !merge_order_ok(layers, lv, deps, i, j) {
                Ok(MergeAttempt::HardFail(CompactionError::DependencyViolation))
            } else {
                Ok(MergeAttempt::Legal)
            },
        }
    }
}

/// Layers `i` and `j` may be merged.
pub open spec fn mergeable(layers: Seq<ScheduleLayer>, lv: Seq<Seq<u32>>, deps: Seq<ScheduleDependency>, i: int, j: int) -> bool {
    merge_attempt_spec(layers, lv, deps, i, j) matches Ok(MergeAttempt::Legal)
}

/// Try to merge layers `i` and `j`: check hard edges between them, the merge
/// class, placeholder AOD transfers, that the union is a legal layer, and
/// that after the merge every dependency still runs strictly forward.
pub fn try_merge_pair(
    layers: &Vec<ScheduleLayer>,
    lineage: &Vec<Vec<u32>>,
    deps: &[ScheduleDependency],
    i: usize,
    j: usize,
    Ghost(n0): Ghost<int>,
) -> (r: Result<MergeAttempt, CompactionError>)
    requires
        layers@.len() == lineage@.len(),
        layers@.len() <= u32::MAX,
        i < layers@.len(),
        j < layers@.len(),
        lineage_partition(lview(lineage@), n0),
    ensures
        r == merge_attempt_spec(layers@, lview(lineage@), deps@, i as int, j as int),
{
    let ghost lv = lview(lineage@);
    assert(lv[i as int] == lineage@[i as int]@);
    assert(lv[j as int] == lineage@[j as int]@);
    if hard_dep_forbids_same_cycle(&lineage[i], &lineage[j], deps) {
        return Ok(MergeAttempt::HardFail(CompactionError::DependencyViolation));
    }
    match classify_merge(&layers[i], &layers[j]) {
        MergeClass::Forbidden => {
            if layer_has_transfer(&layers[i]) || layer_has_transfer(&layers[j]) {
                return Ok(MergeAttempt::HardFail(CompactionError::ForbiddenMergeClass));
            }
            return Ok(MergeAttempt::Skip);
        },
        MergeClass::M0 => {
            // Move-only with entangle-only needs real AOD metadata on the
            // move side, which moves do not carry: fail closed.
            return Ok(MergeAttempt::HardFail(CompactionError::ForbiddenMergeClass));
        },
        MergeClass::E0 => {},
    }
    if uses_placeholder_aod(&layers[i]) || uses_placeholder_aod(&layers[j]) {
        return Ok(MergeAttempt::HardFail(CompactionError::ForbiddenMergeClass));
    }
    if find_atom_conflict(&layers[i].actions, &layers[j].actions).is_some() {
        return Ok(MergeAttempt::Skip);
    }
    if find_occupancy_conflict(&layers[i].actions, &layers[j].actions).is_some() {
        return Ok(MergeAttempt::Skip);
    }
    if i == j {
        return Err(CompactionError::InvalidMergeIndices);
    }
    let mut cycles: Vec<u32> = Vec::new();
    let mut k: usize = 0;
    while k < layers.len()
        invariant
            k <= layers@.len(),
            cycles@ == layer_cycles(layers@).take(k as int),
        decreases layers.len() - k,
    {
        cycles.push(layers[k].cycle);
        proof {
            assert(layer_cycles(layers@).take(k + 1) =~= layer_cycles(layers@).take(k as int).push(layers@[k as int].cycle));
        }
        k += 1;
    }
    proof {
        assert(layer_cycles(layers@).take(layers@.len() as int) =~= layer_cycles(layers@));
    }
    if !merge_keeps_order(&cycles, lineage, deps, i, j, Ghost(n0)) {
        return Ok(MergeAttempt::HardFail(CompactionError::DependencyViolation));
    }
    Ok(MergeAttempt::Legal)
}

/// Pairs `(i, j)`, `i < j`, come in the order `(j, i)` lexicographic: the
/// pair `(i2, j2)` comes before `(i, j)`.
pub open spec fn pair_before(i2: int, j2: int, i: int, j: int) -> bool {
    j2 < j || (j2 == j && i2 < i)
}

/// The first mergeable pair of cycle-sorted layers, scanning pairs by the
/// later layer's cycle, then the earlier layer's cycle.
pub fn find_first_improving_merge(
    layers: &Vec<ScheduleLayer>,
    lineage: &Vec<Vec<u32>>,
    deps: &[ScheduleDependency],
    Ghost(n0): Ghost<int>,
) -> (r: Option<(usize, usize)>)
    requires
        layers@.len() == lineage@.len(),
        layers@.len() <= u32::MAX,
        cycles_increasing(layers@),
        forall|k: int| 0 <= k < layers@.len() ==> (#[trigger] layers@[k]).cycle < u32::MAX,
        lineage_partition(lview(lineage@), n0),
    ensures
        match r {
            Some((i, j)) => {
                &&& i < j < layers@.len()
                &&& mergeable(layers@, lview(lineage@), deps@, i as int, j as int)
                &&& forall|i2: int, j2: int| 0 <= i2 < j2 < layers@.len() && pair_before(i2, j2, i as int, j as int)
                    ==> !mergeable(layers@, lview(lineage@), deps@, i2, j2)
            },
            None => forall|i2: int, j2: int| 0 <= i2 < j2 < layers@.len() ==> !mergeable(layers@, lview(lineage@), deps@, i2, j2),
        },
{
    let n = layers.len();
    if n < 2 {
        return None;
    }
    let before_makespan = makespan(layers);
    proof {
        lemma_makespan_sorted(layers@);
        lemma_sorted_last_ge(layers@);
    }
    let mut j: usize = 1;
    while j < n
        invariant
            n == layers@.len(),
            n == lineage@.len(),
            n <= u32::MAX,
            2 <= n,
            1 <= j <= n,
            before_makespan >= n,
            lineage_partition(lview(lineage@), n0),
            forall|i2: int, j2: int| 0 <= i2 < j2 < j ==> !mergeable(layers@, lview(lineage@), deps@, i2, j2),
        decreases n - j,
    {
        let mut i: usize = 0;
        while i < j
            invariant
                n == layers@.len(),
                n == lineage@.len(),
                n <= u32::MAX,
                2 <= n,
                1 <= j < n,
                i <= j,
                before_makespan >= n,
                lineage_partition(lview(lineage@), n0),
                forall|i2: int, j2: int| 0 <= i2 < j2 < j ==> !mergeable(layers@, lview(lineage@), deps@, i2, j2),
                forall|i2: int| 0 <= i2 < i ==> !mergeable(layers@, lview(lineage@), deps@, i2, j as int),
            decreases j - i,
        {
            match try_merge_pair(layers, lineage, deps, i, j, Ghost(n0)) {
                Ok(MergeAttempt::Legal) => {
                    // After the merge and dense renumbering, n - 1 cycles remain.
                    let after_makespan = n - 1;
                    if after_makespan < before_makespan as usize {
                        return Some((i, j));
                    }
                },
                _ => {},
            }
            i += 1;
        }
        j += 1;
    }
    None
}

/// A strictly increasing cycle list of length `n` ends at cycle `n - 1` or later.
pub proof fn lemma_sorted_last_ge(layers: Seq<ScheduleLayer>)
    requires
        layers.len() > 0,
        cycles_increasing(layers),
    ensures
        layers.last().cycle >= layers.len() - 1,
    decreases layers.len(),
{
    if layers.len() > 1 {
        assert(cycles_increasing(layers.drop_last()));
        lemma_sorted_last_ge(layers.drop_last());
        assert(layers.drop_last().last() == layers[layers.len() - 2]);
    }
}

/// A permutation of `0..n` lists every index below `n`.
pub proof fn lemma_perm_covers(order: Seq<int>, n: int)
    requires
        0 <= n,
        is_permutation(order, n),
    ensures
        forall|x: int| 0 <= x < n ==> order.contains(x),
{
    assert(order.no_duplicates());
    order.unique_seq_to_set();
    vstd::set_lib::lemma_int_range(0, n);
    assert(order.to_set().subset_of(vstd::set_lib::set_int_range(0, n)));
    vstd::set_lib::lemma_subset_equality(order.to_set(), vstd::set_lib::set_int_range(0, n));
    assert forall|x: int| 0 <= x < n implies order.contains(x) by {
        assert(vstd::set_lib::set_int_range(0, n).contains(x));
        assert(order.to_set().contains(x));
    }
}

/// Singleton lineages whose heads form a permutation partition the inputs.
pub proof fn lemma_singleton_partition(lineage: Seq<Vec<u32>>, n: int)
    requires
        n == lineage.len(),
        forall|k: int| 0 <= k < lineage.len() ==> (#[trigger] lineage[k])@.len() == 1,
        is_permutation(lineage_heads(lineage), n),
    ensures
        lineage_partition(lview(lineage), n),
{
    let lv = lview(lineage);
    let heads = lineage_heads(lineage);
    lemma_perm_covers(heads, n);
    assert forall|v: int, x: u32| 0 <= v < lv.len() && #[trigger] lv[v].contains(x) implies x < n && x == heads[v] by {
        assert(lv[v] == lineage[v]@);
        let i = choose|i: int| 0 <= i < lv[v].len() && lv[v][i] == x;
        assert(i == 0);
        assert(heads[v] == lineage[v]@[0] as int);
    }
    assert forall|x: u32| x < n implies #[trigger] lineage_covers(lv, x) by {
        assert(heads.contains(x as int));
        let v = choose|v: int| 0 <= v < heads.len() && heads[v] == x as int;
        assert(lv[v] == lineage[v]@);
        assert(lv[v].contains(x));
    }
    assert forall|v1: int, v2: int, x: u32| 0 <= v1 < lv.len() && 0 <= v2 < lv.len() && v1 != v2
        && #[trigger] lv[v1].contains(x) implies !(#[trigger] lv[v2].contains(x)) by {
        if lv[v2].contains(x) {
            assert(heads[v1] == x && heads[v2] == x);
            if v1 < v2 {
                assert(heads[v1] != heads[v2]);
            } else {
                assert(heads[v2] != heads[v1]);
            }
        }
    }
    assert forall|v: int| 0 <= v < lv.len() implies sorted_u32(#[trigger] lv[v]) by {
        assert(lv[v] == lineage[v]@);
    }
}

/// Options for schedule compaction.
#[derive(Clone, Copy, Debug)]
pub struct CompactionOptions {
    /// Run the greedy merge pass after exclusive-cycle ASAP; otherwise ASAP only.
    pub greedy: bool,
}

impl Default for CompactionOptions {
    fn default() -> (r: Self)
        ensures
            !r.greedy,
    {
        CompactionOptions { greedy: false }
    }
}

/// Result of exclusive-cycle ASAP and optional greedy compaction.
#[derive(Clone, Debug)]
pub struct CompactionResult {
    /// The scheduled layers, sorted by cycle.
    pub layers: Vec<ScheduleLayer>,
    /// For each output layer, the sorted input layer indices it holds.
    pub lineage: Vec<Vec<u32>>,
    pub asap_makespan_cycles: u32,
    pub compacted_makespan_cycles: u32,
    pub critical_path: CriticalPathReport,
    /// True if the greedy pass merged at least one pair of layers.
    pub compacted: bool,
}

/// No atom touched twice and no site claimed twice in the layer.
pub open spec fn layer_legal(l: ScheduleLayer) -> bool {
    conflict_free(l.actions@) && occupancy_free(l.actions@)
}

/// Every dependency runs from a strictly earlier cycle to a strictly later one.
pub open spec fn deps_forward(layers: Seq<ScheduleLayer>, lv: Seq<Seq<u32>>, deps: Seq<ScheduleDependency>) -> bool {
    forall|k: int, u: int, v: int| 0 <= k < deps.len() && 0 <= u < lv.len() && 0 <= v < lv.len()
        && #[trigger] lv[u].contains((#[trigger] deps[k]).before) && #[trigger] lv[v].contains(deps[k].after)
        ==> layers[u].cycle < layers[v].cycle
}

/// How compacted layers relate to the input layers: the lineages partition the
/// input indices, cycles increase, a layer holding one input keeps that
/// input's actions, a layer holding several is a legal entangle-only layer,
/// and only legal input layers are ever merged.
pub open spec fn compaction_state_ok(input: Seq<ScheduleLayer>, layers: Seq<ScheduleLayer>, lv: Seq<Seq<u32>>) -> bool {
    &&& layers.len() == lv.len()
    &&& 0 < layers.len() <= input.len()
    &&& input.len() < u32::MAX - 2
    &&& lineage_partition(lv, input.len() as int)
    &&& cycles_increasing(layers)
    &&& forall|k: int| 0 <= k < layers.len() ==> (#[trigger] layers[k]).cycle < u32::MAX
    &&& forall|k: int| 0 <= k < layers.len() ==> (#[trigger] lv[k]).len() >= 1
    &&& forall|k: int| 0 <= k < layers.len() && (#[trigger] lv[k]).len() == 1
        ==> layers[k].actions@ == input[lv[k][0] as int].actions@
    &&& forall|k: int| 0 <= k < layers.len() && (#[trigger] lv[k]).len() > 1
        ==> is_entangle_only_spec(layers[k]) && layer_legal(layers[k])
    &&& forall|k: int, x: u32| 0 <= k < layers.len() && lv[k].len() > 1 && #[trigger] lv[k].contains(x)
        ==> layer_legal(input[x as int])
}

/// Two entangle-only layers concatenate to an entangle-only layer.
pub proof fn lemma_entangle_only_concat(a: ScheduleLayer, b: ScheduleLayer, u: ScheduleLayer)
    requires
        is_entangle_only_spec(a),
        is_entangle_only_spec(b),
        u.actions@ == a.actions@ + b.actions@,
    ensures
        is_entangle_only_spec(u),
{
    let k0 = choose|k: int| 0 <= k < a.actions@.len() && is_entangle(#[trigger] a.actions@[k]);
    assert(is_entangle(u.actions@[k0]));
    assert forall|k: int| 0 <= k < u.actions@.len() implies
        (is_entangle(#[trigger] u.actions@[k]) || u.actions@[k] is Wait) by {
        if k < a.actions@.len() {
            assert(u.actions@[k] == a.actions@[k]);
        } else {
            assert(u.actions@[k] == b.actions@[k - a.actions@.len()]);
        }
    }
}

/// One greedy step — a legal merge of `keep < drop`, then dense renumbering —
/// keeps the compaction state, numbers the cycles `0, 1, ...`, and leaves every
/// dependency running strictly forward.
pub proof fn lemma_merge_step(
    input: Seq<ScheduleLayer>,
    layers: Seq<ScheduleLayer>,
    lv: Seq<Seq<u32>>,
    deps: Seq<ScheduleDependency>,
    keep: int,
    drop: int,
    merged: Seq<ScheduleLayer>,
    lv2: Seq<Seq<u32>>,
    renum: Seq<ScheduleLayer>,
)
    requires
        compaction_state_ok(input, layers, lv),
        0 <= keep < drop < layers.len(),
        mergeable(layers, lv, deps, keep, drop),
        merged.len() == layers.len() - 1,
        forall|k: int| 0 <= k < merged.len() && k != keep ==> #[trigger] merged[k] == layers.remove(drop)[k],
        merged[keep].cycle == layers[keep].cycle,
        merged[keep].actions@ == layers[keep].actions@ + layers[drop].actions@,
        is_merged_view(lv, lv2, keep, drop),
        renum.len() == merged.len(),
        forall|k: int| 0 <= k < renum.len() ==> (#[trigger] renum[k]).cycle
            == count_below(layer_cycles(merged), merged[k].cycle) && renum[k].actions == merged[k].actions,
    ensures
        compaction_state_ok(input, renum, lv2),
        forall|k: int| 0 <= k < renum.len() ==> (#[trigger] renum[k]).cycle == k,
        deps_forward(renum, lv2, deps),
{
    let n0 = input.len() as int;
    let cs = layer_cycles(merged);
    lemma_merged_partition(lv, lv2, keep, drop, n0);
    lemma_merged_view_mem(lv, lv2, keep, drop);
    assert(merged_index(keep, drop) == keep);
    // Cycles after the merge still increase, so renumbering yields 0, 1, ...
    assert forall|i: int, j: int| 0 <= i < j < merged.len() implies merged[i].cycle < merged[j].cycle by {
        if i == keep {
            assert(layers.remove(drop)[j] == layers[if j < drop { j } else { j + 1 }]);
        } else if j == keep {
            assert(layers.remove(drop)[i] == layers[i]);
        } else {
            assert(layers.remove(drop)[i] == layers[if i < drop { i } else { i + 1 }]);
            assert(layers.remove(drop)[j] == layers[if j < drop { j } else { j + 1 }]);
        }
    }
    assert(sorted_u32(cs));
    assert forall|k: int| 0 <= k < renum.len() implies (#[trigger] renum[k]).cycle == k by {
        lemma_count_below_sorted(cs, k);
    }
    // The merge was legal: E0 class, legal union, order kept.
    let a = layers[keep];
    let b = layers[drop];
    assert(!hard_dep_crosses(lv[keep], lv[drop], deps));
    assert(classify_merge_spec(a, b) == MergeClass::E0);
    assert(conflict_free(a.actions@ + b.actions@));
    assert(occupancy_free(a.actions@ + b.actions@));
    assert(merge_order_ok(layers, lv, deps, keep, drop));
    lemma_concat_legal_parts(a.actions@, b.actions@);
    lemma_entangle_only_concat(a, b, merged[keep]);
    assert(renum[keep].actions@ == merged[keep].actions@);
    lemma_entangle_only_concat(a, b, renum[keep]);
    // The merged lineage holds at least the two distinct heads.
    let xa = lv[keep][0];
    let xb = lv[drop][0];
    assert(lv[keep].contains(xa));
    assert(lv[drop].contains(xb));
    assert(lv2[keep].contains(xa) && lv2[keep].contains(xb));
    assert(xa != xb);
    assert(lv2[keep].len() > 1) by {
        let ia = choose|i: int| 0 <= i < lv2[keep].len() && lv2[keep][i] == xa;
        let ib = choose|i: int| 0 <= i < lv2[keep].len() && lv2[keep][i] == xb;
        assert(ia != ib);
    }
    assert forall|k: int, x: u32| 0 <= k < renum.len() && lv2[k].len() > 1 && #[trigger] lv2[k].contains(x)
        implies layer_legal(input[x as int]) by {
        if k == keep {
            if lv[keep].contains(x) {
                if lv[keep].len() == 1 {
                    assert(lv[keep][0] == x);
                }
            } else {
                if lv[drop].len() == 1 {
                    assert(lv[drop][0] == x);
                }
            }
        } else {
            let k0 = if k < drop { k } else { k + 1 };
            assert(lv2[k] == lv.remove(drop)[k]);
            assert(lv.remove(drop)[k] == lv[k0]);
        }
    }
    assert forall|k: int| 0 <= k < renum.len() && (#[trigger] lv2[k]).len() == 1
        implies renum[k].actions@ == input[lv2[k][0] as int].actions@ by {
        let k0 = if k < drop { k } else { k + 1 };
        assert(lv2[k] == lv.remove(drop)[k]);
        assert(lv.remove(drop)[k] == lv[k0]);
        assert(merged[k] == layers.remove(drop)[k]);
        assert(layers.remove(drop)[k] == layers[k0]);
    }
    assert forall|k: int| 0 <= k < renum.len() && (#[trigger] lv2[k]).len() > 1
        implies is_entangle_only_spec(renum[k]) && layer_legal(renum[k]) by {
        if k != keep {
            let k0 = if k < drop { k } else { k + 1 };
            assert(lv2[k] == lv.remove(drop)[k]);
            assert(lv.remove(drop)[k] == lv[k0]);
            assert(merged[k] == layers.remove(drop)[k]);
            assert(layers.remove(drop)[k] == layers[k0]);
            assert(renum[k].actions@ == layers[k0].actions@);
            assert(layer_has_entangle_spec(renum[k]) == layer_has_entangle_spec(layers[k0]));
        } else {
            assert(renum[k].actions@ == a.actions@ + b.actions@);
        }
    }
    assert forall|k: int| 0 <= k < renum.len() implies (#[trigger] lv2[k]).len() >= 1 by {
        if k != keep {
            let k0 = if k < drop { k } else { k + 1 };
            assert(lv2[k] == lv.remove(drop)[k]);
            assert(lv.remove(drop)[k] == lv[k0]);
        }
    }
    // Order: the simulated check is exactly the renumbered cycles.
    assert(cs =~= merged_cycles(layer_cycles(layers), keep, drop)) by {
        assert forall|k: int| 0 <= k < cs.len() implies cs[k] == merged_cycles(layer_cycles(layers), keep, drop)[k] by {
            if k != keep {
                assert(merged[k] == layers.remove(drop)[k]);
            }
        }
    }
    assert forall|k: int, u: int, v: int| 0 <= k < deps.len() && 0 <= u < lv2.len() && 0 <= v < lv2.len()
        && #[trigger] lv2[u].contains((#[trigger] deps[k]).before) && #[trigger] lv2[v].contains(deps[k].after)
        implies renum[u].cycle < renum[v].cycle by {
        assert(merged_mem(lv, keep, drop, u, deps[k].before));
        assert(merged_mem(lv, keep, drop, v, deps[k].after));
        let mem = |v: int, x: u32| merged_mem(lv, keep, drop, v, x);
        let cyc = |v: int| count_below(merged_cycles(layer_cycles(layers), keep, drop), merged_cycles(layer_cycles(layers), keep, drop)[v]) as int;
        assert(mem(u, deps[k].before));
        assert(mem(v, deps[k].after));
        assert(cyc(u) < cyc(v));
    }
}

/// The actions of the input layers `xs`, concatenated in that order.
pub open spec fn inputs_actions(input: Seq<ScheduleLayer>, xs: Seq<u32>) -> Seq<NeutralAtomAction>
    decreases xs.len(),
{
    if xs.len() == 0 {
        seq![]
    } else {
        inputs_actions(input, xs.drop_last()) + input[xs.last() as int].actions@
    }
}

/// Every output layer `k` holds exactly the actions of its input layers
/// `lv[k]`, each input once, concatenated in the order `ord[k]` lists them.
pub open spec fn actions_from_inputs(input: Seq<ScheduleLayer>, layers: Seq<ScheduleLayer>, lv: Seq<Seq<u32>>,
    ord: Seq<Seq<u32>>) -> bool {
    &&& ord.len() == layers.len()
    &&& forall|k: int| 0 <= k < layers.len() ==> (#[trigger] ord[k]).no_duplicates()
    &&& forall|k: int, x: u32| #![trigger ord[k].contains(x)] #![trigger lv[k].contains(x)]
        0 <= k < layers.len() ==> (ord[k].contains(x) <==> lv[k].contains(x))
    &&& forall|k: int| 0 <= k < layers.len() ==> (#[trigger] layers[k]).actions@ == inputs_actions(input, ord[k])
}

proof fn lemma_inputs_actions_concat(input: Seq<ScheduleLayer>, a: Seq<u32>, b: Seq<u32>)
    ensures
        inputs_actions(input, a + b) == inputs_actions(input, a) + inputs_actions(input, b),
    decreases b.len(),
{
    if b.len() == 0 {
        assert(a + b =~= a);
        assert(inputs_actions(input, a) + seq![] =~= inputs_actions(input, a));
    } else {
        assert((a + b).drop_last() =~= a + b.drop_last());
        assert((a + b).last() == b.last());
        lemma_inputs_actions_concat(input, a, b.drop_last());
        assert(inputs_actions(input, a) + inputs_actions(input, b.drop_last()) + input[b.last() as int].actions@
            =~= inputs_actions(input, a) + (inputs_actions(input, b.drop_last()) + input[b.last() as int].actions@));
    }
}

/// Each ASAP layer is exactly its one input layer.
proof fn lemma_asap_actions(input: Seq<ScheduleLayer>, md: Seq<ScheduleDependency>, al: Seq<ScheduleLayer>,
    alin: Seq<Vec<u32>>, m: u32)
    requires
        asap_layout(input, md, al, alin, m),
    ensures
        actions_from_inputs(input, al, lview(alin), lview(alin)),
{
    let lv = lview(alin);
    assert forall|k: int| 0 <= k < al.len() implies (#[trigger] lv[k]).no_duplicates()
        && al[k].actions@ == inputs_actions(input, lv[k]) by {
        assert(lv[k] == alin[k]@);
        assert(lv[k].len() == 1);
        assert(lv[k].drop_last() =~= Seq::<u32>::empty());
        assert(inputs_actions(input, lv[k].drop_last()) =~= Seq::<NeutralAtomAction>::empty());
        assert(lv[k].last() == lv[k][0]);
        assert(al[k].actions == input[alin[k]@[0] as int].actions);
        assert(inputs_actions(input, lv[k]) =~= Seq::<NeutralAtomAction>::empty() + input[lv[k][0] as int].actions@);
    }
}

/// A merge concatenates the two layers' actions and their input orders.
proof fn lemma_merge_actions(
    input: Seq<ScheduleLayer>,
    layers: Seq<ScheduleLayer>,
    lv: Seq<Seq<u32>>,
    ord: Seq<Seq<u32>>,
    keep: int,
    drop: int,
    merged: Seq<ScheduleLayer>,
    lv2: Seq<Seq<u32>>,
    renum: Seq<ScheduleLayer>,
)
    requires
        actions_from_inputs(input, layers, lv, ord),
        lv.len() == layers.len(),
        lineage_partition(lv, input.len() as int),
        0 <= keep < drop < layers.len(),
        merged.len() == layers.len() - 1,
        forall|k: int| 0 <= k < merged.len() && k != keep ==> #[trigger] merged[k] == layers.remove(drop)[k],
        merged[keep].actions@ == layers[keep].actions@ + layers[drop].actions@,
        is_merged_view(lv, lv2, keep, drop),
        renum.len() == merged.len(),
        forall|k: int| 0 <= k < renum.len() ==> (#[trigger] renum[k]).actions == merged[k].actions,
    ensures
        actions_from_inputs(input, renum, lv2, ord.update(keep, ord[keep] + ord[drop]).remove(drop)),
{
    let ord2 = ord.update(keep, ord[keep] + ord[drop]).remove(drop);
    assert(merged_index(keep, drop) == keep);
    assert forall|k: int| 0 <= k < renum.len() implies {
        &&& (#[trigger] ord2[k]).no_duplicates()
        &&& renum[k].actions@ == inputs_actions(input, ord2[k])
        &&& forall|x: u32| ord2[k].contains(x) <==> lv2[k].contains(x)
    } by {
        if k == keep {
            let a = ord[keep];
            let b = ord[drop];
            assert(ord2[k] == a + b);
            lemma_inputs_actions_concat(input, a, b);
            assert(renum[k].actions@ == merged[k].actions@);
            assert forall|x: u32| (a + b).contains(x) <==> lv2[k].contains(x) by {
                if (a + b).contains(x) {
                    let i = choose|i: int| 0 <= i < (a + b).len() && (a + b)[i] == x;
                    if i < a.len() {
                        assert(a[i] == x);
                        assert(a.contains(x));
                    } else {
                        assert(b[i - a.len()] == x);
                        assert(b.contains(x));
                    }
                }
                if lv2[k].contains(x) {
                    if lv[keep].contains(x) {
                        assert(a.contains(x));
                        let i = choose|i: int| 0 <= i < a.len() && a[i] == x;
                        assert((a + b)[i] == x);
                    } else {
                        assert(lv[drop].contains(x));
                        assert(b.contains(x));
                        let i = choose|i: int| 0 <= i < b.len() && b[i] == x;
                        assert((a + b)[a.len() + i] == x);
                    }
                }
            }
            assert forall|i: int, j: int| 0 <= i < (a + b).len() && 0 <= j < (a + b).len() && i != j
                implies (a + b)[i] != (a + b)[j] by {
                if i < a.len() && j < a.len() {
                    assert(a.no_duplicates());
                } else if i >= a.len() && j >= a.len() {
                    assert(b.no_duplicates());
                    assert((a + b)[i] == b[i - a.len()] && (a + b)[j] == b[j - a.len()]);
                } else {
                    let (p, q) = if i < a.len() { (i, j - a.len()) } else { (j, i - a.len()) };
                    if a[p] == b[q] {
                        assert(a.contains(a[p]));
                        assert(b.contains(b[q]));
                        assert(lv[keep].contains(a[p]));
                        assert(lv[drop].contains(a[p]));
                    }
                }
            }
        } else {
            let k0 = if k < drop { k } else { k + 1 };
            assert(ord2[k] == ord[k0]);
            assert(lv2[k] == lv.remove(drop)[k]);
            assert(lv.remove(drop)[k] == lv[k0]);
            assert(merged[k] == layers.remove(drop)[k]);
            assert(layers.remove(drop)[k] == layers[k0]);
            assert forall|x: u32| ord2[k].contains(x) <==> lv2[k].contains(x) by {
                if ord[k0].contains(x) {
                    assert(lv[k0].contains(x));
                }
                if lv[k0].contains(x) {
                    assert(ord[k0].contains(x));
                }
            }
        }
    }
}

/// `md` is the full dependency list for `layers` under caller edges `caller`.
pub open spec fn merged_deps_of(layers: Seq<ScheduleLayer>, caller: Seq<ScheduleDependency>, md: Seq<ScheduleDependency>) -> bool {
    &&& deps_unique(md)
    &&& forall|t: ScheduleDependency| #[trigger] md.contains(t) <==> merged_dep(layers, caller, t)
}

/// Every caller dependency names two distinct layers among `n`.
pub open spec fn caller_deps_valid(caller: Seq<ScheduleDependency>, n: int) -> bool {
    forall|k: int| 0 <= k < caller.len() ==> valid_dep(#[trigger] caller[k], n)
}

/// `e` reports the first caller dependency that is not valid.
pub open spec fn first_invalid_dep(caller: Seq<ScheduleDependency>, n: int, e: CompactionError) -> bool {
    exists|k: int| {
        &&& 0 <= k < caller.len()
        &&& !valid_dep(#[trigger] caller[k], n)
        &&& forall|j: int| 0 <= j < k ==> valid_dep(#[trigger] caller[j], n)
        &&& e == CompactionError::InvalidDependency(caller[k].before, caller[k].after)
    }
}

/// `al` with lineage `alin` is the exclusive-cycle ASAP layout of `input`
/// under `md`, sorted by cycle, with makespan `m`.
pub open spec fn asap_layout(input: Seq<ScheduleLayer>, md: Seq<ScheduleDependency>, al: Seq<ScheduleLayer>,
    alin: Seq<Vec<u32>>, m: u32) -> bool {
    let n = input.len();
    &&& al.len() == n
    &&& alin.len() == n
    &&& n > 0
    &&& forall|k: int| 0 <= k < n ==> (#[trigger] alin[k])@.len() == 1
    &&& is_permutation(lineage_heads(alin), n as int)
    &&& forall|k: int| 0 <= k < n ==> (#[trigger] al[k]).actions == input[alin[k]@[0] as int].actions
    &&& cycles_increasing(al)
    &&& exists|cyc: Seq<int>| {
        &&& asap_ok(md, n as int, cyc)
        &&& forall|k: int| 0 <= k < n ==> (#[trigger] al[k]).cycle == cyc[alin[k]@[0] as int]
    }
    &&& m == al[n - 1].cycle + 1
}

/// The ASAP layout is a valid starting state for compaction.
pub proof fn lemma_asap_state(input: Seq<ScheduleLayer>, md: Seq<ScheduleDependency>, al: Seq<ScheduleLayer>,
    alin: Seq<Vec<u32>>, m: u32)
    requires
        asap_layout(input, md, al, alin, m),
        input.len() < u32::MAX - 2,
    ensures
        compaction_state_ok(input, al, lview(alin)),
{
    let n = input.len();
    let lv = lview(alin);
    lemma_singleton_partition(alin, n as int);
    let cyc = choose|cyc: Seq<int>| asap_ok(md, n as int, cyc)
        && forall|k: int| 0 <= k < n ==> (#[trigger] al[k]).cycle == cyc[alin[k]@[0] as int];
    assert forall|k: int| 0 <= k < al.len() implies (#[trigger] al[k]).cycle < u32::MAX by {
        let h = alin[k]@[0] as int;
        assert(lineage_heads(alin)[k] == h);
        assert(0 <= h < n);
        assert(cyc[h] <= h + 1);
    }
    assert forall|k: int| 0 <= k < al.len() implies (#[trigger] lv[k]).len() >= 1 by {
        assert(lv[k] == alin[k]@);
    }
    assert forall|k: int| 0 <= k < al.len() && (#[trigger] lv[k]).len() == 1
        implies al[k].actions@ == input[lv[k][0] as int].actions@ by {
        assert(lv[k] == alin[k]@);
    }
    assert forall|k: int| 0 <= k < al.len() implies !((#[trigger] lv[k]).len() > 1) by {
        assert(lv[k] == alin[k]@);
    }
}

/// What compaction returns: the compacted state; every output layer legal;
/// `compacted` exactly when layers were merged, never without the greedy
/// pass; after the greedy pass no pair is left that could be merged; after
/// any merge the cycles are `0, 1, ...` and every dependency runs strictly
/// forward; without merges the output is the ASAP layout; and the makespans
/// and critical-path report of the output.
pub open spec fn compaction_result_ok(input: Seq<ScheduleLayer>, md: Seq<ScheduleDependency>, greedy: bool,
    res: CompactionResult) -> bool {
    let lv = lview(res.lineage@);
    &&& compaction_state_ok(input, res.layers@, lv)
    &&& forall|k: int| 0 <= k < res.layers@.len() ==> layer_legal(#[trigger] res.layers@[k])
    &&& res.compacted <==> res.layers@.len() < input.len()
    &&& !greedy ==> !res.compacted
    &&& greedy ==> forall|i: int, j: int| 0 <= i < j < res.layers@.len() ==> !mergeable(res.layers@, lv, md, i, j)
    &&& res.compacted ==> deps_forward(res.layers@, lv, md)
        && forall|k: int| 0 <= k < res.layers@.len() ==> (#[trigger] res.layers@[k]).cycle == k
    &&& !res.compacted ==> asap_layout(input, md, res.layers@, res.lineage@, res.asap_makespan_cycles)
    &&& exists|al: Seq<ScheduleLayer>, alin: Seq<Vec<u32>>| asap_layout(input, md, al, alin, res.asap_makespan_cycles)
    &&& res.compacted_makespan_cycles == makespan_spec(res.layers@)
    &&& critical_report_ok(res.layers@, lv, md, res.compacted_makespan_cycles, res.critical_path)
}

/// Compaction never lengthens the schedule: the compacted makespan is at
/// most the exclusive-cycle ASAP makespan, and strictly shorter whenever a
/// merge happened.
pub proof fn lemma_compaction_never_lengthens(input: Seq<ScheduleLayer>, md: Seq<ScheduleDependency>, greedy: bool,
    res: CompactionResult)
    requires
        compaction_result_ok(input, md, greedy, res),
    ensures
        res.compacted_makespan_cycles <= res.asap_makespan_cycles,
        res.compacted ==> res.compacted_makespan_cycles < res.asap_makespan_cycles,
{
    let (al, alin) = choose|al: Seq<ScheduleLayer>, alin: Seq<Vec<u32>>| asap_layout(input, md, al, alin, res.asap_makespan_cycles);
    lemma_sorted_last_ge(al);
    if res.compacted {
        let k = res.layers@.len();
        if k > 0 {
            assert(cycles_increasing(res.layers@)) by {
                assert forall|i: int, j: int| 0 <= i < j < k implies res.layers@[i].cycle < res.layers@[j].cycle by {
                    assert(res.layers@[i].cycle == i);
                    assert(res.layers@[j].cycle == j);
                }
            }
            lemma_makespan_sorted(res.layers@);
            assert(res.layers@.last().cycle == k - 1);
        }
    } else {
        lemma_makespan_sorted(res.layers@);
    }
}

/// Compaction keeps every dependency that runs from an earlier input layer
/// to a later one: the output layer holding its source sits at a strictly
/// earlier cycle than the output layer holding its target, merged or not.
pub proof fn lemma_compaction_orders_forward_deps(input: Seq<ScheduleLayer>, md: Seq<ScheduleDependency>, greedy: bool,
    res: CompactionResult, k: int, u: int, v: int)
    requires
        compaction_result_ok(input, md, greedy, res),
        0 <= k < md.len(),
        md[k].before < md[k].after,
        0 <= u < res.layers@.len(),
        0 <= v < res.layers@.len(),
        lview(res.lineage@)[u].contains(md[k].before),
        lview(res.lineage@)[v].contains(md[k].after),
    ensures
        res.layers@[u].cycle < res.layers@[v].cycle,
{
    let lv = lview(res.lineage@);
    if res.compacted {
        assert(deps_forward(res.layers@, lv, md));
    } else {
        let n = input.len() as int;
        let alin = res.lineage@;
        assert(asap_layout(input, md, res.layers@, alin, res.asap_makespan_cycles));
        let cyc = choose|cyc: Seq<int>| asap_ok(md, n, cyc)
            && forall|q: int| 0 <= q < n ==> (#[trigger] res.layers@[q]).cycle == cyc[alin[q]@[0] as int];
        let b = md[k].before as int;
        let a = md[k].after as int;
        assert(lv[u] == alin[u]@);
        assert(lv[v] == alin[v]@);
        assert(alin[u]@.len() == 1);
        assert(alin[v]@.len() == 1);
        assert(alin[u]@[0] == md[k].before);
        assert(alin[v]@[0] == md[k].after);
        assert(b < n && a < n);
        assert(dep_edge(md, n, b, a));
        assert(cyc[a] >= pred_bound(cyc, b, a));
    }
}

/// The cycle of layer `w` once layer `j` is moved to layer `i`'s cycle.
pub open spec fn cycle_after_move(layers: Seq<ScheduleLayer>, i: int, j: int, w: int) -> int {
    if w == j { layers[i].cycle as int } else { layers[w].cycle as int }
}

/// Moving layer `j` to layer `i`'s cycle keeps every dependency running from
/// a strictly earlier cycle to a strictly later one.
pub open spec fn forward_after_move(layers: Seq<ScheduleLayer>, lv: Seq<Seq<u32>>, deps: Seq<ScheduleDependency>,
    i: int, j: int) -> bool {
    forall|k: int, u: int, v: int| 0 <= k < deps.len() && 0 <= u < lv.len() && 0 <= v < lv.len()
        && #[trigger] lv[u].contains((#[trigger] deps[k]).before) && #[trigger] lv[v].contains(deps[k].after)
        ==> cycle_after_move(layers, i, j, u) < cycle_after_move(layers, i, j, v)
}

/// The layer holds only entangles and waits, and at least one entangle.
pub open spec fn entangles_and_waits_only(l: ScheduleLayer) -> bool {
    &&& forall|k: int| 0 <= k < l.actions@.len() ==> {
        let a = #[trigger] l.actions@[k];
        a is Entangle2 || a is EntangleN || a is Wait
    }
    &&& exists|k: int| 0 <= k < l.actions@.len() && {
        let a = #[trigger] l.actions@[k];
        a is Entangle2 || a is EntangleN
    }
}

/// Greedy compaction leaves no merge undone: of two layers of the result,
/// both holding only entangles and waits, if together they touch no atom
/// twice and claim no site twice, then moving the later one into the earlier
/// one's cycle would make some dependency stop running forward. So no two
/// such layers remain in distinct cycles when nothing orders them apart.
pub proof fn lemma_greedy_leaves_no_legal_merge(input: Seq<ScheduleLayer>, md: Seq<ScheduleDependency>,
    res: CompactionResult, i: int, j: int)
    requires
        compaction_result_ok(input, md, true, res),
        0 <= i < j < res.layers@.len(),
    ensures
        !({
            &&& entangles_and_waits_only(res.layers@[i])
            &&& entangles_and_waits_only(res.layers@[j])
            &&& conflict_free(res.layers@[i].actions@ + res.layers@[j].actions@)
            &&& occupancy_free(res.layers@[i].actions@ + res.layers@[j].actions@)
            &&& forward_after_move(res.layers@, lview(res.lineage@), md, i, j)
        }),
{
    let layers = res.layers@;
    let lv = lview(res.lineage@);
    assert(!mergeable(layers, lv, md, i, j));
    if entangles_and_waits_only(layers[i]) && entangles_and_waits_only(layers[j])
        && conflict_free(layers[i].actions@ + layers[j].actions@)
        && occupancy_free(layers[i].actions@ + layers[j].actions@)
        && forward_after_move(layers, lv, md, i, j) {
        lemma_entangle_only_shape(layers[i]);
        lemma_entangle_only_shape(layers[j]);
        assert(classify_merge_spec(layers[i], layers[j]) == MergeClass::E0);
        assert(!uses_placeholder_aod_spec(layers[i]));
        assert(!uses_placeholder_aod_spec(layers[j]));
        assert(!hard_dep_crosses(lv[i], lv[j], md)) by {
            if hard_dep_crosses(lv[i], lv[j], md) {
                let k = choose|k: int| 0 <= k < md.len() && is_hard_order_dep_spec((#[trigger] md[k]).kind) && (
                    (lv[i].contains(md[k].before) && lv[j].contains(md[k].after))
                    || (lv[j].contains(md[k].before) && lv[i].contains(md[k].after)));
                if lv[i].contains(md[k].before) && lv[j].contains(md[k].after) {
                    assert(cycle_after_move(layers, i, j, i) < cycle_after_move(layers, i, j, j));
                } else {
                    assert(cycle_after_move(layers, i, j, j) < cycle_after_move(layers, i, j, i));
                }
            }
        }
        lemma_forward_after_move_order(layers, lv, md, i, j);
        assert(mergeable(layers, lv, md, i, j));
    }
}

/// A layer with only entangles and waits, one entangle at least, is an
/// entangle-only layer and holds no transfer.
proof fn lemma_entangle_only_shape(l: ScheduleLayer)
    requires
        entangles_and_waits_only(l),
    ensures
        is_entangle_only_spec(l),
        !layer_has_transfer_spec(l),
{
    let k = choose|k: int| 0 <= k < l.actions@.len() && {
        let a = #[trigger] l.actions@[k];
        a is Entangle2 || a is EntangleN
    };
    assert(is_entangle(l.actions@[k]));
    if layer_has_transfer_spec(l) {
        let t = choose|t: int| 0 <= t < l.actions@.len() && (#[trigger] l.actions@[t]) is Transfer;
        let a = l.actions@[t];
        assert(a is Entangle2 || a is EntangleN || a is Wait);
    }
    assert forall|q: int| 0 <= q < l.actions@.len() implies (is_entangle(#[trigger] l.actions@[q]) || l.actions@[q] is Wait) by {
        let a = l.actions@[q];
        assert(a is Entangle2 || a is EntangleN || a is Wait);
    }
}

/// Moving layer `j` into layer `i`'s cycle keeps dependencies forward exactly
/// as the densely renumbered merge checks it.
proof fn lemma_forward_after_move_order(layers: Seq<ScheduleLayer>, lv: Seq<Seq<u32>>, deps: Seq<ScheduleDependency>,
    i: int, j: int)
    requires
        0 <= i < j < layers.len(),
        lv.len() == layers.len(),
        cycles_increasing(layers),
        forward_after_move(layers, lv, deps, i, j),
    ensures
        merge_order_ok(layers, lv, deps, i, j),
{
    let cs = layer_cycles(layers);
    let mc = merged_cycles(cs, i, j);
    assert(cs[i] <= cs[j]);
    let nv = lv.len() - 1;
    // The original layer behind merged vertex `v` holding input `x`.
    assert forall|k: int, u: int, v: int| 0 <= k < deps.len() && 0 <= u < nv && 0 <= v < nv
        && #[trigger] merged_mem(lv, i, j, u, (#[trigger] deps[k]).before) && #[trigger] merged_mem(lv, i, j, v, deps[k].after)
        implies count_below(mc, mc[u]) < count_below(mc, mc[v]) by {
        let b = deps[k].before;
        let a = deps[k].after;
        let ou: int = if u == i { if lv[i].contains(b) { i } else { j } } else if u < j { u } else { u + 1 };
        let ov: int = if v == i { if lv[i].contains(a) { i } else { j } } else if v < j { v } else { v + 1 };
        assert(merged_index(i, j) == i);
        if u != i {
            assert(lv.remove(j)[u] == lv[ou]);
        }
        if v != i {
            assert(lv.remove(j)[v] == lv[ov]);
        }
        assert(lv[ou].contains(b));
        assert(lv[ov].contains(a));
        assert(cycle_after_move(layers, i, j, ou) < cycle_after_move(layers, i, j, ov));
        assert(mc[u] as int == cycle_after_move(layers, i, j, ou));
        assert(mc[v] as int == cycle_after_move(layers, i, j, ov));
        assert(mc.contains(mc[u]));
        lemma_count_below_mono(mc, mc[u], mc[v]);
    }
}

/// Exclusive-cycle ASAP only: every layer at the earliest free cycle after
/// its predecessors, one layer per cycle; nothing is merged.
pub fn asap_schedule_layers(layers: Vec<ScheduleLayer>, deps: &[ScheduleDependency]) -> (r: Result<CompactionResult, CompactionError>)
    requires
        layers@.len() < u32::MAX - 2,
    ensures
        layers@.len() == 0 ==> r == Err::<CompactionResult, CompactionError>(CompactionError::EmptySchedule),
        layers@.len() > 0 && !caller_deps_valid(deps@, layers@.len() as int) ==> (r matches Err(e)
            && first_invalid_dep(deps@, layers@.len() as int, e)),
        layers@.len() > 0 && caller_deps_valid(deps@, layers@.len() as int) ==> r is Ok,
        r matches Ok(res) ==> exists|md: Seq<ScheduleDependency>| {
            &&& merged_deps_of(layers@, deps@, md)
            &&& asap_layout(layers@, md, res.layers@, res.lineage@, res.asap_makespan_cycles)
            &&& res.compacted_makespan_cycles == res.asap_makespan_cycles
            &&& !res.compacted
            &&& critical_report_ok(res.layers@, lview(res.lineage@), md, res.asap_makespan_cycles, res.critical_path)
        },
{
    let n = layers.len();
    if n == 0 {
        return Err(CompactionError::EmptySchedule);
    }
    let ghost input = layers@;
    let md = match merge_deps(&layers, deps) {
        Ok(d) => d,
        Err(e) => return Err(e),
    };
    let out = exclusive_cycle_asap(layers, &md);
    proof {
        assert(asap_layout(input, md@, out.layers@, out.lineage@, out.makespan));
        lemma_asap_state(input, md@, out.layers@, out.lineage@, out.makespan);
    }
    let report = critical_path_report(&out.layers, &out.lineage, &md, out.makespan, Ghost(n as int));
    let res = CompactionResult {
        layers: out.layers,
        lineage: out.lineage,
        asap_makespan_cycles: out.makespan,
        compacted_makespan_cycles: out.makespan,
        critical_path: report,
        compacted: false,
    };
    proof {
        assert(merged_deps_of(input, deps@, md@));
        assert(asap_layout(input, md@, res.layers@, res.lineage@, res.asap_makespan_cycles));
        assert(critical_report_ok(res.layers@, lview(res.lineage@), md@, res.asap_makespan_cycles, res.critical_path));
    }
    Ok(res)
}

/// Exclusive-cycle ASAP, then (with `opts.greedy`) repeatedly merge the first
/// mergeable pair of layers and renumber cycles densely; finally check that
/// every layer is legal.
pub fn compact_schedule(layers: Vec<ScheduleLayer>, deps: &[ScheduleDependency], opts: &CompactionOptions) -> (r: Result<CompactionResult, CompactionError>)
    requires
        layers@.len() < u32::MAX - 2,
    ensures
        layers@.len() == 0 ==> r == Err::<CompactionResult, CompactionError>(CompactionError::EmptySchedule),
        layers@.len() > 0 && !caller_deps_valid(deps@, layers@.len() as int) ==> (r matches Err(e)
            && first_invalid_dep(deps@, layers@.len() as int, e)),
        layers@.len() > 0 && caller_deps_valid(deps@, layers@.len() as int) ==> {
            &&& r is Err <==> exists|x: int| 0 <= x < layers@.len() && !layer_legal(#[trigger] layers@[x])
            &&& r matches Err(e) ==> e is Conflict || e is Occupancy
        },
        r matches Ok(res) ==> exists|md: Seq<ScheduleDependency>| {
            &&& merged_deps_of(layers@, deps@, md)
            &&& compaction_result_ok(layers@, md, opts.greedy, res)
        },
        r matches Ok(res) ==> exists|order: Seq<Seq<u32>>| #[trigger] actions_from_inputs(layers@, res.layers@,
            lview(res.lineage@), order),
{
    let n = layers.len();
    if n == 0 {
        return Err(CompactionError::EmptySchedule);
    }
    let ghost input = layers@;
    let md = match merge_deps(&layers, deps) {
        Ok(d) => d,
        Err(e) => return Err(e),
    };
    let out = exclusive_cycle_asap(layers, &md);
    let asap_makespan = out.makespan;
    let ghost al = out.layers@;
    let ghost alin = out.lineage@;
    proof {
        assert(asap_layout(input, md@, al, alin, asap_makespan));
        lemma_asap_state(input, md@, al, alin, asap_makespan);
        lemma_asap_actions(input, md@, al, alin, asap_makespan);
    }
    let ghost mut order_acc = lview(alin);
    let mut cur = out.layers;
    let mut lineage = out.lineage;
    let mut compacted = false;
    proof {
        assert(caller_deps_valid(deps@, n as int));
    }
    if opts.greedy {
        loop
            invariant
                n == input.len(),
                0 < n < u32::MAX - 2,
                compaction_state_ok(input, cur@, lview(lineage@)),
                compacted <==> cur@.len() < n,
                !compacted ==> cur@ == al && lineage@ == alin,
                compacted ==> deps_forward(cur@, lview(lineage@), md@)
                    && forall|k: int| 0 <= k < cur@.len() ==> (#[trigger] cur@[k]).cycle == k,
                actions_from_inputs(input, cur@, lview(lineage@), order_acc),
            ensures
                forall|i: int, j: int| 0 <= i < j < cur@.len() ==> !mergeable(cur@, lview(lineage@), md@, i, j),
            decreases cur@.len(),
        {
            match find_first_improving_merge(&cur, &lineage, &md, Ghost(n as int)) {
                None => {
                    break;
                },
                Some((keep, drop)) => {
                    let ghost l0 = cur@;
                    let ghost lv0 = lview(lineage@);
                    let _ = apply_merge(&mut cur, &mut lineage, keep, drop);
                    let ghost merged = cur@;
                    renumber_dense(&mut cur);
                    proof {
                        assert(merged_index(keep as int, drop as int) == keep);
                        assert(l0[keep as int].cycle < l0[drop as int].cycle);
                        lemma_merge_step(input, l0, lv0, md@, keep as int, drop as int, merged, lview(lineage@), cur@);
                        lemma_merge_actions(input, l0, lv0, order_acc, keep as int, drop as int, merged, lview(lineage@), cur@);
                        order_acc = order_acc.update(keep as int, order_acc[keep as int] + order_acc[drop as int]).remove(drop as int);
                    }
                    compacted = true;
                },
            }
        }
    }
    // Final software legality of every layer.
    let mut k: usize = 0;
    while k < cur.len()
        invariant
            n == input.len(),
            input == layers@,
            n > 0,
            caller_deps_valid(deps@, n as int),
            compaction_state_ok(input, cur@, lview(lineage@)),
            asap_layout(input, md@, al, alin, asap_makespan),
            compacted <==> cur@.len() < n,
            !opts.greedy ==> !compacted,
            !compacted ==> cur@ == al && lineage@ == alin,
            compacted ==> deps_forward(cur@, lview(lineage@), md@)
                && forall|k: int| 0 <= k < cur@.len() ==> (#[trigger] cur@[k]).cycle == k,
            opts.greedy ==> forall|i: int, j: int| 0 <= i < j < cur@.len() ==> !mergeable(cur@, lview(lineage@), md@, i, j),
            k <= cur@.len(),
            forall|q: int| 0 <= q < k ==> layer_legal(#[trigger] cur@[q]),
            actions_from_inputs(input, cur@, lview(lineage@), order_acc),
        decreases cur.len() - k,
    {
        match validate_layer_software(&cur[k]) {
            Err(e) => {
                proof {
                    let lv = lview(lineage@);
                    let ki = k as int;
                    if lv[ki].len() > 1 {
                        assert(layer_legal(cur@[ki]));
                    }
                    assert(lv[ki].len() == 1);
                    assert(lv[ki].contains(lv[ki][0]));
                    let x = lv[ki][0] as int;
                    assert(0 <= x < n);
                    assert(!layer_legal(input[x]));
                }
                return Err(e);
            },
            Ok(()) => {},
        }
        k += 1;
    }
    proof {
        let lv = lview(lineage@);
        assert forall|x: int| 0 <= x < n implies layer_legal(#[trigger] input[x]) by {
            assert(lineage_covers(lv, x as u32));
            let v = choose|v: int| 0 <= v < lv.len() && #[trigger] lv[v].contains(x as u32);
            if lv[v].len() == 1 {
                let i = choose|i: int| 0 <= i < lv[v].len() && lv[v][i] == x as u32;
                assert(i == 0);
                assert(layer_legal(cur@[v]));
            }
        }
    }
    proof {
        lemma_makespan_sorted(cur@);
    }
    let compacted_makespan = makespan(&cur);
    let report = critical_path_report(&cur, &lineage, &md, compacted_makespan, Ghost(n as int));
    let res = CompactionResult {
        layers: cur,
        lineage,
        asap_makespan_cycles: asap_makespan,
        compacted_makespan_cycles: compacted_makespan,
        critical_path: report,
        compacted,
    };
    proof {
        let lv = lview(res.lineage@);
        assert(compaction_state_ok(input, res.layers@, lv));
        assert(forall|k: int| 0 <= k < res.layers@.len() ==> layer_legal(#[trigger] res.layers@[k]));
        assert(res.compacted <==> res.layers@.len() < input.len());
        assert(opts.greedy ==> forall|i: int, j: int| 0 <= i < j < res.layers@.len() ==> !mergeable(res.layers@, lv, md@, i, j));
        assert(!res.compacted ==> asap_layout(input, md@, res.layers@, res.lineage@, res.asap_makespan_cycles));
        assert(asap_layout(input, md@, al, alin, res.asap_makespan_cycles));
        assert(res.compacted_makespan_cycles == makespan_spec(res.layers@));
        assert(critical_report_ok(res.layers@, lv, md@, res.compacted_makespan_cycles, res.critical_path));
        assert(compaction_result_ok(input, md@, opts.greedy, res));
        assert(merged_deps_of(input, deps@, md@));
        assert(actions_from_inputs(input, res.layers@, lv, order_acc));
        assert(input == layers@);
        assert(actions_from_inputs(layers@, res.layers@, lview(res.lineage@), order_acc));
    }
    let out: Result<CompactionResult, CompactionError> = Ok(res);
    proof {
        assert(actions_from_inputs(layers@, out->Ok_0.layers@, lview(out->Ok_0.lineage@), order_acc));
    }
    out
}

/// Merging two entries of distinct cycles keeps them distinct.
pub proof fn lemma_merged_distinct(cs: Seq<u32>, keep: int, drop: int)
    requires
        distinct_u32(cs),
        0 <= keep < cs.len(),
        0 <= drop < cs.len(),
        keep != drop,
    ensures
        distinct_u32(merged_cycles(cs, keep, drop)),
{
    let up = cs.update(keep, if cs[keep] <= cs[drop] { cs[keep] } else { cs[drop] });
    let mc = up.remove(drop);
    let m = merged_index(keep, drop);
    assert forall|a: int, b: int| 0 <= a < b < mc.len() implies mc[a] != mc[b] by {
        let ya = if a < drop { a } else { a + 1 };
        let yb = if b < drop { b } else { b + 1 };
        assert(mc[a] == up[ya] && mc[b] == up[yb]);
        assert(ya < yb);
        assert(ya != drop && yb != drop);
        if ya == keep {
            assert(cs[yb] != cs[keep]);
            assert(cs[yb] != cs[drop]);
        } else if yb == keep {
            assert(cs[ya] != cs[keep]);
            assert(cs[ya] != cs[drop]);
        } else {
            assert(cs[ya] != cs[yb]);
        }
    }
}

/// `res` is the ASAP layout `al` with layer `drop` merged into `keep`, cycles
/// renumbered densely, and its makespan and critical-path report.
pub open spec fn forced_merge_ok(al: Seq<ScheduleLayer>, alin: Seq<Vec<u32>>, md: Seq<ScheduleDependency>,
    keep: int, drop: int, m: u32, res: CompactionResult) -> bool {
    let mi = merged_index(keep, drop);
    let mc = merged_cycles(layer_cycles(al), keep, drop);
    &&& is_merged_view(lview(alin), lview(res.lineage@), keep, drop)
    &&& res.layers@.len() == al.len() - 1
    &&& forall|k: int| 0 <= k < res.layers@.len() && k != mi ==> (#[trigger] res.layers@[k]).actions == al.remove(drop)[k].actions
    &&& res.layers@[mi].actions@ == al[keep].actions@ + al[drop].actions@
    &&& forall|k: int| 0 <= k < res.layers@.len() ==> (#[trigger] res.layers@[k]).cycle == count_below(mc, mc[k])
    &&& res.asap_makespan_cycles == m
    &&& res.compacted
    &&& res.compacted_makespan_cycles == makespan_spec(res.layers@)
    &&& critical_report_ok(res.layers@, lview(res.lineage@), md, res.compacted_makespan_cycles, res.critical_path)
}

/// Run exclusive-cycle ASAP, then merge ASAP layers `i` and `j` without any
/// search: the merge is refused with the error that the attempt yields.
pub fn force_merge_layers(
    layers: Vec<ScheduleLayer>,
    deps: &[ScheduleDependency],
    i: usize,
    j: usize,
    opts: &CompactionOptions,
) -> (r: Result<CompactionResult, CompactionError>)
    requires
        i < layers@.len(),
        j < layers@.len(),
        layers@.len() < u32::MAX - 2,
    ensures
        !caller_deps_valid(deps@, layers@.len() as int) ==> (r matches Err(e)
            && first_invalid_dep(deps@, layers@.len() as int, e)),
        caller_deps_valid(deps@, layers@.len() as int) ==> exists|md: Seq<ScheduleDependency>, al: Seq<ScheduleLayer>,
            alin: Seq<Vec<u32>>, m: u32| {
            &&& merged_deps_of(layers@, deps@, md)
            &&& asap_layout(layers@, md, al, alin, m)
            &&& match merge_attempt_spec(al, lview(alin), md, i as int, j as int) {
                Ok(MergeAttempt::Legal) => r matches Ok(res) && forced_merge_ok(al, alin, md, i as int, j as int, m, res),
                Ok(MergeAttempt::Skip) => r == Err::<CompactionResult, CompactionError>(CompactionError::MergeSkipped),
                Ok(MergeAttempt::HardFail(e)) => r == Err::<CompactionResult, CompactionError>(e),
                Err(e) => r == Err::<CompactionResult, CompactionError>(e),
            }
        },
{
    let n = layers.len();
    let ghost input = layers@;
    let md = match merge_deps(&layers, deps) {
        Ok(d) => d,
        Err(e) => return Err(e),
    };
    let out = exclusive_cycle_asap(layers, &md);
    let asap_makespan = out.makespan;
    let ghost al = out.layers@;
    let ghost alin = out.lineage@;
    proof {
        assert(asap_layout(input, md@, al, alin, asap_makespan));
        lemma_asap_state(input, md@, al, alin, asap_makespan);
        assert(merged_deps_of(input, deps@, md@));
    }
    let mut cur = out.layers;
    let mut lineage = out.lineage;
    let attempt = try_merge_pair(&cur, &lineage, &md, i, j, Ghost(n as int));
    match attempt {
        Ok(MergeAttempt::Legal) => {},
        Ok(MergeAttempt::Skip) => {
            return Err(CompactionError::MergeSkipped);
        },
        Ok(MergeAttempt::HardFail(e)) => {
            return Err(e);
        },
        Err(e) => {
            return Err(e);
        },
    }
    let _ = apply_merge(&mut cur, &mut lineage, i, j);
    let ghost merged = cur@;
    renumber_dense(&mut cur);
    proof {
        let mc = merged_cycles(layer_cycles(al), i as int, j as int);
        lemma_merged_partition(lview(alin), lview(lineage@), i as int, j as int, n as int);
        assert(layer_cycles(merged) =~= mc) by {
            assert forall|k: int| 0 <= k < mc.len() implies layer_cycles(merged)[k] == mc[k] by {
                if k != merged_index(i as int, j as int) {
                    assert(merged[k] == al.remove(j as int)[k]);
                }
            }
        }
        lemma_merged_distinct(layer_cycles(al), i as int, j as int);
        assert forall|a: int, b: int| 0 <= a < b < cur@.len() implies layer_cycles(cur@)[a] != layer_cycles(cur@)[b] by {
            lemma_rank_order(mc, a, b);
        }
        assert forall|k: int| 0 <= k < cur@.len() implies (#[trigger] cur@[k]).cycle < u32::MAX by {
            lemma_count_below_le(mc, mc[k]);
        }
    }
    let compacted_makespan = makespan(&cur);
    let report = critical_path_report(&cur, &lineage, &md, compacted_makespan, Ghost(n as int));
    let res = CompactionResult {
        layers: cur,
        lineage,
        asap_makespan_cycles: asap_makespan,
        compacted_makespan_cycles: compacted_makespan,
        critical_path: report,
        compacted: true,
    };
    proof {
        assert(forced_merge_ok(al, alin, md@, i as int, j as int, asap_makespan, res));
    }
    Ok(res)
}
} // verus!
