//! Physical schedule model: layers of neutral-atom actions.

use vstd::prelude::*;

use crate::ids::{AodTrapRef, AtomId, SiteId};

verus! {

broadcast use vstd::std_specs::btree::group_btree_axioms, vstd::laws_cmp::group_laws_cmp;

/// Direction of a trap transfer between the static SLM and a moving AOD.
#[derive(Clone, Copy, Debug, PartialEq, Eq, Structural)]
pub enum TransferDirection {
    SlmToAod,
    AodToSlm,
}

/// One atom displacement inside a grouped AOD rearrangement.
#[derive(Clone, Copy, Debug, PartialEq, Eq, Structural)]
pub struct AtomMove {
    pub atom: AtomId,
    pub from: SiteId,
    pub to: SiteId,
}

/// A grouped AOD rearrangement step.
#[derive(Clone, Debug)]
pub struct MovementGroup {
    pub moves: Vec<AtomMove>,
    pub duration_us: u64,
}

/// A load (SLM → AOD) or store (AOD → SLM) of one atom.
#[derive(Clone, Copy, Debug, PartialEq, Eq, Structural)]
pub struct TrapTransfer {
    pub atom: AtomId,
    pub direction: TransferDirection,
    pub site: SiteId,
    pub aod: AodTrapRef,
    pub duration_us: u64,
}

/// Measurement basis of a mid-circuit or terminal measurement.
#[derive(Clone, Copy, Debug, PartialEq, Eq, Structural)]
pub enum MeasurementBasis {
    X,
    Y,
    Z,
}

/// The single-qubit gate a local action runs. Angles are in radians, each
/// held as the bit pattern of its `f64` (`f64::to_bits`).
#[derive(Clone, Copy, Debug, PartialEq, Eq, Structural)]
pub enum LocalGateKind {
    H,
    Rz(u64),
    U3 { theta: u64, phi: u64, lambda: u64 },
}

/// One action of a schedule layer.
#[derive(Clone, Debug)]
pub enum NeutralAtomAction {
    Move(MovementGroup),
    Transfer(TrapTransfer),
    Entangle2 { atoms: [AtomId; 2], duration_us: u64 },
    EntangleN { atoms: Vec<AtomId>, duration_us: u64 },
    LocalGate { atom: AtomId, gate: LocalGateKind, duration_us: u64 },
    /// A `y` rotation by the whole-array Raman drive, on every trapped atom;
    /// the angle in radians as the bit pattern of its `f64`.
    GlobalRy { theta_rad: u64, duration_us: u64 },
    Measure { atom: AtomId, basis: MeasurementBasis, duration_us: u64 },
    Reset { atom: AtomId, duration_us: u64 },
    Wait { duration_us: u64 },
}

/// Actions that execute in one cycle.
#[derive(Clone, Debug)]
pub struct ScheduleLayer {
    pub cycle: u32,
    pub actions: Vec<NeutralAtomAction>,
}

/// Atom ids an action touches, in the order the action lists them.
pub open spec fn action_atoms(a: NeutralAtomAction) -> Seq<u32> {
    match a {
        NeutralAtomAction::Move(g) => g.moves@.map_values(|m: AtomMove| m.atom.0),
        NeutralAtomAction::Transfer(t) => seq![t.atom.0],
        NeutralAtomAction::Entangle2 { atoms, .. } => seq![atoms@[0].0, atoms@[1].0],
        NeutralAtomAction::EntangleN { atoms, .. } => atoms@.map_values(|x: AtomId| x.0),
        NeutralAtomAction::LocalGate { atom, .. } => seq![atom.0],
        NeutralAtomAction::Measure { atom, .. } => seq![atom.0],
        NeutralAtomAction::Reset { atom, .. } => seq![atom.0],
        NeutralAtomAction::GlobalRy { .. } => seq![],
        NeutralAtomAction::Wait { .. } => seq![],
    }
}

/// Whether some action of `actions` touches atom `a`.
pub open spec fn actions_use_atom(actions: Seq<NeutralAtomAction>, a: u32) -> bool {
    exists|k: int| 0 <= k < actions.len() && #[trigger] action_atoms(actions[k]).contains(a)
}

/// Whether the layer touches atom `a`.
pub open spec fn layer_uses_atom(l: ScheduleLayer, a: u32) -> bool {
    actions_use_atom(l.actions@, a)
}

/// The action entangles atoms.
pub open spec fn is_entangle(a: NeutralAtomAction) -> bool {
    a is Entangle2 || a is EntangleN
}

/// Ids sorted strictly increasing (hence unique).
pub open spec fn strictly_sorted(s: Seq<AtomId>) -> bool {
    forall|i: int, j: int| 0 <= i < j < s.len() ==> s[i].0 < s[j].0
}

/// Insert `x` into a strictly sorted vector unless it is already there.
pub fn insert_sorted_unique(v: &mut Vec<AtomId>, x: AtomId)
    requires
        strictly_sorted(old(v)@),
    ensures
        strictly_sorted(final(v)@),
        forall|y: AtomId| #[trigger] final(v)@.contains(y) <==> (old(v)@.contains(y) || y == x),
{
    let mut i: usize = 0;
    while i < v.len() && v[i].0 < x.0
        invariant
            i <= v.len(),
            strictly_sorted(v@),
            forall|k: int| 0 <= k < i ==> v@[k].0 < x.0,
        decreases v.len() - i,
    {
        i += 1;
    }
    if i < v.len() && v[i].0 == x.0 {
        proof {
            assert(v@[i as int] == x);
        }
        return;
    }
    assert(forall|k: int| i <= k < v@.len() ==> v@[k].0 > x.0);
    let ghost old_v = v@;
    v.insert(i, x);
    proof {
        assert forall|y: AtomId| #[trigger] v@.contains(y) <==> (old_v.contains(y) || y == x) by {
            if v@.contains(y) {
                let k = choose|k: int| 0 <= k < v@.len() && v@[k] == y;
                if k < i {
                    assert(old_v[k] == y);
                } else if k > i {
                    assert(old_v[k - 1] == y);
                }
            }
            if old_v.contains(y) {
                let k = choose|k: int| 0 <= k < old_v.len() && old_v[k] == y;
                if k < i {
                    assert(v@[k] == y);
                } else {
                    assert(v@[k + 1] == y);
                }
            }
            if y == x {
                assert(v@[i as int] == y);
            }
        }
    }
}


/// Element-wise copy of a vector of `Copy` values.
pub fn copy_vec<T: Copy>(v: &Vec<T>) -> (r: Vec<T>)
    ensures
        r@ == v@,
{
    let mut r: Vec<T> = Vec::new();
    let mut i: usize = 0;
    while i < v.len()
        invariant
            i <= v.len(),
            r@ == v@.take(i as int),
        decreases v.len() - i,
    {
        r.push(v[i]);
        proof {
            assert(v@.take(i + 1) =~= v@.take(i as int).push(v@[i as int]));
        }
        i += 1;
    }
    proof {
        assert(v@.take(v@.len() as int) =~= v@);
    }
    r
}


/// Atoms of all actions, flattened in order.
pub open spec fn flat_atoms(acts: Seq<NeutralAtomAction>) -> Seq<u32>
    decreases acts.len(),
{
    if acts.len() == 0 {
        seq![]
    } else {
        flat_atoms(acts.drop_last()) + action_atoms(acts.last())
    }
}

/// Move target sites of all actions, flattened in order.
pub open spec fn action_targets(a: NeutralAtomAction) -> Seq<u32> {
    match a {
        NeutralAtomAction::Move(g) => g.moves@.map_values(|m: AtomMove| m.to.0),
        _ => seq![],
    }
}

/// The sites targeted by the actions, in order.
pub open spec fn flat_targets(acts: Seq<NeutralAtomAction>) -> Seq<u32>
    decreases acts.len(),
{
    if acts.len() == 0 {
        seq![]
    } else {
        flat_targets(acts.drop_last()) + action_targets(acts.last())
    }
}

/// No atom is touched twice by the actions of a layer.
pub open spec fn conflict_free(acts: Seq<NeutralAtomAction>) -> bool {
    flat_atoms(acts).no_duplicates()
}

/// No two moves of a layer end on the same site.
pub open spec fn occupancy_free(acts: Seq<NeutralAtomAction>) -> bool {
    flat_targets(acts).no_duplicates()
}

/// The atom ids an action touches.
pub fn action_atom_list(a: &NeutralAtomAction) -> (r: Vec<u32>)
    ensures
        r@ == action_atoms(*a),
{
    let mut r: Vec<u32> = Vec::new();
    match a {
        NeutralAtomAction::Move(g) => {
            let mut m: usize = 0;
            while m < g.moves.len()
                invariant
                    m <= g.moves@.len(),
                    r@ == g.moves@.take(m as int).map_values(|mv: AtomMove| mv.atom.0),
                decreases g.moves.len() - m,
            {
                r.push(g.moves[m].atom.0);
                proof {
                    assert(g.moves@.take(m + 1).map_values(|mv: AtomMove| mv.atom.0) =~= g.moves@.take(
                        m as int,
                    ).map_values(|mv: AtomMove| mv.atom.0).push(g.moves@[m as int].atom.0));
                }
                m += 1;
            }
            proof {
                assert(g.moves@.take(g.moves@.len() as int) =~= g.moves@);
            }
        },
        NeutralAtomAction::Transfer(t) => {
            r.push(t.atom.0);
        },
        NeutralAtomAction::Entangle2 { atoms, .. } => {
            r.push(atoms[0].0);
            r.push(atoms[1].0);
        },
        NeutralAtomAction::EntangleN { atoms, .. } => {
            let mut m: usize = 0;
            while m < atoms.len()
                invariant
                    m <= atoms@.len(),
                    r@ == atoms@.take(m as int).map_values(|x: AtomId| x.0),
                decreases atoms.len() - m,
            {
                r.push(atoms[m].0);
                proof {
                    assert(atoms@.take(m + 1).map_values(|x: AtomId| x.0) =~= atoms@.take(m as int).map_values(
                        |x: AtomId| x.0,
                    ).push(atoms@[m as int].0));
                }
                m += 1;
            }
            proof {
                assert(atoms@.take(atoms@.len() as int) =~= atoms@);
            }
        },
        NeutralAtomAction::LocalGate { atom, .. } => {
            r.push(atom.0);
        },
        NeutralAtomAction::Measure { atom, .. } => {
            r.push(atom.0);
        },
        NeutralAtomAction::Reset { atom, .. } => {
            r.push(atom.0);
        },
        NeutralAtomAction::GlobalRy { .. } => {},
        NeutralAtomAction::Wait { .. } => {},
    }
    proof {
        assert(r@ =~= action_atoms(*a));
    }
    r
}

/// The move targets of an action.
pub fn action_target_list(a: &NeutralAtomAction) -> (r: Vec<u32>)
    ensures
        r@ == action_targets(*a),
{
    let mut r: Vec<u32> = Vec::new();
    match a {
        NeutralAtomAction::Move(g) => {
            let mut m: usize = 0;
            while m < g.moves.len()
                invariant
                    m <= g.moves@.len(),
                    r@ == g.moves@.take(m as int).map_values(|mv: AtomMove| mv.to.0),
                decreases g.moves.len() - m,
            {
                r.push(g.moves[m].to.0);
                proof {
                    assert(g.moves@.take(m + 1).map_values(|mv: AtomMove| mv.to.0) =~= g.moves@.take(
                        m as int,
                    ).map_values(|mv: AtomMove| mv.to.0).push(g.moves@[m as int].to.0));
                }
                m += 1;
            }
            proof {
                assert(g.moves@.take(g.moves@.len() as int) =~= g.moves@);
            }
        },
        _ => {},
    }
    proof {
        assert(r@ =~= action_targets(*a));
    }
    r
}

/// Add every id of `items` to `seen`; report the first id already present.
fn absorb_ids(items: &Vec<u32>, seen: &mut std::collections::BTreeSet<u32>, Ghost(prior): Ghost<Seq<u32>>) -> (r: Option<u32>)
    requires
        old(seen)@ == prior.to_set(),
        prior.no_duplicates(),
    ensures
        r is None ==> (prior + items@).no_duplicates() && final(seen)@ == (prior + items@).to_set(),
        r matches Some(x) ==> !(prior + items@).no_duplicates(),
{
    let mut m: usize = 0;
    while m < items.len()
        invariant
            m <= items@.len(),
            seen@ == (prior + items@.take(m as int)).to_set(),
            (prior + items@.take(m as int)).no_duplicates(),
        decreases items.len() - m,
    {
        let x = items[m];
        let ghost cur = prior + items@.take(m as int);
        assert(prior + items@.take(m + 1) =~= cur.push(x));
        if !seen.insert(x) {
            proof {
                let nxt = cur.push(x);
                assert(cur.contains(x));
                let j = choose|j: int| 0 <= j < cur.len() && cur[j] == x;
                let full = prior + items@;
                assert(full[j] == x);
                assert(full[prior.len() + m] == x);
            }
            return Some(x);
        }
        proof {
            let nxt = cur.push(x);
            assert(!cur.contains(x));
            cur.lemma_push_to_set_commute(x);
            assert(seen@ =~= nxt.to_set());
        }
        m += 1;
    }
    proof {
        assert(items@.take(items@.len() as int) =~= items@);
    }
    None
}

/// Atoms (or, with `targets`, move target sites) of all actions, flattened.
pub open spec fn flat_ids(acts: Seq<NeutralAtomAction>, targets: bool) -> Seq<u32> {
    if targets { flat_targets(acts) } else { flat_atoms(acts) }
}

/// Scan `acts` after the already-seen ids of `base`; report the first id seen twice.
fn scan_ids(
    acts: &Vec<NeutralAtomAction>,
    targets: bool,
    seen: &mut std::collections::BTreeSet<u32>,
    Ghost(base): Ghost<Seq<NeutralAtomAction>>,
) -> (r: Option<u32>)
    requires
        old(seen)@ == flat_ids(base, targets).to_set(),
        flat_ids(base, targets).no_duplicates(),
    ensures
        r is None ==> flat_ids(base + acts@, targets).no_duplicates() && final(seen)@ == flat_ids(base + acts@, targets).to_set(),
        r is Some ==> !flat_ids(base + acts@, targets).no_duplicates(),
{
    let ghost all = base + acts@;
    let ghost mut acc: Seq<u32> = flat_ids(base, targets);
    let mut k: usize = 0;
    proof {
        assert(all.take(base.len() as int) =~= base);
    }
    while k < acts.len()
        invariant
            all == base + acts@,
            k <= acts@.len(),
            acc == flat_ids(all.take(base.len() + k), targets),
            seen@ == acc.to_set(),
            acc.no_duplicates(),
        decreases acts.len() - k,
    {
        let action = &acts[k];
        assert(*action == all[base.len() + k]);
        let items = if targets { action_target_list(action) } else { action_atom_list(action) };
        let r = absorb_ids(&items, seen, Ghost(acc));
        proof {
            assert(all.take(base.len() + k + 1).drop_last() =~= all.take(base.len() + k));
            assert(flat_ids(all.take(base.len() + k + 1), targets) == acc + items@);
        }
        if r.is_some() {
            proof {
                if targets {
                    lemma_flat_targets_prefix_dup(all, base.len() + k + 1);
                } else {
                    lemma_flat_prefix_dup(all, base.len() + k + 1);
                }
            }
            return r;
        }
        proof {
            acc = acc + items@;
        }
        k += 1;
    }
    proof {
        assert(all.take(all.len() as int) =~= all);
    }
    None
}

/// The first atom touched twice by the actions of `first` followed by
/// `second`, if any.
pub fn find_atom_conflict(first: &Vec<NeutralAtomAction>, second: &Vec<NeutralAtomAction>) -> (r: Option<u32>)
    ensures
        r is None <==> conflict_free(first@ + second@),
{
    let mut seen: std::collections::BTreeSet<u32> = std::collections::BTreeSet::new();
    proof {
        assert(flat_ids(seq![], false) =~= seq![]);
        assert(seen@ =~= flat_ids(seq![], false).to_set());
        assert(seq![] + first@ =~= first@);
    }
    let r = scan_ids(first, false, &mut seen, Ghost(Seq::<NeutralAtomAction>::empty()));
    if r.is_some() {
        proof {
            assert((first@ + second@).take(first@.len() as int) =~= first@);
            assert(Seq::<NeutralAtomAction>::empty() + first@ =~= first@);
            lemma_flat_prefix_dup(first@ + second@, first@.len() as int);
        }
        return r;
    }
    scan_ids(second, false, &mut seen, Ghost(first@))
}

/// The first site targeted twice by the moves of `first` followed by
/// `second`, if any.
pub fn find_occupancy_conflict(first: &Vec<NeutralAtomAction>, second: &Vec<NeutralAtomAction>) -> (r: Option<u32>)
    ensures
        r is None <==> occupancy_free(first@ + second@),
{
    let mut seen: std::collections::BTreeSet<u32> = std::collections::BTreeSet::new();
    proof {
        assert(flat_ids(seq![], true) =~= seq![]);
        assert(seen@ =~= flat_ids(seq![], true).to_set());
        assert(seq![] + first@ =~= first@);
    }
    let r = scan_ids(first, true, &mut seen, Ghost(Seq::<NeutralAtomAction>::empty()));
    if r.is_some() {
        proof {
            assert((first@ + second@).take(first@.len() as int) =~= first@);
            assert(Seq::<NeutralAtomAction>::empty() + first@ =~= first@);
            lemma_flat_targets_prefix_dup(first@ + second@, first@.len() as int);
        }
        return r;
    }
    scan_ids(second, true, &mut seen, Ghost(first@))
}

/// A duplicate among the atoms of a prefix is a duplicate of the whole.
pub proof fn lemma_flat_prefix_dup(acts: Seq<NeutralAtomAction>, k: int)
    requires
        0 <= k <= acts.len(),
        !flat_atoms(acts.take(k)).no_duplicates(),
    ensures
        !flat_atoms(acts).no_duplicates(),
    decreases acts.len() - k,
{
    if k < acts.len() {
        assert(acts.take(k + 1).drop_last() =~= acts.take(k));
        let pre = flat_atoms(acts.take(k));
        let nxt = flat_atoms(acts.take(k + 1));
        assert(nxt == pre + action_atoms(acts[k]));
        let (i, j) = choose|i: int, j: int| 0 <= i < pre.len() && 0 <= j < pre.len() && i != j && pre[i] == pre[j];
        assert(nxt[i] == nxt[j]);
        lemma_flat_prefix_dup(acts, k + 1);
    } else {
        assert(acts.take(k) =~= acts);
    }
}

/// A duplicate target in a prefix is a duplicate in the whole list.
pub proof fn lemma_flat_targets_prefix_dup(acts: Seq<NeutralAtomAction>, k: int)
    requires
        0 <= k <= acts.len(),
        !flat_targets(acts.take(k)).no_duplicates(),
    ensures
        !flat_targets(acts).no_duplicates(),
    decreases acts.len() - k,
{
    if k < acts.len() {
        assert(acts.take(k + 1).drop_last() =~= acts.take(k));
        let pre = flat_targets(acts.take(k));
        let nxt = flat_targets(acts.take(k + 1));
        assert(nxt == pre + action_targets(acts[k]));
        let (i, j) = choose|i: int, j: int| 0 <= i < pre.len() && 0 <= j < pre.len() && i != j && pre[i] == pre[j];
        assert(nxt[i] == nxt[j]);
        lemma_flat_targets_prefix_dup(acts, k + 1);
    } else {
        assert(acts.take(k) =~= acts);
    }
}

/// Flattening distributes over concatenation.
pub proof fn lemma_flat_concat(a: Seq<NeutralAtomAction>, b: Seq<NeutralAtomAction>)
    ensures
        flat_atoms(a + b) == flat_atoms(a) + flat_atoms(b),
        flat_targets(a + b) == flat_targets(a) + flat_targets(b),
    decreases b.len(),
{
    if b.len() == 0 {
        assert(a + b =~= a);
        assert(flat_atoms(a) + flat_atoms(b) =~= flat_atoms(a));
        assert(flat_targets(a) + flat_targets(b) =~= flat_targets(a));
    } else {
        lemma_flat_concat(a, b.drop_last());
        assert((a + b).drop_last() =~= a + b.drop_last());
        assert((a + b).last() == b.last());
        assert(flat_atoms(a) + flat_atoms(b) =~= flat_atoms(a) + flat_atoms(b.drop_last()) + action_atoms(b.last()));
        assert(flat_targets(a) + flat_targets(b) =~= flat_targets(a) + flat_targets(b.drop_last()) + action_targets(b.last()));
    }
}

/// A layer formed by concatenating two action lists is legal only if both
/// parts are.
pub proof fn lemma_concat_legal_parts(a: Seq<NeutralAtomAction>, b: Seq<NeutralAtomAction>)
    ensures
        conflict_free(a + b) ==> conflict_free(a) && conflict_free(b),
        occupancy_free(a + b) ==> occupancy_free(a) && occupancy_free(b),
{
    lemma_flat_concat(a, b);
    let fa = flat_atoms(a);
    let fb = flat_atoms(b);
    if conflict_free(a + b) {
        assert forall|i: int, j: int| 0 <= i < fa.len() && 0 <= j < fa.len() && i != j implies fa[i] != fa[j] by {
            assert((fa + fb)[i] == fa[i] && (fa + fb)[j] == fa[j]);
        }
        assert forall|i: int, j: int| 0 <= i < fb.len() && 0 <= j < fb.len() && i != j implies fb[i] != fb[j] by {
            assert((fa + fb)[fa.len() + i] == fb[i] && (fa + fb)[fa.len() + j] == fb[j]);
        }
    }
    let ta = flat_targets(a);
    let tb = flat_targets(b);
    if occupancy_free(a + b) {
        assert forall|i: int, j: int| 0 <= i < ta.len() && 0 <= j < ta.len() && i != j implies ta[i] != ta[j] by {
            assert((ta + tb)[i] == ta[i] && (ta + tb)[j] == ta[j]);
        }
        assert forall|i: int, j: int| 0 <= i < tb.len() && 0 <= j < tb.len() && i != j implies tb[i] != tb[j] by {
            assert((ta + tb)[ta.len() + i] == tb[i] && (ta + tb)[ta.len() + j] == tb[j]);
        }
    }
}
} // verus!
