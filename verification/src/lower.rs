//! Integer side of lowering a planned schedule to the dialect: transfer
//! payloads, basis names, AOD bindings established by loads, and the
//! occupancy after each layer replayed backwards from the final bindings.

use vstd::prelude::*;

use crate::dialect::{TransferDirection as SpecTransferDirection, TransferSpec};
use crate::ids::{AodTrapRef, AtomBinding, SiteId};
use crate::schedule::{AtomMove, MeasurementBasis, NeutralAtomAction, ScheduleLayer, TransferDirection, TrapTransfer};

verus! {

broadcast use vstd::std_specs::btree::group_btree_axioms, vstd::laws_cmp::group_laws_cmp;

/// A schedule that cannot be lowered to the dialect.
#[derive(Clone, Copy, Debug, PartialEq, Eq, Structural)]
pub enum ScheduleLowerError {
    MissingLayout,
    MissingSite { cycle: u32, site: u32 },
    DuplicateSite { site: u32 },
    UnboundAtom { cycle: u32, atom: u32 },
    InconsistentMove { cycle: u32, atom: u32, to: u32, found: u32 },
    MissingAodBinding { cycle: u32, atom: u32 },
    UnsupportedEntangleN { cycle: u32, arity: usize },
    /// The dialect has no single-qubit gate op.
    UnsupportedLocalGate { cycle: u32, atom: u32 },
    /// A whole-array `y` rotation, which the dialect has no operation for.
    UnsupportedGlobalRy { cycle: u32 },
}

/// The dialect payload of a trap transfer.
pub open spec fn transfer_spec(transfer: TrapTransfer) -> TransferSpec {
    TransferSpec {
        atom: transfer.atom.0,
        site: transfer.site.0,
        aod_id: transfer.aod.aod_id,
        row: transfer.aod.row,
        col: transfer.aod.col,
        direction: match transfer.direction {
            TransferDirection::SlmToAod => SpecTransferDirection::SlmToAod,
            TransferDirection::AodToSlm => SpecTransferDirection::AodToSlm,
        },
        duration_us: transfer.duration_us,
    }
}

/// The dialect payload of a trap transfer.
pub fn lower_transfer(transfer: &TrapTransfer) -> (r: TransferSpec)
    ensures
        r == transfer_spec(*transfer),
{
    TransferSpec {
        atom: transfer.atom.0,
        site: transfer.site.0,
        aod_id: transfer.aod.aod_id,
        row: transfer.aod.row,
        col: transfer.aod.col,
        direction: match transfer.direction {
            TransferDirection::SlmToAod => SpecTransferDirection::SlmToAod,
            TransferDirection::AodToSlm => SpecTransferDirection::AodToSlm,
        },
        duration_us: transfer.duration_us,
    }
}

/// The dialect's lower-case name of a measurement basis.
pub open spec fn basis_name_spec(basis: MeasurementBasis) -> Seq<char> {
    match basis {
        MeasurementBasis::X => "x"@,
        MeasurementBasis::Y => "y"@,
        MeasurementBasis::Z => "z"@,
    }
}

/// The dialect's lower-case name of a measurement basis.
pub fn basis_name(basis: MeasurementBasis) -> (r: &'static str)
    ensures
        r@ == basis_name_spec(basis),
{
    match basis {
        MeasurementBasis::X => "x",
        MeasurementBasis::Y => "y",
        MeasurementBasis::Z => "z",
    }
}

/// The visualiser's upper-case name of a measurement basis.
pub fn basis_str(basis: MeasurementBasis) -> (r: &'static str)
    ensures
        r@ == (match basis {
            MeasurementBasis::X => "X"@,
            MeasurementBasis::Y => "Y"@,
            MeasurementBasis::Z => "Z"@,
        }),
{
    match basis {
        MeasurementBasis::X => "X",
        MeasurementBasis::Y => "Y",
        MeasurementBasis::Z => "Z",
    }
}

/// AOD bindings after the transfers of the first `m` actions: a load binds
/// the atom to its AOD trap, a store releases it.
pub open spec fn transfers_applied(b: Map<u32, AodTrapRef>, actions: Seq<NeutralAtomAction>, m: int) -> Map<u32, AodTrapRef>
    decreases m,
{
    if m <= 0 {
        b
    } else {
        let prev = transfers_applied(b, actions, m - 1);
        match actions[m - 1] {
            NeutralAtomAction::Transfer(t) => match t.direction {
                TransferDirection::SlmToAod => prev.insert(t.atom.0, t.aod),
                TransferDirection::AodToSlm => prev.remove(t.atom.0),
            },
            _ => prev,
        }
    }
}

/// Apply a layer's transfers to the AOD bindings (keyed by atom id).
pub fn apply_transfers(layer: &ScheduleLayer, aod_bindings: &mut std::collections::BTreeMap<u32, AodTrapRef>)
    ensures
        final(aod_bindings)@ == transfers_applied(old(aod_bindings)@, layer.actions@, layer.actions@.len() as int),
{
    let mut k: usize = 0;
    while k < layer.actions.len()
        invariant
            k <= layer.actions@.len(),
            aod_bindings@ == transfers_applied(old(aod_bindings)@, layer.actions@, k as int),
        decreases layer.actions.len() - k,
    {
        match &layer.actions[k] {
            NeutralAtomAction::Transfer(t) => {
                match t.direction {
                    TransferDirection::SlmToAod => {
                        aod_bindings.insert(t.atom.0, t.aod);
                    },
                    TransferDirection::AodToSlm => {
                        aod_bindings.remove(&t.atom.0);
                    },
                }
            },
            _ => {},
        }
        k += 1;
    }
}

/// The moves of an action (none unless it is a move group).
pub open spec fn action_moves(a: NeutralAtomAction) -> Seq<AtomMove> {
    match a {
        NeutralAtomAction::Move(g) => g.moves@,
        _ => seq![],
    }
}

/// The moves of a list of actions, in order.
pub open spec fn layer_moves(actions: Seq<NeutralAtomAction>) -> Seq<AtomMove>
    decreases actions.len(),
{
    if actions.len() == 0 {
        seq![]
    } else {
        action_moves(actions[0]) + layer_moves(actions.subrange(1, actions.len() as int))
    }
}

/// Undo moves, in order, on occupancy `occ` (atom id to site id): each
/// atom must sit on its move's target and goes back to its source.
pub open spec fn undo_moves(occ: Map<u32, u32>, moves: Seq<AtomMove>, cycle: u32) -> Result<Map<u32, u32>, ScheduleLowerError>
    decreases moves.len(),
{
    if moves.len() == 0 {
        Ok(occ)
    } else {
        let m = moves[0];
        if !occ.contains_key(m.atom.0) {
            Err(ScheduleLowerError::UnboundAtom { cycle, atom: m.atom.0 })
        } else if occ[m.atom.0] != m.to.0 {
            Err(ScheduleLowerError::InconsistentMove { cycle, atom: m.atom.0, to: m.to.0, found: occ[m.atom.0] })
        } else {
            undo_moves(occ.insert(m.atom.0, m.from.0), moves.subrange(1, moves.len() as int), cycle)
        }
    }
}

/// The occupancy before the last `t` layers, undoing them from the last one
/// backwards starting at the final occupancy `fin`.
pub open spec fn replayed(fin: Map<u32, u32>, layers: Seq<ScheduleLayer>, t: int) -> Result<Map<u32, u32>, ScheduleLowerError>
    decreases t,
{
    if t <= 0 {
        Ok(fin)
    } else {
        match replayed(fin, layers, t - 1) {
            Err(e) => Err(e),
            Ok(occ) => {
                let l = layers[layers.len() - t];
                undo_moves(occ, layer_moves(l.actions@), l.cycle)
            },
        }
    }
}

/// Final occupancy from the bindings: each bound atom on its trap's site
/// (a later binding of the same atom wins).
pub open spec fn bindings_occupancy(bindings: Seq<AtomBinding>, m: int) -> Map<u32, u32>
    decreases m,
{
    if m <= 0 {
        Map::empty()
    } else {
        bindings_occupancy(bindings, m - 1).insert(bindings[m - 1].atom.0, bindings[m - 1].trap.site_of().0)
    }
}

/// Undo one layer's moves on `occ`.
fn undo_layer_moves(occ: &mut std::collections::BTreeMap<u32, u32>, layer: &ScheduleLayer) -> (r: Result<(), ScheduleLowerError>)
    ensures
        match undo_moves(old(occ)@, layer_moves(layer.actions@), layer.cycle) {
            Ok(m) => r is Ok && final(occ)@ == m,
            Err(e) => r == Err::<(), ScheduleLowerError>(e),
        },
{
    let ghost o0 = occ@;
    let ghost acts = layer.actions@;
    let n = layer.actions.len();
    let c = layer.cycle;
    let mut k: usize = 0;
    proof {
        assert(acts.subrange(0, n as int) =~= acts);
    }
    while k < n
        invariant
            n == acts.len(),
            o0 == old(occ)@,
            acts == layer.actions@,
            c == layer.cycle,
            k <= n,
            undo_moves(o0, layer_moves(acts), c) == undo_moves(occ@, layer_moves(acts.subrange(k as int, n as int)), c),
        decreases n - k,
    {
        let ghost rest = acts.subrange(k + 1, n as int);
        proof {
            let cur = acts.subrange(k as int, n as int);
            assert(cur[0] == acts[k as int]);
            assert(cur.subrange(1, cur.len() as int) =~= rest);
        }
        match &layer.actions[k] {
            NeutralAtomAction::Move(g) => {
                let mvs = &g.moves;
                let mut m: usize = 0;
                proof {
                    assert(mvs@.subrange(0, mvs@.len() as int) =~= mvs@);
                }
                while m < mvs.len()
                    invariant
                        m <= mvs@.len(),
                        o0 == old(occ)@,
                        acts == layer.actions@,
                        c == layer.cycle,
                        undo_moves(o0, layer_moves(acts), c) == undo_moves(occ@, mvs@.subrange(m as int, mvs@.len() as int)
                            + layer_moves(rest), c),
                    decreases mvs.len() - m,
                {
                    let mv = mvs[m];
                    let ghost s = mvs@.subrange(m as int, mvs@.len() as int) + layer_moves(rest);
                    proof {
                        assert(s[0] == mv);
                        assert(s.subrange(1, s.len() as int) =~= mvs@.subrange(m + 1, mvs@.len() as int) + layer_moves(rest));
                    }
                    let ghost ob = occ@;
                    let prev = occ.insert(mv.atom.0, mv.from.0);
                    proof {
                        assert(undo_moves(ob, s, c) == undo_moves(o0, layer_moves(acts), c));
                    }
                    match prev {
                        Some(site) => {
                            if site != mv.to.0 {
                                return Err(ScheduleLowerError::InconsistentMove { cycle: c, atom: mv.atom.0, to: mv.to.0, found: site });
                            }
                        },
                        None => {
                            return Err(ScheduleLowerError::UnboundAtom { cycle: c, atom: mv.atom.0 });
                        },
                    }
                    m += 1;
                }
                proof {
                    assert(mvs@.subrange(mvs@.len() as int, mvs@.len() as int) + layer_moves(rest) =~= layer_moves(rest));
                }
            },
            _ => {
                proof {
                    assert(action_moves(acts[k as int]) =~= Seq::<AtomMove>::empty());
                    assert(layer_moves(acts.subrange(k as int, n as int)) =~= layer_moves(rest));
                }
            },
        }
        k += 1;
    }
    proof {
        assert(acts.subrange(n as int, n as int).len() == 0);
    }
    Ok(())
}

/// Occupancy (atom id to site id) at the end of each layer, replaying moves
/// backwards from the final bindings; the first inconsistency found, from
/// the last layer back, is reported.
pub fn replay_occupancy(layers: &[ScheduleLayer], bindings: &Vec<AtomBinding>)
    -> (r: Result<Vec<std::collections::BTreeMap<u32, u32>>, ScheduleLowerError>)
    ensures
        match replayed(bindings_occupancy(bindings@, bindings@.len() as int), layers@, layers@.len() as int) {
            Err(e) => r == Err::<Vec<std::collections::BTreeMap<u32, u32>>, ScheduleLowerError>(e),
            Ok(_) => r matches Ok(v) && v@.len() == layers@.len() && forall|k: int| 0 <= k < layers@.len() ==>
                replayed(bindings_occupancy(bindings@, bindings@.len() as int), layers@, layers@.len() - 1 - k)
                    == Ok::<Map<u32, u32>, ScheduleLowerError>((#[trigger] v@[k])@),
        },
{
    let mut occ: std::collections::BTreeMap<u32, u32> = std::collections::BTreeMap::new();
    let mut b: usize = 0;
    while b < bindings.len()
        invariant
            b <= bindings@.len(),
            occ@ == bindings_occupancy(bindings@, b as int),
        decreases bindings.len() - b,
    {
        let binding = bindings[b];
        occ.insert(binding.atom.0, binding.trap.site().0);
        b += 1;
    }
    let ghost fin = occ@;
    let n = layers.len();
    // Slots for the occupancy after each layer, filled from the last layer back.
    let mut after: Vec<std::collections::BTreeMap<u32, u32>> = Vec::new();
    let mut z: usize = 0;
    while z < n
        invariant
            z <= n,
            after@.len() == z,
        decreases n - z,
    {
        after.push(std::collections::BTreeMap::new());
        z += 1;
    }
    let mut t: usize = 0;
    while t < n
        invariant
            n == layers@.len(),
            fin == bindings_occupancy(bindings@, bindings@.len() as int),
            t <= n,
            after@.len() == n,
            replayed(fin, layers@, t as int) == Ok::<Map<u32, u32>, ScheduleLowerError>(occ@),
            forall|k: int| n - t <= k < n ==> replayed(fin, layers@, n - 1 - k) == Ok::<Map<u32, u32>, ScheduleLowerError>((#[trigger] after@[k])@),
        decreases n - t,
    {
        let index = n - 1 - t;
        let snapshot = occ.clone();
        let mut slot = snapshot;
        std::mem::swap(&mut slot, &mut after[index]);
        let res = undo_layer_moves(&mut occ, &layers[index]);
        match res {
            Err(e) => {
                proof {
                    lemma_replayed_err_stays(fin, layers@, t as int + 1, n as int, e);
                }
                return Err(e);
            },
            Ok(()) => {},
        }
        t += 1;
    }
    Ok(after)
}

/// Once replaying fails, replaying more layers fails the same way.
proof fn lemma_replayed_err_stays(fin: Map<u32, u32>, layers: Seq<ScheduleLayer>, t: int, u: int, e: ScheduleLowerError)
    requires
        0 <= t <= u,
        replayed(fin, layers, t) == Err::<Map<u32, u32>, ScheduleLowerError>(e),
    ensures
        replayed(fin, layers, u) == Err::<Map<u32, u32>, ScheduleLowerError>(e),
    decreases u - t,
{
    if t < u {
        lemma_replayed_err_stays(fin, layers, t + 1, u, e);
    }
}


/// A stage position `P`, carried through lowering unchanged, with integer
/// keys that order positions as their x and y coordinates do (equal keys for
/// equal coordinates).
#[derive(Clone, Copy, Debug, PartialEq)]
pub struct KeyedPoint<P> {
    pub position: P,
    pub x_key: u64,
    pub y_key: u64,
}

/// A layout site and where it is.
#[derive(Clone, Copy, Debug, PartialEq)]
pub struct KeyedSite<P> {
    pub id: SiteId,
    pub point: KeyedPoint<P>,
}

/// A layout: its sites and the atoms' bindings after the schedule ran.
#[derive(Clone, Debug, PartialEq)]
pub struct KeyedLayout<P> {
    pub sites: Vec<KeyedSite<P>>,
    pub initial_bindings: Vec<AtomBinding>,
}

/// An atom at a position.
#[derive(Clone, Copy, Debug, PartialEq)]
pub struct PositionedAtom<P> {
    pub atom: u32,
    pub point: KeyedPoint<P>,
}

/// One desired Rydberg pair in a layer.
#[derive(Clone, Copy, Debug, PartialEq)]
pub struct EntanglePairSpec<P> {
    pub lhs: PositionedAtom<P>,
    pub rhs: PositionedAtom<P>,
}

/// One atom displacement inside a grouped AOD rearrangement step.
#[derive(Clone, Copy, Debug, PartialEq)]
pub struct MoveSpec<P> {
    pub atom: u32,
    pub from_site: u32,
    pub to_site: u32,
    pub aod_id: u32,
    pub row: u32,
    pub col: u32,
    pub from: KeyedPoint<P>,
    pub to: KeyedPoint<P>,
}

/// One lowered action.
#[derive(Clone, Debug, PartialEq)]
pub enum ActionSpec<P> {
    Move { moves: Vec<MoveSpec<P>>, duration_us: u64 },
    Transfer(TransferSpec),
    Entangle { pairs: Vec<EntanglePairSpec<P>>, duration_us: u64 },
    Measure { atom: u32, basis: String, duration_us: u64 },
    Reset { atom: u32, duration_us: u64 },
    Wait { duration_us: u64 },
}

/// One lowered layer.
#[derive(Clone, Debug, PartialEq)]
pub struct LayerSpec<P> {
    pub cycle: u32,
    pub actions: Vec<ActionSpec<P>>,
}

/// A lowered schedule: the header `H` it was lowered with, and its layers.
#[derive(Clone, Debug, PartialEq)]
pub struct ScheduleSpec<H, P> {
    pub params: H,
    pub layers: Vec<LayerSpec<P>>,
}

/// Site `j` repeats the id of an earlier site, and is the first that does.
pub open spec fn first_duplicate_site<P>(sites: Seq<KeyedSite<P>>, j: int) -> bool {
    &&& 0 <= j < sites.len()
    &&& exists|i: int| 0 <= i < j && sites[i].id == #[trigger] sites[j].id
    &&& forall|k: int, i: int| 0 <= i < k < j ==> #[trigger] sites[i].id != #[trigger] sites[k].id
}

/// No two sites share an id.
pub open spec fn distinct_sites<P>(sites: Seq<KeyedSite<P>>) -> bool {
    forall|k: int, i: int| 0 <= i < k < sites.len() ==> #[trigger] sites[i].id != #[trigger] sites[k].id
}

/// `idx` maps each site id to the index of the site with that id.
pub open spec fn site_index<P>(sites: Seq<KeyedSite<P>>, idx: Map<u32, usize>) -> bool {
    &&& forall|id: u32| #[trigger] idx.contains_key(id) <==> exists|i: int| 0 <= i < sites.len() && sites[i].id.0 == id
    &&& forall|id: u32| #[trigger] idx.contains_key(id) ==> idx[id] < sites.len() && sites[idx[id] as int].id.0 == id
}

/// Index the layout's sites by id; a repeated id is an error naming the
/// first repeat.
pub fn site_positions<P: Copy>(sites: &Vec<KeyedSite<P>>) -> (r: Result<std::collections::BTreeMap<u32, usize>, ScheduleLowerError>)
    ensures
        r is Err <==> exists|j: int| first_duplicate_site(sites@, j),
        forall|j: int| first_duplicate_site(sites@, j) ==> r == Err::<std::collections::BTreeMap<u32, usize>, ScheduleLowerError>(
            ScheduleLowerError::DuplicateSite { site: sites@[j].id.0 }),
        r matches Ok(idx) ==> site_index(sites@, idx@) && distinct_sites(sites@),
{
    let mut idx: std::collections::BTreeMap<u32, usize> = std::collections::BTreeMap::new();
    let mut j: usize = 0;
    while j < sites.len()
        invariant
            j <= sites@.len(),
            site_index(sites@.take(j as int), idx@),
            forall|k: int, i: int| 0 <= i < k < j ==> #[trigger] sites@[i].id != #[trigger] sites@[k].id,
        decreases sites.len() - j,
    {
        let id = sites[j].id.0;
        let ghost pre = sites@.take(j as int);
        if idx.contains_key(&id) {
            proof {
                let i = choose|i: int| 0 <= i < pre.len() && pre[i].id.0 == id;
                assert(sites@[i].id == sites@[j as int].id);
                assert(first_duplicate_site(sites@, j as int));
                assert forall|q: int| first_duplicate_site(sites@, q) implies q == j by {
                    if q < j {
                        let i2 = choose|i2: int| 0 <= i2 < q && sites@[i2].id == #[trigger] sites@[q].id;
                        assert(sites@[i2].id != sites@[q].id);
                    } else if q > j {
                        assert(sites@[i].id != sites@[j as int].id);
                    }
                }
            }
            return Err(ScheduleLowerError::DuplicateSite { site: id });
        }
        idx.insert(id, j);
        proof {
            let now = sites@.take(j + 1);
            assert forall|id2: u32| #[trigger] idx@.contains_key(id2) <==> exists|i: int| 0 <= i < now.len() && now[i].id.0 == id2 by {
                if exists|i: int| 0 <= i < now.len() && now[i].id.0 == id2 {
                    let i = choose|i: int| 0 <= i < now.len() && now[i].id.0 == id2;
                    if i < j {
                        assert(pre[i].id.0 == id2);
                    }
                }
                if id2 != id && idx@.contains_key(id2) {
                    let i = choose|i: int| 0 <= i < pre.len() && pre[i].id.0 == id2;
                    assert(now[i].id.0 == id2);
                }
                if id2 == id {
                    assert(now[j as int].id.0 == id2);
                }
            }
            assert forall|k: int, i: int| 0 <= i < k < j + 1 implies #[trigger] sites@[i].id != #[trigger] sites@[k].id by {
                if k == j {
                    if sites@[i].id == sites@[k].id {
                        assert(pre[i].id.0 == id);
                    }
                }
            }
        }
        j += 1;
    }
    proof {
        assert(sites@.take(sites@.len() as int) =~= sites@);
        assert forall|q: int| !first_duplicate_site(sites@, q) by {
            if 0 <= q < sites@.len() && exists|i: int| 0 <= i < q && sites@[i].id == #[trigger] sites@[q].id {
                let i = choose|i: int| 0 <= i < q && sites@[i].id == #[trigger] sites@[q].id;
            }
        }
    }
    Ok(idx)
}


/// Two moves on AOD `a` carry the same row/column reference.
pub open spec fn degenerate_aod<P>(ms: Seq<MoveSpec<P>>, a: u32) -> bool {
    exists|i: int, j: int| 0 <= i < j < ms.len() && #[trigger] ms[i].aod_id == a && #[trigger] ms[j].aod_id == a
        && ms[i].row == ms[j].row && ms[i].col == ms[j].col
}

/// The key of a move's source that orders AOD rows (y) or columns (x).
pub open spec fn source_key<P>(m: MoveSpec<P>, rows: bool) -> u64 {
    if rows { m.from.y_key } else { m.from.x_key }
}

/// The distinct source keys of AOD `a`'s moves (rows: y, else x) below `v`.
pub open spec fn keys_below<P>(ms: Seq<MoveSpec<P>>, a: u32, rows: bool, v: u64) -> Set<u64> {
    Set::new(|k: u64| k < v && exists|i: int| 0 <= i < ms.len() && ms[i].aod_id == a && #[trigger] source_key(ms[i], rows) == k)
}

/// The moves with the AOD indices of each degenerate AOD recomputed as the
/// rank of the move's source y (row) and x (column) among that AOD's moves.
pub open spec fn overlaid<P>(ms: Seq<MoveSpec<P>>) -> Seq<MoveSpec<P>> {
    Seq::new(ms.len(), |i: int| if degenerate_aod(ms, ms[i].aod_id) {
        MoveSpec {
            atom: ms[i].atom,
            from_site: ms[i].from_site,
            to_site: ms[i].to_site,
            aod_id: ms[i].aod_id,
            row: keys_below(ms, ms[i].aod_id, true, ms[i].from.y_key).len() as u32,
            col: keys_below(ms, ms[i].aod_id, false, ms[i].from.x_key).len() as u32,
            from: ms[i].from,
            to: ms[i].to,
        }
    } else {
        ms[i]
    })
}

fn has_key(ks: &Vec<u64>, k: u64) -> (b: bool)
    ensures
        b == ks@.contains(k),
{
    let mut i: usize = 0;
    while i < ks.len()
        invariant
            i <= ks@.len(),
            forall|q: int| 0 <= q < i ==> ks@[q] != k,
        decreases ks.len() - i,
    {
        if ks[i] == k {
            return true;
        }
        i += 1;
    }
    false
}

fn shares_trap<P: Copy>(ms: &Vec<MoveSpec<P>>, a: u32) -> (b: bool)
    ensures
        b == degenerate_aod(ms@, a),
{
    let n = ms.len();
    let mut j: usize = 0;
    while j < n
        invariant
            n == ms@.len(),
            j <= n,
            forall|i2: int, j2: int| 0 <= i2 < j2 < j ==> !(#[trigger] ms@[i2].aod_id == a && #[trigger] ms@[j2].aod_id == a
                && ms@[i2].row == ms@[j2].row && ms@[i2].col == ms@[j2].col),
        decreases n - j,
    {
        let mut i: usize = 0;
        while i < j
            invariant
                n == ms@.len(),
                i <= j < n,
                forall|i2: int| 0 <= i2 < i ==> !(#[trigger] ms@[i2].aod_id == a && ms@[j as int].aod_id == a
                    && ms@[i2].row == ms@[j as int].row && ms@[i2].col == ms@[j as int].col),
            decreases j - i,
        {
            if ms[i].aod_id == a && ms[j].aod_id == a && ms[i].row == ms[j].row && ms[i].col == ms[j].col {
                return true;
            }
            i += 1;
        }
        j += 1;
    }
    false
}

fn rank_below<P: Copy>(ms: &Vec<MoveSpec<P>>, a: u32, rows: bool, v: u64) -> (r: u32)
    ensures
        r == keys_below(ms@, a, rows, v).len() as u32,
{
    let mut ks: Vec<u64> = Vec::new();
    let mut j: usize = 0;
    while j < ms.len()
        invariant
            j <= ms@.len(),
            ks@.no_duplicates(),
            ks@.to_set() == Set::new(|k: u64| k < v && exists|i: int| 0 <= i < j && ms@[i].aod_id == a
                && #[trigger] source_key(ms@[i], rows) == k),
        decreases ms.len() - j,
    {
        let ghost before = ks@;
        let k = if rows { ms[j].from.y_key } else { ms[j].from.x_key };
        let wanted = ms[j].aod_id == a && k < v;
        let present = if wanted { has_key(&ks, k) } else { false };
        if wanted && !present {
            ks.push(k);
            proof {
                assert(ks@.no_duplicates()) by {
                    assert forall|p: int, q: int| 0 <= p < q < ks@.len() implies ks@[p] != ks@[q] by {
                        if q == ks@.len() - 1 {
                            assert(before.contains(before[p]));
                        }
                    }
                }
            }
        }
        proof {
            assert(k == source_key(ms@[j as int], rows));
            assert(wanted ==> ks@.contains(k)) by {
                if wanted {
                    if present {
                        assert(ks@ == before);
                    } else {
                        assert(ks@[ks@.len() - 1] == k);
                    }
                }
            }
            assert forall|k2: u64| ks@.contains(k2) <==> (before.contains(k2) || (wanted && k2 == k)) by {
                if ks@.contains(k2) && !before.contains(k2) {
                    let q = choose|q: int| 0 <= q < ks@.len() && ks@[q] == k2;
                    if q < before.len() {
                        assert(before[q] == k2);
                    }
                }
                if before.contains(k2) {
                    let q = choose|q: int| 0 <= q < before.len() && before[q] == k2;
                    assert(ks@[q] == k2);
                }
            }
            assert(ks@.to_set() =~= Set::new(|k2: u64| k2 < v && exists|i: int| 0 <= i < j + 1 && ms@[i].aod_id == a
                && #[trigger] source_key(ms@[i], rows) == k2)) by {
                assert forall|k2: u64| ks@.to_set().contains(k2) <==> (k2 < v && exists|i: int| 0 <= i < j + 1 && ms@[i].aod_id == a
                    && #[trigger] source_key(ms@[i], rows) == k2) by {
                    if k2 < v && exists|i: int| 0 <= i < j + 1 && ms@[i].aod_id == a && #[trigger] source_key(ms@[i], rows) == k2 {
                        let i = choose|i: int| 0 <= i < j + 1 && ms@[i].aod_id == a && #[trigger] source_key(ms@[i], rows) == k2;
                        if i < j {
                            assert(before.to_set().contains(k2));
                        }
                    }
                    if ks@.to_set().contains(k2) && !(wanted && k2 == k) {
                        assert(before.to_set().contains(k2));
                        let i = choose|i: int| 0 <= i < j && ms@[i].aod_id == a && #[trigger] source_key(ms@[i], rows) == k2;
                        assert(0 <= i < j + 1);
                    }
                }
            }
        }
        j += 1;
    }
    proof {
        assert(ks@.to_set() =~= keys_below(ms@, a, rows, v));
        ks@.unique_seq_to_set();
    }
    #[verifier::truncate]
    (ks.len() as u32)
}

/// Replace degenerate AOD row/column references (two moves on one AOD with
/// the same reference) by a dense overlay: the rank of each move's source y
/// and x key among that AOD's moves. Unique references stay as they are.
pub fn overlay_degenerate_aod_indices<P: Copy>(moves: &mut Vec<MoveSpec<P>>)
    ensures
        final(moves)@ == overlaid(old(moves)@),
{
    let ghost orig = moves@;
    let mut out: Vec<MoveSpec<P>> = Vec::new();
    let mut i: usize = 0;
    while i < moves.len()
        invariant
            moves@ == orig,
            i <= orig.len(),
            out@ == overlaid(orig).take(i as int),
        decreases moves.len() - i,
    {
        let mv = moves[i];
        if shares_trap(moves, mv.aod_id) {
            let row = rank_below(moves, mv.aod_id, true, mv.from.y_key);
            let col = rank_below(moves, mv.aod_id, false, mv.from.x_key);
            out.push(MoveSpec {
                atom: mv.atom,
                from_site: mv.from_site,
                to_site: mv.to_site,
                aod_id: mv.aod_id,
                row,
                col,
                from: mv.from,
                to: mv.to,
            });
        } else {
            out.push(mv);
        }
        proof {
            assert(out@ =~= overlaid(orig).take(i + 1));
        }
        i += 1;
    }
    proof {
        assert(overlaid(orig).take(orig.len() as int) =~= overlaid(orig));
    }
    *moves = out;
}


/// The point of site `site`, or the missing-site error.
pub open spec fn site_point<P>(sites: Seq<KeyedSite<P>>, cycle: u32, site: u32)
    -> Result<KeyedPoint<P>, ScheduleLowerError> {
    if exists|i: int| 0 <= i < sites.len() && sites[i].id.0 == site {
        Ok(sites[choose|i: int| 0 <= i < sites.len() && sites[i].id.0 == site].point)
    } else {
        Err(ScheduleLowerError::MissingSite { cycle, site })
    }
}

/// Atom `atom` at the point of the site it occupies, or why it has none.
pub open spec fn atom_point<P>(sites: Seq<KeyedSite<P>>, occ: Map<u32, u32>, cycle: u32,
    atom: u32) -> Result<PositionedAtom<P>, ScheduleLowerError> {
    if !occ.contains_key(atom) {
        Err(ScheduleLowerError::UnboundAtom { cycle, atom })
    } else {
        match site_point(sites, cycle, occ[atom]) {
            Ok(p) => Ok(PositionedAtom { atom, point: p }),
            Err(e) => Err(e),
        }
    }
}

/// One lowered move: its source and target points and the AOD trap its
/// atom was loaded into.
pub open spec fn move_lowered<P>(sites: Seq<KeyedSite<P>>, aod: Map<u32, AodTrapRef>,
    cycle: u32, m: AtomMove) -> Result<MoveSpec<P>, ScheduleLowerError> {
    match site_point(sites, cycle, m.from.0) {
        Err(e) => Err(e),
        Ok(f) => match site_point(sites, cycle, m.to.0) {
            Err(e) => Err(e),
            Ok(t) => if aod.contains_key(m.atom.0) {
                Ok(MoveSpec {
                    atom: m.atom.0,
                    from_site: m.from.0,
                    to_site: m.to.0,
                    aod_id: aod[m.atom.0].aod_id,
                    row: aod[m.atom.0].row,
                    col: aod[m.atom.0].col,
                    from: f,
                    to: t,
                })
            } else {
                Err(ScheduleLowerError::MissingAodBinding { cycle, atom: m.atom.0 })
            },
        },
    }
}

/// The moves lowered in order; the first failure is the error.
pub open spec fn moves_lowered<P>(sites: Seq<KeyedSite<P>>, aod: Map<u32, AodTrapRef>,
    cycle: u32, ms: Seq<AtomMove>) -> Result<Seq<MoveSpec<P>>, ScheduleLowerError>
    decreases ms.len(),
{
    if ms.len() == 0 {
        Ok(seq![])
    } else {
        match moves_lowered(sites, aod, cycle, ms.drop_last()) {
            Err(e) => Err(e),
            Ok(prev) => match move_lowered(sites, aod, cycle, ms.last()) {
                Err(e) => Err(e),
                Ok(x) => Ok(prev.push(x)),
            },
        }
    }
}

/// The pair of two atoms at their occupied points.
pub open spec fn pair_lowered<P>(sites: Seq<KeyedSite<P>>, occ: Map<u32, u32>, cycle: u32,
    a: u32, b: u32) -> Result<EntanglePairSpec<P>, ScheduleLowerError> {
    match atom_point(sites, occ, cycle, a) {
        Err(e) => Err(e),
        Ok(l) => match atom_point(sites, occ, cycle, b) {
            Err(e) => Err(e),
            Ok(r) => Ok(EntanglePairSpec { lhs: l, rhs: r }),
        },
    }
}

/// `r` is the lowering of an entangle of `a` and `b`.
pub open spec fn entangle_lowered<P>(sites: Seq<KeyedSite<P>>, occ: Map<u32, u32>, cycle: u32,
    a: u32, b: u32, duration_us: u64, r: Result<ActionSpec<P>, ScheduleLowerError>) -> bool {
    match pair_lowered(sites, occ, cycle, a, b) {
        Err(e) => r == Err::<ActionSpec<P>, ScheduleLowerError>(e),
        Ok(p) => r matches Ok(ActionSpec::Entangle { pairs, duration_us: d }) && pairs@ == seq![p] && d == duration_us,
    }
}

/// `r` is the lowering of action `a` at `cycle`, with occupancy `occ` and
/// AOD bindings `aod` in force.
pub open spec fn action_lowered<P>(sites: Seq<KeyedSite<P>>, occ: Map<u32, u32>,
    aod: Map<u32, AodTrapRef>, cycle: u32, a: NeutralAtomAction, r: Result<ActionSpec<P>, ScheduleLowerError>) -> bool {
    match a {
        NeutralAtomAction::Move(g) => match moves_lowered(sites, aod, cycle, g.moves@) {
            Err(e) => r == Err::<ActionSpec<P>, ScheduleLowerError>(e),
            Ok(ms) => r matches Ok(ActionSpec::Move { moves, duration_us }) && moves@ == overlaid(ms)
                && duration_us == g.duration_us,
        },
        NeutralAtomAction::Transfer(t) => r == Ok::<ActionSpec<P>, ScheduleLowerError>(ActionSpec::Transfer(transfer_spec(t))),
        NeutralAtomAction::Entangle2 { atoms, duration_us } =>
            entangle_lowered(sites, occ, cycle, atoms[0].0, atoms[1].0, duration_us, r),
        NeutralAtomAction::EntangleN { atoms, duration_us } => if atoms@.len() == 2 {
            entangle_lowered(sites, occ, cycle, atoms@[0].0, atoms@[1].0, duration_us, r)
        } else {
            r == Err::<ActionSpec<P>, ScheduleLowerError>(ScheduleLowerError::UnsupportedEntangleN {
                cycle, arity: atoms@.len() as usize })
        },
        NeutralAtomAction::LocalGate { atom, .. } =>
            r == Err::<ActionSpec<P>, ScheduleLowerError>(ScheduleLowerError::UnsupportedLocalGate { cycle, atom: atom.0 }),
        NeutralAtomAction::GlobalRy { .. } =>
            r == Err::<ActionSpec<P>, ScheduleLowerError>(ScheduleLowerError::UnsupportedGlobalRy { cycle }),
        NeutralAtomAction::Measure { atom, basis, duration_us } => r matches Ok(ActionSpec::Measure { atom: x, basis: b, duration_us: d })
            && x == atom.0 && b@ == basis_name_spec(basis) && d == duration_us,
        NeutralAtomAction::Reset { atom, duration_us } =>
            r == Ok::<ActionSpec<P>, ScheduleLowerError>(ActionSpec::Reset { atom: atom.0, duration_us }),
        NeutralAtomAction::Wait { duration_us } =>
            r == Ok::<ActionSpec<P>, ScheduleLowerError>(ActionSpec::Wait { duration_us }),
    }
}

fn site_point_of<P: Copy>(sites: &Vec<KeyedSite<P>>, idx: &std::collections::BTreeMap<u32, usize>, cycle: u32, site: u32)
    -> (r: Result<KeyedPoint<P>, ScheduleLowerError>)
    requires
        site_index(sites@, idx@),
        distinct_sites(sites@),
    ensures
        r == site_point(sites@, cycle, site),
{
    match idx.get(&site) {
        Some(i) => {
            proof {
                let j = choose|j: int| 0 <= j < sites@.len() && sites@[j].id.0 == site;
                assert(sites@[*i as int].id.0 == site);
                if j != *i as int {
                    assert(sites@[j].id != sites@[*i as int].id);
                }
            }
            Ok(sites[*i].point)
        },
        None => Err(ScheduleLowerError::MissingSite { cycle, site }),
    }
}

fn positioned_atom<P: Copy>(sites: &Vec<KeyedSite<P>>, idx: &std::collections::BTreeMap<u32, usize>,
    occupancy: &std::collections::BTreeMap<u32, u32>, cycle: u32, atom: u32) -> (r: Result<PositionedAtom<P>, ScheduleLowerError>)
    requires
        site_index(sites@, idx@),
        distinct_sites(sites@),
    ensures
        r == atom_point(sites@, occupancy@, cycle, atom),
{
    match occupancy.get(&atom) {
        None => Err(ScheduleLowerError::UnboundAtom { cycle, atom }),
        Some(site) => match site_point_of(sites, idx, cycle, *site) {
            Ok(p) => Ok(PositionedAtom { atom, point: p }),
            Err(e) => Err(e),
        },
    }
}

fn lower_entangle<P: Copy>(sites: &Vec<KeyedSite<P>>, idx: &std::collections::BTreeMap<u32, usize>,
    occupancy: &std::collections::BTreeMap<u32, u32>, cycle: u32, a: u32, b: u32, duration_us: u64)
    -> (r: Result<ActionSpec<P>, ScheduleLowerError>)
    requires
        site_index(sites@, idx@),
        distinct_sites(sites@),
    ensures
        entangle_lowered(sites@, occupancy@, cycle, a, b, duration_us, r),
{
    let lhs = match positioned_atom(sites, idx, occupancy, cycle, a) {
        Ok(p) => p,
        Err(e) => return Err(e),
    };
    let rhs = match positioned_atom(sites, idx, occupancy, cycle, b) {
        Ok(p) => p,
        Err(e) => return Err(e),
    };
    let mut pairs: Vec<EntanglePairSpec<P>> = Vec::new();
    pairs.push(EntanglePairSpec { lhs, rhs });
    Ok(ActionSpec::Entangle { pairs, duration_us })
}

/// Lower one action at `cycle`: moves get their source and target points
/// and loaded AOD traps (then the degenerate-reference overlay), entangles
/// the points their atoms occupy, the rest carry their payload over.
pub fn lower_action<P: Copy>(action: &NeutralAtomAction, cycle: u32, sites: &Vec<KeyedSite<P>>,
    idx: &std::collections::BTreeMap<u32, usize>, occupancy: &std::collections::BTreeMap<u32, u32>,
    aod_bindings: &std::collections::BTreeMap<u32, AodTrapRef>) -> (r: Result<ActionSpec<P>, ScheduleLowerError>)
    requires
        site_index(sites@, idx@),
        distinct_sites(sites@),
    ensures
        action_lowered(sites@, occupancy@, aod_bindings@, cycle, *action, r),
{
    match action {
        NeutralAtomAction::Move(group) => {
            let ms = &group.moves;
            let mut moves: Vec<MoveSpec<P>> = Vec::new();
            let mut k: usize = 0;
            while k < ms.len()
                invariant
                    k <= ms@.len(),
                    site_index(sites@, idx@),
                    distinct_sites(sites@),
                    *action == NeutralAtomAction::Move(*group),
                    ms@ == group.moves@,
                    moves_lowered(sites@, aod_bindings@, cycle, ms@.take(k as int)) == Ok::<Seq<MoveSpec<P>>, ScheduleLowerError>(moves@),
                decreases ms.len() - k,
            {
                let m = ms[k];
                proof {
                    assert(ms@.take(k + 1).drop_last() =~= ms@.take(k as int));
                    assert(ms@.take(k + 1).last() == m);
                }
                let from = match site_point_of(sites, idx, cycle, m.from.0) {
                    Ok(p) => p,
                    Err(e) => {
                        proof { lemma_moves_lowered_err_stays(sites@, aod_bindings@, cycle, ms@, k + 1, e); }
                        return Err(e);
                    },
                };
                let to = match site_point_of(sites, idx, cycle, m.to.0) {
                    Ok(p) => p,
                    Err(e) => {
                        proof { lemma_moves_lowered_err_stays(sites@, aod_bindings@, cycle, ms@, k + 1, e); }
                        return Err(e);
                    },
                };
                let aod = match aod_bindings.get(&m.atom.0) {
                    Some(t) => *t,
                    None => {
                        let e = ScheduleLowerError::MissingAodBinding { cycle, atom: m.atom.0 };
                        proof { lemma_moves_lowered_err_stays(sites@, aod_bindings@, cycle, ms@, k + 1, e); }
                        return Err(e);
                    },
                };
                moves.push(MoveSpec {
                    atom: m.atom.0,
                    from_site: m.from.0,
                    to_site: m.to.0,
                    aod_id: aod.aod_id,
                    row: aod.row,
                    col: aod.col,
                    from,
                    to,
                });
                k += 1;
            }
            proof {
                assert(ms@.take(ms@.len() as int) =~= ms@);
            }
            overlay_degenerate_aod_indices(&mut moves);
            Ok(ActionSpec::Move { moves, duration_us: group.duration_us })
        },
        NeutralAtomAction::Transfer(transfer) => Ok(ActionSpec::Transfer(lower_transfer(transfer))),
        NeutralAtomAction::Entangle2 { atoms, duration_us } =>
            lower_entangle(sites, idx, occupancy, cycle, atoms[0].0, atoms[1].0, *duration_us),
        NeutralAtomAction::EntangleN { atoms, duration_us } => {
            if atoms.len() == 2 {
                lower_entangle(sites, idx, occupancy, cycle, atoms[0].0, atoms[1].0, *duration_us)
            } else {
                Err(ScheduleLowerError::UnsupportedEntangleN { cycle, arity: atoms.len() })
            }
        },
        NeutralAtomAction::LocalGate { atom, .. } => Err(ScheduleLowerError::UnsupportedLocalGate { cycle, atom: atom.0 }),
        NeutralAtomAction::GlobalRy { .. } => Err(ScheduleLowerError::UnsupportedGlobalRy { cycle }),
        NeutralAtomAction::Measure { atom, basis, duration_us } =>
            Ok(ActionSpec::Measure { atom: atom.0, basis: basis_name(*basis).to_owned(), duration_us: *duration_us }),
        NeutralAtomAction::Reset { atom, duration_us } => Ok(ActionSpec::Reset { atom: atom.0, duration_us: *duration_us }),
        NeutralAtomAction::Wait { duration_us } => Ok(ActionSpec::Wait { duration_us: *duration_us }),
    }
}

/// Once lowering the first `t` moves fails, lowering all of them fails the same way.
proof fn lemma_moves_lowered_err_stays<P>(sites: Seq<KeyedSite<P>>, aod: Map<u32, AodTrapRef>,
    cycle: u32, ms: Seq<AtomMove>, t: int, e: ScheduleLowerError)
    requires
        0 <= t <= ms.len(),
        moves_lowered(sites, aod, cycle, ms.take(t)) == Err::<Seq<MoveSpec<P>>, ScheduleLowerError>(e),
    ensures
        moves_lowered(sites, aod, cycle, ms) == Err::<Seq<MoveSpec<P>>, ScheduleLowerError>(e),
    decreases ms.len() - t,
{
    if t < ms.len() {
        assert(ms.take(t + 1).drop_last() =~= ms.take(t));
        lemma_moves_lowered_err_stays(sites, aod, cycle, ms, t + 1, e);
    } else {
        assert(ms.take(t) =~= ms);
    }
}


/// Why action `a` fails to lower, if it does.
pub open spec fn lowering_error<P>(sites: Seq<KeyedSite<P>>, occ: Map<u32, u32>, aod: Map<u32, AodTrapRef>, cycle: u32,
    a: NeutralAtomAction) -> Option<ScheduleLowerError> {
    match a {
        NeutralAtomAction::Move(g) => match moves_lowered::<P>(sites, aod, cycle, g.moves@) {
            Err(e) => Some(e),
            Ok(_) => None,
        },
        NeutralAtomAction::Entangle2 { atoms, .. } => match pair_lowered(sites, occ, cycle, atoms[0].0, atoms[1].0) {
            Err(e) => Some(e),
            Ok(_) => None,
        },
        NeutralAtomAction::EntangleN { atoms, .. } => if atoms@.len() == 2 {
            match pair_lowered(sites, occ, cycle, atoms@[0].0, atoms@[1].0) {
                Err(e) => Some(e),
                Ok(_) => None,
            }
        } else {
            Some(ScheduleLowerError::UnsupportedEntangleN { cycle, arity: atoms@.len() as usize })
        },
        NeutralAtomAction::LocalGate { atom, .. } => Some(ScheduleLowerError::UnsupportedLocalGate { cycle, atom: atom.0 }),
        NeutralAtomAction::GlobalRy { .. } => Some(ScheduleLowerError::UnsupportedGlobalRy { cycle }),
        _ => None,
    }
}

proof fn lemma_action_lowered_error<P>(sites: Seq<KeyedSite<P>>, occ: Map<u32, u32>, aod: Map<u32, AodTrapRef>, cycle: u32,
    a: NeutralAtomAction, r: Result<ActionSpec<P>, ScheduleLowerError>)
    requires
        action_lowered(sites, occ, aod, cycle, a, r),
    ensures
        r is Err <==> lowering_error(sites, occ, aod, cycle, a) is Some,
        r matches Err(e) ==> lowering_error(sites, occ, aod, cycle, a) == Some(e),
{
}

/// AOD bindings in force before layer `i`: the transfers of every earlier
/// layer applied in order.
pub open spec fn aod_before(layers: Seq<ScheduleLayer>, i: int) -> Map<u32, AodTrapRef>
    decreases i,
{
    if i <= 0 {
        Map::empty()
    } else {
        transfers_applied(aod_before(layers, i - 1), layers[i - 1].actions@, layers[i - 1].actions@.len() as int)
    }
}

/// Occupancy at the end of layer `i`, replayed back from the final one.
pub open spec fn occupancy_after(fin: Map<u32, u32>, layers: Seq<ScheduleLayer>, i: int) -> Map<u32, u32> {
    replayed(fin, layers, layers.len() - 1 - i)->Ok_0
}

/// Action `k` of layer `i` fails to lower.
pub open spec fn fails_at<P>(sites: Seq<KeyedSite<P>>, fin: Map<u32, u32>, layers: Seq<ScheduleLayer>, i: int, k: int) -> bool {
    &&& 0 <= i < layers.len()
    &&& 0 <= k < layers[i].actions@.len()
    &&& lowering_error(sites, occupancy_after(fin, layers, i), aod_before(layers, i), layers[i].cycle, layers[i].actions@[k]) is Some
}

/// Action `k` of layer `i` is the first, in schedule order, that fails to lower.
pub open spec fn first_failure<P>(sites: Seq<KeyedSite<P>>, fin: Map<u32, u32>, layers: Seq<ScheduleLayer>, i: int, k: int) -> bool {
    &&& fails_at(sites, fin, layers, i, k)
    &&& forall|i2: int, k2: int| (i2 < i || (i2 == i && k2 < k)) ==> !#[trigger] fails_at(sites, fin, layers, i2, k2)
}

/// `ls` is the lowering of layer `i`.
pub open spec fn layer_lowered<P>(sites: Seq<KeyedSite<P>>, fin: Map<u32, u32>, layers: Seq<ScheduleLayer>, i: int,
    ls: LayerSpec<P>) -> bool {
    &&& ls.cycle == layers[i].cycle
    &&& ls.actions@.len() == layers[i].actions@.len()
    &&& forall|k: int| 0 <= k < ls.actions@.len() ==> action_lowered(sites, occupancy_after(fin, layers, i),
        aod_before(layers, i), layers[i].cycle, layers[i].actions@[k], Ok::<ActionSpec<P>, ScheduleLowerError>(#[trigger] ls.actions@[k]))
}

/// Lower planned layers against a layout whose bindings are the final
/// occupancy: each atom's place during a layer comes from replaying the
/// moves backwards, each move's AOD trap from the loads before it. The
/// first failure is the error: a repeated site id, then an inconsistent
/// replay, then the first action, in schedule order, that cannot be lowered.
pub fn lower_layers<H, P: Copy>(layers: &[ScheduleLayer], layout: &KeyedLayout<P>, params: H)
    -> (r: Result<ScheduleSpec<H, P>, ScheduleLowerError>)
    ensures
        ({
            let sites = layout.sites@;
            let fin = bindings_occupancy(layout.initial_bindings@, layout.initial_bindings@.len() as int);
            let n = layers@.len() as int;
            let dup = exists|j: int| first_duplicate_site(sites, j);
            let fails = exists|i: int, k: int| fails_at(sites, fin, layers@, i, k);
            &&& forall|j: int| first_duplicate_site(sites, j) ==> r == Err::<ScheduleSpec<H, P>, ScheduleLowerError>(
                ScheduleLowerError::DuplicateSite { site: sites[j].id.0 })
            &&& !dup && replayed(fin, layers@, n) is Err ==> r == Err::<ScheduleSpec<H, P>, ScheduleLowerError>(replayed(fin, layers@, n)->Err_0)
            &&& !dup && replayed(fin, layers@, n) is Ok ==> forall|i: int, k: int| #[trigger] first_failure(sites, fin, layers@, i, k) ==>
                r == Err::<ScheduleSpec<H, P>, ScheduleLowerError>(lowering_error(sites, occupancy_after(fin, layers@, i),
                    aod_before(layers@, i), layers@[i].cycle, layers@[i].actions@[k])->0)
            &&& r is Ok <==> !dup && replayed(fin, layers@, n) is Ok && !fails
            &&& r matches Ok(spec) ==> spec.params == params && spec.layers@.len() == n
                && forall|i: int| 0 <= i < n ==> layer_lowered(sites, fin, layers@, i, #[trigger] spec.layers@[i])
        }),
{
    let ghost sites = layout.sites@;
    let ghost fin = bindings_occupancy(layout.initial_bindings@, layout.initial_bindings@.len() as int);
    let ghost n = layers@.len() as int;
    let idx = match site_positions(&layout.sites) {
        Ok(idx) => idx,
        Err(e) => return Err(e),
    };
    let occ_after = match replay_occupancy(layers, &layout.initial_bindings) {
        Ok(v) => v,
        Err(e) => return Err(e),
    };
    let mut aod: std::collections::BTreeMap<u32, AodTrapRef> = std::collections::BTreeMap::new();
    let mut out: Vec<LayerSpec<P>> = Vec::new();
    let mut i: usize = 0;
    while i < layers.len()
        invariant
            n == layers@.len(),
            i <= n,
            sites == layout.sites@,
            site_index(sites, idx@),
            distinct_sites(sites),
            replayed(fin, layers@, n) is Ok,
            forall|j: int| !first_duplicate_site(sites, j),
            fin == bindings_occupancy(layout.initial_bindings@, layout.initial_bindings@.len() as int),
            occ_after@.len() == n,
            forall|q: int| 0 <= q < n ==> replayed(fin, layers@, n - 1 - q) == Ok::<Map<u32, u32>, ScheduleLowerError>((#[trigger] occ_after@[q])@),
            aod@ == aod_before(layers@, i as int),
            out@.len() == i,
            forall|q: int| 0 <= q < i ==> layer_lowered(sites, fin, layers@, q, #[trigger] out@[q]),
            forall|i2: int, k2: int| i2 < i ==> !#[trigger] fails_at(sites, fin, layers@, i2, k2),
        decreases layers.len() - i,
    {
        let layer = &layers[i];
        proof {
            assert(occupancy_after(fin, layers@, i as int) == occ_after@[i as int]@);
        }
        let mut actions: Vec<ActionSpec<P>> = Vec::new();
        let mut k: usize = 0;
        while k < layer.actions.len()
            invariant
                n == layers@.len(),
                i < n,
                *layer == layers@[i as int],
                sites == layout.sites@,
                site_index(sites, idx@),
                distinct_sites(sites),
                occupancy_after(fin, layers@, i as int) == occ_after@[i as int]@,
                occ_after@.len() == n,
                replayed(fin, layers@, n) is Ok,
                forall|j: int| !first_duplicate_site(sites, j),
                fin == bindings_occupancy(layout.initial_bindings@, layout.initial_bindings@.len() as int),
                aod@ == aod_before(layers@, i as int),
                k <= layer.actions@.len(),
                actions@.len() == k,
                forall|q: int| 0 <= q < k ==> action_lowered(sites, occupancy_after(fin, layers@, i as int),
                    aod_before(layers@, i as int), layer.cycle, layer.actions@[q], Ok::<ActionSpec<P>, ScheduleLowerError>(#[trigger] actions@[q])),
                forall|i2: int, k2: int| (i2 < i || (i2 == i && k2 < k)) ==> !#[trigger] fails_at(sites, fin, layers@, i2, k2),
            decreases layer.actions.len() - k,
        {
            let res = lower_action(&layer.actions[k], layer.cycle, &layout.sites, &idx, &occ_after[i], &aod);
            proof {
                lemma_action_lowered_error(sites, occupancy_after(fin, layers@, i as int), aod_before(layers@, i as int),
                    layer.cycle, layer.actions@[k as int], res);
            }
            match res {
                Ok(a) => {
                    actions.push(a);
                },
                Err(e) => {
                    proof {
                        assert(fails_at(sites, fin, layers@, i as int, k as int));
                        assert(first_failure(sites, fin, layers@, i as int, k as int));
                        assert forall|i2: int, k2: int| #[trigger] first_failure(sites, fin, layers@, i2, k2)
                            implies i2 == i && k2 == k by {
                            if i2 < i || (i2 == i && k2 < k) {
                            } else if !(i2 == i && k2 == k) {
                                assert(fails_at(sites, fin, layers@, i as int, k as int));
                            }
                        }
                    }
                    return Err(e);
                },
            }
            k += 1;
        }
        proof {
            assert forall|i2: int, k2: int| i2 < i + 1 implies !#[trigger] fails_at(sites, fin, layers@, i2, k2) by {
                if i2 == i && 0 <= k2 < layer.actions@.len() {
                    assert(!fails_at(sites, fin, layers@, i2, k2));
                }
            }
        }
        apply_transfers(layer, &mut aod);
        out.push(LayerSpec { cycle: layer.cycle, actions });
        proof {
            assert(layer_lowered(sites, fin, layers@, i as int, out@[i as int]));
        }
        i += 1;
    }
    proof {
        assert forall|j: int| !first_duplicate_site(sites, j) by {}
        assert forall|i2: int, k2: int| !#[trigger] fails_at(sites, fin, layers@, i2, k2) by {
            if i2 < n {
            }
        }
    }
    Ok(ScheduleSpec { params, layers: out })
}

/// Lower a schedule whose layout may be missing: no layout is an error.
pub fn lower_schedule<H, P: Copy>(layers: &[ScheduleLayer], layout: &Option<KeyedLayout<P>>, params: H)
    -> (r: Result<ScheduleSpec<H, P>, ScheduleLowerError>)
    ensures
        layout is None ==> r == Err::<ScheduleSpec<H, P>, ScheduleLowerError>(ScheduleLowerError::MissingLayout),
{
    match layout {
        None => Err(ScheduleLowerError::MissingLayout),
        Some(l) => lower_layers(layers, l, params),
    }
}

} // verus!
